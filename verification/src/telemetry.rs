//! What the program tells its author, and whether a newer version of it
//! exists.
use vstd::prelude::*;

use crate::message::MessageToServer;
use crate::preferences::Telemetry;
use crate::text::{parse_i32, parse_signed_spec, split_chars, split_on};

verus! {

/// A request to send to the author's server: where to, and what.
pub struct TelemetryPost {
    pub url: &'static str,
    pub body: String,
}

/// Where a loaded world is reported.
pub open spec fn load_server_url() -> Seq<char> {
    "https://gmap.turun.de/v1/load_server"@
}

/// Where the stored configuration is reported.
pub open spec fn stored_config_url() -> Seq<char> {
    "https://gmap.turun.de/v1/stored_config"@
}

/// The request that a message becomes: only with all telemetry allowed,
/// a loaded world is reported with its server id, and the stored
/// configuration with its text.
pub fn process_messages(telemetry_preferences: Telemetry, message: MessageToServer) -> (r: Option<TelemetryPost>)
    ensures
        telemetry_preferences != Telemetry::All ==> r is None,
        telemetry_preferences == Telemetry::All ==> r is Some && match message {
            MessageToServer::LoadServer(id) => r->0.url@ == load_server_url() && r->0.body == id,
            MessageToServer::StoredConfig(yaml) => r->0.url@ == stored_config_url() && r->0.body == yaml,
        },
{
    match (telemetry_preferences, message) {
        (Telemetry::All, MessageToServer::LoadServer(server_id)) => Some(
            TelemetryPost { url: "https://gmap.turun.de/v1/load_server", body: server_id },
        ),
        (Telemetry::All, MessageToServer::StoredConfig(yaml)) => Some(
            TelemetryPost { url: "https://gmap.turun.de/v1/stored_config", body: yaml },
        ),
        _ => None,
    }
}

/// Part `i` of a version: the `i`th piece between dots read as an `i32`;
/// 0 where there is no such piece or it does not read.
pub open spec fn version_part(pieces: Seq<Seq<char>>, i: int) -> int {
    if 0 <= i < pieces.len() {
        match parse_signed_spec(pieces[i], i32::MIN as int, i32::MAX as int) {
            Some(v) => v,
            None => 0,
        }
    } else {
        0
    }
}

/// `server` is a newer version than `user`: at the first part where they
/// differ (looking as far as the longer of the two), the server's is
/// larger.
pub open spec fn newer_version(user: Seq<char>, server: Seq<char>) -> bool {
    let u = split_on(user, '.');
    let s = split_on(server, '.');
    exists|i: int|
        0 <= i < if u.len() >= s.len() {
            u.len()
        } else {
            s.len()
        } && version_part(u, i) < version_part(s, i) && forall|j: int|
            0 <= j < i ==> #[trigger] version_part(u, j) == version_part(s, j)
}

fn part(pieces: &Vec<Vec<char>>, i: usize) -> (r: i32)
    ensures
        r as int == version_part(pieces@.map_values(|p: Vec<char>| p@), i as int),
{
    if i < pieces.len() {
        assert(pieces@.map_values(|p: Vec<char>| p@)[i as int] == pieces@[i as int]@);
        match parse_i32(&pieces[i]) {
            Some(v) => v,
            None => 0,
        }
    } else {
        0
    }
}

/// Whether `server_version` is newer than `user_version`, comparing the
/// versions part by part.
pub fn is_newer_version(user_version: &Vec<char>, server_version: &Vec<char>) -> (r: bool)
    ensures
        r == newer_version(user_version@, server_version@),
{
    let u = split_chars(user_version, '.');
    let s = split_chars(server_version, '.');
    let ghost uv = u@.map_values(|p: Vec<char>| p@);
    let ghost sv = s@.map_values(|p: Vec<char>| p@);
    assert(uv =~= split_on(user_version@, '.'));
    assert(sv =~= split_on(server_version@, '.'));
    let n = if u.len() >= s.len() {
        u.len()
    } else {
        s.len()
    };
    let mut i: usize = 0;
    while i < n
        invariant
            uv == u@.map_values(|p: Vec<char>| p@),
            sv == s@.map_values(|p: Vec<char>| p@),
            uv == split_on(user_version@, '.'),
            sv == split_on(server_version@, '.'),
            n == if uv.len() >= sv.len() {
                uv.len()
            } else {
                sv.len()
            },
            i <= n,
            forall|j: int| 0 <= j < i ==> #[trigger] version_part(uv, j) == version_part(sv, j),
        decreases n - i,
    {
        let a = part(&u, i);
        let b = part(&s, i);
        if a < b {
            return true;
        } else if a > b {
            proof {
                assert forall|k: int|
                    0 <= k < n && version_part(uv, k) < version_part(sv, k) implies !forall|j: int|
                        0 <= j < k ==> #[trigger] version_part(uv, j) == version_part(sv, j) by {
                    if k > i {
                        assert(version_part(uv, i as int) != version_part(sv, i as int));
                    }
                }
            }
            return false;
        }
        i = i + 1;
    }
    false
}

/// A newer version that the author's server announces, with its message.
pub struct UpdateNotice {
    pub server_version: String,
    pub message: String,
}

/// The text before the first line break, and the text after it (empty
/// where there is none).
pub open spec fn version_and_message(text: Seq<char>) -> (Seq<char>, Seq<char>) {
    let pieces = split_on(text, '\n');
    let first = pieces[0];
    if first.len() < text.len() {
        (first, text.subrange(first.len() + 1int, text.len() as int))
    } else {
        (first, Seq::empty())
    }
}

/// What the answer of the author's server to the version check means: a
/// notice where it succeeded (status 200 to 299, text that is UTF-8) and
/// names a newer version than `user_version` on its first line; the rest
/// of the text is the message.
pub fn get_latest_version(user_version: &Vec<char>, status: u16, text: Option<Vec<char>>) -> (r: Option<UpdateNotice>)
    ensures
        r is Some <==> 200 <= status <= 299 && text is Some && newer_version(user_version@, version_and_message(text->0@).0),
        r matches Some(n) ==> n.server_version@ == version_and_message(text->0@).0 && n.message@ == version_and_message(
            text->0@,
        ).1,
{
    if !(200 <= status && status <= 299) {
        return None;
    }
    let text = match text {
        Some(t) => t,
        None => return None,
    };
    let mut k: usize = 0;
    while k < text.len() && text[k] != '\n'
        invariant
            k <= text@.len(),
            forall|j: int| 0 <= j < k ==> text@[j] != '\n',
        decreases text@.len() - k,
    {
        k = k + 1;
    }
    let mut version: Vec<char> = Vec::new();
    let mut j: usize = 0;
    while j < k
        invariant
            k <= text@.len(),
            j <= k,
            version@ == text@.take(j as int),
        decreases k - j,
    {
        version.push(text[j]);
        assert(text@.take(j + 1) =~= text@.take(j as int).push(text@[j as int]));
        j = j + 1;
    }
    let mut message: Vec<char> = Vec::new();
    if k < text.len() {
        let mut m: usize = k + 1;
        while m < text.len()
            invariant
                k < text@.len(),
                k + 1 <= m <= text@.len(),
                message@ == text@.subrange(k + 1, m as int),
            decreases text@.len() - m,
        {
            message.push(text[m]);
            assert(text@.subrange(k + 1, m + 1) =~= text@.subrange(k + 1, m as int).push(text@[m as int]));
            m = m + 1;
        }
    }
    proof {
        lemma_first_piece(text@, k as int);
    }
    if !is_newer_version(user_version, &version) {
        return None;
    }
    Some(UpdateNotice { server_version: crate::text::string_of(&version), message: crate::text::string_of(&message) })
}

/// The first piece of a text split at line breaks runs up to the first
/// line break.
proof fn lemma_first_piece(text: Seq<char>, k: int)
    requires
        0 <= k <= text.len(),
        forall|j: int| 0 <= j < k ==> text[j] != '\n',
        k < text.len() ==> text[k] == '\n',
    ensures
        split_on(text, '\n')[0] == text.take(k),
    decreases text.len(),
{
    if k == text.len() {
        lemma_split_single(text, '\n');
        assert(text.take(k) =~= text);
    } else {
        let prev = text.drop_last();
        crate::text::lemma_split_on_nonempty(prev, '\n');
        if k == text.len() - 1 {
            assert forall|j: int| 0 <= j < prev.len() implies prev[j] != '\n' by {}
            lemma_split_single(prev, '\n');
            assert(prev =~= text.take(k));
        } else {
            lemma_first_piece(prev, k);
            assert(prev.take(k) =~= text.take(k));
            lemma_split_has_two(prev, '\n', k);
        }
    }
}

/// A text holding the separator splits into two pieces or more.
proof fn lemma_split_has_two(s: Seq<char>, sep: char, k: int)
    requires
        0 <= k < s.len(),
        s[k] == sep,
    ensures
        split_on(s, sep).len() >= 2,
    decreases s.len(),
{
    let prev = s.drop_last();
    crate::text::lemma_split_on_nonempty(prev, sep);
    if k < s.len() - 1 {
        lemma_split_has_two(prev, sep, k);
    }
}

/// Splitting a text without the separator gives the text itself.
proof fn lemma_split_single(s: Seq<char>, sep: char)
    requires
        forall|j: int| 0 <= j < s.len() ==> s[j] != sep,
    ensures
        split_on(s, sep) == seq![s],
    decreases s.len(),
{
    if s.len() > 0 {
        lemma_split_single(s.drop_last(), sep);
        assert(split_on(s, sep) =~= seq![s.drop_last().push(s.last())]);
        assert(s.drop_last().push(s.last()) =~= s);
    } else {
        assert(s =~= Seq::<char>::empty());
    }
}

/// A version is never newer than itself: a user with the latest version
/// gets no notice.
pub proof fn lemma_not_newer_than_itself(v: Seq<char>)
    ensures
        !newer_version(v, v),
{
}

/// Of two versions at most one is newer than the other.
pub proof fn lemma_newer_is_asymmetric(a: Seq<char>, b: Seq<char>)
    ensures
        !(newer_version(a, b) && newer_version(b, a)),
{
    if newer_version(a, b) && newer_version(b, a) {
        let ua = split_on(a, '.');
        let ub = split_on(b, '.');
        let i = choose|i: int|
            0 <= i < if ua.len() >= ub.len() {
                ua.len()
            } else {
                ub.len()
            } && version_part(ua, i) < version_part(ub, i) && forall|j: int|
                0 <= j < i ==> #[trigger] version_part(ua, j) == version_part(ub, j);
        let k = choose|k: int|
            0 <= k < if ub.len() >= ua.len() {
                ub.len()
            } else {
                ua.len()
            } && version_part(ub, k) < version_part(ua, k) && forall|j: int|
                0 <= j < k ==> #[trigger] version_part(ub, j) == version_part(ua, j);
        if i < k {
            assert(version_part(ub, i) == version_part(ua, i));
        } else if k < i {
            assert(version_part(ua, k) == version_part(ub, k));
        }
    }
}

} // verus!
