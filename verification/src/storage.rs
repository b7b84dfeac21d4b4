//! The names of the files that saved world data is kept in: which server a
//! file is for and when its data was fetched.
use vstd::multiset::Multiset;
use vstd::prelude::*;

use crate::text::{
    chars_of, lemma_lex_antisymmetric, lemma_lex_total, lemma_lex_transitive, lex_le, lex_lt, push_chars, string_of,
    text_eq, text_le,
};

verus! {

/// A file of saved world data: where it is, which server it is for, and
/// when its data was fetched (seconds since 1970, UTC).
#[derive(Debug, Clone)]
pub struct SavedDB {
    pub path: String,
    pub timestamp: i64,
    pub server_str: String,
}

/// The position of the last `'-'` before position `end`; -1 where there is
/// none.
pub open spec fn last_dash_before(t: Seq<char>, end: int) -> int
    decreases end,
{
    if end <= 0 {
        -1
    } else if t[end - 1] == '-' {
        end - 1
    } else {
        last_dash_before(t, end - 1)
    }
}

/// `t` with its last two `'-'` turned into `':'` (a date whose UTC offset
/// was written with dashes).
pub open spec fn colon_offset(t: Seq<char>) -> Seq<char> {
    let p1 = last_dash_before(t, t.len() as int);
    if p1 < 0 {
        t
    } else {
        let p2 = last_dash_before(t, p1);
        let u = t.update(p1, ':');
        if p2 < 0 {
            u
        } else {
            u.update(p2, ':')
        }
    }
}

fn find_dash_before(t: &Vec<char>, end: usize) -> (r: Option<usize>)
    requires
        end <= t@.len(),
    ensures
        match r {
            Some(p) => p as int == last_dash_before(t@, end as int),
            None => last_dash_before(t@, end as int) == -1,
        },
    decreases end,
{
    if end == 0 {
        None
    } else if t[end - 1] == '-' {
        Some(end - 1)
    } else {
        find_dash_before(t, end - 1)
    }
}

proof fn lemma_last_dash_range(t: Seq<char>, end: int)
    requires
        0 <= end <= t.len(),
    ensures
        -1 <= last_dash_before(t, end) < end,
    decreases end,
{
    if end > 0 {
        lemma_last_dash_range(t, end - 1);
    }
}

fn colon_offset_exec(t: &Vec<char>) -> (r: Vec<char>)
    ensures
        r@ == colon_offset(t@),
{
    let mut r = t.clone();
    assert(r@ == t@);
    proof {
        lemma_last_dash_range(t@, t@.len() as int);
    }
    match find_dash_before(t, t.len()) {
        None => r,
        Some(p1) => {
            proof {
                lemma_last_dash_range(t@, p1 as int);
            }
            r.set(p1, ':');
            match find_dash_before(t, p1) {
                None => r,
                Some(p2) => {
                    r.set(p2, ':');
                    r
                },
            }
        },
    }
}

/// The server and the date text of a file stem: the text before the
/// first `'-'`, and the text after it with its last two `'-'` turned into
/// `':'`. `None` where the stem has no `'-'`.
pub open spec fn stem_parts(stem: Seq<char>) -> Option<(Seq<char>, Seq<char>)> {
    if stem.contains('-') {
        let k = first_dash(stem);
        Some((stem.take(k), colon_offset(stem.skip(k + 1))))
    } else {
        None
    }
}

/// The position of the first `'-'`.
pub open spec fn first_dash(stem: Seq<char>) -> int {
    first_dash_from(stem, 0)
}

pub open spec fn first_dash_from(s: Seq<char>, i: int) -> int
    decreases s.len() - i,
{
    if i < 0 || i >= s.len() {
        s.len() as int
    } else if s[i] == '-' {
        i
    } else {
        first_dash_from(s, i + 1)
    }
}

proof fn lemma_first_dash_from(s: Seq<char>, i: int, j: int)
    requires
        0 <= j <= i < s.len(),
        s[i] == '-',
        forall|k: int| j <= k < i ==> s[k] != '-',
    ensures
        first_dash_from(s, j) == i,
    decreases i - j,
{
    if j < i {
        lemma_first_dash_from(s, i, j + 1);
    }
}

/// Splits a file stem into its server and its date text (with the offset
/// written with colons).
pub fn split_file_stem(stem: &str) -> (r: Option<(String, String)>)
    ensures
        match r {
            Some(p) => stem_parts(stem@) == Some((p.0@, p.1@)),
            None => stem_parts(stem@) is None,
        },
{
    let t = chars_of(stem);
    let mut k: usize = 0;
    while k < t.len() && t[k] != '-'
        invariant
            k <= t@.len(),
            forall|j: int| 0 <= j < k ==> t@[j] != '-',
        decreases t@.len() - k,
    {
        k = k + 1;
    }
    if k == t.len() {
        assert(!t@.contains('-'));
        return None;
    }
    proof {
        lemma_first_dash_from(t@, k as int, 0);
        assert(t@.contains('-')) by {
            assert(t@[k as int] == '-');
        }
    }
    let mut server = String::new();
    push_chars(&mut server, &t, 0, k);
    let mut rest: Vec<char> = Vec::new();
    let mut j: usize = k + 1;
    while j < t.len()
        invariant
            k < t@.len(),
            k + 1 <= j <= t@.len(),
            rest@ == t@.subrange(k + 1, j as int),
        decreases t@.len() - j,
    {
        rest.push(t[j]);
        assert(t@.subrange(k + 1, j + 1) =~= t@.subrange(k + 1, j as int).push(t@[j as int]));
        j = j + 1;
    }
    assert(rest@ =~= t@.skip(k + 1));
    assert(server@ =~= t@.take(k as int));
    let date = colon_offset_exec(&rest);
    Some((server, string_of(&date)))
}

/// The seconds since 1970 that `chrono` reads from a date text written as
/// `%Y-%m-%d-%H-%M-%ST%::z`; `None` where it does not read.
pub uninterp spec fn filename_date(text: Seq<char>) -> Option<i64>;

/// Reads a date written as `%Y-%m-%d-%H-%M-%ST%::z`
/// (`chrono::DateTime::parse_from_str`), as seconds since 1970. The
/// contract names the result; the reading is the crate's own.
#[verifier::external_body]
fn parse_filename_date(text: &str) -> (r: Option<i64>)
    ensures
        r == filename_date(text@),
{
    match chrono::DateTime::parse_from_str(text, "%Y-%m-%d-%H-%M-%ST%::z") {
        Ok(date) => Some(date.timestamp()),
        Err(_) => None,
    }
}

impl SavedDB {
    /// The saved file at `path` whose name has the stem `stem` (the default
    /// stem where the path has none that is text): the server is the stem
    /// up to its first `'-'`, and the time is the date after it, or 1970
    /// where it does not read. The stem holds a `'-'`.
    pub fn from_stem(path: String, stem: &str) -> (db: SavedDB)
        requires
            stem@.contains('-'),
        ensures
            ({
                let parts = stem_parts(stem@)->0;
                &&& db.path == path
                &&& db.server_str@ == parts.0
                &&& db.timestamp == match filename_date(parts.1) {
                    Some(t) => t,
                    None => 0i64,
                }
            }),
    {
        match split_file_stem(stem) {
            None => SavedDB { path, timestamp: 0, server_str: String::new() },
            Some((server_str, date_text)) => {
                let timestamp = match parse_filename_date(date_text.as_str()) {
                    Some(t) => t,
                    None => 0,
                };
                SavedDB { path, timestamp, server_str }
            },
        }
    }
}

/// The name of the file a response for `server` fetched at a time written
/// as `time` is saved under: `server`, `'-'`, the time with `':'` written
/// as `'-'`, and `.apiresponse`.
pub open spec fn db_file_name(server: Seq<char>, time: Seq<char>) -> Seq<char> {
    server + seq!['-'] + time.map_values(|c: char| if c == ':' { '-' } else { c }) + ".apiresponse"@
}

/// The name of the file a response is saved under.
pub fn get_new_db_filename(server: &str, time: &str) -> (r: String)
    ensures
        r@ == db_file_name(server@, time@),
{
    let s = chars_of(server);
    let t = chars_of(time);
    let mut r = String::new();
    push_chars(&mut r, &s, 0, s.len());
    crate::text::push_char(&mut r, '-');
    let ghost start = r@;
    let mut i: usize = 0;
    while i < t.len()
        invariant
            i <= t@.len(),
            r@ == start + t@.take(i as int).map_values(|c: char| if c == ':' { '-' } else { c }),
        decreases t@.len() - i,
    {
        let c = if t[i] == ':' {
            '-'
        } else {
            t[i]
        };
        crate::text::push_char(&mut r, c);
        assert(t@.take(i + 1).map_values(|c: char| if c == ':' { '-' } else { c }) =~= t@.take(i as int).map_values(
            |c: char| if c == ':' { '-' } else { c },
        ).push(c));
        i = i + 1;
    }
    assert(t@.take(i as int) =~= t@);
    let ext = chars_of(".apiresponse");
    push_chars(&mut r, &ext, 0, ext.len());
    assert(s@.subrange(0, s@.len() as int) =~= s@);
    assert(ext@.subrange(0, ext@.len() as int) =~= ext@);
    assert(r@ =~= db_file_name(server@, time@));
    r
}

/// The paths of the files.
pub open spec fn paths_of(s: Seq<SavedDB>) -> Seq<Seq<char>> {
    s.map_values(|d: SavedDB| d.path@)
}

/// The paths of the files of each group.
pub open spec fn path_lists(r: Seq<(String, Vec<SavedDB>)>) -> Seq<Seq<Seq<char>>> {
    r.map_values(|e: (String, Vec<SavedDB>)| paths_of(e.1@))
}

/// The paths of every saved file, server by server, to delete them all.
pub fn remove_all(saved: &Vec<(String, Vec<SavedDB>)>) -> (r: Vec<String>)
    ensures
        r@.map_values(|p: String| p@) == path_lists(saved@).flatten(),
{
    let ghost groups = path_lists(saved@);
    let mut r: Vec<String> = Vec::new();
    let mut i: usize = 0;
    while i < saved.len()
        invariant
            groups == path_lists(saved@),
            i <= saved@.len(),
            r@.map_values(|p: String| p@) == groups.take(i as int).flatten(),
        decreases saved@.len() - i,
    {
        let list = &saved[i].1;
        let ghost r0 = r@.map_values(|p: String| p@);
        let mut j: usize = 0;
        while j < list.len()
            invariant
                j <= list@.len(),
                r@.map_values(|p: String| p@) == r0 + paths_of(list@.take(j as int)),
            decreases list@.len() - j,
        {
            let ghost rv = r@.map_values(|p: String| p@);
            let p = list[j].path.clone();
            assert(p@ == list@[j as int].path@);
            r.push(p);
            assert(r@.map_values(|p: String| p@) =~= rv.push(list@[j as int].path@));
            assert(paths_of(list@.take(j + 1)) =~= paths_of(list@.take(j as int)).push(list@[j as int].path@));
            assert(r@.map_values(|p: String| p@) =~= r0 + paths_of(list@.take(j + 1)));
            j = j + 1;
        }
        proof {
            assert(list@.take(j as int) =~= list@);
            assert(groups[i as int] == paths_of(list@));
            assert(groups.take(i + 1) =~= groups.take(i as int).push(groups[i as int]));
            groups.take(i as int).lemma_flatten_push(groups[i as int]);
        }
        i = i + 1;
    }
    assert(groups.take(i as int) =~= groups);
    r
}

/// A time with `':'` written as `'-'`.
pub open spec fn dashed(time: Seq<char>) -> Seq<char> {
    time.map_values(|c: char| if c == ':' { '-' } else { c })
}

proof fn lemma_last_dash_at(t: Seq<char>, end: int, j: int)
    requires
        0 <= j < end <= t.len(),
        t[j] == '-',
        forall|k: int| j < k < end ==> t[k] != '-',
    ensures
        last_dash_before(t, end) == j,
    decreases end,
{
    if end - 1 > j {
        lemma_last_dash_at(t, end - 1, j);
    }
}

/// A saved file's stem reads back as it was written: where the server has
/// no `'-'` and the time has exactly two `':'` (those of its UTC offset)
/// with no `'-'` after the first of them, the stem of the file name gives
/// back the server and the time.
pub proof fn lemma_file_name_round_trip(server: Seq<char>, time: Seq<char>, p: int, q: int)
    requires
        !server.contains('-'),
        0 <= p < q < time.len(),
        time[p] == ':',
        time[q] == ':',
        forall|j: int| 0 <= j < time.len() && time[j] == ':' ==> j == p || j == q,
        forall|j: int| p < j < time.len() ==> time[j] != '-',
    ensures
        stem_parts(server + seq!['-'] + dashed(time)) == Some((server, time)),
{
    let stem = server + seq!['-'] + dashed(time);
    let k = server.len() as int;
    assert(stem[k] == '-');
    assert forall|j: int| 0 <= j < k implies stem[j] != '-' by {
        assert(stem[j] == server[j]);
        if server[j] == '-' {
            assert(server.contains('-'));
        }
    }
    lemma_first_dash_from(stem, k, 0);
    assert(stem.contains('-'));
    assert(stem.take(k) =~= server);
    let d = dashed(time);
    assert(stem.skip(k + 1) =~= d);
    assert(d[q] == '-');
    assert forall|j: int| q < j < d.len() implies d[j] != '-' by {
        if time[j] == ':' {
            assert(j == p || j == q);
        }
    }
    lemma_last_dash_at(d, d.len() as int, q);
    assert(d[p] == '-');
    assert forall|j: int| p < j < q implies d[j] != '-' by {
        if time[j] == ':' {
            assert(j == p || j == q);
        }
    }
    lemma_last_dash_at(d, q, p);
    assert(d.update(q, ':').update(p, ':') =~= time) by {
        assert forall|j: int| 0 <= j < time.len() implies d.update(q, ':').update(p, ':')[j] == time[j] by {
            if j != p && j != q {
                if time[j] == ':' {
                    assert(j == p || j == q);
                }
            }
        }
    }
}


// ---------------------------------------------------------------------------
// The saved files, server by server
// ---------------------------------------------------------------------------

/// The files of `s` that are for server `k`, in their order.
pub open spec fn of_server(s: Seq<SavedDB>, k: Seq<char>) -> Seq<SavedDB>
    decreases s.len(),
{
    if s.len() == 0 {
        s
    } else {
        let rest = of_server(s.drop_last(), k);
        if s.last().server_str@ == k {
            rest.push(s.last())
        } else {
            rest
        }
    }
}

/// The files come in ascending order of their paths.
pub open spec fn sorted_by_path(s: Seq<SavedDB>) -> bool {
    forall|i: int, j: int| 0 <= i < j < s.len() ==> lex_le(#[trigger] s[i].path@, #[trigger] s[j].path@)
}

/// The servers of the groups come in strictly ascending order.
pub open spec fn servers_ascending(r: Seq<(String, Vec<SavedDB>)>) -> bool {
    forall|i: int, j: int| 0 <= i < j < r.len() ==> lex_lt(#[trigger] r[i].0@, #[trigger] r[j].0@)
}

/// Each group holds, in ascending order of their paths, exactly the files
/// of `dbs` that are for its server, and at least one.
pub open spec fn groups_hold(dbs: Seq<SavedDB>, r: Seq<(String, Vec<SavedDB>)>) -> bool {
    forall|i: int|
        0 <= i < r.len() ==> {
            &&& (#[trigger] r[i]).1@.len() > 0
            &&& sorted_by_path(r[i].1@)
            &&& r[i].1@.to_multiset() == of_server(dbs, r[i].0@).to_multiset()
        }
}

/// Every server that a file of `dbs` is for has a group.
pub open spec fn every_server_grouped(dbs: Seq<SavedDB>, r: Seq<(String, Vec<SavedDB>)>) -> bool {
    forall|m: int|
        0 <= m < dbs.len() ==> exists|i: int| #![trigger r[i]] 0 <= i < r.len() && r[i].0@ == (#[trigger] dbs[m]).server_str@
}

/// `r` lists the files `dbs` server by server: one group per server, the
/// servers in ascending order, each group's files in ascending order of
/// their paths.
pub open spec fn grouped(dbs: Seq<SavedDB>, r: Seq<(String, Vec<SavedDB>)>) -> bool {
    &&& servers_ascending(r)
    &&& groups_hold(dbs, r)
    &&& every_server_grouped(dbs, r)
}

proof fn lemma_of_server_push(s: Seq<SavedDB>, d: SavedDB, k: Seq<char>)
    ensures
        of_server(s.push(d), k) == if d.server_str@ == k {
            of_server(s, k).push(d)
        } else {
            of_server(s, k)
        },
{
    assert(s.push(d).drop_last() =~= s);
}

proof fn lemma_of_server_none(s: Seq<SavedDB>, k: Seq<char>)
    requires
        forall|m: int| 0 <= m < s.len() ==> (#[trigger] s[m]).server_str@ != k,
    ensures
        of_server(s, k).len() == 0,
    decreases s.len(),
{
    if s.len() > 0 {
        assert forall|m: int| 0 <= m < s.drop_last().len() implies (#[trigger] s.drop_last()[m]).server_str@ != k by {
            assert(s.drop_last()[m] == s[m]);
        }
        lemma_of_server_none(s.drop_last(), k);
    }
}

proof fn lemma_lex_lt_transitive(a: Seq<char>, b: Seq<char>, c: Seq<char>)
    requires
        lex_lt(a, b),
        lex_lt(b, c),
    ensures
        lex_lt(a, c),
{
    lemma_lex_transitive(a, b, c);
    if a == c {
        lemma_lex_antisymmetric(a, b);
    }
}

/// Adding the next file to the group of its server keeps the grouping.
proof fn lemma_grouped_into(all: Seq<SavedDB>, n: int, old: Seq<(String, Vec<SavedDB>)>, new: Seq<(String, Vec<SavedDB>)>, j: int)
    requires
        0 <= n < all.len(),
        grouped(all.take(n), old),
        0 <= j < old.len(),
        old[j].0@ == all[n].server_str@,
        new.len() == old.len(),
        forall|i: int| 0 <= i < old.len() && i != j ==> new[i] == old[i],
        new[j].0@ == old[j].0@,
        sorted_by_path(new[j].1@),
        new[j].1@.to_multiset() == old[j].1@.to_multiset().insert(all[n]),
    ensures
        grouped(all.take(n + 1), new),
{
    let d = all[n];
    assert(all.take(n + 1) =~= all.take(n).push(d));
    assert forall|i: int, k: int| 0 <= i < k < new.len() implies lex_lt(#[trigger] new[i].0@, #[trigger] new[k].0@) by {
        assert(old[i].0@ == new[i].0@ && old[k].0@ == new[k].0@);
    }
    assert forall|i: int| 0 <= i < new.len() implies {
        &&& (#[trigger] new[i]).1@.len() > 0
        &&& sorted_by_path(new[i].1@)
        &&& new[i].1@.to_multiset() == of_server(all.take(n + 1), new[i].0@).to_multiset()
    } by {
        lemma_of_server_push(all.take(n), d, new[i].0@);
        let _ = old[i];
        if i == j {
            assert(of_server(all.take(n).push(d), new[i].0@) == of_server(all.take(n), old[j].0@).push(d));
            vstd::seq_lib::to_multiset_build(of_server(all.take(n), old[j].0@), d);
            assert(new[i].1@.to_multiset().len() == old[j].1@.to_multiset().len() + 1);
            old[j].1@.to_multiset_ensures();
            new[i].1@.to_multiset_ensures();
        } else {
            assert(old[i].0@ != old[j].0@) by {
                if i < j {
                    assert(lex_lt(old[i].0@, old[j].0@));
                } else {
                    assert(lex_lt(old[j].0@, old[i].0@));
                }
            }
        }
    }
    assert forall|m: int| 0 <= m < all.take(n + 1).len() implies exists|i: int| #![trigger new[i]] 0 <= i < new.len() && new[i].0@ == (#[trigger] all.take(n + 1)[m]).server_str@ by {
        if m == n {
            let _ = new[j];
        } else {
            assert(all.take(n + 1)[m] == all.take(n)[m]);
            let i = choose|i: int| #![trigger old[i]] 0 <= i < old.len() && old[i].0@ == all.take(n)[m].server_str@;
            if i == j {
                let _ = new[j];
            } else {
                let _ = new[i];
            }
        }
    }
}

/// Opening a group for a server that has none yet, at its place in the
/// order, keeps the grouping.
proof fn lemma_grouped_new(all: Seq<SavedDB>, n: int, old: Seq<(String, Vec<SavedDB>)>, new: Seq<(String, Vec<SavedDB>)>, j: int)
    requires
        0 <= n < all.len(),
        grouped(all.take(n), old),
        0 <= j <= old.len(),
        forall|i: int| 0 <= i < j ==> lex_lt(#[trigger] old[i].0@, all[n].server_str@),
        j < old.len() ==> lex_lt(all[n].server_str@, old[j].0@),
        new.len() == old.len() + 1,
        forall|i: int| 0 <= i < j ==> #[trigger] new[i] == old[i],
        forall|i: int| j < i < new.len() ==> #[trigger] new[i] == old[i - 1],
        new[j].0@ == all[n].server_str@,
        new[j].1@ == seq![all[n]],
    ensures
        grouped(all.take(n + 1), new),
{
    let d = all[n];
    let s = d.server_str@;
    assert(all.take(n + 1) =~= all.take(n).push(d));
    // No group of `old` is for the server of `d`.
    assert forall|i: int| 0 <= i < old.len() implies (#[trigger] old[i]).0@ != s by {
        if i < j {
            assert(lex_lt(old[i].0@, s));
        } else if i > j {
            assert(lex_lt(old[j].0@, old[i].0@));
            lemma_lex_lt_transitive(s, old[j].0@, old[i].0@);
        }
    }
    assert forall|m: int| 0 <= m < all.take(n).len() implies (#[trigger] all.take(n)[m]).server_str@ != s by {
        let i = choose|i: int| #![trigger old[i]] 0 <= i < old.len() && old[i].0@ == all.take(n)[m].server_str@;
    }
    lemma_of_server_none(all.take(n), s);
    assert(of_server(all.take(n), s) =~= Seq::<SavedDB>::empty());
    assert forall|i: int, k: int| 0 <= i < k < new.len() implies lex_lt(#[trigger] new[i].0@, #[trigger] new[k].0@) by {
        if k < j {
        } else if k == j {
            assert(new[i] == old[i]);
        } else if i < j {
            assert(new[k] == old[k - 1]);
            assert(lex_lt(old[i].0@, s));
            if k - 1 > j {
                assert(lex_lt(old[j].0@, old[k - 1].0@));
                lemma_lex_lt_transitive(s, old[j].0@, old[k - 1].0@);
            }
            lemma_lex_lt_transitive(old[i].0@, s, old[k - 1].0@);
        } else if i == j {
            assert(new[k] == old[k - 1]);
            if k - 1 > j {
                assert(lex_lt(old[j].0@, old[k - 1].0@));
                lemma_lex_lt_transitive(s, old[j].0@, old[k - 1].0@);
            }
        } else {
            assert(new[i] == old[i - 1] && new[k] == old[k - 1]);
        }
    }
    assert forall|i: int| 0 <= i < new.len() implies {
        &&& (#[trigger] new[i]).1@.len() > 0
        &&& sorted_by_path(new[i].1@)
        &&& new[i].1@.to_multiset() == of_server(all.take(n + 1), new[i].0@).to_multiset()
    } by {
        lemma_of_server_push(all.take(n), d, new[i].0@);
        if i == j {
            assert(of_server(all.take(n + 1), s) =~= seq![d]);
        } else {
            let o = if i < j { i } else { i - 1 };
            assert(new[i] == old[o]);
            assert(old[o].0@ != s);
        }
    }
    assert forall|m: int| 0 <= m < all.take(n + 1).len() implies exists|i: int| #![trigger new[i]] 0 <= i < new.len() && new[i].0@ == (#[trigger] all.take(n + 1)[m]).server_str@ by {
        if m == n {
            let _ = new[j];
        } else {
            assert(all.take(n + 1)[m] == all.take(n)[m]);
            let i = choose|i: int| #![trigger old[i]] 0 <= i < old.len() && old[i].0@ == all.take(n)[m].server_str@;
            if i < j {
                let _ = new[i];
            } else {
                let _ = new[i + 1];
            }
        }
    }
}

/// `a < b` on text.
fn text_lt(a: &Vec<char>, b: &Vec<char>) -> (r: bool)
    ensures
        r == lex_lt(a@, b@),
{
    text_le(a, b) && !text_eq(a, b)
}

/// Puts `d` into the group `g`, after the files whose paths are not
/// greater than its own.
fn insert_by_path(g: &mut Vec<SavedDB>, d: SavedDB)
    requires
        sorted_by_path(old(g)@),
    ensures
        sorted_by_path(final(g)@),
        final(g)@.to_multiset() == old(g)@.to_multiset().insert(d),
        final(g)@.len() == old(g)@.len() + 1,
{
    let dp = chars_of(d.path.as_str());
    let mut pos: usize = 0;
    while pos < g.len()
        invariant
            pos <= g@.len(),
            dp@ == d.path@,
            forall|i: int| 0 <= i < pos ==> lex_le(#[trigger] g@[i].path@, d.path@),
        ensures
            pos <= g@.len(),
            forall|i: int| 0 <= i < pos ==> lex_le(#[trigger] g@[i].path@, d.path@),
            pos < g@.len() ==> !lex_le(g@[pos as int].path@, d.path@),
        decreases g@.len() - pos,
    {
        let p = chars_of(g[pos].path.as_str());
        if !text_le(&p, &dp) {
            break;
        }
        pos = pos + 1;
    }
    let ghost before = g@;
    proof {
        if pos < before.len() {
            lemma_lex_total(before[pos as int].path@, d.path@);
        }
    }
    g.insert(pos, d);
    proof {
        before.insert_ensures(pos as int, d);
        vstd::seq_lib::to_multiset_insert(before, pos as int, d);
        assert forall|i: int, j: int| 0 <= i < j < g@.len() implies lex_le(#[trigger] g@[i].path@, #[trigger] g@[j].path@) by {
            if j < pos {
            } else if j == pos {
            } else if i < pos {
                assert(g@[j] == before[j - 1]);
            } else if i == pos {
                assert(g@[j] == before[j - 1]);
                if j - 1 > pos {
                    assert(lex_le(before[pos as int].path@, before[j - 1].path@));
                } else {
                    crate::text::lemma_lex_reflexive(before[pos as int].path@);
                }
                lemma_lex_transitive(d.path@, before[pos as int].path@, before[j - 1].path@);
            } else {
                assert(g@[i] == before[i - 1] && g@[j] == before[j - 1]);
            }
        }
    }
}

/// The saved files server by server, as the list of saved worlds shows
/// them: the servers in ascending order, and each server's files in
/// ascending order of their paths.
pub fn group_saved_dbs(dbs: Vec<SavedDB>) -> (r: Vec<(String, Vec<SavedDB>)>)
    ensures
        grouped(dbs@, r@),
{
    let ghost all = dbs@;
    let mut rest = dbs;
    let mut groups: Vec<(String, Vec<SavedDB>)> = Vec::new();
    let ghost mut n: int = 0;
    assert(all.take(0) =~= Seq::<SavedDB>::empty());
    while rest.len() > 0
        invariant
            0 <= n <= all.len(),
            rest@ == all.skip(n),
            grouped(all.take(n), groups@),
        decreases rest@.len(),
    {
        let d = rest.remove(0);
        assert(d == all[n]);
        let key = d.server_str.clone();
        let s = chars_of(d.server_str.as_str());
        let mut j: usize = 0;
        while j < groups.len()
            invariant
                j <= groups@.len(),
                0 <= n < all.len(),
                s@ == all[n].server_str@,
                forall|i: int| 0 <= i < j ==> lex_lt(#[trigger] groups@[i].0@, s@),
            ensures
                j <= groups@.len(),
                forall|i: int| 0 <= i < j ==> lex_lt(#[trigger] groups@[i].0@, s@),
                j < groups@.len() ==> !lex_lt(groups@[j as int].0@, s@),
            decreases groups@.len() - j,
        {
            let k = chars_of(groups[j].0.as_str());
            if !text_lt(&k, &s) {
                break;
            }
            j = j + 1;
        }
        let found = j < groups.len() && text_eq(&chars_of(groups[j].0.as_str()), &s);
        let ghost old_groups = groups@;
        if found {
            let (k, mut g) = groups.remove(j);
            insert_by_path(&mut g, d);
            groups.insert(j, (k, g));
            proof {
                old_groups.remove_ensures(j as int);
                old_groups.remove(j as int).insert_ensures(j as int, groups@[j as int]);
                assert forall|i: int| 0 <= i < old_groups.len() && i != j implies groups@[i] == old_groups[i] by {
                    if i > j {
                        assert(groups@[i] == old_groups.remove(j as int)[i - 1]);
                    }
                }
                lemma_grouped_into(all, n, old_groups, groups@, j as int);
            }
        } else {
            proof {
                if j < old_groups.len() {
                    lemma_lex_total(s@, old_groups[j as int].0@);
                    if s@ == old_groups[j as int].0@ {
                        lemma_lex_antisymmetric(s@, s@);
                    }
                }
            }
            let mut g: Vec<SavedDB> = Vec::new();
            g.push(d);
            groups.insert(j, (key, g));
            proof {
                old_groups.insert_ensures(j as int, groups@[j as int]);
                assert(g@ =~= seq![all[n]]);
                assert forall|i: int| j < i < groups@.len() implies #[trigger] groups@[i] == old_groups[i - 1] by {
                    assert(groups@[(i - 1) + 1] == old_groups[i - 1]);
                }
                lemma_grouped_new(all, n, old_groups, groups@, j as int);
            }
        }
        proof {
            assert(rest@ =~= all.skip(n + 1));
            n = n + 1;
        }
    }
    assert(all.take(n) =~= all);
    groups
}

/// Whether a file with this extension holds saved world data: `sqlite`
/// or `apiresponse`.
pub open spec fn is_world_extension(ext: Seq<char>) -> bool {
    ext == "sqlite"@ || ext == "apiresponse"@
}

/// Whether a file with this extension holds saved world data.
pub fn has_world_extension(ext: &str) -> (r: bool)
    ensures
        r == is_world_extension(ext@),
{
    let e = chars_of(ext);
    text_eq(&e, &chars_of("sqlite")) || text_eq(&e, &chars_of("apiresponse"))
}


// ---------------------------------------------------------------------------
// Deleting everything
// ---------------------------------------------------------------------------

/// The multisets of the lists, added up.
pub open spec fn multiset_sum<A>(ss: Seq<Seq<A>>) -> Multiset<A>
    decreases ss.len(),
{
    if ss.len() == 0 {
        Multiset::empty()
    } else {
        ss.first().to_multiset().add(multiset_sum(ss.drop_first()))
    }
}

proof fn lemma_flatten_multiset<A>(ss: Seq<Seq<A>>)
    ensures
        ss.flatten().to_multiset() == multiset_sum(ss),
    decreases ss.len(),
{
    broadcast use vstd::seq_lib::group_to_multiset_ensures, vstd::multiset::group_multiset_axioms;

    if ss.len() > 0 {
        lemma_flatten_multiset(ss.drop_first());
        vstd::seq_lib::lemma_multiset_commutative(ss.first(), ss.drop_first().flatten());
    } else {
        assert(ss.flatten() =~= Seq::<A>::empty());
        assert(ss.flatten().to_multiset() =~= Multiset::<A>::empty());
    }
}

/// The files of `s` for each server in `keys`, added up.
pub open spec fn sum_by_server(keys: Seq<Seq<char>>, s: Seq<SavedDB>) -> Multiset<SavedDB>
    decreases keys.len(),
{
    if keys.len() == 0 {
        Multiset::empty()
    } else {
        of_server(s, keys.first()).to_multiset().add(sum_by_server(keys.drop_first(), s))
    }
}

proof fn lemma_sum_by_server_empty(keys: Seq<Seq<char>>, s: Seq<SavedDB>)
    requires
        s.len() == 0,
    ensures
        sum_by_server(keys, s) == Multiset::<SavedDB>::empty(),
    decreases keys.len(),
{
    broadcast use vstd::seq_lib::group_to_multiset_ensures, vstd::multiset::group_multiset_axioms;

    if keys.len() > 0 {
        lemma_sum_by_server_empty(keys.drop_first(), s);
        assert(of_server(s, keys.first()).len() == 0);
        assert(of_server(s, keys.first()).to_multiset() =~= Multiset::<SavedDB>::empty());
        assert(Multiset::<SavedDB>::empty().add(Multiset::<SavedDB>::empty()) =~= Multiset::<SavedDB>::empty());
    }
}

proof fn lemma_sum_by_server_push(keys: Seq<Seq<char>>, t: Seq<SavedDB>, x: SavedDB)
    requires
        keys.no_duplicates(),
    ensures
        sum_by_server(keys, t.push(x)) == if keys.contains(x.server_str@) {
            sum_by_server(keys, t).insert(x)
        } else {
            sum_by_server(keys, t)
        },
    decreases keys.len(),
{
    broadcast use vstd::multiset::group_multiset_axioms;

    if keys.len() > 0 {
        let k = keys.first();
        let rest = keys.drop_first();
        assert(rest.no_duplicates());
        lemma_sum_by_server_push(rest, t, x);
        lemma_of_server_push(t, x, k);
        vstd::seq_lib::to_multiset_build(of_server(t, k), x);
        assert(keys.contains(x.server_str@) <==> (k == x.server_str@ || rest.contains(x.server_str@))) by {
            if keys.contains(x.server_str@) && k != x.server_str@ {
                let i = choose|i: int| 0 <= i < keys.len() && keys[i] == x.server_str@;
                assert(rest[i - 1] == x.server_str@);
            }
            if rest.contains(x.server_str@) {
                let i = choose|i: int| 0 <= i < rest.len() && rest[i] == x.server_str@;
                assert(keys[i + 1] == x.server_str@);
            }
            if k == x.server_str@ {
                assert(keys[0] == x.server_str@);
            }
        }
        if k == x.server_str@ {
            assert(!rest.contains(x.server_str@)) by {
                if rest.contains(x.server_str@) {
                    let i = choose|i: int| 0 <= i < rest.len() && rest[i] == x.server_str@;
                    assert(keys[i + 1] == keys[0]);
                }
            }
        }
        let a = of_server(t, k).to_multiset();
        let b = sum_by_server(rest, t);
        assert(a.insert(x).add(b) =~= a.add(b).insert(x));
        assert(a.add(b.insert(x)) =~= a.add(b).insert(x));
    }
}

proof fn lemma_sum_by_server_all(keys: Seq<Seq<char>>, s: Seq<SavedDB>)
    requires
        keys.no_duplicates(),
        forall|m: int| 0 <= m < s.len() ==> keys.contains(#[trigger] s[m].server_str@),
    ensures
        sum_by_server(keys, s) == s.to_multiset(),
    decreases s.len(),
{
    broadcast use vstd::seq_lib::group_to_multiset_ensures, vstd::multiset::group_multiset_axioms;

    if s.len() == 0 {
        lemma_sum_by_server_empty(keys, s);
        assert(s.to_multiset() =~= Multiset::<SavedDB>::empty());
    } else {
        let t = s.drop_last();
        let x = s.last();
        assert(s =~= t.push(x));
        assert forall|m: int| 0 <= m < t.len() implies keys.contains(#[trigger] t[m].server_str@) by {
            assert(t[m] == s[m]);
        }
        lemma_sum_by_server_all(keys, t);
        assert(keys.contains(s[s.len() - 1].server_str@));
        lemma_sum_by_server_push(keys, t, x);
        vstd::seq_lib::to_multiset_build(t, x);
    }
}

/// The servers of the groups.
pub open spec fn group_keys(r: Seq<(String, Vec<SavedDB>)>) -> Seq<Seq<char>> {
    r.map_values(|e: (String, Vec<SavedDB>)| e.0@)
}

/// The files of the groups.
pub open spec fn group_files(r: Seq<(String, Vec<SavedDB>)>) -> Seq<Seq<SavedDB>> {
    r.map_values(|e: (String, Vec<SavedDB>)| e.1@)
}

proof fn lemma_groups_sum(dbs: Seq<SavedDB>, r: Seq<(String, Vec<SavedDB>)>)
    requires
        forall|i: int| 0 <= i < r.len() ==> (#[trigger] r[i]).1@.to_multiset() == of_server(dbs, r[i].0@).to_multiset(),
    ensures
        multiset_sum(group_files(r)) == sum_by_server(group_keys(r), dbs),
    decreases r.len(),
{
    if r.len() > 0 {
        let rest = r.drop_first();
        assert forall|i: int| 0 <= i < rest.len() implies (#[trigger] rest[i]).1@.to_multiset() == of_server(
            dbs,
            rest[i].0@,
        ).to_multiset() by {
            assert(rest[i] == r[i + 1]);
        }
        lemma_groups_sum(dbs, rest);
        assert(group_files(r).drop_first() =~= group_files(rest));
        assert(group_keys(r).drop_first() =~= group_keys(rest));
        assert(group_files(r).first() == r[0].1@);
        assert(group_keys(r).first() == r[0].0@);
    }
}

proof fn lemma_map_multiset(a: Seq<SavedDB>, b: Seq<SavedDB>)
    requires
        a.to_multiset() == b.to_multiset(),
    ensures
        paths_of(a).to_multiset() == paths_of(b).to_multiset(),
    decreases a.len(),
{
    broadcast use vstd::seq_lib::group_to_multiset_ensures, vstd::multiset::group_multiset_axioms;

    if a.len() == 0 {
        assert(b.len() == 0) by {
            a.to_multiset_ensures();
            b.to_multiset_ensures();
        }
        assert(paths_of(a) =~= paths_of(b));
    } else {
        let x = a.last();
        let a0 = a.drop_last();
        assert(a =~= a0.push(x));
        a.to_multiset_ensures();
        b.to_multiset_ensures();
        assert(a.contains(x)) by {
            assert(a[a.len() - 1] == x);
        }
        assert(b.to_multiset().count(x) > 0);
        assert(b.contains(x));
        let j = choose|j: int| 0 <= j < b.len() && b[j] == x;
        let b0 = b.remove(j);
        assert(a0.to_multiset() =~= b0.to_multiset()) by {
            assert(a.to_multiset() =~= a0.to_multiset().insert(x));
            assert(b0.to_multiset() =~= b.to_multiset().remove(x));
        }
        lemma_map_multiset(a0, b0);
        let f = x.path@;
        assert(paths_of(a) =~= paths_of(a0).push(f));
        assert(paths_of(b).remove(j) =~= paths_of(b0));
        assert(paths_of(b)[j] == f);
        assert(paths_of(b).to_multiset().count(f) > 0) by {
            assert(paths_of(b).contains(f));
        }
        assert(paths_of(b0).to_multiset() =~= paths_of(b).to_multiset().remove(f));
        assert(paths_of(a).to_multiset() =~= paths_of(a0).to_multiset().insert(f));
        assert(paths_of(b).to_multiset() =~= paths_of(b0).to_multiset().insert(f));
    }
}

proof fn lemma_flatten_paths(r: Seq<(String, Vec<SavedDB>)>)
    ensures
        path_lists(r).flatten() == paths_of(group_files(r).flatten()),
    decreases r.len(),
{
    if r.len() == 0 {
        assert(path_lists(r).flatten() =~= Seq::<Seq<char>>::empty());
        assert(group_files(r).flatten() =~= Seq::<SavedDB>::empty());
        assert(paths_of(Seq::<SavedDB>::empty()) =~= Seq::<Seq<char>>::empty());
    } else {
        let rest = r.drop_first();
        lemma_flatten_paths(rest);
        assert(path_lists(r).drop_first() =~= path_lists(rest));
        assert(group_files(r).drop_first() =~= group_files(rest));
        assert(path_lists(r).first() == paths_of(r[0].1@));
        assert(group_files(r).first() == r[0].1@);
        assert(paths_of(r[0].1@ + group_files(rest).flatten()) =~= paths_of(r[0].1@) + paths_of(group_files(rest).flatten()));
    }
}

/// Deleting everything deletes every saved file, each once: for the files
/// grouped server by server, the paths that `remove_all` lists are the
/// paths of the files, each as often as it occurs among them.
pub proof fn lemma_remove_all_deletes_every_file(dbs: Seq<SavedDB>, r: Seq<(String, Vec<SavedDB>)>)
    requires
        grouped(dbs, r),
    ensures
        path_lists(r).flatten().to_multiset() == paths_of(dbs).to_multiset(),
{
    let keys = group_keys(r);
    assert(keys.no_duplicates()) by {
        assert forall|i: int, j: int| 0 <= i < keys.len() && 0 <= j < keys.len() && i != j implies keys[i] != keys[j] by {
            if i < j {
                assert(lex_lt(r[i].0@, r[j].0@));
            } else {
                assert(lex_lt(r[j].0@, r[i].0@));
            }
        }
    }
    assert forall|m: int| 0 <= m < dbs.len() implies keys.contains(#[trigger] dbs[m].server_str@) by {
        let i = choose|i: int| #![trigger r[i]] 0 <= i < r.len() && r[i].0@ == dbs[m].server_str@;
        assert(keys[i] == dbs[m].server_str@);
    }
    assert forall|i: int| 0 <= i < r.len() implies (#[trigger] r[i]).1@.to_multiset() == of_server(dbs, r[i].0@).to_multiset() by {
        let _ = r[i];
    }
    lemma_groups_sum(dbs, r);
    lemma_sum_by_server_all(keys, dbs);
    lemma_flatten_multiset(group_files(r));
    lemma_map_multiset(group_files(r).flatten(), dbs);
    lemma_flatten_paths(r);
}

} // verus!
