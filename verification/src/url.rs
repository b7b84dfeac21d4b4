//! The state of the map written into the address of the page: the server,
//! and the selections (as text) in URL-safe base64 where there are any.
use vstd::prelude::*;

use crate::selection::TownSelection;
use crate::text::{chars_of, push_chars};

verus! {

/// The text of `text`'s UTF-8 bytes in URL-safe base64 with padding, as
/// the `base64` crate writes it.
pub uninterp spec fn base64_url_of(text: Seq<char>) -> Seq<char>;

/// The text whose UTF-8 bytes the URL-safe base64 `b64` holds, as the
/// `base64` crate reads it; `None` where it does not read or the bytes are
/// not UTF-8.
pub uninterp spec fn text_of_base64_url(b64: Seq<char>) -> Option<Seq<char>>;

/// Writes the bytes of `text` in URL-safe base64 (`Engine::encode` with
/// `URL_SAFE`). The contract names the result, and says that decoding it
/// with the same engine gives back the bytes of `text`, which are UTF-8;
/// the encoding itself is the crate's.
#[verifier::external_body]
fn encode_url_safe(text: &str) -> (r: String)
    ensures
        r@ == base64_url_of(text@),
        text_of_base64_url(r@) == Some(text@),
{
    base64::Engine::encode(&base64::engine::general_purpose::URL_SAFE, text)
}

/// Reads URL-safe base64 (`Engine::decode` with `URL_SAFE`) as UTF-8 text.
/// The contract names the result; the decoding is the crate's.
#[verifier::external_body]
fn decode_url_safe(b64: &str) -> (r: Option<String>)
    ensures
        match r {
            Some(t) => text_of_base64_url(b64@) == Some(t@),
            None => text_of_base64_url(b64@) is None,
        },
{
    match base64::Engine::decode(&base64::engine::general_purpose::URL_SAFE, b64) {
        Ok(bytes) => String::from_utf8(bytes).ok(),
        Err(_) => None,
    }
}

/// The query part of the address: `?`, then `server=` and the server id
/// where there is one, then (after `&` where both are there) `selections=`
/// and the selections' text in base64 where there is one.
pub open spec fn url_string(server_id: Option<Seq<char>>, selections: Option<Seq<char>>) -> Seq<char> {
    let server_part = match server_id {
        Some(id) => "server="@ + id,
        None => Seq::empty(),
    };
    let selections_part = match selections {
        Some(text) => "selections="@ + base64_url_of(text),
        None => Seq::empty(),
    };
    let sep = if server_id is Some && selections is Some {
        "&"@
    } else {
        Seq::empty()
    };
    "?"@ + server_part + sep + selections_part
}

fn push_str(s: &mut String, t: &str)
    ensures
        final(s)@ == old(s)@ + t@,
{
    let v = chars_of(t);
    push_chars(s, &v, 0, v.len());
    assert(v@.subrange(0, v@.len() as int) =~= v@);
}

/// The query part of the address for this server and these selections:
/// the selections' part is there only where there are selections, and
/// then holds `selections_text`, their text. The base64 in it reads back
/// as that text.
pub fn state_to_url_string(server_id: Option<&str>, selections: Option<&[TownSelection]>, selections_text: &str) -> (r: String)
    ensures
        (selections matches Some(list) && list@.len() > 0) ==> text_of_base64_url(base64_url_of(selections_text@)) == Some(
            selections_text@,
        ),
        r@ == url_string(
            match server_id {
                Some(s) => Some(s@),
                None => None,
            },
            match selections {
                Some(list) => if list@.len() > 0 {
                    Some(selections_text@)
                } else {
                    None
                },
                None => None,
            },
        ),
{
    let has_selections = match selections {
        Some(list) => list.len() > 0,
        None => false,
    };
    let mut url = String::new();
    push_str(&mut url, "?");
    match server_id {
        Some(id) => {
            push_str(&mut url, "server=");
            push_str(&mut url, id);
        },
        None => {},
    }
    if has_selections {
        if server_id.is_some() {
            push_str(&mut url, "&");
        }
        let encoded = encode_url_safe(selections_text);
        push_str(&mut url, "selections=");
        push_str(&mut url, encoded.as_str());
    }
    url
}

/// The selections' text that the `selections` parameter of the address
/// holds; `None` where it is not URL-safe base64 of UTF-8 text.
pub fn selections_text_from_url(param: &str) -> (r: Option<String>)
    ensures
        match r {
            Some(t) => text_of_base64_url(param@) == Some(t@),
            None => text_of_base64_url(param@) is None,
        },
{
    decode_url_safe(param)
}

} // verus!
