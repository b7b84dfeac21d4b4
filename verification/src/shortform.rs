//! The short form a constraint is stored in: its type, its comparator and
//! its value, each written as YAML, on one line separated by spaces.
use vstd::prelude::*;

use crate::text::{chars_of, push_chars, string_of};

verus! {

/// Whether `c` is whitespace in the sense of Unicode: it has the
/// `White_Space` property, which `char::is_whitespace` and `str::trim` go
/// by. These are all the characters that carry it.
pub open spec fn is_unicode_whitespace(c: char) -> bool {
    ||| ('\u{9}' <= c && c <= '\u{d}')
    ||| c == ' '
    ||| c == '\u{85}'
    ||| c == '\u{a0}'
    ||| c == '\u{1680}'
    ||| ('\u{2000}' <= c && c <= '\u{200a}')
    ||| c == '\u{2028}'
    ||| c == '\u{2029}'
    ||| c == '\u{202f}'
    ||| c == '\u{205f}'
    ||| c == '\u{3000}'
}

/// How many whitespace characters the text begins with.
pub open spec fn leading_whitespace(s: Seq<char>) -> nat
    decreases s.len(),
{
    if s.len() > 0 && is_unicode_whitespace(s[0]) {
        1 + leading_whitespace(s.drop_first())
    } else {
        0
    }
}

/// How many whitespace characters the text ends with.
pub open spec fn trailing_whitespace(s: Seq<char>) -> nat
    decreases s.len(),
{
    if s.len() > 0 && is_unicode_whitespace(s.last()) {
        1 + trailing_whitespace(s.drop_last())
    } else {
        0
    }
}

/// `text` without leading and trailing whitespace (`str::trim`).
pub open spec fn trimmed(text: Seq<char>) -> Seq<char> {
    let rest = text.skip(leading_whitespace(text) as int);
    rest.take(rest.len() - trailing_whitespace(rest))
}

proof fn lemma_leading_whitespace(s: Seq<char>, k: int)
    requires
        0 <= k <= s.len(),
        forall|j: int| 0 <= j < k ==> is_unicode_whitespace(#[trigger] s[j]),
        k < s.len() ==> !is_unicode_whitespace(s[k]),
    ensures
        leading_whitespace(s) == k,
    decreases k,
{
    if k > 0 {
        assert forall|j: int| 0 <= j < k - 1 implies is_unicode_whitespace(#[trigger] s.drop_first()[j]) by {
            assert(s.drop_first()[j] == s[j + 1]);
        }
        if k < s.len() {
            assert(s.drop_first()[k - 1] == s[k]);
        }
        assert(is_unicode_whitespace(s[0]));
        lemma_leading_whitespace(s.drop_first(), k - 1);
    }
}

proof fn lemma_trailing_whitespace(s: Seq<char>, k: int)
    requires
        0 <= k <= s.len(),
        forall|j: int| s.len() - k <= j < s.len() ==> is_unicode_whitespace(#[trigger] s[j]),
        k < s.len() ==> !is_unicode_whitespace(s[s.len() - k - 1]),
    ensures
        trailing_whitespace(s) == k,
    decreases k,
{
    if k > 0 {
        assert(is_unicode_whitespace(s[s.len() - 1]));
        assert forall|j: int| s.drop_last().len() - (k - 1) <= j < s.drop_last().len() implies is_unicode_whitespace(
            #[trigger] s.drop_last()[j],
        ) by {
            assert(s.drop_last()[j] == s[j]);
        }
        if k < s.len() {
            assert(s.drop_last()[s.drop_last().len() - (k - 1) - 1] == s[s.len() - k - 1]);
        }
        lemma_trailing_whitespace(s.drop_last(), k - 1);
    }
}

fn is_whitespace(c: char) -> (r: bool)
    ensures
        r == is_unicode_whitespace(c),
{
    ('\u{9}' <= c && c <= '\u{d}') || c == ' ' || c == '\u{85}' || c == '\u{a0}' || c == '\u{1680}' || ('\u{2000}' <= c
        && c <= '\u{200a}') || c == '\u{2028}' || c == '\u{2029}' || c == '\u{202f}' || c == '\u{205f}' || c == '\u{3000}'
}

/// Drops leading and trailing whitespace, as `str::trim` does.
fn trim(text: &str) -> (r: String)
    ensures
        r@ == trimmed(text@),
{
    let s = chars_of(text);
    let mut lo: usize = 0;
    while lo < s.len() && is_whitespace(s[lo])
        invariant
            lo <= s@.len(),
            forall|j: int| 0 <= j < lo ==> is_unicode_whitespace(#[trigger] s@[j]),
        decreases s@.len() - lo,
    {
        lo = lo + 1;
    }
    proof {
        lemma_leading_whitespace(s@, lo as int);
    }
    let mut hi: usize = s.len();
    while hi > lo && is_whitespace(s[hi - 1])
        invariant
            lo <= hi <= s@.len(),
            forall|j: int| hi <= j < s@.len() ==> is_unicode_whitespace(#[trigger] s@[j]),
        decreases hi,
    {
        hi = hi - 1;
    }
    proof {
        let rest = s@.skip(lo as int);
        let k = s@.len() - hi;
        if hi > lo {
            assert(rest[rest.len() - k - 1] == s@[hi - 1]);
        }
        assert forall|j: int| rest.len() - k <= j < rest.len() implies is_unicode_whitespace(#[trigger] rest[j]) by {
            assert(rest[j] == s@[j + lo]);
        }
        lemma_trailing_whitespace(rest, k);
        assert(rest.take(rest.len() - k) =~= s@.subrange(lo as int, hi as int));
    }
    chars_between(&s, lo, hi)
}

/// The short form of a constraint from the YAML of its parts: the three
/// parts trimmed, separated by single spaces.
pub fn short_constraint_line(type_yaml: &str, comparator_yaml: &str, value_yaml: &str) -> (r: String)
    ensures
        r@ == trimmed(type_yaml@) + seq![' '] + trimmed(comparator_yaml@) + seq![' '] + trimmed(value_yaml@),
{
    let a = chars_of(trim(type_yaml).as_str());
    let b = chars_of(trim(comparator_yaml).as_str());
    let c = chars_of(trim(value_yaml).as_str());
    let mut r = String::new();
    push_chars(&mut r, &a, 0, a.len());
    crate::text::push_char(&mut r, ' ');
    push_chars(&mut r, &b, 0, b.len());
    crate::text::push_char(&mut r, ' ');
    push_chars(&mut r, &c, 0, c.len());
    assert(a@.subrange(0, a@.len() as int) =~= a@);
    assert(b@.subrange(0, b@.len() as int) =~= b@);
    assert(c@.subrange(0, c@.len() as int) =~= c@);
    r
}

/// The position of the first space at or after position `i`; the length
/// of `s` where there is none.
pub open spec fn space_from(s: Seq<char>, i: int) -> int
    decreases s.len() - i,
{
    if i < 0 || i >= s.len() {
        s.len() as int
    } else if s[i] == ' ' {
        i
    } else {
        space_from(s, i + 1)
    }
}

proof fn lemma_space_from(s: Seq<char>, i: int, j: int)
    requires
        0 <= j <= i <= s.len(),
        i < s.len() ==> s[i] == ' ',
        forall|k: int| j <= k < i ==> s[k] != ' ',
    ensures
        space_from(s, j) == i,
    decreases i - j,
{
    if j < i {
        lemma_space_from(s, i, j + 1);
    }
}

/// The three parts of a short form (`splitn(3, ' ')`): the text before the
/// first space, the text between the first and the second space, and the
/// rest. `None` where there are fewer than two spaces.
pub open spec fn line_parts(s: Seq<char>) -> Option<(Seq<char>, Seq<char>, Seq<char>)> {
    let p = space_from(s, 0);
    let q = space_from(s, p + 1);
    if p < s.len() && q < s.len() {
        Some((s.subrange(0, p), s.subrange(p + 1, q), s.subrange(q + 1, s.len() as int)))
    } else {
        None
    }
}

fn find_space(s: &Vec<char>, from: usize) -> (r: usize)
    requires
        from <= s@.len(),
    ensures
        r as int == space_from(s@, from as int),
        from <= r <= s@.len(),
{
    let mut i = from;
    while i < s.len() && s[i] != ' '
        invariant
            from <= i <= s@.len(),
            forall|k: int| from <= k < i ==> s@[k] != ' ',
        decreases s@.len() - i,
    {
        i = i + 1;
    }
    proof {
        lemma_space_from(s@, i as int, from as int);
    }
    i
}

fn chars_between(s: &Vec<char>, lo: usize, hi: usize) -> (r: String)
    requires
        lo <= hi <= s@.len(),
    ensures
        r@ == s@.subrange(lo as int, hi as int),
{
    let mut r = String::new();
    push_chars(&mut r, s, lo, hi);
    r
}

/// Splits a short form into its three parts.
pub fn split_constraint_line(text: &str) -> (r: Option<(String, String, String)>)
    ensures
        match r {
            Some(p) => line_parts(text@) == Some((p.0@, p.1@, p.2@)),
            None => line_parts(text@) is None,
        },
{
    let s = chars_of(text);
    let p = find_space(&s, 0);
    if p == s.len() {
        return None;
    }
    let q = find_space(&s, p + 1);
    if q == s.len() {
        return None;
    }
    Some((chars_between(&s, 0, p), chars_between(&s, p + 1, q), chars_between(&s, q + 1, s.len())))
}

/// Reading back a short form gives its three parts where the first two
/// hold no space (the YAML of a constraint type or of a comparator is a
/// single word): what `short_constraint_line` writes, `split_constraint_line`
/// splits into the trimmed parts it was written from.
pub proof fn lemma_short_form_round_trip(a: Seq<char>, b: Seq<char>, c: Seq<char>)
    requires
        !a.contains(' '),
        !b.contains(' '),
    ensures
        line_parts(a + seq![' '] + b + seq![' '] + c) == Some((a, b, c)),
{
    let s = a + seq![' '] + b + seq![' '] + c;
    let p = a.len() as int;
    let q = p + 1 + b.len();
    assert forall|k: int| 0 <= k < p implies s[k] != ' ' by {
        assert(s[k] == a[k]);
    }
    lemma_space_from(s, p, 0);
    assert forall|k: int| p + 1 <= k < q implies s[k] != ' ' by {
        assert(s[k] == b[k - p - 1]);
    }
    lemma_space_from(s, q, p + 1);
    assert(s.subrange(0, p) =~= a);
    assert(s.subrange(p + 1, q) =~= b);
    assert(s.subrange(q + 1, s.len() as int) =~= c);
}

/// How many `'` the text begins with.
pub open spec fn leading_quotes(s: Seq<char>) -> nat
    decreases s.len(),
{
    if s.len() > 0 && s[0] == '\'' {
        1 + leading_quotes(s.drop_first())
    } else {
        0
    }
}

/// How many `'` the text ends with.
pub open spec fn trailing_quotes(s: Seq<char>) -> nat
    decreases s.len(),
{
    if s.len() > 0 && s.last() == '\'' {
        1 + trailing_quotes(s.drop_last())
    } else {
        0
    }
}

/// The text without the `'` it begins and ends with
/// (`str::trim_matches('\'')`).
pub open spec fn without_quotes(s: Seq<char>) -> Seq<char> {
    let rest = s.skip(leading_quotes(s) as int);
    rest.take(rest.len() - trailing_quotes(rest))
}

proof fn lemma_quotes_bounded(s: Seq<char>)
    ensures
        leading_quotes(s) <= s.len(),
        trailing_quotes(s) <= s.len(),
    decreases s.len(),
{
    if s.len() > 0 {
        lemma_quotes_bounded(s.drop_first());
        lemma_quotes_bounded(s.drop_last());
    }
}

proof fn lemma_leading_quotes(s: Seq<char>, k: int)
    requires
        0 <= k <= s.len(),
        forall|j: int| 0 <= j < k ==> s[j] == '\'',
        k < s.len() ==> s[k] != '\'',
    ensures
        leading_quotes(s) == k,
    decreases k,
{
    if k > 0 {
        assert forall|j: int| 0 <= j < k - 1 implies s.drop_first()[j] == '\'' by {
            assert(s.drop_first()[j] == s[j + 1]);
        }
        if k < s.len() {
            assert(s.drop_first()[k - 1] == s[k]);
        }
        lemma_leading_quotes(s.drop_first(), k - 1);
    }
}

proof fn lemma_trailing_quotes(s: Seq<char>, k: int)
    requires
        0 <= k <= s.len(),
        forall|j: int| s.len() - k <= j < s.len() ==> s[j] == '\'',
        k < s.len() ==> s[s.len() - k - 1] != '\'',
    ensures
        trailing_quotes(s) == k,
    decreases k,
{
    if k > 0 {
        lemma_trailing_quotes(s.drop_last(), k - 1);
    }
}

/// Drops the `'` a value begins and ends with.
pub fn trim_quotes(value: &str) -> (r: String)
    ensures
        r@ == without_quotes(value@),
{
    let s = chars_of(value);
    let mut lo: usize = 0;
    while lo < s.len() && s[lo] == '\''
        invariant
            lo <= s@.len(),
            forall|j: int| 0 <= j < lo ==> s@[j] == '\'',
        decreases s@.len() - lo,
    {
        lo = lo + 1;
    }
    proof {
        lemma_leading_quotes(s@, lo as int);
    }
    let mut hi: usize = s.len();
    while hi > lo && s[hi - 1] == '\''
        invariant
            lo <= hi <= s@.len(),
            forall|j: int| hi <= j < s@.len() ==> s@[j] == '\'',
        decreases hi,
    {
        hi = hi - 1;
    }
    proof {
        let rest = s@.skip(lo as int);
        let k = s@.len() - hi;
        if hi > lo {
            assert(rest[rest.len() - k - 1] == s@[hi - 1]);
        }
        assert forall|j: int| rest.len() - k <= j < rest.len() implies rest[j] == '\'' by {
            assert(rest[j] == s@[j + lo]);
        }
        lemma_trailing_quotes(rest, k);
        assert(rest.take(rest.len() - k) =~= s@.subrange(lo as int, hi as int));
    }
    chars_between(&s, lo, hi)
}

} // verus!
