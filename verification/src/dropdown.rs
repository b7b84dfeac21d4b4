//! What the drop down box under a text field offers while the user types:
//! every option while the field is empty; else the options in which the
//! typed text occurs, those that begin with it first, each with the places
//! where the text occurs in it (which the box emphasizes).
use vstd::prelude::*;

use crate::names::{lowercase_of, to_lowercase};
use crate::text::{chars_of, text_eq};

verus! {

/// Where `pat` occurs in `hay` from index `from` on, left to right, each
/// occurrence starting after the end of the one before, as
/// `str::match_indices` finds them. Nothing for an empty `pat`.
pub open spec fn occurrences_from(hay: Seq<char>, pat: Seq<char>, from: int) -> Seq<int>
    decreases hay.len() - from,
{
    if pat.len() == 0 || from < 0 || from + pat.len() > hay.len() {
        Seq::empty()
    } else if hay.subrange(from, from + pat.len()) == pat {
        seq![from] + occurrences_from(hay, pat, from + pat.len())
    } else {
        occurrences_from(hay, pat, from + 1)
    }
}

/// Positions as integers.
pub open spec fn positions(v: Seq<usize>) -> Seq<int> {
    v.map_values(|u: usize| u as int)
}

/// The text an option is searched in: its lower case form where the typed
/// text is all lower case (the search then ignores case), else the option
/// itself.
pub open spec fn searched_form(option: Seq<char>, typed: Seq<char>) -> Seq<char> {
    if lowercase_of(typed) == typed {
        lowercase_of(option)
    } else {
        option
    }
}

/// Where the typed text occurs in the searched form of an option.
pub open spec fn found_in(option: Seq<char>, typed: Seq<char>) -> Seq<int> {
    occurrences_from(searched_form(option, typed), typed, 0)
}

/// The options, in their order, in which the typed text occurs, and
/// either (`at_start`) first at the beginning or (`!at_start`) only later;
/// each with the places where it occurs.
pub open spec fn offered_group(options: Seq<Seq<char>>, typed: Seq<char>, at_start: bool) -> Seq<(Seq<char>, Seq<int>)>
    decreases options.len(),
{
    if options.len() == 0 {
        Seq::empty()
    } else {
        let rest = offered_group(options.drop_last(), typed, at_start);
        let found = found_in(options.last(), typed);
        if found.len() > 0 && ((found[0] == 0) == at_start) {
            rest.push((options.last(), found))
        } else {
            rest
        }
    }
}

/// What the box offers for the typed text: every option, with nothing
/// emphasized, while nothing is typed; else the options that begin with
/// the text, then those that hold it further on.
pub open spec fn offered(options: Seq<Seq<char>>, typed: Seq<char>) -> Seq<(Seq<char>, Seq<int>)> {
    if typed.len() == 0 {
        options.map_values(|o: Seq<char>| (o, Seq::<int>::empty()))
    } else {
        offered_group(options, typed, true) + offered_group(options, typed, false)
    }
}

/// An option as the box offers it: its text and where the typed text
/// occurs in the form of it that was searched.
pub struct DropDownEntry {
    pub text: String,
    pub found_at: Vec<usize>,
}

impl View for DropDownEntry {
    type V = (Seq<char>, Seq<int>);

    open spec fn view(&self) -> (Seq<char>, Seq<int>) {
        (self.text@, positions(self.found_at@))
    }
}

/// The views of a list of strings.
pub open spec fn texts(v: Seq<String>) -> Seq<Seq<char>> {
    v.map_values(|s: String| s@)
}

/// The views of a list of entries.
pub open spec fn entry_views(v: Seq<DropDownEntry>) -> Seq<(Seq<char>, Seq<int>)> {
    v.map_values(|e: DropDownEntry| e@)
}

/// Whether `pat` occurs in `hay` at `at`.
fn occurs_at(hay: &Vec<char>, pat: &Vec<char>, at: usize) -> (r: bool)
    requires
        at + pat@.len() <= hay@.len(),
    ensures
        r == (hay@.subrange(at as int, at + pat@.len()) == pat@),
{
    let mut k: usize = 0;
    while k < pat.len()
        invariant
            at + pat.len() <= hay.len(),
            k <= pat@.len(),
            hay@.subrange(at as int, at + k) == pat@.take(k as int),
        decreases pat@.len() - k,
    {
        if hay[at + k] != pat[k] {
            assert(hay@.subrange(at as int, at + pat@.len())[k as int] != pat@[k as int]);
            return false;
        }
        assert(hay@.subrange(at as int, at + k + 1) =~= hay@.subrange(at as int, at + k).push(hay@[at + k]));
        assert(pat@.take(k + 1) =~= pat@.take(k as int).push(pat@[k as int]));
        k = k + 1;
    }
    assert(pat@.take(k as int) =~= pat@);
    true
}

/// Where `pat` occurs in `hay`, left to right, without overlaps.
pub fn occurrences(hay: &Vec<char>, pat: &Vec<char>) -> (r: Vec<usize>)
    requires
        pat@.len() > 0,
    ensures
        positions(r@) == occurrences_from(hay@, pat@, 0),
{
    let mut found: Vec<usize> = Vec::new();
    if pat.len() > hay.len() {
        return found;
    }
    let last = hay.len() - pat.len();
    let mut i: usize = 0;
    while i <= last
        invariant
            pat@.len() > 0,
            last + pat.len() == hay.len(),
            i <= hay.len(),
            positions(found@) + occurrences_from(hay@, pat@, i as int) == occurrences_from(hay@, pat@, 0),
        decreases hay@.len() - i,
    {
        if occurs_at(hay, pat, i) {
            let ghost before = found@;
            found.push(i);
            assert(positions(found@) =~= positions(before).push(i as int));
            assert(positions(before) + occurrences_from(hay@, pat@, i as int)
                =~= positions(found@) + occurrences_from(hay@, pat@, i + pat@.len()));
            i = i + pat.len();
        } else {
            i = i + 1;
        }
    }
    assert(occurrences_from(hay@, pat@, i as int) == Seq::<int>::empty());
    assert(positions(found@) + Seq::<int>::empty() =~= positions(found@));
    found
}

/// The entries the drop down box offers for `options` while `typed` stands
/// in its text field.
pub fn drop_down_entries(options: &Vec<String>, typed: &str) -> (r: Vec<DropDownEntry>)
    ensures
        entry_views(r@) == offered(texts(options@), typed@),
{
    let pat = chars_of(typed);
    let mut first: Vec<DropDownEntry> = Vec::new();
    let mut second: Vec<DropDownEntry> = Vec::new();
    let ghost all = texts(options@);
    if pat.len() == 0 {
        let mut i: usize = 0;
        while i < options.len()
            invariant
                i <= options@.len(),
                all == texts(options@),
                entry_views(first@) == all.take(i as int).map_values(|o: Seq<char>| (o, Seq::<int>::empty())),
            decreases options@.len() - i,
        {
            let entry = DropDownEntry { text: options[i].clone(), found_at: Vec::new() };
            let ghost before = first@;
            first.push(entry);
            assert(positions(Seq::<usize>::empty()) =~= Seq::<int>::empty());
            assert(entry_views(first@) =~= entry_views(before).push((all[i as int], Seq::<int>::empty())));
            assert(all.take(i + 1) =~= all.take(i as int).push(all[i as int]));
            assert(all.take(i + 1).map_values(|o: Seq<char>| (o, Seq::<int>::empty()))
                =~= all.take(i as int).map_values(|o: Seq<char>| (o, Seq::<int>::empty())).push((all[i as int], Seq::<int>::empty())));
            i = i + 1;
        }
        assert(all.take(i as int) =~= all);
        return first;
    }
    let typed_string = crate::text::string_of(&pat);
    let lowered_typed = chars_of(to_lowercase(&typed_string).as_str());
    let ignore_case = text_eq(&lowered_typed, &pat);
    let mut i: usize = 0;
    while i < options.len()
        invariant
            i <= options@.len(),
            pat@ == typed@,
            pat@.len() > 0,
            typed_string@ == typed@,
            ignore_case == (lowercase_of(typed@) == typed@),
            all == texts(options@),
            entry_views(first@) == offered_group(all.take(i as int), typed@, true),
            entry_views(second@) == offered_group(all.take(i as int), typed@, false),
        decreases options@.len() - i,
    {
        let option = &options[i];
        let searched = if ignore_case {
            chars_of(to_lowercase(option).as_str())
        } else {
            chars_of(option.as_str())
        };
        assert(searched@ == searched_form(all[i as int], typed@));
        let found = occurrences(&searched, &pat);
        assert(all.take(i + 1).drop_last() =~= all.take(i as int));
        assert(all.take(i + 1).last() == all[i as int]);
        if found.len() > 0 {
            let at_start = found[0] == 0;
            assert(positions(found@)[0] == found@[0] as int);
            let entry = DropDownEntry { text: option.clone(), found_at: found };
            if at_start {
                let ghost before = first@;
                first.push(entry);
                assert(entry_views(first@) =~= entry_views(before).push(entry_views(first@).last()));
            } else {
                let ghost before = second@;
                second.push(entry);
                assert(entry_views(second@) =~= entry_views(before).push(entry_views(second@).last()));
            }
        }
        i = i + 1;
    }
    assert(all.take(i as int) =~= all);
    let ghost first_view = first@;
    let ghost second_view = second@;
    first.append(&mut second);
    assert(entry_views(first@) =~= entry_views(first_view) + entry_views(second_view));
    first
}

} // verus!
