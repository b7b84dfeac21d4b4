//! Listing every selection that a selection refers to, directly or through
//! the selections it refers to.
use vstd::prelude::*;

use crate::emptyconstraint::has_selection_named;
use crate::emptyselection::{
    acyclic_from, find_named, first_named, first_named_index, has_cycle_from, is_edge, lemma_first_named, referenced_name,
    referenced_names, refers_to, views, EmptyTownSelection, SelectionView,
};
use crate::text::{chars_of, lemma_lex_antisymmetric, lemma_lex_total, lemma_lex_transitive, lex_le, lex_lt, text_le};

verus! {

/// Why the selections that a selection refers to cannot be listed.
#[derive(Debug, Clone, Copy, PartialEq, Eq, Structural)]
pub enum ReferenceError {
    /// Following the references goes round in a circle.
    CircularReference,
}

/// A reference that the listing follows: `u` refers to the name of `v`, and
/// `v` is the first selection with that name.
pub open spec fn is_resolved_step(all: Seq<SelectionView>, u: SelectionView, v: SelectionView) -> bool {
    &&& is_edge(all, u, v)
    &&& v == first_named(all, v.name)
}

/// `p` follows such references from `root`.
pub open spec fn is_resolved_walk(root: SelectionView, all: Seq<SelectionView>, p: Seq<SelectionView>) -> bool {
    &&& p.len() >= 1
    &&& p[0] == root
    &&& forall|i: int| 0 <= i < p.len() - 1 ==> #[trigger] is_resolved_step(all, p[i], p[i + 1])
}

/// `v` is reached from `root` by following one reference or more.
pub open spec fn reaches(root: SelectionView, all: Seq<SelectionView>, v: SelectionView) -> bool {
    exists|p: Seq<SelectionView>| #[trigger] is_resolved_walk(root, all, p) && p.len() >= 2 && p.last() == v
}

/// Whether some entry of `names` holds the text `name`.
pub open spec fn listed(names: Seq<String>, name: Seq<char>) -> bool {
    exists|m: int| 0 <= m < names.len() && #[trigger] names[m]@ == name
}

/// The number of positions not marked in `s`.
spec fn unmarked(s: Seq<bool>) -> nat
    decreases s.len(),
{
    if s.len() == 0 {
        0
    } else {
        unmarked(s.drop_last()) + if s.last() {
            0nat
        } else {
            1nat
        }
    }
}

proof fn lemma_unmarked_mark(s: Seq<bool>, i: int)
    requires
        0 <= i < s.len(),
        !s[i],
    ensures
        unmarked(s.update(i, true)) + 1 == unmarked(s),
    decreases s.len(),
{
    let t = s.update(i, true);
    if i == s.len() - 1 {
        assert(t.drop_last() =~= s.drop_last());
    } else {
        assert(t.drop_last() =~= s.drop_last().update(i, true));
        lemma_unmarked_mark(s.drop_last(), i);
    }
}

pub(crate) proof fn lemma_filter_map_has<A, B>(s: Seq<A>, f: spec_fn(A) -> Option<B>, i: int)
    requires
        0 <= i < s.len(),
        f(s[i]) is Some,
    ensures
        s.filter_map(f).contains(f(s[i])->0),
    decreases s.len(),
{
    let rest = s.drop_last();
    let x = f(s[i])->0;
    if i == s.len() - 1 {
        let r = rest.filter_map(f) + seq![x];
        assert(s.filter_map(f) == r);
        assert(r[r.len() - 1] == x);
    } else {
        assert(rest[i] == s[i]);
        lemma_filter_map_has(rest, f, i);
        let k = choose|k: int| 0 <= k < rest.filter_map(f).len() && rest.filter_map(f)[k] == x;
        match f(s.last()) {
            Some(y) => {
                assert(s.filter_map(f) == rest.filter_map(f) + seq![y]);
                assert(s.filter_map(f)[k] == x);
            },
            None => {},
        }
    }
}

/// A name that a selection refers to is among its referenced names.
proof fn lemma_refers_to_listed(u: SelectionView, name: Seq<char>)
    requires
        refers_to(u, name),
    ensures
        referenced_names(u).contains(name),
{
    let i = choose|i: int|
        0 <= i < u.constraints.len() && crate::constraint::is_selection_comparator(#[trigger] u.constraints[i].comparator)
            && u.constraints[i].value == name;
    lemma_filter_map_has(u.constraints, referenced_name(), i);
}

/// A referenced name of a selection is a name it refers to.
proof fn lemma_listed_refers_to(u: SelectionView, name: Seq<char>)
    requires
        referenced_names(u).contains(name),
    ensures
        refers_to(u, name),
{
    u.constraints.lemma_filter_map_contains(referenced_name(), name);
    let c = choose|c: crate::emptyconstraint::ConstraintView| #[trigger] u.constraints.contains(c) && referenced_name()(c) == Some(name);
    let i = choose|i: int| 0 <= i < u.constraints.len() && u.constraints[i] == c;
    assert(crate::constraint::is_selection_comparator(u.constraints[i].comparator));
}

proof fn lemma_earliest_named(all: Seq<SelectionView>, name: Seq<char>, i: int) -> (j: int)
    requires
        0 <= i < all.len(),
        all[i].name == name,
    ensures
        0 <= j <= i,
        all[j].name == name,
        forall|k: int| 0 <= k < j ==> #[trigger] all[k].name != name,
    decreases i,
{
    if exists|k: int| 0 <= k < i && #[trigger] all[k].name == name {
        let k = choose|k: int| 0 <= k < i && #[trigger] all[k].name == name;
        lemma_earliest_named(all, name, k)
    } else {
        i
    }
}

/// Where some selection has a name, the first one with it is found.
pub proof fn lemma_first_named_exists(all: Seq<SelectionView>, name: Seq<char>)
    requires
        has_selection_named(all, name),
    ensures
        0 <= first_named_index(all, name) < all.len(),
        all[first_named_index(all, name)].name == name,
        first_named(all, name) == all[first_named_index(all, name)],
{
    let i = choose|i: int| 0 <= i < all.len() && #[trigger] all[i].name == name;
    let j = lemma_earliest_named(all, name, i);
    lemma_first_named(all, name, j);
}

/// Every name that `root`, or a marked selection, refers to is marked where
/// a selection has that name.
pub open spec fn closed(root: SelectionView, all: Seq<SelectionView>, marked: Seq<bool>) -> bool {
    &&& forall|name: Seq<char>|
        #[trigger] refers_to(root, name) && has_selection_named(all, name) ==> marked[first_named_index(all, name)]
    &&& forall|t: int, name: Seq<char>|
        0 <= t < all.len() && marked[t] && #[trigger] refers_to(all[t], name) && has_selection_named(all, name)
            ==> marked[first_named_index(all, name)]
}

/// Along a walk from `root`, a closed marking marks every selection after
/// the first.
proof fn lemma_walk_marked(root: SelectionView, all: Seq<SelectionView>, marked: Seq<bool>, p: Seq<SelectionView>, i: int)
    requires
        marked.len() == all.len(),
        is_resolved_walk(root, all, p),
        closed(root, all, marked),
        1 <= i < p.len(),
    ensures
        0 <= first_named_index(all, p[i].name) < all.len(),
        marked[first_named_index(all, p[i].name)],
        all[first_named_index(all, p[i].name)] == p[i],
    decreases i,
{
    let j = i - 1;
    assert(is_resolved_step(all, p[j], p[j + 1]));
    let k = choose|k: int| 0 <= k < all.len() && all[k] == p[i];
    assert(has_selection_named(all, p[i].name)) by {
        assert(all[k].name == p[i].name);
    }
    lemma_first_named_exists(all, p[i].name);
    if i == 1 {
        assert(refers_to(root, p[i].name));
    } else {
        lemma_walk_marked(root, all, marked, p, i - 1);
        let t = first_named_index(all, p[i - 1].name);
        assert(refers_to(all[t], p[i].name));
    }
}

/// `a <= b` on the text of two strings.
pub(crate) fn name_le(a: &String, b: &String) -> (r: bool)
    ensures
        r == lex_le(a@, b@),
{
    let x = chars_of(a.as_str());
    let y = chars_of(b.as_str());
    text_le(&x, &y)
}

/// Every marked selection is reached from `root` and is the first with its
/// name.
#[verifier::opaque]
spec fn marks_sound(root: SelectionView, all: Seq<SelectionView>, marked: Seq<bool>) -> bool {
    forall|t: int|
        0 <= t < all.len() && #[trigger] marked[t] ==> reaches(root, all, all[t]) && first_named_index(all, all[t].name) == t
}

/// Every pending name is one that `root` or a marked selection refers to.
#[verifier::opaque]
spec fn sources_ok(root: SelectionView, all: Seq<SelectionView>, marked: Seq<bool>, names: Seq<String>) -> bool {
    forall|m: int|
        0 <= m < names.len() ==> refers_to(root, #[trigger] names[m]@) || exists|t: int|
            0 <= t < all.len() && marked[t] && #[trigger] refers_to(all[t], names[m]@)
}

/// Every name that `root` or a marked selection refers to, where some
/// selection has it, is pending or has its first selection marked.
#[verifier::opaque]
spec fn covered(root: SelectionView, all: Seq<SelectionView>, marked: Seq<bool>, names: Seq<String>) -> bool {
    &&& forall|name: Seq<char>|
        #[trigger] refers_to(root, name) && has_selection_named(all, name) ==> listed(names, name)
            || marked[first_named_index(all, name)]
    &&& forall|t: int, name: Seq<char>|
        0 <= t < all.len() && marked[t] && #[trigger] refers_to(all[t], name) && has_selection_named(all, name)
            ==> listed(names, name) || marked[first_named_index(all, name)]
}

/// What the listing keeps true of its marks and of its pending names.
spec fn pending_ok(root: SelectionView, all: Seq<SelectionView>, marked: Seq<bool>, names: Seq<String>) -> bool {
    &&& marked.len() == all.len()
    &&& marks_sound(root, all, marked)
    &&& sources_ok(root, all, marked, names)
    &&& covered(root, all, marked, names)
}

proof fn lemma_pending_start(root: SelectionView, all: Seq<SelectionView>, marked: Seq<bool>, names: Seq<String>)
    requires
        marked.len() == all.len(),
        forall|t: int| 0 <= t < marked.len() ==> !#[trigger] marked[t],
        names.map_values(|s: String| s@) == referenced_names(root),
    ensures
        pending_ok(root, all, marked, names),
{
    reveal(marks_sound);
    reveal(sources_ok);
    reveal(covered);
    assert forall|m: int| 0 <= m < names.len() implies refers_to(root, #[trigger] names[m]@) by {
        assert(referenced_names(root)[m] == names[m]@);
        lemma_listed_refers_to(root, names[m]@);
    }
    assert forall|name: Seq<char>| #[trigger] refers_to(root, name) implies listed(names, name) by {
        lemma_refers_to_listed(root, name);
        let m = choose|m: int| 0 <= m < referenced_names(root).len() && referenced_names(root)[m] == name;
        assert(names[m]@ == name);
    }
}

/// A name listed before the last pending one is still listed without it.
proof fn lemma_listed_drop_last(names0: Seq<String>, name: Seq<char>)
    requires
        names0.len() > 0,
        listed(names0, name),
        name != names0.last()@,
    ensures
        listed(names0.drop_last(), name),
{
    let m = choose|m: int| 0 <= m < names0.len() && #[trigger] names0[m]@ == name;
    assert(names0.drop_last()[m]@ == name);
}

proof fn lemma_sources_drop_last(root: SelectionView, all: Seq<SelectionView>, marked: Seq<bool>, names0: Seq<String>)
    requires
        sources_ok(root, all, marked, names0),
        names0.len() > 0,
    ensures
        sources_ok(root, all, marked, names0.drop_last()),
{
    reveal(sources_ok);
    let names = names0.drop_last();
    assert forall|m: int|
        0 <= m < names.len() implies refers_to(root, #[trigger] names[m]@) || exists|t: int|
            0 <= t < all.len() && marked[t] && #[trigger] refers_to(all[t], names[m]@) by {
        assert(names[m] == names0[m]);
    }
}

proof fn lemma_pending_skip(root: SelectionView, all: Seq<SelectionView>, marked: Seq<bool>, names0: Seq<String>)
    requires
        pending_ok(root, all, marked, names0),
        names0.len() > 0,
        has_selection_named(all, names0.last()@) ==> marked[first_named_index(all, names0.last()@)],
    ensures
        pending_ok(root, all, marked, names0.drop_last()),
{
    lemma_sources_drop_last(root, all, marked, names0);
    reveal(covered);
    let names = names0.drop_last();
    assert forall|name: Seq<char>|
        #[trigger] refers_to(root, name) && has_selection_named(all, name) implies listed(names, name)
            || marked[first_named_index(all, name)] by {
        if listed(names0, name) && name != names0.last()@ {
            lemma_listed_drop_last(names0, name);
        }
    }
    assert forall|t: int, name: Seq<char>|
        0 <= t < all.len() && marked[t] && #[trigger] refers_to(all[t], name) && has_selection_named(all, name)
            implies listed(names, name) || marked[first_named_index(all, name)] by {
        if listed(names0, name) && name != names0.last()@ {
            lemma_listed_drop_last(names0, name);
        }
    }
}

/// A walk from `root` goes on by one more reference.
proof fn lemma_extend_walk(root: SelectionView, all: Seq<SelectionView>, p0: Seq<SelectionView>, v: SelectionView)
    requires
        is_resolved_walk(root, all, p0),
        is_resolved_step(all, p0.last(), v),
    ensures
        is_resolved_walk(root, all, p0.push(v)),
{
    let p = p0.push(v);
    assert forall|i: int| 0 <= i < p.len() - 1 implies #[trigger] is_resolved_step(all, p[i], p[i + 1]) by {
        if i < p0.len() - 1 {
            assert(p[i] == p0[i] && p[i + 1] == p0[i + 1]);
            assert(is_resolved_step(all, p0[i], p0[i + 1]));
        } else {
            assert(p[i] == p0.last());
        }
    }
}

/// The selection that the last pending name resolves to is reached.
proof fn lemma_mark_reached(root: SelectionView, all: Seq<SelectionView>, marked0: Seq<bool>, names0: Seq<String>, t: int)
    requires
        marks_sound(root, all, marked0),
        sources_ok(root, all, marked0, names0),
        names0.len() > 0,
        0 <= t < all.len(),
        all[t].name == names0.last()@,
        first_named_index(all, names0.last()@) == t,
    ensures
        reaches(root, all, all[t]),
{
    reveal(marks_sound);
    reveal(sources_ok);
    let v = all[t];
    let last = names0.len() - 1;
    assert(all.contains(v)) by {
        assert(all[t] == v);
    }
    if refers_to(root, names0[last]@) {
        let p = seq![root, v];
        assert(is_resolved_step(all, p[0], p[1]));
        assert(is_resolved_walk(root, all, p));
    } else {
        let t0 = choose|t0: int| 0 <= t0 < all.len() && marked0[t0] && #[trigger] refers_to(all[t0], names0[last]@);
        let p0 = choose|p0: Seq<SelectionView>| #[trigger] is_resolved_walk(root, all, p0) && p0.len() >= 2 && p0.last() == all[t0];
        lemma_extend_walk(root, all, p0, v);
        assert(p0.push(v).last() == v);
    }
}

proof fn lemma_marks_sound_mark(root: SelectionView, all: Seq<SelectionView>, marked0: Seq<bool>, t: int)
    requires
        marks_sound(root, all, marked0),
        marked0.len() == all.len(),
        0 <= t < all.len(),
        reaches(root, all, all[t]),
        first_named_index(all, all[t].name) == t,
    ensures
        marks_sound(root, all, marked0.update(t, true)),
{
    reveal(marks_sound);
    let marked = marked0.update(t, true);
    assert forall|t2: int|
        0 <= t2 < all.len() && #[trigger] marked[t2] implies reaches(root, all, all[t2]) && first_named_index(all, all[t2].name)
            == t2 by {
        if t2 != t {
            assert(marked0[t2]);
        }
    }
}

proof fn lemma_sources_mark(
    root: SelectionView,
    all: Seq<SelectionView>,
    marked0: Seq<bool>,
    names0: Seq<String>,
    t: int,
    more: Seq<String>,
)
    requires
        sources_ok(root, all, marked0, names0),
        marked0.len() == all.len(),
        names0.len() > 0,
        0 <= t < all.len(),
        more.map_values(|s: String| s@) == referenced_names(all[t]),
    ensures
        sources_ok(root, all, marked0.update(t, true), names0.drop_last() + more),
{
    reveal(sources_ok);
    let marked = marked0.update(t, true);
    let names = names0.drop_last() + more;
    let last = names0.len() - 1;
    assert forall|m: int|
        0 <= m < names.len() implies refers_to(root, #[trigger] names[m]@) || exists|t2: int|
            0 <= t2 < all.len() && marked[t2] && #[trigger] refers_to(all[t2], names[m]@) by {
        if m < last {
            assert(names[m] == names0[m]);
            if !refers_to(root, names0[m]@) {
                let t2 = choose|t2: int| 0 <= t2 < all.len() && marked0[t2] && #[trigger] refers_to(all[t2], names0[m]@);
                assert(marked[t2]);
            }
        } else {
            let mm = m - last;
            assert(names[m] == more[mm]);
            assert(referenced_names(all[t])[mm] == more[mm]@);
            lemma_listed_refers_to(all[t], more[mm]@);
            assert(marked[t]);
        }
    }
}

proof fn lemma_covered_mark(
    root: SelectionView,
    all: Seq<SelectionView>,
    marked0: Seq<bool>,
    names0: Seq<String>,
    t: int,
    more: Seq<String>,
)
    requires
        covered(root, all, marked0, names0),
        marked0.len() == all.len(),
        names0.len() > 0,
        0 <= t < all.len(),
        first_named_index(all, names0.last()@) == t,
        more.map_values(|s: String| s@) == referenced_names(all[t]),
    ensures
        covered(root, all, marked0.update(t, true), names0.drop_last() + more),
{
    reveal(covered);
    let marked = marked0.update(t, true);
    let names = names0.drop_last() + more;
    let last = names0.len() - 1;
    let v = all[t];
    assert forall|nm: Seq<char>| listed(names0.drop_last(), nm) implies #[trigger] listed(names, nm) by {
        let m = choose|m: int| 0 <= m < last && #[trigger] names0.drop_last()[m]@ == nm;
        assert(names[m] == names0.drop_last()[m]);
        assert(names[m]@ == nm);
    }
    assert forall|nm: Seq<char>| #[trigger] refers_to(v, nm) implies listed(names, nm) by {
        lemma_refers_to_listed(v, nm);
        let mm = choose|mm: int| 0 <= mm < referenced_names(v).len() && referenced_names(v)[mm] == nm;
        assert(names[last + mm] == more[mm]);
        assert(names[last + mm]@ == nm);
    }
    assert forall|nm: Seq<char>|
        #[trigger] refers_to(root, nm) && has_selection_named(all, nm) implies listed(names, nm)
            || marked[first_named_index(all, nm)] by {
        lemma_first_named_exists(all, nm);
        if listed(names0, nm) && nm != names0.last()@ {
            lemma_listed_drop_last(names0, nm);
        }
    }
    assert forall|t2: int, nm: Seq<char>|
        0 <= t2 < all.len() && marked[t2] && #[trigger] refers_to(all[t2], nm) && has_selection_named(all, nm)
            implies listed(names, nm) || marked[first_named_index(all, nm)] by {
        lemma_first_named_exists(all, nm);
        if t2 != t {
            assert(marked0[t2]);
            if listed(names0, nm) && nm != names0.last()@ {
                lemma_listed_drop_last(names0, nm);
            }
        }
    }
}

proof fn lemma_pending_mark(
    root: SelectionView,
    all: Seq<SelectionView>,
    marked0: Seq<bool>,
    names0: Seq<String>,
    t: int,
    more: Seq<String>,
)
    requires
        pending_ok(root, all, marked0, names0),
        names0.len() > 0,
        0 <= t < all.len(),
        all[t].name == names0.last()@,
        first_named_index(all, names0.last()@) == t,
        more.map_values(|s: String| s@) == referenced_names(all[t]),
    ensures
        pending_ok(root, all, marked0.update(t, true), names0.drop_last() + more),
{
    lemma_mark_reached(root, all, marked0, names0, t);
    lemma_marks_sound_mark(root, all, marked0, t);
    lemma_sources_mark(root, all, marked0, names0, t, more);
    lemma_covered_mark(root, all, marked0, names0, t, more);
}

proof fn lemma_pending_done(root: SelectionView, all: Seq<SelectionView>, marked: Seq<bool>, names: Seq<String>)
    requires
        pending_ok(root, all, marked, names),
        names.len() == 0,
    ensures
        closed(root, all, marked),
        forall|t: int|
            0 <= t < all.len() && #[trigger] marked[t] ==> reaches(root, all, all[t]) && first_named_index(all, all[t].name) == t,
{
    reveal(marks_sound);
    reveal(covered);
}

/// The names of a list of selections.
pub open spec fn names_of(v: Seq<EmptyTownSelection>) -> Seq<Seq<char>> {
    v.map_values(|s: EmptyTownSelection| s.name@)
}

/// Each name comes before the next, and none is repeated.
pub open spec fn strictly_sorted(s: Seq<Seq<char>>) -> bool {
    forall|i: int, j: int| 0 <= i < j < s.len() ==> lex_lt(#[trigger] s[i], #[trigger] s[j])
}

pub(crate) proof fn lemma_insert_sorted(s: Seq<Seq<char>>, pos: int, x: Seq<char>)
    requires
        strictly_sorted(s),
        0 <= pos <= s.len(),
        forall|q: int| 0 <= q < pos ==> lex_le(#[trigger] s[q], x),
        pos < s.len() ==> !lex_le(s[pos], x),
        forall|q: int| 0 <= q < s.len() ==> #[trigger] s[q] != x,
    ensures
        strictly_sorted(s.insert(pos, x)),
{
    let r = s.insert(pos, x);
    if pos < s.len() {
        lemma_lex_total(s[pos], x);
    }
    assert forall|i: int, j: int| 0 <= i < j < r.len() implies lex_lt(#[trigger] r[i], #[trigger] r[j]) by {
        if j < pos {
            assert(r[i] == s[i] && r[j] == s[j]);
        } else if j == pos {
            assert(r[i] == s[i] && r[j] == x);
            assert(s[i] != x);
        } else if i < pos {
            assert(r[i] == s[i] && r[j] == s[j - 1]);
            assert(s[i] != x);
            if pos < j - 1 {
                assert(lex_lt(s[pos], s[j - 1]));
                lemma_lex_transitive(x, s[pos], s[j - 1]);
            }
            lemma_lex_transitive(s[i], x, s[j - 1]);
            assert(lex_lt(s[i], s[j - 1]));
        } else if i == pos {
            assert(r[i] == x && r[j] == s[j - 1]);
            if pos < j - 1 {
                assert(lex_lt(s[pos], s[j - 1]));
                lemma_lex_transitive(x, s[pos], s[j - 1]);
            }
            assert(s[j - 1] != x);
        } else {
            assert(r[i] == s[i - 1] && r[j] == s[j - 1]);
        }
    }
}

/// What collecting the marked selections keeps true: `out` is sorted by
/// name; entry `i` is a copy of the marked selection `src[i]`, from before
/// `t`; and every marked selection before `t` has a copy in `out`.
#[verifier::opaque]
spec fn collected(all: Seq<EmptyTownSelection>, marked: Seq<bool>, out: Seq<EmptyTownSelection>, src: Seq<int>, t: int) -> bool {
    &&& strictly_sorted(names_of(out))
    &&& src.len() == out.len()
    &&& forall|i: int|
        0 <= i < out.len() ==> 0 <= #[trigger] src[i] < t && marked[src[i]] && all[src[i]]@ == out[i]@ && all[src[i]].hidden_id@
            == out[i].hidden_id@ && all[src[i]].color == out[i].color
    &&& forall|t2: int| 0 <= t2 < t && #[trigger] marked[t2] ==> exists|i: int| 0 <= i < out.len() && #[trigger] out[i]@ == all[t2]@
}

proof fn lemma_collected_skip(all: Seq<EmptyTownSelection>, marked: Seq<bool>, out: Seq<EmptyTownSelection>, src: Seq<int>, t: int)
    requires
        collected(all, marked, out, src, t),
        0 <= t < marked.len(),
        !marked[t],
    ensures
        collected(all, marked, out, src, t + 1),
{
    reveal(collected);
}

proof fn lemma_collected_insert(
    all: Seq<EmptyTownSelection>,
    marked: Seq<bool>,
    out0: Seq<EmptyTownSelection>,
    src0: Seq<int>,
    t: int,
    pos: int,
    item: EmptyTownSelection,
)
    requires
        collected(all, marked, out0, src0, t),
        marked.len() == all.len(),
        forall|t2: int| 0 <= t2 < marked.len() && #[trigger] marked[t2] ==> first_named_index(views(all), all[t2].name@) == t2,
        0 <= t < all.len(),
        marked[t],
        item@ == all[t]@,
        item.hidden_id@ == all[t].hidden_id@,
        item.color == all[t].color,
        0 <= pos <= out0.len(),
        forall|q: int| 0 <= q < pos ==> lex_le(#[trigger] out0[q].name@, item.name@),
        pos < out0.len() ==> !lex_le(out0[pos].name@, item.name@),
    ensures
        collected(all, marked, out0.insert(pos, item), src0.insert(pos, t), t + 1),
{
    reveal(collected);
    let out = out0.insert(pos, item);
    let src = src0.insert(pos, t);
    let s = names_of(out0);
    assert forall|q: int| 0 <= q < s.len() implies #[trigger] s[q] != item.name@ by {
        let t2 = src0[q];
        assert(0 <= t2 < t && marked[t2] && all[t2]@ == out0[q]@);
        if s[q] == item.name@ {
            assert(views(all)[t2].name == views(all)[t].name);
            assert(first_named_index(views(all), all[t2].name@) == t2);
        }
    }
    assert forall|q: int| 0 <= q < pos implies lex_le(#[trigger] s[q], item.name@) by {
        assert(s[q] == out0[q].name@);
    }
    if pos < out0.len() {
        assert(s[pos] == out0[pos].name@);
    }
    lemma_insert_sorted(s, pos, item.name@);
    assert(names_of(out) =~= s.insert(pos, item.name@));
    assert forall|t2: int| 0 <= t2 < t + 1 && #[trigger] marked[t2] implies exists|i: int|
        0 <= i < out.len() && #[trigger] out[i]@ == all[t2]@ by {
        if t2 == t {
            assert(out[pos] == item);
        } else {
            let i = choose|i: int| 0 <= i < out0.len() && #[trigger] out0[i]@ == all[t2]@;
            if i < pos {
                assert(out[i] == out0[i]);
            } else {
                assert(out[i + 1] == out0[i]);
            }
        }
    }
    assert forall|i: int|
        0 <= i < out.len() implies 0 <= #[trigger] src[i] < t + 1 && marked[src[i]] && all[src[i]]@ == out[i]@
            && all[src[i]].hidden_id@ == out[i].hidden_id@ && all[src[i]].color == out[i].color by {
        if i < pos {
            assert(out[i] == out0[i]);
            assert(src[i] == src0[i]);
        } else if i > pos {
            assert(out[i] == out0[i - 1]);
            assert(src[i] == src0[i - 1]);
        }
    }
}

/// Each entry of `out` is a copy of a marked selection of `all`.
pub open spec fn copies_of_marked(all: Seq<EmptyTownSelection>, marked: Seq<bool>, out: Seq<EmptyTownSelection>) -> bool {
    forall|i: int| 0 <= i < out.len() ==> #[trigger] copies_marked(all, marked, out[i])
}

/// `b` is a copy of a marked selection of `all`: it has the name,
/// constraints, join, hidden id and color of one.
pub open spec fn copies_marked(all: Seq<EmptyTownSelection>, marked: Seq<bool>, b: EmptyTownSelection) -> bool {
    exists|t: int| 0 <= t < all.len() && marked[t] && #[trigger] is_copy(all[t], b)
}

/// `b` is a copy of one of `all`.
pub open spec fn copied_from(all: Seq<EmptyTownSelection>, b: EmptyTownSelection) -> bool {
    exists|t: int| 0 <= t < all.len() && #[trigger] is_copy(all[t], b)
}

/// `b` has the view, the hidden id and the color of `a`.
pub open spec fn is_copy(a: EmptyTownSelection, b: EmptyTownSelection) -> bool {
    &&& a@ == b@
    &&& a.hidden_id@ == b.hidden_id@
    &&& a.color == b.color
}

proof fn lemma_collected_done(all: Seq<EmptyTownSelection>, marked: Seq<bool>, out: Seq<EmptyTownSelection>, src: Seq<int>)
    requires
        collected(all, marked, out, src, all.len() as int),
        marked.len() == all.len(),
    ensures
        strictly_sorted(names_of(out)),
        copies_of_marked(all, marked, out),
        forall|t: int| 0 <= t < all.len() && #[trigger] marked[t] ==> exists|i: int| 0 <= i < out.len() && #[trigger] out[i]@ == all[t]@,
{
    reveal(collected);
    assert forall|i: int| 0 <= i < out.len() implies #[trigger] copies_marked(all, marked, out[i]) by {
        let t = src[i];
        assert(is_copy(all[t], out[i]));
    }
}

/// The marked selections, each once, sorted by name. No two marked
/// selections share a name.
fn collect_by_name(all_selections: &[EmptyTownSelection], marked: &Vec<bool>) -> (out: Vec<EmptyTownSelection>)
    requires
        marked@.len() == all_selections@.len(),
        forall|t: int|
            0 <= t < marked@.len() && #[trigger] marked@[t] ==> first_named_index(views(all_selections@), all_selections@[t].name@)
                == t,
    ensures
        strictly_sorted(names_of(out@)),
        copies_of_marked(all_selections@, marked@, out@),
        forall|t: int|
            0 <= t < all_selections@.len() && #[trigger] marked@[t] ==> exists|i: int|
                0 <= i < out@.len() && #[trigger] out@[i]@ == all_selections@[t]@,
{
    let ghost mut src: Seq<int> = Seq::empty();
    let mut out: Vec<EmptyTownSelection> = Vec::new();
    proof {
        reveal(collected);
        assert(names_of(out@) =~= Seq::<Seq<char>>::empty());
    }
    let mut t: usize = 0;
    while t < all_selections.len()
        invariant
            marked@.len() == all_selections@.len(),
            t <= all_selections@.len(),
            forall|t2: int|
                0 <= t2 < marked@.len() && #[trigger] marked@[t2] ==> first_named_index(views(all_selections@), all_selections@[t2].name@)
                    == t2,
            collected(all_selections@, marked@, out@, src, t as int),
        decreases all_selections@.len() - t,
    {
        if marked[t] {
            let item = all_selections[t].clone();
            let mut pos: usize = 0;
            while pos < out.len() && name_le(&out[pos].name, &item.name)
                invariant
                    pos <= out@.len(),
                    forall|q: int| 0 <= q < pos ==> lex_le(#[trigger] out@[q].name@, item.name@),
                decreases out@.len() - pos,
            {
                pos = pos + 1;
            }
            proof {
                lemma_collected_insert(all_selections@, marked@, out@, src, t as int, pos as int, item);
                src = src.insert(pos as int, t as int);
            }
            out.insert(pos, item);
        } else {
            proof {
                lemma_collected_skip(all_selections@, marked@, out@, src, t as int);
            }
        }
        t = t + 1;
    }
    proof {
        lemma_collected_done(all_selections@, marked@, out@, src);
    }
    out
}

impl EmptyTownSelection {
    /// Every selection that this one refers to, directly or through the
    /// selections it refers to, sorted by name. A name stands for the first
    /// selection in `all_selections` that has it; names that no selection
    /// has are passed over. Fails when following the references can go
    /// round in a circle.
    pub fn all_referenced_selections(&self, all_selections: &[EmptyTownSelection]) -> (r: Result<
        Vec<EmptyTownSelection>,
        ReferenceError,
    >)
        ensures
            r is Err <==> has_cycle_from(self@, views(all_selections@)),
            r is Ok ==> acyclic_from(self@, views(all_selections@)),
            r matches Ok(v) ==> {
                &&& strictly_sorted(names_of(v@))
                &&& forall|u: SelectionView| #[trigger] views(v@).contains(u) <==> reaches(self@, views(all_selections@), u)
                &&& forall|i: int| 0 <= i < v@.len() ==> #[trigger] copied_from(all_selections@, v@[i])
            },
    {
        if self.contains_circular_reference(all_selections) {
            return Err(ReferenceError::CircularReference);
        }
        let ghost allv = views(all_selections@);
        let ghost root = self@;
        let n = all_selections.len();
        let mut marked: Vec<bool> = Vec::new();
        while marked.len() < n
            invariant
                marked@.len() <= n,
                forall|t: int| 0 <= t < marked@.len() ==> !#[trigger] marked@[t],
            decreases n - marked@.len(),
        {
            marked.push(false);
        }
        let mut names: Vec<String> = self.directly_referenced_selection_names();
        proof {
            lemma_pending_start(root, allv, marked@, names@);
        }
        while names.len() > 0
            invariant
                allv == views(all_selections@),
                root == self@,
                n == all_selections@.len(),
                marked@.len() == n,
                pending_ok(root, allv, marked@, names@),
            decreases unmarked(marked@), names@.len(),
        {
            let ghost names0 = names@;
            let ghost marked0 = marked@;
            let name = names.pop().unwrap();
            assert(names@ =~= names0.drop_last());
            assert(names0.last() == name);
            let found = find_named(all_selections, &name);
            match found {
                Some(t) => {
                    if !marked[t] {
                        let mut more = all_selections[t].directly_referenced_selection_names();
                        let ghost more0 = more@;
                        names.append(&mut more);
                        marked.set(t, true);
                        proof {
                            assert(all_selections@[t as int]@ == allv[t as int]);
                            lemma_unmarked_mark(marked0, t as int);
                            lemma_pending_mark(root, allv, marked0, names0, t as int, more0);
                            assert(names@ =~= names0.drop_last() + more0);
                        }
                    } else {
                        proof {
                            lemma_pending_skip(root, allv, marked@, names0);
                        }
                    }
                },
                None => {
                    proof {
                        lemma_pending_skip(root, allv, marked@, names0);
                    }
                },
            }
        }
        proof {
            lemma_pending_done(root, allv, marked@, names@);
        }
        let out = collect_by_name(all_selections, &marked);
        proof {
            assert forall|u: SelectionView| #[trigger] views(out@).contains(u) implies reaches(root, allv, u) by {
                let i = choose|i: int| 0 <= i < views(out@).len() && views(out@)[i] == u;
                assert(out@[i]@ == u);
                assert(copies_marked(all_selections@, marked@, out@[i]));
                let t = choose|t: int| 0 <= t < n && marked@[t] && #[trigger] is_copy(all_selections@[t], out@[i]);
                assert(allv[t] == u);
            }
            assert forall|u: SelectionView| reaches(root, allv, u) implies #[trigger] views(out@).contains(u) by {
                let p = choose|p: Seq<SelectionView>| #[trigger] is_resolved_walk(root, allv, p) && p.len() >= 2 && p.last() == u;
                lemma_walk_marked(root, allv, marked@, p, p.len() - 1);
                let t = first_named_index(allv, u.name);
                assert(all_selections@[t]@ == allv[t]);
                let i = choose|i: int| 0 <= i < out@.len() && #[trigger] out@[i]@ == all_selections@[t]@;
                assert(views(out@)[i] == u);
            }
            assert forall|i: int| 0 <= i < out@.len() implies #[trigger] copied_from(all_selections@, out@[i]) by {
                assert(copies_marked(all_selections@, marked@, out@[i]));
                let t = choose|t: int| 0 <= t < n && marked@[t] && #[trigger] is_copy(all_selections@[t], out@[i]);
                assert(is_copy(all_selections@[t], out@[i]));
            }
        }
        Ok(out)
    }
}

} // verus!
