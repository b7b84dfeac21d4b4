//! A selection without its towns: a name, constraints and a color. This is
//! the form that is stored, compared, and followed when one selection refers
//! to another.
use std::sync::Arc;
use vstd::prelude::*;

use crate::constraint::{is_selection_comparator, Comparator, Constraint};
use crate::emptyconstraint::{ConstraintView, EmptyConstraint};
use crate::selection::{AndOr, TownSelection};
use crate::town::Town;

verus! {

/// An identifier of a selection that is not shown to the user.
#[derive(Debug, PartialEq, Eq, Hash)]
pub struct HiddenId(pub String);

impl View for HiddenId {
    type V = Seq<char>;

    open spec fn view(&self) -> Seq<char> {
        self.0@
    }
}

impl Clone for HiddenId {
    fn clone(&self) -> (r: Self)
        ensures
            r@ == self@,
    {
        HiddenId(self.0.clone())
    }
}

/// A color as red, green, blue and alpha bytes.
#[derive(Debug, Clone, Copy, PartialEq, Eq, Hash, Structural)]
pub struct Color {
    pub r: u8,
    pub g: u8,
    pub b: u8,
    pub a: u8,
}

/// What identifies a selection: its name, its constraints and their join.
/// Its hidden id and its color play no part.
pub struct SelectionView {
    pub name: Seq<char>,
    pub constraints: Seq<ConstraintView>,
    pub join: AndOr,
}

/// A selection without its towns.
#[derive(Debug)]
pub struct EmptyTownSelection {
    pub name: String,
    pub hidden_id: HiddenId,
    pub constraints: Vec<EmptyConstraint>,
    pub constraint_join_mode: AndOr,
    pub color: Color,
}

impl View for EmptyTownSelection {
    type V = SelectionView;

    open spec fn view(&self) -> SelectionView {
        SelectionView {
            name: self.name@,
            constraints: self.constraints@.map_values(|c: EmptyConstraint| c@),
            join: self.constraint_join_mode,
        }
    }
}

/// The views of a list of selections.
pub open spec fn views(all: Seq<EmptyTownSelection>) -> Seq<SelectionView> {
    all.map_values(|s: EmptyTownSelection| s@)
}

/// Whether selection `u` has a constraint that refers to the selection
/// named `name` (`InSelection` or `NotInSelection` with that value).
pub open spec fn refers_to(u: SelectionView, name: Seq<char>) -> bool {
    exists|i: int|
        0 <= i < u.constraints.len() && is_selection_comparator(#[trigger] u.constraints[i].comparator)
            && u.constraints[i].value == name
}

/// `rank` ranks the selections in `nodes`: every selection in `all` that a
/// selection in `nodes` refers to is in `nodes` as well and has a smaller
/// rank, and no rank exceeds the number of selections in `all`.
pub open spec fn ranked(all: Seq<SelectionView>, nodes: Set<SelectionView>, rank: spec_fn(SelectionView) -> nat) -> bool {
    &&& forall|u: SelectionView| #[trigger] nodes.contains(u) ==> rank(u) <= all.len()
    &&& forall|u: SelectionView, j: int|
        nodes.contains(u) && 0 <= j < all.len() && #[trigger] refers_to(u, all[j].name) ==> nodes.contains(all[j])
            && rank(all[j]) < rank(u)
}

/// Following references from `root` through `all` never comes back to a
/// selection already passed: there is a ranking that every reference
/// lowers.
pub open spec fn acyclic_from(root: SelectionView, all: Seq<SelectionView>) -> bool {
    exists|nodes: Set<SelectionView>, rank: spec_fn(SelectionView) -> nat|
        nodes.contains(root) && #[trigger] ranked(all, nodes, rank)
}

/// The position of the first selection in `all`, from position `i` on,
/// with this name; `all.len()` where there is none.
pub open spec fn first_named_from(all: Seq<SelectionView>, name: Seq<char>, i: int) -> int
    decreases all.len() - i,
{
    if i < 0 || i >= all.len() {
        all.len() as int
    } else if all[i].name == name {
        i
    } else {
        first_named_from(all, name, i + 1)
    }
}

/// The position of the first selection in `all` with this name.
pub open spec fn first_named_index(all: Seq<SelectionView>, name: Seq<char>) -> int {
    first_named_from(all, name, 0)
}

/// The first selection in `all` with this name.
pub open spec fn first_named(all: Seq<SelectionView>, name: Seq<char>) -> SelectionView {
    all[first_named_index(all, name)]
}

proof fn lemma_first_named_from(all: Seq<SelectionView>, name: Seq<char>, i: int, j: int)
    requires
        0 <= j <= i < all.len(),
        all[i].name == name,
        forall|k: int| j <= k < i ==> #[trigger] all[k].name != name,
    ensures
        first_named_from(all, name, j) == i,
    decreases i - j,
{
    if j < i {
        lemma_first_named_from(all, name, i, j + 1);
    }
}

/// The first position holding a name is the one `first_named_index` picks.
pub proof fn lemma_first_named(all: Seq<SelectionView>, name: Seq<char>, i: int)
    requires
        0 <= i < all.len(),
        all[i].name == name,
        forall|k: int| 0 <= k < i ==> #[trigger] all[k].name != name,
    ensures
        first_named_index(all, name) == i,
        first_named(all, name) == all[i],
{
    lemma_first_named_from(all, name, i, 0);
}

/// Finds the first selection with this name (`Iterator::find` on names).
#[verifier::rlimit(40)]
pub fn find_named(all_selections: &[EmptyTownSelection], name: &String) -> (r: Option<usize>)
    ensures
        match r {
            Some(i) => i < all_selections@.len() && first_named_index(views(all_selections@), name@) == i
                && views(all_selections@)[i as int].name == name@
                && first_named(views(all_selections@), name@) == views(all_selections@)[i as int]
                && forall|k: int| 0 <= k < i ==> #[trigger] views(all_selections@)[k].name != name@,
            None => forall|k: int| 0 <= k < all_selections@.len() ==> #[trigger] views(all_selections@)[k].name != name@,
        },
{
    let ghost allv = views(all_selections@);
    let mut i: usize = 0;
    while i < all_selections.len()
        invariant
            i <= all_selections@.len(),
            allv == views(all_selections@),
            forall|k: int| 0 <= k < i ==> #[trigger] allv[k].name != name@,
        decreases all_selections@.len() - i,
    {
        let found = all_selections[i].name == *name;
        assert(allv[i as int].name == all_selections@[i as int].name@);
        if found {
            proof {
                lemma_first_named(allv, name@, i as int);
            }
            return Some(i);
        }
        i = i + 1;
    }
    None
}

/// The name a constraint refers to, if its comparator refers to a selection.
pub open spec fn referenced_name() -> spec_fn(ConstraintView) -> Option<Seq<char>> {
    |c: ConstraintView| if is_selection_comparator(c.comparator) {
        Some(c.value)
    } else {
        None
    }
}

/// The names of the selections that `u` refers to, in the order of its
/// constraints.
pub open spec fn referenced_names(u: SelectionView) -> Seq<Seq<char>> {
    u.constraints.filter_map(referenced_name())
}

/// Selects the selections whose name `u` refers to.
pub open spec fn referred_by(u: SelectionView) -> spec_fn(SelectionView) -> bool {
    |v: SelectionView| refers_to(u, v.name)
}

/// A reference from `u` to `v`: `v` is one of the selections and `u` refers
/// to its name.
pub open spec fn is_edge(all: Seq<SelectionView>, u: SelectionView, v: SelectionView) -> bool {
    all.contains(v) && refers_to(u, v.name)
}

/// `p` follows references from `root` through `all`.
pub open spec fn is_walk(root: SelectionView, all: Seq<SelectionView>, p: Seq<SelectionView>) -> bool {
    &&& p.len() >= 1
    &&& p[0] == root
    &&& forall|i: int| 0 <= i < p.len() - 1 ==> #[trigger] is_edge(all, p[i], p[i + 1])
}

/// `p` follows references from `root` and comes back to a selection it
/// already passed.
pub open spec fn is_cycle_walk(root: SelectionView, all: Seq<SelectionView>, p: Seq<SelectionView>) -> bool {
    &&& p.len() >= 2
    &&& is_walk(root, all, p)
    &&& exists|k: int| 0 <= k < p.len() - 1 && p[k] == p.last()
}

/// Following references from `root` through `all` can go round in a circle.
pub open spec fn has_cycle_from(root: SelectionView, all: Seq<SelectionView>) -> bool {
    exists|p: Seq<SelectionView>| #[trigger] is_cycle_walk(root, all, p)
}

/// A ranking rules out every circle: along a walk the rank only falls.
pub proof fn lemma_ranked_no_cycle(root: SelectionView, all: Seq<SelectionView>, nodes: Set<SelectionView>, rank: spec_fn(SelectionView) -> nat)
    requires
        nodes.contains(root),
        ranked(all, nodes, rank),
    ensures
        !has_cycle_from(root, all),
{
    if has_cycle_from(root, all) {
        let p = choose|p: Seq<SelectionView>| #[trigger] is_cycle_walk(root, all, p);
        let k = choose|k: int| 0 <= k < p.len() - 1 && p[k] == p.last();
        lemma_walk_ranks(root, all, nodes, rank, p, p.len() - 1, k);
    }
}

proof fn lemma_walk_ranks(
    root: SelectionView,
    all: Seq<SelectionView>,
    nodes: Set<SelectionView>,
    rank: spec_fn(SelectionView) -> nat,
    p: Seq<SelectionView>,
    m: int,
    k: int,
)
    requires
        nodes.contains(root),
        ranked(all, nodes, rank),
        is_walk(root, all, p),
        0 <= k <= m < p.len(),
    ensures
        nodes.contains(p[m]),
        k < m ==> rank(p[m]) < rank(p[k]),
        k == m ==> rank(p[m]) == rank(p[k]),
    decreases m,
{
    if m > 0 {
        lemma_walk_ranks(root, all, nodes, rank, p, m - 1, if k == m { m - 1 } else { k });
        let i = m - 1;
        assert(is_edge(all, p[i], p[i + 1]));
        let j = choose|j: int| 0 <= j < all.len() && all[j] == p[m];
        assert(refers_to(p[m - 1], all[j].name));
    }
}

/// A view of a selection in `v` equal to `s`, compared field by field.
pub(crate) fn same_selection(a: &EmptyTownSelection, b: &EmptyTownSelection) -> (r: bool)
    ensures
        r == (a@ == b@),
{
    if !(a.name == b.name) {
        return false;
    }
    if !(a.constraint_join_mode == b.constraint_join_mode) {
        return false;
    }
    if a.constraints.len() != b.constraints.len() {
        assert(a@.constraints.len() != b@.constraints.len());
        return false;
    }
    let n = a.constraints.len();
    let mut i: usize = 0;
    while i < n
        invariant
            n == a.constraints@.len() == b.constraints@.len(),
            i <= n,
            forall|k: int| 0 <= k < i ==> #[trigger] a.constraints@[k]@ == b.constraints@[k]@,
        decreases n - i,
    {
        let x = &a.constraints[i];
        let y = &b.constraints[i];
        let same_number = match (x.number, y.number) {
            (Some(p), Some(q)) => p == q,
            (None, None) => true,
            _ => false,
        };
        if !(x.constraint_type == y.constraint_type && x.comparator == y.comparator && x.value == y.value && same_number) {
            assert(a@.constraints[i as int] != b@.constraints[i as int]);
            return false;
        }
        i = i + 1;
    }
    assert(a@.constraints =~= b@.constraints);
    true
}

/// Whether some selection in `v` has the view of `s`.
pub(crate) fn contains_selection(v: &Vec<EmptyTownSelection>, s: &EmptyTownSelection) -> (r: bool)
    ensures
        r == views(v@).contains(s@),
{
    let mut i: usize = 0;
    while i < v.len()
        invariant
            i <= v@.len(),
            forall|k: int| 0 <= k < i ==> #[trigger] views(v@)[k] != s@,
        decreases v@.len() - i,
    {
        if same_selection(&v[i], s) {
            assert(views(v@)[i as int] == s@);
            return true;
        }
        i = i + 1;
    }
    false
}

/// Every finished selection has the selections it refers to finished
/// before it.
pub open spec fn finish_order_ok(all: Seq<SelectionView>, fv: Seq<SelectionView>) -> bool {
    forall|i: int, j: int|
        0 <= i < fv.len() && 0 <= j < all.len() && #[trigger] refers_to(fv[i], all[j].name) ==> exists|k: int|
            0 <= k < i && fv[k] == all[j]
}

/// Every entry of `v` is the root or one of the selections.
pub open spec fn in_scope(root: SelectionView, all: Seq<SelectionView>, v: Seq<SelectionView>) -> bool {
    forall|i: int| 0 <= i < v.len() ==> #[trigger] v[i] == root || all.contains(v[i])
}

/// The selections that the search has neither entered nor finished.
pub open spec fn unvisited(all: Seq<SelectionView>, dv: Seq<SelectionView>, fv: Seq<SelectionView>) -> nat {
    all.to_set().difference(dv.to_set().union(fv.to_set())).len()
}

proof fn lemma_unvisited_shrinks(
    all: Seq<SelectionView>,
    dv0: Seq<SelectionView>,
    fv0: Seq<SelectionView>,
    dv1: Seq<SelectionView>,
    fv1: Seq<SelectionView>,
    x: SelectionView,
)
    requires
        dv0.to_set().union(fv0.to_set()).subset_of(dv1.to_set().union(fv1.to_set())),
        dv1.to_set().contains(x),
        !dv0.contains(x),
        !fv0.contains(x),
    ensures
        unvisited(all, dv1, fv1) <= unvisited(all, dv0, fv0),
        all.contains(x) ==> unvisited(all, dv1, fv1) < unvisited(all, dv0, fv0),
{
    broadcast use vstd::seq_lib::seq_to_set_is_finite;
    let s = all.to_set();
    let a0 = s.difference(dv0.to_set().union(fv0.to_set()));
    let a1 = s.difference(dv1.to_set().union(fv1.to_set()));
    vstd::set_lib::lemma_len_subset(a1, a0);
    if all.contains(x) {
        assert(a0.contains(x));
        assert(a1.subset_of(a0.remove(x)));
        vstd::set_lib::lemma_len_subset(a1, a0.remove(x));
    }
}

/// Depth first search for a circle of references, from `leaf_selection`
/// down. `discovered` holds the path of selections from the root to here;
/// `finished` holds the selections whose references have all been explored.
fn depth_first_search(
    all_selections: &[EmptyTownSelection],
    leaf_selection: &EmptyTownSelection,
    finished: &mut Vec<EmptyTownSelection>,
    discovered: &mut Vec<EmptyTownSelection>,
    Ghost(root): Ghost<SelectionView>,
) -> (r: bool)
    requires
        is_walk(root, views(all_selections@), views(old(discovered)@).push(leaf_selection@)),
        !views(old(discovered)@).contains(leaf_selection@),
        !views(old(finished)@).contains(leaf_selection@),
        views(old(finished)@).no_duplicates(),
        in_scope(root, views(all_selections@), views(old(finished)@)),
        leaf_selection@ == root || views(all_selections@).contains(leaf_selection@),
    ensures
        views(final(discovered)@) == views(old(discovered)@),
        views(final(finished)@).len() >= views(old(finished)@).len(),
        views(final(finished)@).take(views(old(finished)@).len() as int) == views(old(finished)@),
        forall|k: int|
            views(old(finished)@).len() <= k < views(final(finished)@).len() ==> !views(old(discovered)@).contains(
                #[trigger] views(final(finished)@)[k],
            ),
        views(final(finished)@).no_duplicates(),
        in_scope(root, views(all_selections@), views(final(finished)@)),
        r ==> has_cycle_from(root, views(all_selections@)),
        !r && finish_order_ok(views(all_selections@), views(old(finished)@)) ==> finish_order_ok(
            views(all_selections@),
            views(final(finished)@),
        ) && views(final(finished)@).contains(leaf_selection@),
    decreases unvisited(views(all_selections@), views(old(discovered)@), views(old(finished)@)),
        if views(all_selections@).contains(leaf_selection@) { 0nat } else { 1nat },
{
    let ghost allv = views(all_selections@);
    let ghost dv0 = views(discovered@);
    let ghost fv0 = views(finished@);
    let ghost path = dv0.push(leaf_selection@);
    let refs = leaf_selection.directly_referenced_selections(all_selections);
    let ghost rv = views(refs@);
    discovered.push(leaf_selection.clone());
    assert(views(discovered@) =~= path);
    let mut cycle = false;
    let mut stop = false;
    let mut i: usize = 0;
    while i < refs.len() && !stop
        invariant
            allv == views(all_selections@),
            dv0 == views(old(discovered)@),
            fv0 == views(old(finished)@),
            rv == views(refs@),
            rv == allv.filter(referred_by(leaf_selection@)),
            path == dv0.push(leaf_selection@),
            is_walk(root, allv, path),
            !dv0.contains(leaf_selection@),
            !fv0.contains(leaf_selection@),
            leaf_selection@ == root || allv.contains(leaf_selection@),
            views(discovered@) == path,
            i <= refs@.len(),
            views(finished@).len() >= fv0.len(),
            views(finished@).take(fv0.len() as int) == fv0,
            forall|k: int| fv0.len() <= k < views(finished@).len() ==> !path.contains(#[trigger] views(finished@)[k]),
            views(finished@).no_duplicates(),
            in_scope(root, allv, views(finished@)),
            stop ==> cycle,
            cycle ==> has_cycle_from(root, allv),
            !cycle && finish_order_ok(allv, fv0) ==> finish_order_ok(allv, views(finished@)) && forall|k: int|
                0 <= k < i ==> views(finished@).contains(#[trigger] rv[k]),
        decreases refs@.len() - i,
    {
        let ghost fv_now = views(finished@);
        let rs = &refs[i];
        assert(rv[i as int] == rs@);
        proof {
            allv.lemma_filter_pred(referred_by(leaf_selection@), i as int);
            allv.lemma_filter_contains_rev(referred_by(leaf_selection@), rs@);
            assert(is_edge(allv, leaf_selection@, rs@));
        }
        if contains_selection(discovered, rs) {
            proof {
                let k = choose|k: int| 0 <= k < path.len() && path[k] == rs@;
                let p = path.push(rs@);
                assert forall|m: int| 0 <= m < p.len() - 1 implies #[trigger] is_edge(allv, p[m], p[m + 1]) by {
                    if m < path.len() - 1 {
                        assert(p[m] == path[m] && p[m + 1] == path[m + 1]);
                        assert(is_edge(allv, path[m], path[m + 1]));
                    }
                }
                assert(p[k] == p.last());
                assert(is_cycle_walk(root, allv, p));
            }
            cycle = true;
            stop = true;
        } else {
            let is_finished = contains_selection(finished, rs);
            if !is_finished {
                proof {
                    let p = path.push(rs@);
                    assert forall|m: int| 0 <= m < p.len() - 1 implies #[trigger] is_edge(allv, p[m], p[m + 1]) by {
                        if m < path.len() - 1 {
                            assert(p[m] == path[m] && p[m + 1] == path[m + 1]);
                            assert(is_edge(allv, path[m], path[m + 1]));
                        }
                    }
                    assert(is_walk(root, allv, p));
                    assert forall|m: int| 0 <= m < fv0.len() implies #[trigger] fv_now.to_set().contains(fv0[m]) by {
                        assert(fv_now.take(fv0.len() as int)[m] == fv0[m]);
                        assert(fv_now[m] == fv0[m]);
                    }
                    assert forall|x: SelectionView| #[trigger] dv0.to_set().union(fv0.to_set()).contains(x) implies path.to_set().union(
                        fv_now.to_set(),
                    ).contains(x) by {
                        if dv0.contains(x) {
                            let m = choose|m: int| 0 <= m < dv0.len() && dv0[m] == x;
                            assert(path[m] == x);
                        } else {
                            let m = choose|m: int| 0 <= m < fv0.len() && fv0[m] == x;
                            assert(fv_now.to_set().contains(fv0[m]));
                        }
                    }
                    assert(dv0.to_set().union(fv0.to_set()).subset_of(path.to_set().union(fv_now.to_set())));
                    assert(path.to_set().contains(leaf_selection@)) by {
                        assert(path[path.len() - 1] == leaf_selection@);
                    }
                    lemma_unvisited_shrinks(allv, dv0, fv0, path, fv_now, leaf_selection@);
                }
                let found = depth_first_search(all_selections, rs, finished, discovered, Ghost(root));
                proof {
                    let fv_next = views(finished@);
                    assert forall|k: int| fv0.len() <= k < fv_next.len() implies !path.contains(#[trigger] fv_next[k]) by {
                        if k < fv_now.len() {
                            assert(fv_next.take(fv_now.len() as int)[k] == fv_now[k]);
                        }
                    }
                    assert(fv_next.take(fv0.len() as int) =~= fv0) by {
                        assert forall|m: int| 0 <= m < fv0.len() implies fv_next[m] == fv0[m] by {
                            assert(fv_next.take(fv_now.len() as int)[m] == fv_now[m]);
                            assert(fv_now.take(fv0.len() as int)[m] == fv0[m]);
                        }
                    }
                    if !cycle && !found && finish_order_ok(allv, fv0) {
                        assert forall|k: int| 0 <= k <= i implies fv_next.contains(#[trigger] rv[k]) by {
                            if k < i {
                                let m = choose|m: int| 0 <= m < fv_now.len() && fv_now[m] == rv[k];
                                assert(fv_next.take(fv_now.len() as int)[m] == fv_now[m]);
                                assert(fv_next[m] == rv[k]);
                            }
                        }
                    }
                }
                if found {
                    cycle = true;
                }
            } else {
                proof {
                    if !cycle && finish_order_ok(allv, fv0) {
                        assert forall|k: int| 0 <= k <= i implies fv_now.contains(#[trigger] rv[k]) by {}
                    }
                }
            }
        }
        i = i + 1;
    }
    let ghost fv_end = views(finished@);
    let ghost before_pop = discovered@;
    let _ = discovered.pop();
    assert(views(discovered@) =~= dv0) by {
        assert(discovered@ =~= before_pop.drop_last());
        assert forall|k: int| 0 <= k < dv0.len() implies views(discovered@)[k] == dv0[k] by {
            assert(views(before_pop)[k] == path[k]);
        }
    }
    finished.push(leaf_selection.clone());
    proof {
        let fv_new = views(finished@);
        assert(fv_new =~= fv_end.push(leaf_selection@));
        assert(!fv_end.contains(leaf_selection@)) by {
            if fv_end.contains(leaf_selection@) {
                let m = choose|m: int| 0 <= m < fv_end.len() && fv_end[m] == leaf_selection@;
                if m < fv0.len() {
                    assert(fv_end.take(fv0.len() as int)[m] == fv0[m]);
                } else {
                    assert(path[path.len() - 1] == leaf_selection@);
                }
            }
        }
        assert(fv_new.take(fv0.len() as int) =~= fv0) by {
            assert forall|m: int| 0 <= m < fv0.len() implies fv_new[m] == fv0[m] by {
                assert(fv_end.take(fv0.len() as int)[m] == fv0[m]);
            }
        }
        assert forall|k: int| fv0.len() <= k < fv_new.len() implies !dv0.contains(#[trigger] fv_new[k]) by {
            if k < fv_end.len() {
                assert(fv_new[k] == fv_end[k]);
                if dv0.contains(fv_end[k]) {
                    let m = choose|m: int| 0 <= m < dv0.len() && dv0[m] == fv_end[k];
                    assert(path[m] == dv0[m]);
                }
            }
        }
        assert(in_scope(root, allv, fv_new));
        if !cycle && finish_order_ok(allv, fv0) {
            assert forall|a: int, j: int|
                0 <= a < fv_new.len() && 0 <= j < allv.len() && #[trigger] refers_to(fv_new[a], allv[j].name) implies exists|k: int|
                0 <= k < a && fv_new[k] == allv[j] by {
                if a < fv_end.len() {
                    assert(fv_new[a] == fv_end[a]);
                    assert(refers_to(fv_end[a], allv[j].name));
                    let k = choose|k: int| 0 <= k < a && fv_end[k] == allv[j];
                    assert(fv_new[k] == fv_end[k]);
                } else {
                    allv.lemma_filter_contains(referred_by(leaf_selection@), j);
                    let m = choose|m: int| 0 <= m < rv.len() && rv[m] == allv[j];
                    assert(fv_end.contains(rv[m]));
                    let k = choose|k: int| 0 <= k < fv_end.len() && fv_end[k] == rv[m];
                    assert(fv_new[k] == fv_end[k]);
                }
            }
            assert(fv_new[fv_new.len() - 1] == leaf_selection@);
        }
    }
    cycle
}

impl Clone for EmptyTownSelection {
    fn clone(&self) -> (r: Self)
        ensures
            r@ == self@,
            r.hidden_id@ == self.hidden_id@,
            r.color == self.color,
    {
        let mut constraints: Vec<EmptyConstraint> = Vec::new();
        let mut i: usize = 0;
        while i < self.constraints.len()
            invariant
                i <= self.constraints@.len(),
                constraints@.len() == i,
                forall|k: int| 0 <= k < i ==> #[trigger] constraints@[k]@ == self.constraints@[k]@,
            decreases self.constraints@.len() - i,
        {
            constraints.push(self.constraints[i].clone());
            i = i + 1;
        }
        let r = EmptyTownSelection {
            name: self.name.clone(),
            hidden_id: self.hidden_id.clone(),
            constraints,
            constraint_join_mode: self.constraint_join_mode,
            color: self.color,
        };
        assert(r@.constraints =~= self@.constraints);
        r
    }
}

impl EmptyTownSelection {
    /// Whether this selection refers to the selection named `name`.
    pub fn refers_to_name(&self, name: &String) -> (r: bool)
        ensures
            r == refers_to(self@, name@),
    {
        let mut i: usize = 0;
        while i < self.constraints.len()
            invariant
                i <= self.constraints@.len(),
                forall|k: int|
                    0 <= k < i ==> !(is_selection_comparator(#[trigger] self@.constraints[k].comparator)
                        && self@.constraints[k].value == name@),
            decreases self.constraints@.len() - i,
        {
            let c = &self.constraints[i];
            assert(self@.constraints[i as int] == c@);
            if (c.comparator == Comparator::InSelection || c.comparator == Comparator::NotInSelection) && c.value == *name {
                assert(is_selection_comparator(self@.constraints[i as int].comparator) && self@.constraints[i as int].value
                    == name@);
                return true;
            }
            i = i + 1;
        }
        false
    }

    /// The names of the selections this selection refers to, in the order of
    /// its constraints.
    pub fn directly_referenced_selection_names(&self) -> (r: Vec<String>)
        ensures
            r@.map_values(|s: String| s@) == referenced_names(self@),
    {
        let ghost cs = self@.constraints;
        let mut r: Vec<String> = Vec::new();
        let mut i: usize = 0;
        while i < self.constraints.len()
            invariant
                cs == self@.constraints,
                i <= self.constraints@.len(),
                r@.map_values(|s: String| s@) == cs.take(i as int).filter_map(referenced_name()),
            decreases self.constraints@.len() - i,
        {
            let c = &self.constraints[i];
            assert(cs[i as int] == c@);
            proof {
                cs.lemma_filter_map_take_succ(referenced_name(), i as int);
            }
            if let Some(name) = c.referenced_selection() {
                r.push(name);
            }
            assert(r@.map_values(|s: String| s@) =~= cs.take(i + 1).filter_map(referenced_name()));
            i = i + 1;
        }
        assert(cs.take(i as int) =~= cs);
        r
    }

    /// The selections that this selection refers to by name, in the order of
    /// `all_selections`.
    pub fn directly_referenced_selections(&self, all_selections: &[EmptyTownSelection]) -> (r: Vec<EmptyTownSelection>)
        ensures
            views(r@) == views(all_selections@).filter(referred_by(self@)),
    {
        let ghost allv = views(all_selections@);
        let mut r: Vec<EmptyTownSelection> = Vec::new();
        let mut i: usize = 0;
        while i < all_selections.len()
            invariant
                allv == views(all_selections@),
                i <= all_selections@.len(),
                views(r@) == allv.take(i as int).filter(referred_by(self@)),
            decreases all_selections@.len() - i,
        {
            let s = &all_selections[i];
            assert(allv[i as int] == s@);
            proof {
                assert(allv.take(i + 1) =~= allv.take(i as int).push(allv[i as int]));
                allv.take(i as int).lemma_filter_push(allv[i as int], referred_by(self@));
            }
            if self.refers_to_name(&s.name) {
                r.push(s.clone());
            }
            assert(views(r@) =~= allv.take(i + 1).filter(referred_by(self@)));
            i = i + 1;
        }
        assert(allv.take(i as int) =~= allv);
        r
    }

    /// Whether following the references of this selection through
    /// `all_selections` can go round in a circle. When it cannot, the
    /// selections it reaches can be ranked so that every reference lowers
    /// the rank.
    pub fn contains_circular_reference(&self, all_selections: &[EmptyTownSelection]) -> (r: bool)
        ensures
            r == has_cycle_from(self@, views(all_selections@)),
            !r ==> acyclic_from(self@, views(all_selections@)),
    {
        let ghost allv = views(all_selections@);
        let mut discovered: Vec<EmptyTownSelection> = Vec::new();
        let mut finished: Vec<EmptyTownSelection> = Vec::new();
        assert(views(discovered@).push(self@) =~= seq![self@]);
        assert(views(finished@) =~= Seq::<SelectionView>::empty());
        let r = depth_first_search(all_selections, self, &mut finished, &mut discovered, Ghost(self@));
        proof {
            if !r {
                let fv = views(finished@);
                let nodes = fv.to_set();
                let rank = |u: SelectionView| (choose|i: int| 0 <= i < fv.len() && fv[i] == u) as nat;
                broadcast use vstd::seq_lib::seq_to_set_is_finite;
                fv.unique_seq_to_set();
                allv.lemma_cardinality_of_set();
                assert(nodes.subset_of(allv.to_set().insert(self@)));
                vstd::set_lib::lemma_len_subset(nodes, allv.to_set().insert(self@));
                assert forall|u: SelectionView| #[trigger] nodes.contains(u) implies rank(u) <= allv.len() by {
                    let i = choose|i: int| 0 <= i < fv.len() && fv[i] == u;
                }
                assert forall|u: SelectionView, j: int|
                    nodes.contains(u) && 0 <= j < allv.len() && #[trigger] refers_to(u, allv[j].name) implies nodes.contains(allv[j])
                        && rank(allv[j]) < rank(u) by {
                    let i = choose|i: int| 0 <= i < fv.len() && fv[i] == u;
                    assert(refers_to(fv[i], allv[j].name));
                    let k = choose|k: int| 0 <= k < i && fv[k] == allv[j];
                    let k2 = choose|k2: int| 0 <= k2 < fv.len() && fv[k2] == allv[j];
                    assert(k2 == k);
                }
                assert(ranked(allv, nodes, rank));
                assert(nodes.contains(self@));
                lemma_ranked_no_cycle(self@, allv, nodes, rank);
            }
        }
        r
    }

    /// A selection whose color is fully transparent does not show on the map.
    pub fn is_hidden(&self) -> (r: bool)
        ensures
            r == (self.color.a == 0),
    {
        self.color.a == 0
    }

    /// The selection in the form the side panel edits, with no towns yet and
    /// with its header open.
    pub fn fill(&self) -> (r: TownSelection)
        ensures
            r@ == self@,
            !r.collapsed,
            r.name@ == self.name@,
            r.hidden_id@ == self.hidden_id@,
            r.constraint_join_mode == self.constraint_join_mode,
            r.color == self.color,
            r.towns@.len() == 0,
            r.constraints@.len() == self.constraints@.len(),
            forall|i: int|
                0 <= i < self.constraints@.len() ==> {
                    let c = #[trigger] r.constraints@[i];
                    let d = self.constraints@[i];
                    &&& c.constraint_type == d.constraint_type
                    &&& c.comparator == d.comparator
                    &&& c.value@ == d.value@
                    &&& c.number == d.number
                    &&& c.drop_down_values is None
                },
    {
        let mut constraints: Vec<Constraint> = Vec::new();
        let mut i: usize = 0;
        while i < self.constraints.len()
            invariant
                i <= self.constraints@.len(),
                constraints@.len() == i,
                forall|k: int|
                    0 <= k < i ==> {
                        let c = #[trigger] constraints@[k];
                        let d = self.constraints@[k];
                        &&& c.constraint_type == d.constraint_type
                        &&& c.comparator == d.comparator
                        &&& c.value@ == d.value@
                        &&& c.number == d.number
                        &&& c.drop_down_values is None
                    },
            decreases self.constraints@.len() - i,
        {
            constraints.push(self.constraints[i].fill());
            i = i + 1;
        }
        let r = TownSelection {
            collapsed: false,
            hidden_id: self.hidden_id.clone(),
            name: self.name.clone(),
            constraints,
            constraint_join_mode: self.constraint_join_mode,
            color: self.color,
            towns: Arc::new(Vec::<Town>::new()),
        };
        assert(r@.constraints =~= self@.constraints);
        r
    }
}

/// Whether `c` is an ASCII letter or digit.
pub open spec fn is_ascii_alphanumeric(c: char) -> bool {
    ('A' <= c && c <= 'Z') || ('a' <= c && c <= 'z') || ('0' <= c && c <= '9')
}

/// `n` characters drawn at random from `A`-`Z`, `a`-`z` and `0`-`9`
/// (`rand::distributions::Alphanumeric` sampled with the thread's
/// generator). The contract claims only the length and the alphabet: the
/// characters themselves are chance.
#[verifier::external_body]
fn random_alphanumeric(n: usize) -> (r: String)
    ensures
        r@.len() == n,
        forall|i: int| 0 <= i < n ==> is_ascii_alphanumeric(#[trigger] r@[i]),
{
    rand::distributions::DistString::sample_string(&rand::distributions::Alphanumeric, &mut rand::thread_rng(), n)
}

impl Default for HiddenId {
    /// Six random letters and digits.
    fn default() -> (r: Self)
        ensures
            r@.len() == 6,
            forall|i: int| 0 <= i < 6 ==> is_ascii_alphanumeric(#[trigger] r@[i]),
    {
        HiddenId(random_alphanumeric(6))
    }
}

/// The color of a new selection: green.
pub open spec fn green() -> Color {
    Color { r: 0, g: 255, b: 0, a: 255 }
}

impl Default for EmptyTownSelection {
    /// A new selection: a name of six random letters and digits, a random
    /// hidden id, one default constraint, the `and` join, and green.
    fn default() -> (r: Self)
        ensures
            r.name@.len() == 6,
            forall|i: int| 0 <= i < 6 ==> is_ascii_alphanumeric(#[trigger] r.name@[i]),
            r.hidden_id@.len() == 6,
            r.constraints@.len() == 1,
            r.constraints@[0]@ == (ConstraintView {
                constraint_type: crate::constraint::ConstraintType::PlayerName,
                comparator: Comparator::Equal,
                value: Seq::empty(),
                number: None,
            }),
            r.constraint_join_mode == AndOr::And,
            r.color == green(),
    {
        let name = random_alphanumeric(6);
        let hidden_id = HiddenId::default();
        let mut constraints: Vec<EmptyConstraint> = Vec::new();
        constraints.push(EmptyConstraint::default());
        EmptyTownSelection {
            name,
            hidden_id,
            constraints,
            constraint_join_mode: AndOr::And,
            color: Color { r: 0, g: 255, b: 0, a: 255 },
        }
    }
}

/// Filling a selection and taking it back without its towns gives the
/// selection again (its name, constraints and join), with its hidden id and
/// color: the two forms convert into each other without loss.
pub proof fn lemma_fill_then_partial_clone(e: EmptyTownSelection, t: TownSelection, back: EmptyTownSelection)
    requires
        t@ == e@,
        t.hidden_id@ == e.hidden_id@,
        t.color == e.color,
        back@ == t@,
        back.hidden_id@ == t.hidden_id@,
        back.color == t.color,
    ensures
        back@ == e@,
        back.hidden_id@ == e.hidden_id@,
        back.color == e.color,
{
}

/// Following references from a selection cannot go round in a circle
/// exactly when the selections it reaches can be ranked so that every
/// reference lowers the rank: a ranking rules out every circle (and
/// `contains_circular_reference` finds a ranking wherever it finds no
/// circle).
pub proof fn lemma_acyclic_means_no_cycle(root: SelectionView, all: Seq<SelectionView>)
    requires
        acyclic_from(root, all),
    ensures
        !has_cycle_from(root, all),
{
    let (nodes, rank) = choose|nodes: Set<SelectionView>, rank: spec_fn(SelectionView) -> nat|
        nodes.contains(root) && #[trigger] ranked(all, nodes, rank);
    lemma_ranked_no_cycle(root, all, nodes, rank);
}

} // verus!
