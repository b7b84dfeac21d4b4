//! What the presenter answers the view: the towns of a selection, and the
//! values that the drop down list of a constraint offers.
use vstd::prelude::*;

use crate::constraint::{is_selection_comparator, Comparator, ConstraintType};
use crate::database::{first_by_id, towns_shown, DataTable};
use crate::emptyconstraint::{passes_selection, ConstraintView, EmptyConstraint};
use crate::emptyselection::{acyclic_from, has_cycle_from, views, EmptyTownSelection, SelectionView};
use crate::names::{is_text_type, lists_numbers, lists_texts, number_list, records, text_list};
use crate::references::ReferenceError;
use crate::selection::AndOr;
use crate::text::is_empty_text;
use crate::town::Town;

verus! {

/// Whether the presenter can answer requests.
#[derive(Debug, Clone, Copy, PartialEq, Eq, Structural)]
pub enum PresenterReady {
    /// The world was there already.
    AlwaysHasBeen,
    /// Files of the world are still on their way.
    WaitingForAPI,
    /// The world has just been built.
    NewlyReady,
}

/// Whether the presenter can answer: a loaded world always could; otherwise
/// it can as soon as every file has arrived (and the world is built then).
pub fn ready_for_requests(loaded: bool, complete: bool) -> (r: PresenterReady)
    ensures
        loaded ==> r == PresenterReady::AlwaysHasBeen,
        !loaded && !complete ==> r == PresenterReady::WaitingForAPI,
        !loaded && complete ==> r == PresenterReady::NewlyReady,
{
    if loaded {
        PresenterReady::AlwaysHasBeen
    } else if !complete {
        PresenterReady::WaitingForAPI
    } else {
        PresenterReady::NewlyReady
    }
}

/// The constraints as plain values.
pub open spec fn constraint_views(cs: Seq<EmptyConstraint>) -> Seq<ConstraintView> {
    cs.map_values(|c: EmptyConstraint| c@)
}

/// The selection with `cs` in place of its constraints.
pub open spec fn with_constraints(s: SelectionView, cs: Seq<ConstraintView>) -> SelectionView {
    SelectionView { name: s.name, constraints: cs, join: s.join }
}

/// A copy of `selection` with `constraints` in place of its own.
fn selection_with_constraints(selection: &EmptyTownSelection, constraints: &[EmptyConstraint]) -> (r: EmptyTownSelection)
    ensures
        r@ == with_constraints(selection@, constraint_views(constraints@)),
        r.hidden_id@ == selection.hidden_id@,
        r.color == selection.color,
{
    let mut cs: Vec<EmptyConstraint> = Vec::new();
    let mut i: usize = 0;
    while i < constraints.len()
        invariant
            i <= constraints@.len(),
            cs@.len() == i,
            forall|k: int| 0 <= k < i ==> #[trigger] cs@[k]@ == constraints@[k]@,
        decreases constraints@.len() - i,
    {
        cs.push(constraints[i].clone());
        i = i + 1;
    }
    let r = EmptyTownSelection {
        name: selection.name.clone(),
        hidden_id: selection.hidden_id.clone(),
        constraints: cs,
        constraint_join_mode: selection.constraint_join_mode,
        color: selection.color,
    };
    assert(r@.constraints =~= constraint_views(constraints@));
    r
}

/// The towns that pass `selection` with `constraints` in place of its own
/// constraints, as the map shows them: none without constraints; an error
/// where following its references can go round in a circle.
pub fn get_towns_for_constraints(
    db: &DataTable,
    selection: &EmptyTownSelection,
    constraints: &[EmptyConstraint],
    all_selections: &[EmptyTownSelection],
) -> (r: Result<Vec<Town>, ReferenceError>)
    ensures
        ({
            let s = with_constraints(selection@, constraint_views(constraints@));
            let allv = views(all_selections@);
            &&& r is Err <==> has_cycle_from(s, allv)
            &&& r matches Ok(v) ==> {
                &&& constraints@.len() == 0 ==> v@.len() == 0
                &&& constraints@.len() > 0 ==> v@.map_values(|t: Town| t@) == towns_shown(
                    first_by_id(db.towns@).filter(passes_selection(s, allv)),
                )
            }
        }),
{
    let this_selection = selection_with_constraints(selection, constraints);
    assert(this_selection.constraints@.len() == constraints@.len()) by {
        assert(this_selection@.constraints.len() == constraint_views(constraints@).len());
    }
    match this_selection.all_referenced_selections(all_selections) {
        Err(e) => Err(e),
        Ok(_) => Ok(db.get_towns_for_constraints(&this_selection, all_selections)),
    }
}

/// `names` is what the drop down list of this kind of constraint offers
/// for these towns.
pub open spec fn offered(names: Seq<Seq<char>>, ts: Seq<crate::world::TownRecord>, ct: ConstraintType) -> bool {
    if is_text_type(ct) {
        lists_texts(names, text_list(ts, ct))
    } else {
        lists_numbers(names, number_list(ts, ct))
    }
}

/// The values that the drop down list of a constraint of kind
/// `constraint_type` offers while `selection` has `constraints`: with the
/// `and` join, those of the towns that pass the selection (of every town
/// without constraints); with the `or` join, those of every town. An error
/// where following the references can go round in a circle.
pub fn get_names_for_constraint_with_constraints(
    db: &DataTable,
    selection: &EmptyTownSelection,
    constraint_type: ConstraintType,
    constraints: &[EmptyConstraint],
    all_selections: &[EmptyTownSelection],
) -> (r: Result<Vec<String>, ReferenceError>)
    ensures
        ({
            let s = with_constraints(selection@, constraint_views(constraints@));
            let allv = views(all_selections@);
            &&& r is Err <==> has_cycle_from(s, allv)
            &&& r matches Ok(v) ==> {
                let rv = v@.map_values(|x: String| x@);
                &&& selection.constraint_join_mode == AndOr::And ==> offered(
                    rv,
                    records(
                        if constraints@.len() == 0 {
                            db.towns@
                        } else {
                            first_by_id(db.towns@).filter(passes_selection(s, allv))
                        },
                    ),
                    constraint_type,
                )
                &&& selection.constraint_join_mode == AndOr::Or ==> offered(rv, records(db.towns@), constraint_type)
            }
        }),
{
    let this_selection = selection_with_constraints(selection, constraints);
    assert(this_selection.constraints@.len() == constraints@.len()) by {
        assert(this_selection@.constraints.len() == constraint_views(constraints@).len());
    }
    match this_selection.all_referenced_selections(all_selections) {
        Err(e) => Err(e),
        Ok(_) => {
            match selection.constraint_join_mode {
                AndOr::And => Ok(db.get_names_for_constraint_type_in_constraints(constraint_type, &this_selection, all_selections)),
                AndOr::Or => Ok(db.get_names_for_constraint_type(constraint_type)),
            }
        },
    }
}

/// The constraints that have a value.
pub open spec fn filled(cs: Seq<ConstraintView>) -> Seq<ConstraintView> {
    cs.filter(|c: ConstraintView| c.value.len() > 0)
}

/// The constraints of `selection` that have a value, in order.
pub fn filled_constraints(selection: &EmptyTownSelection) -> (r: Vec<EmptyConstraint>)
    ensures
        constraint_views(r@) == filled(selection@.constraints),
{
    let ghost cv = selection@.constraints;
    let ghost f = |c: ConstraintView| c.value.len() > 0;
    let mut r: Vec<EmptyConstraint> = Vec::new();
    let mut i: usize = 0;
    while i < selection.constraints.len()
        invariant
            cv == selection@.constraints,
            f == (|c: ConstraintView| c.value.len() > 0),
            i <= selection.constraints@.len(),
            constraint_views(r@) == cv.take(i as int).filter(f),
        decreases selection.constraints@.len() - i,
    {
        let c = &selection.constraints[i];
        proof {
            assert(cv.take(i + 1) =~= cv.take(i as int).push(cv[i as int]));
            cv.take(i as int).lemma_filter_push(cv[i as int], f);
            assert(cv[i as int] == c@);
        }
        if !is_empty_text(&c.value) {
            r.push(c.clone());
        }
        assert(constraint_views(r@) =~= cv.take(i + 1).filter(f));
        i = i + 1;
    }
    assert(cv.take(i as int) =~= cv);
    r
}

/// The towns that pass the selection with the constraints that have a
/// value, as the map shows them (none where no constraint has a value); an
/// error where following the references can go round in a circle.
pub fn towns_for_selection(db: &DataTable, selection: &EmptyTownSelection, all_selections: &[EmptyTownSelection]) -> (r: Result<
    Vec<Town>,
    ReferenceError,
>)
    ensures
        ({
            let s = with_constraints(selection@, filled(selection@.constraints));
            let allv = views(all_selections@);
            &&& r is Err <==> has_cycle_from(s, allv)
            &&& r matches Ok(v) ==> {
                &&& filled(selection@.constraints).len() == 0 ==> v@.len() == 0
                &&& filled(selection@.constraints).len() > 0 ==> v@.map_values(|t: Town| t@) == towns_shown(
                    first_by_id(db.towns@).filter(passes_selection(s, allv)),
                )
            }
        }),
{
    let constraints = filled_constraints(selection);
    get_towns_for_constraints(db, selection, constraints.as_slice(), all_selections)
}

/// The selection with one more constraint: the player name in the
/// selection named `name`.
pub open spec fn with_reference(s: SelectionView, name: Seq<char>) -> SelectionView {
    SelectionView {
        name: s.name,
        constraints: s.constraints.push(
            ConstraintView {
                constraint_type: ConstraintType::PlayerName,
                comparator: Comparator::InSelection,
                value: name,
                number: None,
            },
        ),
        join: s.join,
    }
}

/// The names of the selections that `s` can refer to: every name but its
/// own whose reference would not close a circle, in the order of `all`.
pub open spec fn selectable_names(s: SelectionView, all: Seq<SelectionView>) -> Seq<Seq<char>> {
    all.map_values(|u: SelectionView| u.name).filter(|n: Seq<char>| n != s.name && !has_cycle_from(with_reference(s, n), all))
}

/// For a constraint that refers to a selection: the names it can refer to.
/// `None` for every other constraint.
pub fn possible_ddv_selections_or(
    constraint: &EmptyConstraint,
    selection: &EmptyTownSelection,
    all_selections: &[EmptyTownSelection],
) -> (r: Option<Vec<String>>)
    ensures
        r is Some <==> is_selection_comparator(constraint.comparator),
        r matches Some(v) ==> v@.map_values(|x: String| x@) == selectable_names(selection@, views(all_selections@)),
{
    if constraint.referenced_selection().is_none() {
        return None;
    }
    let ghost allv = views(all_selections@);
    let ghost names = allv.map_values(|u: SelectionView| u.name);
    let ghost keep = |n: Seq<char>| n != selection@.name && !has_cycle_from(with_reference(selection@, n), allv);
    let mut r: Vec<String> = Vec::new();
    let mut i: usize = 0;
    while i < all_selections.len()
        invariant
            allv == views(all_selections@),
            names == allv.map_values(|u: SelectionView| u.name),
            keep == (|n: Seq<char>| n != selection@.name && !has_cycle_from(with_reference(selection@, n), allv)),
            i <= all_selections@.len(),
            r@.map_values(|x: String| x@) == names.take(i as int).filter(keep),
        decreases all_selections@.len() - i,
    {
        let name = &all_selections[i].name;
        proof {
            assert(names.take(i + 1) =~= names.take(i as int).push(names[i as int]));
            names.take(i as int).lemma_filter_push(names[i as int], keep);
            assert(names[i as int] == name@);
        }
        if !(*name == selection.name) {
            let mut test = selection.clone();
            let ghost c0 = test.constraints@;
            test.constraints.push(EmptyConstraint::new(ConstraintType::PlayerName, Comparator::InSelection, name.clone(), None));
            assert(test@ =~= with_reference(selection@, name@)) by {
                assert(test@.constraints =~= selection@.constraints.push(
                    ConstraintView {
                        constraint_type: ConstraintType::PlayerName,
                        comparator: Comparator::InSelection,
                        value: name@,
                        number: None,
                    },
                ));
            }
            if !test.contains_circular_reference(all_selections) {
                r.push(name.clone());
            }
        }
        assert(r@.map_values(|x: String| x@) =~= names.take(i + 1).filter(keep));
        i = i + 1;
    }
    assert(names.take(i as int) =~= names);
    Some(r)
}

/// Where the values of a drop down list come from.
pub enum DropDownRequest {
    /// The names of the selections that can be referred to.
    Selections(Vec<String>),
    /// The values of the towns, given these constraints of the selection.
    Names(Vec<EmptyConstraint>),
}

/// The position of the first constraint equal to `c`, from position `i` on.
pub open spec fn first_equal_from(cs: Seq<ConstraintView>, c: ConstraintView, i: int) -> int
    decreases cs.len() - i,
{
    if i < 0 || i >= cs.len() {
        cs.len() as int
    } else if cs[i] == c {
        i
    } else {
        first_equal_from(cs, c, i + 1)
    }
}

/// The position of the first constraint equal to `c`.
pub open spec fn first_equal(cs: Seq<ConstraintView>, c: ConstraintView) -> int {
    first_equal_from(cs, c, 0)
}

proof fn lemma_first_equal_from(cs: Seq<ConstraintView>, c: ConstraintView, i: int, j: int)
    requires
        0 <= j <= i < cs.len(),
        cs[i] == c,
        forall|k: int| j <= k < i ==> #[trigger] cs[k] != c,
    ensures
        first_equal_from(cs, c, j) == i,
    decreases i - j,
{
    if j < i {
        lemma_first_equal_from(cs, c, i, j + 1);
    }
}

fn same_constraint(a: &EmptyConstraint, b: &EmptyConstraint) -> (r: bool)
    ensures
        r == (a@ == b@),
{
    let same_number = match (a.number, b.number) {
        (Some(x), Some(y)) => x == y,
        (None, None) => true,
        _ => false,
    };
    a.constraint_type == b.constraint_type && a.comparator == b.comparator && a.value == b.value && same_number
}

/// Where the drop down list of `constraint` takes its values from: the
/// selections it can refer to, for a constraint that refers to a
/// selection; otherwise the values of the towns under the constraints of
/// the selection that have a value, leaving out `constraint` itself (the
/// first equal one, whose place the last one takes) where it has a value.
pub fn drop_down_request(constraint: &EmptyConstraint, selection: &EmptyTownSelection, all_selections: &[EmptyTownSelection]) -> (r:
    DropDownRequest)
    requires
        constraint.value@.len() > 0 ==> filled(selection@.constraints).contains(constraint@),
    ensures
        is_selection_comparator(constraint.comparator) ==> (r matches DropDownRequest::Selections(v)
            && v@.map_values(|x: String| x@) == selectable_names(selection@, views(all_selections@))),
        !is_selection_comparator(constraint.comparator) && constraint.value@.len() == 0 ==> (r matches DropDownRequest::Names(cs)
            && constraint_views(cs@) == filled(selection@.constraints)),
        !is_selection_comparator(constraint.comparator) && constraint.value@.len() > 0 ==> (r matches DropDownRequest::Names(cs)
            && ({
            let f = filled(selection@.constraints);
            let k = first_equal(f, constraint@);
            constraint_views(cs@) == f.update(k, f.last()).drop_last()
        })),
{
    if let Some(v) = possible_ddv_selections_or(constraint, selection, all_selections) {
        return DropDownRequest::Selections(v);
    }
    let mut others = filled_constraints(selection);
    if is_empty_text(&constraint.value) {
        return DropDownRequest::Names(others);
    }
    let ghost f = constraint_views(others@);
    let mut index: usize = 0;
    while index < others.len() && !same_constraint(&others[index], constraint)
        invariant
            f == constraint_views(others@),
            f.contains(constraint@),
            index <= others@.len(),
            forall|k: int| 0 <= k < index ==> #[trigger] f[k] != constraint@,
        decreases others@.len() - index,
    {
        index = index + 1;
    }
    proof {
        if index == others@.len() {
            let k = choose|k: int| 0 <= k < f.len() && f[k] == constraint@;
            assert(f[k] != constraint@);
        }
        assert(f[index as int] == constraint@);
        lemma_first_equal_from(f, constraint@, index as int, 0);
    }
    let _this_constraint = others.swap_remove(index);
    assert(constraint_views(others@) =~= f.update(index as int, f.last()).drop_last());
    DropDownRequest::Names(others)
}

/// The values that the drop down list of `constraint`, a constraint of
/// `selection`, offers (as `drop_down_request` says where they come from);
/// an error where following the references can go round in a circle.
pub fn drop_down_values_for_constraint(
    db: &DataTable,
    constraint: &EmptyConstraint,
    selection: &EmptyTownSelection,
    all_selections: &[EmptyTownSelection],
) -> (r: Result<Vec<String>, ReferenceError>)
    requires
        constraint.value@.len() > 0 ==> filled(selection@.constraints).contains(constraint@),
    ensures
        is_selection_comparator(constraint.comparator) ==> (r matches Ok(v) && v@.map_values(|x: String| x@)
            == selectable_names(selection@, views(all_selections@))),
        !is_selection_comparator(constraint.comparator) ==> exists|cs: Seq<EmptyConstraint>|
            {
                &&& #[trigger] constraint_views(cs) == (if constraint.value@.len() == 0 {
                    filled(selection@.constraints)
                } else {
                    let f = filled(selection@.constraints);
                    let k = first_equal(f, constraint@);
                    f.update(k, f.last()).drop_last()
                })
                &&& names_answer(db, selection, constraint.constraint_type, cs, all_selections, r)
            },
{
    match drop_down_request(constraint, selection, all_selections) {
        DropDownRequest::Selections(v) => Ok(v),
        DropDownRequest::Names(cs) => {
            let r = get_names_for_constraint_with_constraints(db, selection, constraint.constraint_type, cs.as_slice(), all_selections);
            assert(names_answer(db, selection, constraint.constraint_type, cs@, all_selections, r));
            r
        },
    }
}

/// `r` is what `get_names_for_constraint_with_constraints` answers for these
/// constraints.
pub open spec fn names_answer(
    db: &DataTable,
    selection: &EmptyTownSelection,
    constraint_type: ConstraintType,
    constraints: Seq<EmptyConstraint>,
    all_selections: &[EmptyTownSelection],
    r: Result<Vec<String>, ReferenceError>,
) -> bool {
    let s = with_constraints(selection@, constraint_views(constraints));
    let allv = views(all_selections@);
    &&& r is Err <==> has_cycle_from(s, allv)
    &&& r matches Ok(v) ==> {
        let rv = v@.map_values(|x: String| x@);
        &&& selection.constraint_join_mode == AndOr::And ==> offered(
            rv,
            records(
                if constraints.len() == 0 {
                    db.towns@
                } else {
                    first_by_id(db.towns@).filter(passes_selection(s, allv))
                },
            ),
            constraint_type,
        )
        &&& selection.constraint_join_mode == AndOr::Or ==> offered(rv, records(db.towns@), constraint_type)
    }
}

} // verus!
