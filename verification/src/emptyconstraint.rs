//! A constraint without its drop down values: the filter itself, and which
//! towns it lets through.
use std::rc::Rc;
use vstd::prelude::*;

use crate::constraint::{
    is_selection_comparator, number_comparison, text_comparison, type_type_of, Comparator,
    Constraint, ConstraintType, ConstraintTypeType,
};
use crate::database::BackendTown;
use crate::emptyselection::{
    acyclic_from, find_named, first_named, first_named_index, ranked, refers_to, views,
    EmptyTownSelection, SelectionView,
};
use crate::number::{parses_as_number, reads_as_number};
use crate::selection::AndOr;
use crate::text::{chars_of, eq_ignore_ascii_case, text_eq_ignore_ascii_case};

verus! {

/// A constraint: which attribute of a town, how it is compared, and with
/// what value.
#[derive(Debug, PartialEq, Eq, Hash, PartialOrd, Ord)]
pub struct EmptyConstraint {
    pub constraint_type: ConstraintType,
    pub comparator: Comparator,
    pub value: String,
    /// `value` read as a number: the bits of the IEEE-754 double that
    /// `str::parse::<f64>` gives for it, or `None` where that fails.
    ///
    /// Invariant that callers keep: whoever sets `value` or `number` sets
    /// the other in step with it. Reading a double takes floating point,
    /// which this library does not hold, so nothing here checks it; where
    /// the two disagree, the constraint filters by `number`, and a number
    /// constraint counts as usable only where both the text reads as a
    /// number (`reads_as_number`) and `number` is set.
    pub number: Option<u64>,
}

/// The mathematical content of a constraint.
pub struct ConstraintView {
    pub constraint_type: ConstraintType,
    pub comparator: Comparator,
    pub value: Seq<char>,
    pub number: Option<u64>,
}

impl View for EmptyConstraint {
    type V = ConstraintView;

    open spec fn view(&self) -> ConstraintView {
        ConstraintView {
            constraint_type: self.constraint_type,
            comparator: self.comparator,
            value: self.value@,
            number: self.number,
        }
    }
}

impl Clone for EmptyConstraint {
    fn clone(&self) -> (r: Self)
        ensures
            r@ == self@,
    {
        EmptyConstraint {
            constraint_type: self.constraint_type,
            comparator: self.comparator,
            value: self.value.clone(),
            number: self.number,
        }
    }
}

impl Default for EmptyConstraint {
    /// `PlayerName = ""`.
    fn default() -> (r: Self)
        ensures
            r@ == (ConstraintView {
                constraint_type: ConstraintType::PlayerName,
                comparator: Comparator::Equal,
                value: Seq::empty(),
                number: None,
            }),
    {
        EmptyConstraint {
            constraint_type: ConstraintType::PlayerName,
            comparator: Comparator::Equal,
            value: String::new(),
            number: None,
        }
    }
}

/// The three resources an island can have more or less of.
pub open spec fn is_ressource_name(s: Seq<char>) -> bool {
    ||| eq_ignore_ascii_case(s, seq!['i', 'r', 'o', 'n'])
    ||| eq_ignore_ascii_case(s, seq!['s', 't', 'o', 'n', 'e'])
    ||| eq_ignore_ascii_case(s, seq!['w', 'o', 'o', 'd'])
}

/// Whether some selection in `all` has this name.
pub open spec fn has_selection_named(all: Seq<SelectionView>, name: Seq<char>) -> bool {
    exists|i: int| 0 <= i < all.len() && #[trigger] all[i].name == name
}

/// Whether the value of a constraint can be used: text always, numbers
/// where the text reads as a number for `str::parse::<f64>` (and `number`
/// holds what it reads as, which it always does where it is kept in step
/// with the text), resources name one of the three resources (ignoring
/// case), and selection comparators name a selection.
#[verifier::opaque]
pub open spec fn valid_input(c: ConstraintView, all: Seq<SelectionView>) -> bool {
    match type_type_of(c.constraint_type, c.comparator) {
        ConstraintTypeType::StringLike => true,
        ConstraintTypeType::Number => reads_as_number(c.value) && c.number is Some,
        ConstraintTypeType::IslandRessource => is_ressource_name(c.value),
        ConstraintTypeType::Selection => has_selection_named(all, c.value),
    }
}

impl EmptyConstraint {
    /// A constraint from its parts; `number` is what `str::parse::<f64>`
    /// reads from `value`, as bits (see the field).
    pub fn new(constraint_type: ConstraintType, comparator: Comparator, value: String, number: Option<u64>) -> (r: Self)
        ensures
            r.constraint_type == constraint_type,
            r.comparator == comparator,
            r.value == value,
            r.number == number,
    {
        EmptyConstraint { constraint_type, comparator, value, number }
    }

    /// The constraint with no drop down values yet.
    pub fn fill(&self) -> (r: Constraint)
        ensures
            r@ == self@,
            r.constraint_type == self.constraint_type,
            r.comparator == self.comparator,
            r.value@ == self.value@,
            r.number == self.number,
            r.drop_down_values is None,
    {
        Constraint {
            constraint_type: self.constraint_type,
            comparator: self.comparator,
            value: self.value.clone(),
            number: self.number,
            drop_down_values: None,
        }
    }

    /// The name of the selection that this constraint refers to, if its
    /// comparator refers to one.
    pub fn referenced_selection(&self) -> (r: Option<String>)
        ensures
            match r {
                Some(name) => is_selection_comparator(self.comparator) && name@ == self.value@,
                None => !is_selection_comparator(self.comparator),
            },
    {
        match self.comparator {
            Comparator::LessThan | Comparator::Equal | Comparator::GreaterThan | Comparator::NotEqual => None,
            Comparator::InSelection | Comparator::NotInSelection => Some(self.value.clone()),
        }
    }

    /// Whether the value of this constraint can be used (see `valid_input`).
    pub fn has_valid_input(&self, all_selections: &[EmptyTownSelection]) -> (r: bool)
        ensures
            r == valid_input(self@, views(all_selections@)),
    {
        reveal(valid_input);
        let constraint_type_type = ConstraintTypeType::from(self);
        match constraint_type_type {
            ConstraintTypeType::StringLike => true,
            ConstraintTypeType::Number => parses_as_number(self.value.as_str()) && self.number.is_some(),
            ConstraintTypeType::IslandRessource => {
                let v = chars_of(self.value.as_str());
                let iron = vec!['i', 'r', 'o', 'n'];
                let stone = vec!['s', 't', 'o', 'n', 'e'];
                let wood = vec!['w', 'o', 'o', 'd'];
                text_eq_ignore_ascii_case(&v, &iron) || text_eq_ignore_ascii_case(&v, &stone)
                    || text_eq_ignore_ascii_case(&v, &wood)
            },
            ConstraintTypeType::Selection => {
                let ghost allv = views(all_selections@);
                let mut i: usize = 0;
                while i < all_selections.len()
                    invariant
                        i <= all_selections@.len(),
                        allv == views(all_selections@),
                        type_type_of(self.constraint_type, self.comparator) == ConstraintTypeType::Selection,
                        forall|k: int| 0 <= k < i ==> allv[k].name != self.value@,
                    decreases all_selections@.len() - i,
                {
                    if all_selections[i].name == self.value {
                        assert(allv[i as int].name == self.value@);
                        assert(has_selection_named(allv, self.value@));
                        proof {
                            reveal(valid_input);
                        }
                        return true;
                    }
                    i = i + 1;
                }
                proof {
                    reveal(valid_input);
                }
                false
            },
        }
    }
}

/// A second handle on the same value (`Rc::clone`).
#[verifier::external_body]
pub(crate) fn rc_clone<T>(r: &Rc<T>) -> (c: Rc<T>)
    ensures
        c == *r,
{
    Rc::clone(r)
}

/// Whether the attribute of town `t` that `c` looks at compares with the
/// value of `c` as `c` asks (for the comparators that do not refer to a
/// selection). Towns without an owner fail every player and alliance test,
/// except that a player id test with an empty value lets them through.
#[verifier::opaque]
pub open spec fn field_matches(t: BackendTown, c: ConstraintView) -> bool {
    let n = c.number.unwrap();
    let how = c.comparator;
    match c.constraint_type {
        ConstraintType::PlayerID => match t.player {
            Some(p) => number_comparison(how, p.0 as int, n),
            None => c.value.len() == 0,
        },
        ConstraintType::PlayerName => match t.player {
            Some(p) => text_comparison(how, p.1.name@, c.value),
            None => false,
        },
        ConstraintType::PlayerPoints => match t.player {
            Some(p) => number_comparison(how, p.1.points as int, n),
            None => false,
        },
        ConstraintType::PlayerRank => match t.player {
            Some(p) => number_comparison(how, p.1.rank as int, n),
            None => false,
        },
        ConstraintType::PlayerTowns => match t.player {
            Some(p) => number_comparison(how, p.1.towns as int, n),
            None => false,
        },
        ConstraintType::AllianceName => match t.player {
            Some(p) => match p.1.alliance {
                Some(a) => text_comparison(how, a.1.name@, c.value),
                None => false,
            },
            None => false,
        },
        ConstraintType::AlliancePoints => match t.player {
            Some(p) => match p.1.alliance {
                Some(a) => number_comparison(how, a.1.points as int, n),
                None => false,
            },
            None => false,
        },
        ConstraintType::AllianceTowns => match t.player {
            Some(p) => match p.1.alliance {
                Some(a) => number_comparison(how, a.1.towns as int, n),
                None => false,
            },
            None => false,
        },
        ConstraintType::AllianceMembers => match t.player {
            Some(p) => match p.1.alliance {
                Some(a) => number_comparison(how, a.1.members as int, n),
                None => false,
            },
            None => false,
        },
        ConstraintType::AllianceRank => match t.player {
            Some(p) => match p.1.alliance {
                Some(a) => number_comparison(how, a.1.rank as int, n),
                None => false,
            },
            None => false,
        },
        ConstraintType::TownID => number_comparison(how, t.id as int, n),
        ConstraintType::TownName => text_comparison(how, t.name@, c.value),
        ConstraintType::TownPoints => number_comparison(how, t.points as int, n),
        ConstraintType::IslandID => number_comparison(how, t.island.2.id as int, n),
        ConstraintType::IslandX => number_comparison(how, t.island.0 as int, n),
        ConstraintType::IslandY => number_comparison(how, t.island.1 as int, n),
        ConstraintType::IslandType => number_comparison(how, t.island.2.typ as int, n),
        ConstraintType::IslandTowns => number_comparison(how, t.island.2.towns as int, n),
        ConstraintType::IslandResMore => text_comparison(how, t.island.2.ressource_plus@, c.value),
        ConstraintType::IslandResLess => text_comparison(how, t.island.2.ressource_minus@, c.value),
    }
}

/// Whether town `t` passes selection `sel`, following references to other
/// selections at most `fuel` levels deep. If a constraint with a value is
/// unusable no town passes; otherwise the usable constraints are joined
/// with `and` or `or`.
pub open spec fn selection_matches_fuel(t: BackendTown, sel: SelectionView, all: Seq<SelectionView>, fuel: nat) -> bool
    decreases fuel, 0nat,
{
    if fuel == 0 {
        false
    } else {
        let cs = sel.constraints;
        if !(forall|i: int| 0 <= i < cs.len() && cs[i].value.len() > 0 ==> valid_input(#[trigger] cs[i], all)) {
            false
        } else if sel.join == AndOr::And {
            forall|i: int|
                0 <= i < cs.len() && valid_input(#[trigger] cs[i], all) ==> constraint_matches_fuel(t, cs[i], all, (fuel - 1) as nat)
        } else {
            exists|i: int|
                0 <= i < cs.len() && valid_input(#[trigger] cs[i], all) && constraint_matches_fuel(t, cs[i], all, (fuel - 1) as nat)
        }
    }
}

/// Whether town `t` passes the usable constraint `c`: the selection
/// comparators ask whether `t` passes the first selection of that name.
pub open spec fn constraint_matches_fuel(t: BackendTown, c: ConstraintView, all: Seq<SelectionView>, fuel: nat) -> bool
    decreases fuel, 1nat,
{
    if c.comparator == Comparator::InSelection {
        selection_matches_fuel(t, first_named(all, c.value), all, fuel)
    } else if c.comparator == Comparator::NotInSelection {
        !selection_matches_fuel(t, first_named(all, c.value), all, fuel)
    } else {
        field_matches(t, c)
    }
}

/// Each kind of constraint that does not refer to a selection tests the
/// attribute it is named after, and no other: the owner's id, name,
/// points, rank or town count; the owner's alliance's name, points, town
/// count, member count or rank; the town's id, name or points; its
/// island's id, coordinates, type, town count or resources. A town without
/// an owner (or whose owner has no alliance) fails the owner's (or the
/// alliance's) tests, except that a player id test with an empty value
/// lets it through.
pub proof fn lemma_constraint_tests_its_attribute(t: BackendTown, c: ConstraintView, all: Seq<SelectionView>)
    requires
        !is_selection_comparator(c.comparator),
    ensures
        c.constraint_type == ConstraintType::PlayerID && c.number is Some ==> (constraint_matches(t, c, all) == match t.player {
            Some(p) => number_comparison(c.comparator, p.0 as int, c.number->0),
            None => c.value.len() == 0,
        }),
        c.constraint_type == ConstraintType::PlayerPoints && c.number is Some ==> (constraint_matches(t, c, all) == (t.player matches Some(p) && number_comparison(c.comparator, p.1.points as int, c.number->0))),
        c.constraint_type == ConstraintType::PlayerRank && c.number is Some ==> (constraint_matches(t, c, all) == (t.player matches Some(p) && number_comparison(c.comparator, p.1.rank as int, c.number->0))),
        c.constraint_type == ConstraintType::PlayerTowns && c.number is Some ==> (constraint_matches(t, c, all) == (t.player matches Some(p) && number_comparison(c.comparator, p.1.towns as int, c.number->0))),
        c.constraint_type == ConstraintType::AlliancePoints && c.number is Some ==> (constraint_matches(t, c, all) == (t.player matches Some(p) && p.1.alliance matches Some(a) && number_comparison(c.comparator, a.1.points as int, c.number->0))),
        c.constraint_type == ConstraintType::AllianceTowns && c.number is Some ==> (constraint_matches(t, c, all) == (t.player matches Some(p) && p.1.alliance matches Some(a) && number_comparison(c.comparator, a.1.towns as int, c.number->0))),
        c.constraint_type == ConstraintType::AllianceMembers && c.number is Some ==> (constraint_matches(t, c, all) == (t.player matches Some(p) && p.1.alliance matches Some(a) && number_comparison(c.comparator, a.1.members as int, c.number->0))),
        c.constraint_type == ConstraintType::AllianceRank && c.number is Some ==> (constraint_matches(t, c, all) == (t.player matches Some(p) && p.1.alliance matches Some(a) && number_comparison(c.comparator, a.1.rank as int, c.number->0))),
        c.constraint_type == ConstraintType::TownID && c.number is Some ==> (constraint_matches(t, c, all) == number_comparison(c.comparator, t.id as int, c.number->0)),
        c.constraint_type == ConstraintType::TownPoints && c.number is Some ==> (constraint_matches(t, c, all) == number_comparison(c.comparator, t.points as int, c.number->0)),
        c.constraint_type == ConstraintType::IslandID && c.number is Some ==> (constraint_matches(t, c, all) == number_comparison(c.comparator, t.island.2.id as int, c.number->0)),
        c.constraint_type == ConstraintType::IslandX && c.number is Some ==> (constraint_matches(t, c, all) == number_comparison(c.comparator, t.island.0 as int, c.number->0)),
        c.constraint_type == ConstraintType::IslandY && c.number is Some ==> (constraint_matches(t, c, all) == number_comparison(c.comparator, t.island.1 as int, c.number->0)),
        c.constraint_type == ConstraintType::IslandType && c.number is Some ==> (constraint_matches(t, c, all) == number_comparison(c.comparator, t.island.2.typ as int, c.number->0)),
        c.constraint_type == ConstraintType::IslandTowns && c.number is Some ==> (constraint_matches(t, c, all) == number_comparison(c.comparator, t.island.2.towns as int, c.number->0)),
        c.constraint_type == ConstraintType::PlayerName ==> (constraint_matches(t, c, all) == (t.player matches Some(p) && text_comparison(c.comparator, p.1.name@, c.value))),
        c.constraint_type == ConstraintType::AllianceName ==> (constraint_matches(t, c, all) == (t.player matches Some(p) && p.1.alliance matches Some(a) && text_comparison(c.comparator, a.1.name@, c.value))),
        c.constraint_type == ConstraintType::TownName ==> (constraint_matches(t, c, all) == text_comparison(c.comparator, t.name@, c.value)),
        c.constraint_type == ConstraintType::IslandResMore ==> (constraint_matches(t, c, all) == text_comparison(c.comparator, t.island.2.ressource_plus@, c.value)),
        c.constraint_type == ConstraintType::IslandResLess ==> (constraint_matches(t, c, all) == text_comparison(c.comparator, t.island.2.ressource_minus@, c.value)),
{
    reveal(field_matches);
}

/// How the joins combine constraints: of the same constraints, with at
/// least one usable, a town that passes them joined with `and` passes
/// them joined with `or`; and with a single usable constraint both joins
/// pass exactly the towns that pass that constraint.
pub proof fn lemma_join_laws(t: BackendTown, name: Seq<char>, cs: Seq<ConstraintView>, all: Seq<SelectionView>)
    ensures
        ({
            let and_sel = SelectionView { name, constraints: cs, join: AndOr::And };
            let or_sel = SelectionView { name, constraints: cs, join: AndOr::Or };
            &&& (exists|i: int| 0 <= i < cs.len() && valid_input(#[trigger] cs[i], all)) && selection_matches(t, and_sel, all)
                ==> selection_matches(t, or_sel, all)
            &&& cs.len() == 1 && valid_input(cs[0], all) ==> {
                &&& selection_matches(t, and_sel, all) == constraint_matches_fuel(t, cs[0], all, all.len())
                &&& selection_matches(t, or_sel, all) == constraint_matches_fuel(t, cs[0], all, all.len())
            }
        }),
{
    let and_sel = SelectionView { name, constraints: cs, join: AndOr::And };
    let or_sel = SelectionView { name, constraints: cs, join: AndOr::Or };
    if exists|i: int| 0 <= i < cs.len() && valid_input(#[trigger] cs[i], all) {
        let i = choose|i: int| 0 <= i < cs.len() && valid_input(#[trigger] cs[i], all);
        if selection_matches(t, and_sel, all) {
            assert(constraint_matches_fuel(t, cs[i], all, all.len()));
        }
    }
}

/// "Not in selection" passes exactly the towns that "in selection" with
/// the same selection name fails, and "in selection" passes exactly the
/// towns that pass the first selection of that name.
pub proof fn lemma_in_selection_laws(t: BackendTown, c: ConstraintView, all: Seq<SelectionView>)
    requires
        c.comparator == Comparator::InSelection,
    ensures
        constraint_matches(t, ConstraintView { comparator: Comparator::NotInSelection, ..c }, all) == !constraint_matches(t, c, all),
        constraint_matches(t, c, all) == selection_matches_fuel(t, first_named(all, c.value), all, all.len() + 1),
{
}

/// Whether town `t` passes selection `sel` among the selections `all`.
pub open spec fn selection_matches(t: BackendTown, sel: SelectionView, all: Seq<SelectionView>) -> bool {
    selection_matches_fuel(t, sel, all, all.len() + 1)
}

/// Whether town `t` passes the usable constraint `c` among the selections `all`.
pub open spec fn constraint_matches(t: BackendTown, c: ConstraintView, all: Seq<SelectionView>) -> bool {
    constraint_matches_fuel(t, c, all, all.len() + 1)
}

/// The attribute test of a constraint whose comparator does not refer to a
/// selection.
fn field_matches_exec(c: &EmptyConstraint, t: &BackendTown) -> (r: bool)
    requires
        !is_selection_comparator(c.comparator),
        type_type_of(c.constraint_type, c.comparator) == ConstraintTypeType::Number ==> c.number is Some,
    ensures
        r == field_matches(*t, c@),
{
    reveal(field_matches);
    let how = c.comparator;
    match c.constraint_type {
        ConstraintType::PlayerID => match &t.player {
            Some(p) => how.compare_number(p.0, c.number.unwrap()),
            None => chars_of(c.value.as_str()).len() == 0,
        },
        ConstraintType::PlayerName => match &t.player {
            Some(p) => how.compare_text(&p.1.name, &c.value),
            None => false,
        },
        ConstraintType::PlayerPoints => match &t.player {
            Some(p) => how.compare_number(p.1.points, c.number.unwrap()),
            None => false,
        },
        ConstraintType::PlayerRank => match &t.player {
            Some(p) => how.compare_number(p.1.rank as u32, c.number.unwrap()),
            None => false,
        },
        ConstraintType::PlayerTowns => match &t.player {
            Some(p) => how.compare_number(p.1.towns as u32, c.number.unwrap()),
            None => false,
        },
        ConstraintType::AllianceName => match &t.player {
            Some(p) => match &p.1.alliance {
                Some(a) => how.compare_text(&a.1.name, &c.value),
                None => false,
            },
            None => false,
        },
        ConstraintType::AlliancePoints => match &t.player {
            Some(p) => match &p.1.alliance {
                Some(a) => how.compare_number(a.1.points, c.number.unwrap()),
                None => false,
            },
            None => false,
        },
        ConstraintType::AllianceTowns => match &t.player {
            Some(p) => match &p.1.alliance {
                Some(a) => how.compare_number(a.1.towns, c.number.unwrap()),
                None => false,
            },
            None => false,
        },
        ConstraintType::AllianceMembers => match &t.player {
            Some(p) => match &p.1.alliance {
                Some(a) => how.compare_number(a.1.members as u32, c.number.unwrap()),
                None => false,
            },
            None => false,
        },
        ConstraintType::AllianceRank => match &t.player {
            Some(p) => match &p.1.alliance {
                Some(a) => how.compare_number(a.1.rank as u32, c.number.unwrap()),
                None => false,
            },
            None => false,
        },
        ConstraintType::TownID => how.compare_number(t.id, c.number.unwrap()),
        ConstraintType::TownName => how.compare_text(&t.name, &c.value),
        ConstraintType::TownPoints => how.compare_number(t.points as u32, c.number.unwrap()),
        ConstraintType::IslandID => how.compare_number(t.island.2.id, c.number.unwrap()),
        ConstraintType::IslandX => how.compare_number(t.island.0 as u32, c.number.unwrap()),
        ConstraintType::IslandY => how.compare_number(t.island.1 as u32, c.number.unwrap()),
        ConstraintType::IslandType => how.compare_number(t.island.2.typ as u32, c.number.unwrap()),
        ConstraintType::IslandTowns => how.compare_number(t.island.2.towns as u32, c.number.unwrap()),
        ConstraintType::IslandResMore => how.compare_text(&t.island.2.ressource_plus, &c.value),
        ConstraintType::IslandResLess => how.compare_text(&t.island.2.ressource_minus, &c.value),
    }
}

/// Whether town `t` passes the usable selection constraint `c`, given a
/// ranking in which every selection named by `c` lies below `bound`.
fn selection_constraint_holds(
    c: &EmptyConstraint,
    t: &BackendTown,
    all_selections: &[EmptyTownSelection],
    Ghost(nodes): Ghost<Set<SelectionView>>,
    Ghost(rank): Ghost<spec_fn(SelectionView) -> nat>,
    Ghost(bound): Ghost<nat>,
) -> (r: bool)
    requires
        is_selection_comparator(c.comparator),
        valid_input(c@, views(all_selections@)),
        ranked(views(all_selections@), nodes, rank),
        forall|j: int|
            0 <= j < all_selections@.len() && #[trigger] views(all_selections@)[j].name == c.value@
                && (forall|k: int| 0 <= k < j ==> views(all_selections@)[k].name != c.value@)
                ==> nodes.contains(views(all_selections@)[j]) && rank(views(all_selections@)[j]) < bound,
    ensures
        forall|f: nat| f >= bound ==> r == #[trigger] constraint_matches_fuel(*t, c@, views(all_selections@), f),
    decreases bound, 0nat,
{
    let ghost allv = views(all_selections@);
    proof {
        reveal(valid_input);
    }
    let idx = find_named(all_selections, &c.value);
    let i = match idx {
        Some(i) => i,
        None => {
            assert(false);
            0
        },
    };
    let sel = &all_selections[i];
    assert(allv[i as int] == sel@);
    assert(allv[i as int].name == c.value@);
    assert(first_named(allv, c.value@) == sel@);
    let inner = town_in_selection(t, sel, all_selections, Ghost(nodes), Ghost(rank));
    let r = if c.comparator == Comparator::InSelection {
        inner
    } else {
        !inner
    };
    assert forall|f: nat| f >= bound implies #[trigger] constraint_matches_fuel(*t, c@, allv, f) == r by {
        assert(rank(sel@) < bound);
        assert(selection_matches_fuel(*t, sel@, allv, f) == inner);
    }
    r
}

/// Whether town `t` passes selection `sel`, given a ranking that holds `sel`.
fn town_in_selection(
    t: &BackendTown,
    sel: &EmptyTownSelection,
    all_selections: &[EmptyTownSelection],
    Ghost(nodes): Ghost<Set<SelectionView>>,
    Ghost(rank): Ghost<spec_fn(SelectionView) -> nat>,
) -> (r: bool)
    requires
        ranked(views(all_selections@), nodes, rank),
        nodes.contains(sel@),
    ensures
        forall|f: nat| f > rank(sel@) ==> r == #[trigger] selection_matches_fuel(*t, sel@, views(all_selections@), f),
    decreases rank(sel@), 1nat,
{
    let ghost allv = views(all_selections@);
    let ghost cs = sel@.constraints;
    let n = sel.constraints.len();
    assert(cs.len() == n);
    // a constraint with a value that cannot be used makes the selection empty
    let mut i: usize = 0;
    while i < n
        invariant
            n == sel.constraints@.len(),
            cs == sel@.constraints,
            allv == views(all_selections@),
            i <= n,
            forall|k: int| 0 <= k < i && cs[k].value.len() > 0 ==> valid_input(#[trigger] cs[k], allv),
        decreases n - i,
    {
        let c = &sel.constraints[i];
        assert(cs[i as int] == c@);
        if chars_of(c.value.as_str()).len() > 0 && !c.has_valid_input(all_selections) {
            proof {
                assert forall|f: nat| f > rank(sel@) implies !#[trigger] selection_matches_fuel(*t, sel@, allv, f) by {
                    assert(cs[i as int].value.len() > 0 && !valid_input(cs[i as int], allv));
                }
            }
            return false;
        }
        i = i + 1;
    }
    let and = sel.constraint_join_mode == AndOr::And;
    let mut j: usize = 0;
    while j < n
        invariant
            n == sel.constraints@.len(),
            cs == sel@.constraints,
            allv == views(all_selections@),
            j <= n,
            ranked(allv, nodes, rank),
            nodes.contains(sel@),
            and == (sel@.join == AndOr::And),
            forall|k: int| 0 <= k < n && cs[k].value.len() > 0 ==> valid_input(#[trigger] cs[k], allv),
            forall|k: int, f: nat|
                0 <= k < j && f > rank(sel@) && valid_input(cs[k], allv) ==> (#[trigger] constraint_matches_fuel(
                    *t,
                    cs[k],
                    allv,
                    (f - 1) as nat,
                ) == and),
        decreases n - j,
    {
        let c = &sel.constraints[j];
        assert(cs[j as int] == c@);
        if c.has_valid_input(all_selections) {
            let holds = if c.comparator == Comparator::InSelection || c.comparator == Comparator::NotInSelection {
                proof {
                    assert forall|m: int|
                        0 <= m < all_selections@.len() && #[trigger] allv[m].name == c.value@ implies nodes.contains(allv[m])
                            && rank(allv[m]) < rank(sel@) by {
                        assert(refers_to(sel@, allv[m].name)) by {
                            assert(is_selection_comparator(sel@.constraints[j as int].comparator));
                        }
                    }
                }
                selection_constraint_holds(c, t, all_selections, Ghost(nodes), Ghost(rank), Ghost(rank(sel@)))
            } else {
                proof {
                    reveal(valid_input);
                }
                field_matches_exec(c, t)
            };
            if holds != and {
                proof {
                    assert forall|f: nat| f > rank(sel@) implies #[trigger] selection_matches_fuel(*t, sel@, allv, f) == !and by {
                        assert(constraint_matches_fuel(*t, cs[j as int], allv, (f - 1) as nat) == !and);
                    }
                }
                return !and;
            }
        }
        j = j + 1;
    }
    proof {
        assert forall|f: nat| f > rank(sel@) implies #[trigger] selection_matches_fuel(*t, sel@, allv, f) == and by {
            assert(f >= 1);
            assert(forall|k: int| 0 <= k < n && valid_input(#[trigger] cs[k], allv) ==> constraint_matches_fuel(*t, cs[k], allv, (f - 1) as nat) == and);
            if !and {
                if exists|k: int|
                    0 <= k < cs.len() && valid_input(#[trigger] cs[k], allv) && constraint_matches_fuel(*t, cs[k], allv, (f - 1) as nat) {
                    let k = choose|k: int|
                        0 <= k < cs.len() && valid_input(#[trigger] cs[k], allv) && constraint_matches_fuel(*t, cs[k], allv, (f - 1) as nat);
                    assert(constraint_matches_fuel(*t, cs[k], allv, (f - 1) as nat) == and);
                }
            }
        }
    }
    and
}

/// Selects the towns that pass selection `sel`.
pub open spec fn passes_selection(sel: SelectionView, all: Seq<SelectionView>) -> spec_fn(Rc<BackendTown>) -> bool {
    |t: Rc<BackendTown>| selection_matches(*t, sel, all)
}

/// Selects the towns that pass constraint `c`.
pub open spec fn passes_constraint(c: ConstraintView, all: Seq<SelectionView>) -> spec_fn(Rc<BackendTown>) -> bool {
    |t: Rc<BackendTown>| constraint_matches(*t, c, all)
}

impl EmptyConstraint {
    /// Keeps the towns that this constraint lets through. A constraint whose
    /// value cannot be used keeps every town when constraints are joined
    /// with `and`, and none when they are joined with `or`.
    pub fn matching_towns(&self, towns: &mut Vec<Rc<BackendTown>>, all_selections: &[EmptyTownSelection], join_mode: AndOr)
        requires
            valid_input(self@, views(all_selections@)) && is_selection_comparator(self.comparator)
                ==> acyclic_from(first_named(views(all_selections@), self.value@), views(all_selections@)),
        ensures
            !valid_input(self@, views(all_selections@)) && join_mode == AndOr::And ==> final(towns)@ == old(towns)@,
            !valid_input(self@, views(all_selections@)) && join_mode == AndOr::Or ==> final(towns)@.len() == 0,
            valid_input(self@, views(all_selections@)) ==> final(towns)@ == old(towns)@.filter(
                passes_constraint(self@, views(all_selections@)),
            ),
    {
        let ghost allv = views(all_selections@);
        if !self.has_valid_input(all_selections) {
            match join_mode {
                AndOr::And => {},
                AndOr::Or => {
                    towns.clear();
                },
            }
            return ;
        }
        let is_sel = self.comparator == Comparator::InSelection || self.comparator == Comparator::NotInSelection;
        let ghost mut nodes: Set<SelectionView> = Set::empty();
        let ghost mut rank: spec_fn(SelectionView) -> nat = |s: SelectionView| 0nat;
        let ghost mut bound: nat = 0;
        if is_sel {
            proof {
                reveal(valid_input);
            }
            let idx = find_named(all_selections, &self.value);
            proof {
                if let Some(i) = idx {
                    let root = allv[i as int];
                    assert(acyclic_from(root, allv));
                    let (n0, r0) = choose|n0: Set<SelectionView>, r0: spec_fn(SelectionView) -> nat|
                        n0.contains(root) && #[trigger] ranked(allv, n0, r0);
                    nodes = n0;
                    rank = r0;
                    bound = (r0(root) + 1) as nat;
                    assert forall|j: int|
                        0 <= j < allv.len() && #[trigger] allv[j].name == self.value@
                            && (forall|k: int| 0 <= k < j ==> allv[k].name != self.value@)
                        implies nodes.contains(allv[j]) && rank(allv[j]) < bound by {
                        if j < i {
                            assert(allv[j].name != self.value@);
                        }
                        if i < j {
                            assert(allv[i as int].name != self.value@);
                        }
                    }
                } else {
                    assert(false);
                }
            }
        } else {
            proof {
                reveal(valid_input);
            }
        }
        let ghost old_towns = towns@;
        let mut kept: Vec<Rc<BackendTown>> = Vec::new();
        let mut i: usize = 0;
        while i < towns.len()
            invariant
                i <= towns@.len(),
                towns@ == old_towns,
                allv == views(all_selections@),
                valid_input(self@, allv),
                is_sel == is_selection_comparator(self.comparator),
                is_sel ==> ranked(allv, nodes, rank) && bound <= allv.len() + 1,
                is_sel ==> forall|j: int|
                    0 <= j < allv.len() && #[trigger] allv[j].name == self.value@
                        && (forall|k: int| 0 <= k < j ==> allv[k].name != self.value@)
                        ==> nodes.contains(allv[j]) && rank(allv[j]) < bound,
                !is_sel ==> type_type_of(self.constraint_type, self.comparator) == ConstraintTypeType::Number ==> self.number is Some,
                kept@ == old_towns.take(i as int).filter(passes_constraint(self@, allv)),
            decreases towns@.len() - i,
        {
            let t = &towns[i];
            let holds = if is_sel {
                selection_constraint_holds(self, t, all_selections, Ghost(nodes), Ghost(rank), Ghost(bound))
            } else {
                field_matches_exec(self, t)
            };
            assert(holds == constraint_matches(**t, self@, allv));
            proof {
                assert(old_towns.take(i + 1) =~= old_towns.take(i as int).push(old_towns[i as int]));
                old_towns.take(i as int).lemma_filter_push(old_towns[i as int], passes_constraint(self@, allv));
            }
            if holds {
                kept.push(rc_clone(t));
            }
            i = i + 1;
        }
        assert(old_towns.take(i as int) =~= old_towns);
        *towns = kept;
    }
}

/// The towns of `towns` that pass `selection`, in the order of `towns`.
pub fn matching_towns_for_selection(
    towns: &Vec<Rc<BackendTown>>,
    selection: &EmptyTownSelection,
    all_selections: &[EmptyTownSelection],
) -> (r: Vec<Rc<BackendTown>>)
    requires
        acyclic_from(selection@, views(all_selections@)),
    ensures
        r@ == towns@.filter(passes_selection(selection@, views(all_selections@))),
{
    let ghost allv = views(all_selections@);
    let ghost (nodes, rank) = choose|n0: Set<SelectionView>, r0: spec_fn(SelectionView) -> nat|
        n0.contains(selection@) && #[trigger] ranked(allv, n0, r0);
    let mut kept: Vec<Rc<BackendTown>> = Vec::new();
    let mut i: usize = 0;
    while i < towns.len()
        invariant
            i <= towns@.len(),
            allv == views(all_selections@),
            ranked(allv, nodes, rank),
            nodes.contains(selection@),
            kept@ == towns@.take(i as int).filter(passes_selection(selection@, allv)),
        decreases towns@.len() - i,
    {
        let t = &towns[i];
        let holds = town_in_selection(t, selection, all_selections, Ghost(nodes), Ghost(rank));
        assert(rank(selection@) <= allv.len());
        assert(holds == selection_matches(**t, selection@, allv));
        proof {
            assert(towns@.take(i + 1) =~= towns@.take(i as int).push(towns@[i as int]));
            towns@.take(i as int).lemma_filter_push(towns@[i as int], passes_selection(selection@, allv));
        }
        if holds {
            kept.push(rc_clone(t));
        }
        i = i + 1;
    }
    assert(towns@.take(i as int) =~= towns@);
    kept
}

} // verus!
