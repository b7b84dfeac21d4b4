//! The order of selections: by name, then by join, then constraint by
//! constraint (each by type, comparator and value), a shorter list of
//! constraints first where it is the start of the other.
use std::cmp::Ordering;
use vstd::prelude::*;

use crate::constraint::{Comparator, ConstraintType};
use crate::emptyconstraint::{ConstraintView, EmptyConstraint};
use crate::emptyselection::{EmptyTownSelection, SelectionView};
use crate::selection::AndOr;
use crate::text::{chars_of, lemma_lex_antisymmetric, lemma_lex_total, lemma_lex_transitive, lex_le, text_eq, text_le};

verus! {

/// The place of a constraint type in the order of its declaration.
pub open spec fn type_rank(c: ConstraintType) -> u8 {
    match c {
        ConstraintType::PlayerID => 0,
        ConstraintType::PlayerName => 1,
        ConstraintType::PlayerPoints => 2,
        ConstraintType::PlayerRank => 3,
        ConstraintType::PlayerTowns => 4,
        ConstraintType::AllianceName => 5,
        ConstraintType::AlliancePoints => 6,
        ConstraintType::AllianceTowns => 7,
        ConstraintType::AllianceMembers => 8,
        ConstraintType::AllianceRank => 9,
        ConstraintType::TownID => 10,
        ConstraintType::TownName => 11,
        ConstraintType::TownPoints => 12,
        ConstraintType::IslandID => 13,
        ConstraintType::IslandX => 14,
        ConstraintType::IslandY => 15,
        ConstraintType::IslandType => 16,
        ConstraintType::IslandTowns => 17,
        ConstraintType::IslandResMore => 18,
        ConstraintType::IslandResLess => 19,
    }
}

/// The place of a comparator in the order of its declaration.
pub open spec fn comparator_rank(c: Comparator) -> u8 {
    match c {
        Comparator::LessThan => 0,
        Comparator::Equal => 1,
        Comparator::GreaterThan => 2,
        Comparator::NotEqual => 3,
        Comparator::InSelection => 4,
        Comparator::NotInSelection => 5,
    }
}

/// The place of a join in the order of its declaration.
pub open spec fn join_rank(j: AndOr) -> u8 {
    match j {
        AndOr::And => 0,
        AndOr::Or => 1,
    }
}

/// How two places compare.
pub open spec fn rank_order(x: u8, y: u8) -> Ordering {
    if x < y {
        Ordering::Less
    } else if x == y {
        Ordering::Equal
    } else {
        Ordering::Greater
    }
}

/// How two texts compare, in the lexicographic order of `str`.
pub open spec fn text_order(a: Seq<char>, b: Seq<char>) -> Ordering {
    if a == b {
        Ordering::Equal
    } else if lex_le(a, b) {
        Ordering::Less
    } else {
        Ordering::Greater
    }
}

/// `first`, or where it is `Equal`, `then`.
pub open spec fn then_order(first: Ordering, then: Ordering) -> Ordering {
    if first == Ordering::Equal {
        then
    } else {
        first
    }
}

/// How the numbers that two values read as compare: none before any, and
/// otherwise by the bits of the doubles (the numbers follow the values, so
/// this only matters where the values are equal).
pub open spec fn number_order(a: Option<u64>, b: Option<u64>) -> Ordering {
    match (a, b) {
        (None, None) => Ordering::Equal,
        (None, Some(_)) => Ordering::Less,
        (Some(_), None) => Ordering::Greater,
        (Some(x), Some(y)) => if x < y {
            Ordering::Less
        } else if x == y {
            Ordering::Equal
        } else {
            Ordering::Greater
        },
    }
}

/// How two constraints compare: by type, then comparator, then value (then
/// the number the value reads as).
pub open spec fn constraint_order(a: ConstraintView, b: ConstraintView) -> Ordering {
    then_order(
        rank_order(type_rank(a.constraint_type), type_rank(b.constraint_type)),
        then_order(
            rank_order(comparator_rank(a.comparator), comparator_rank(b.comparator)),
            then_order(text_order(a.value, b.value), number_order(a.number, b.number)),
        ),
    )
}

/// How two lists of constraints compare from position `i` on: by the
/// first pair that differs; where one list ends first, it comes first.
pub open spec fn constraints_order_from(a: Seq<ConstraintView>, b: Seq<ConstraintView>, i: int) -> Ordering
    decreases a.len() - i,
{
    if i < 0 || (i >= a.len() && i >= b.len()) {
        Ordering::Equal
    } else if i >= a.len() {
        Ordering::Less
    } else if i >= b.len() {
        Ordering::Greater
    } else {
        then_order(constraint_order(a[i], b[i]), constraints_order_from(a, b, i + 1))
    }
}

/// How two selections compare: by name, then join, then their constraints
/// pair by pair, a list before every longer list that it starts.
pub open spec fn selection_order(a: SelectionView, b: SelectionView) -> Ordering {
    then_order(
        text_order(a.name, b.name),
        then_order(rank_order(join_rank(a.join), join_rank(b.join)), constraints_order_from(a.constraints, b.constraints, 0)),
    )
}

/// The opposite of an order.
pub open spec fn reversed(o: Ordering) -> Ordering {
    match o {
        Ordering::Less => Ordering::Greater,
        Ordering::Equal => Ordering::Equal,
        Ordering::Greater => Ordering::Less,
    }
}

fn type_place(c: ConstraintType) -> (r: u8)
    ensures
        r == type_rank(c),
{
    match c {
        ConstraintType::PlayerID => 0,
        ConstraintType::PlayerName => 1,
        ConstraintType::PlayerPoints => 2,
        ConstraintType::PlayerRank => 3,
        ConstraintType::PlayerTowns => 4,
        ConstraintType::AllianceName => 5,
        ConstraintType::AlliancePoints => 6,
        ConstraintType::AllianceTowns => 7,
        ConstraintType::AllianceMembers => 8,
        ConstraintType::AllianceRank => 9,
        ConstraintType::TownID => 10,
        ConstraintType::TownName => 11,
        ConstraintType::TownPoints => 12,
        ConstraintType::IslandID => 13,
        ConstraintType::IslandX => 14,
        ConstraintType::IslandY => 15,
        ConstraintType::IslandType => 16,
        ConstraintType::IslandTowns => 17,
        ConstraintType::IslandResMore => 18,
        ConstraintType::IslandResLess => 19,
    }
}

fn comparator_place(c: Comparator) -> (r: u8)
    ensures
        r == comparator_rank(c),
{
    match c {
        Comparator::LessThan => 0,
        Comparator::Equal => 1,
        Comparator::GreaterThan => 2,
        Comparator::NotEqual => 3,
        Comparator::InSelection => 4,
        Comparator::NotInSelection => 5,
    }
}

fn join_place(j: AndOr) -> (r: u8)
    ensures
        r == join_rank(j),
{
    match j {
        AndOr::And => 0,
        AndOr::Or => 1,
    }
}

fn order_of_numbers(x: u8, y: u8) -> (r: Ordering)
    ensures
        r == rank_order(x, y),
{
    if x < y {
        Ordering::Less
    } else if x == y {
        Ordering::Equal
    } else {
        Ordering::Greater
    }
}

fn order_of_texts(a: &String, b: &String) -> (r: Ordering)
    ensures
        r == text_order(a@, b@),
{
    let x = chars_of(a.as_str());
    let y = chars_of(b.as_str());
    if text_eq(&x, &y) {
        Ordering::Equal
    } else if text_le(&x, &y) {
        Ordering::Less
    } else {
        Ordering::Greater
    }
}

impl EmptyConstraint {
    /// How this constraint compares with `other`: by type, comparator and
    /// value (then the number the value reads as).
    pub fn order(&self, other: &EmptyConstraint) -> (r: Ordering)
        ensures
            r == constraint_order(self@, other@),
    {
        let by_type = order_of_numbers(type_place(self.constraint_type), type_place(other.constraint_type));
        if !matches!(by_type, Ordering::Equal) {
            return by_type;
        }
        let by_comparator = order_of_numbers(comparator_place(self.comparator), comparator_place(other.comparator));
        if !matches!(by_comparator, Ordering::Equal) {
            return by_comparator;
        }
        let by_value = order_of_texts(&self.value, &other.value);
        if !matches!(by_value, Ordering::Equal) {
            return by_value;
        }
        match (self.number, other.number) {
            (None, None) => Ordering::Equal,
            (None, Some(_)) => Ordering::Less,
            (Some(_), None) => Ordering::Greater,
            (Some(x), Some(y)) => if x < y {
                Ordering::Less
            } else if x == y {
                Ordering::Equal
            } else {
                Ordering::Greater
            },
        }
    }
}

impl EmptyTownSelection {
    /// How this selection compares with `other` (the order of sets of
    /// selections): by name, then join, then the constraints pair by pair,
    /// a list before every longer list that it starts.
    pub fn order(&self, other: &EmptyTownSelection) -> (r: Ordering)
        ensures
            r == selection_order(self@, other@),
    {
        let by_name = order_of_texts(&self.name, &other.name);
        if !matches!(by_name, Ordering::Equal) {
            return by_name;
        }
        let by_join = order_of_numbers(join_place(self.constraint_join_mode), join_place(other.constraint_join_mode));
        if !matches!(by_join, Ordering::Equal) {
            return by_join;
        }
        let ghost a = self@.constraints;
        let ghost b = other@.constraints;
        let mut i: usize = 0;
        let ghost mut k: int = 0;
        while i < self.constraints.len() && i < other.constraints.len()
            invariant
                a == self@.constraints,
                b == other@.constraints,
                a.len() == self.constraints@.len(),
                b.len() == other.constraints@.len(),
                k == i,
                text_order(self@.name, other@.name) == Ordering::Equal,
                rank_order(join_rank(self.constraint_join_mode), join_rank(other.constraint_join_mode)) == Ordering::Equal,
                k <= a.len(),
                k <= b.len(),
                constraints_order_from(a, b, 0) == constraints_order_from(a, b, k),
            decreases a.len() - k,
        {
            let by_constraint = self.constraints[i].order(&other.constraints[i]);
            proof {
                assert(self.constraints@[k]@ == a[k]);
                assert(other.constraints@[k]@ == b[k]);
            }
            if !matches!(by_constraint, Ordering::Equal) {
                return by_constraint;
            }
            i = i + 1;
            proof {
                k = k + 1;
            }
        }
        if self.constraints.len() < other.constraints.len() {
            Ordering::Less
        } else if self.constraints.len() > other.constraints.len() {
            Ordering::Greater
        } else {
            Ordering::Equal
        }
    }
}

proof fn lemma_text_order_reversed(a: Seq<char>, b: Seq<char>)
    ensures
        text_order(b, a) == reversed(text_order(a, b)),
{
    lemma_lex_total(a, b);
    if a != b && lex_le(a, b) && lex_le(b, a) {
        lemma_lex_antisymmetric(a, b);
    }
}

proof fn lemma_constraint_order_reversed(a: ConstraintView, b: ConstraintView)
    ensures
        constraint_order(b, a) == reversed(constraint_order(a, b)),
{
    lemma_text_order_reversed(a.value, b.value);
}

proof fn lemma_constraints_order_reversed(a: Seq<ConstraintView>, b: Seq<ConstraintView>, i: int)
    ensures
        constraints_order_from(b, a, i) == reversed(constraints_order_from(a, b, i)),
    decreases a.len() - i,
{
    if !(i < 0 || i >= a.len() || i >= b.len()) {
        lemma_constraint_order_reversed(a[i], b[i]);
        lemma_constraints_order_reversed(a, b, i + 1);
    }
}

/// Comparing the other way round gives the opposite order: the order of
/// selections is antisymmetric.
pub proof fn lemma_selection_order_reversed(a: SelectionView, b: SelectionView)
    ensures
        selection_order(b, a) == reversed(selection_order(a, b)),
{
    lemma_text_order_reversed(a.name, b.name);
    lemma_constraints_order_reversed(a.constraints, b.constraints, 0);
}

proof fn lemma_text_order_less_transitive(a: Seq<char>, b: Seq<char>, c: Seq<char>)
    requires
        text_order(a, b) == Ordering::Less,
        text_order(b, c) == Ordering::Less,
    ensures
        text_order(a, c) == Ordering::Less,
{
    lemma_lex_transitive(a, b, c);
    if a == c {
        lemma_lex_antisymmetric(b, c);
    }
}

proof fn lemma_constraint_order_less_transitive(a: ConstraintView, b: ConstraintView, c: ConstraintView)
    requires
        constraint_order(a, b) == Ordering::Less,
        constraint_order(b, c) == Ordering::Less,
    ensures
        constraint_order(a, c) == Ordering::Less,
{
    if text_order(a.value, b.value) == Ordering::Less && text_order(b.value, c.value) == Ordering::Less {
        lemma_text_order_less_transitive(a.value, b.value, c.value);
    }
}

proof fn lemma_constraints_order_less_transitive(a: Seq<ConstraintView>, b: Seq<ConstraintView>, c: Seq<ConstraintView>, i: int)
    requires
        0 <= i,
        constraints_order_from(a, b, i) == Ordering::Less,
        constraints_order_from(b, c, i) == Ordering::Less,
    ensures
        constraints_order_from(a, c, i) == Ordering::Less,
    decreases a.len() - i,
{
    if i < a.len() && i < b.len() && i < c.len() {
        let ab = constraint_order(a[i], b[i]);
        let bc = constraint_order(b[i], c[i]);
        if ab == Ordering::Equal && bc == Ordering::Equal {
            lemma_constraint_order_equal(a[i], b[i]);
            lemma_constraint_order_equal(b[i], c[i]);
            lemma_constraints_order_less_transitive(a, b, c, i + 1);
        } else if ab == Ordering::Equal {
            lemma_constraint_order_equal(a[i], b[i]);
        } else if bc == Ordering::Equal {
            lemma_constraint_order_equal(b[i], c[i]);
        } else {
            lemma_constraint_order_less_transitive(a[i], b[i], c[i]);
        }
    }
}

proof fn lemma_constraint_order_equal(a: ConstraintView, b: ConstraintView)
    ensures
        constraint_order(a, b) == Ordering::Equal <==> a == b,
{
}

proof fn lemma_constraints_order_equal(a: Seq<ConstraintView>, b: Seq<ConstraintView>, i: int)
    requires
        0 <= i,
        i <= a.len(),
        i <= b.len(),
    ensures
        constraints_order_from(a, b, i) == Ordering::Equal <==> (a.len() == b.len() && forall|j: int|
            i <= j < a.len() ==> a[j] == b[j]),
    decreases a.len() - i,
{
    if i < a.len() && i < b.len() {
        lemma_constraint_order_equal(a[i], b[i]);
        lemma_constraints_order_equal(a, b, i + 1);
        if a.len() == b.len() && (forall|j: int| i + 1 <= j < a.len() ==> a[j] == b[j]) && a[i] == b[i] {
            assert forall|j: int| i <= j < a.len() implies a[j] == b[j] by {
                if j > i {
                }
            }
        }
        if a.len() == b.len() && (forall|j: int| i <= j < a.len() ==> a[j] == b[j]) {
            assert(a[i] == b[i]);
            assert forall|j: int| i + 1 <= j < a.len() implies a[j] == b[j] by {
                assert(i <= j);
            }
        }
    }
}

/// Two selections compare equal exactly where they are the same
/// selection (same name, constraints and join).
pub proof fn lemma_selection_order_equal(a: SelectionView, b: SelectionView)
    ensures
        selection_order(a, b) == Ordering::Equal <==> a == b,
{
    lemma_constraints_order_equal(a.constraints, b.constraints, 0);
    if selection_order(a, b) == Ordering::Equal {
        assert(a.constraints =~= b.constraints);
    }
}

/// The order of selections is transitive.
pub proof fn lemma_selection_order_transitive(a: SelectionView, b: SelectionView, c: SelectionView)
    requires
        selection_order(a, b) == Ordering::Less,
        selection_order(b, c) == Ordering::Less,
    ensures
        selection_order(a, c) == Ordering::Less,
{
    lemma_selection_order_equal(a, b);
    lemma_selection_order_equal(b, c);
    if text_order(a.name, b.name) == Ordering::Less && text_order(b.name, c.name) == Ordering::Less {
        lemma_text_order_less_transitive(a.name, b.name, c.name);
    }
    if text_order(a.name, b.name) == Ordering::Equal && text_order(b.name, c.name) == Ordering::Equal
        && join_rank(a.join) == join_rank(b.join) && join_rank(b.join) == join_rank(c.join) {
        lemma_constraints_order_less_transitive(a.constraints, b.constraints, c.constraints, 0);
    }
}

} // verus!
