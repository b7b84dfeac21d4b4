//! What a constraint filters on, how it compares, and the editable form of a
//! constraint that the side panel shows.
use std::sync::Arc;
use vstd::prelude::*;
use vstd::std_specs::cmp::{PartialEqSpec, PartialOrdSpec};
use core::cmp::Ordering;

use crate::emptyconstraint::{ConstraintView, EmptyConstraint};
use crate::number::{compare_int_with_double, compare_with_double, NumberOrder};
use crate::text::{chars_of, lex_le, text_le};

verus! {

/// A constraint in the form the side panel edits: the filter itself plus
/// the list of values that the drop down box offers for it.
pub struct Constraint {
    pub constraint_type: ConstraintType,
    pub comparator: Comparator,
    pub value: String,
    /// `value` read as a number: the bits of the IEEE-754 double that
    /// `str::parse::<f64>` gives for it, or `None` where that fails.
    ///
    /// Invariant that callers keep: whoever sets `value` or `number` sets
    /// the other in step with it. Reading a double takes floating point,
    /// which this library does not hold, so nothing here checks it; where
    /// the two disagree, the constraint filters by `number`, and a number
    /// constraint counts as usable only where both the text reads as a
    /// number (`reads_as_number`) and `number` is set.
    pub number: Option<u64>,
    pub drop_down_values: Option<Arc<Vec<String>>>,
}

impl View for Constraint {
    type V = ConstraintView;

    /// The filter, without the drop down values.
    open spec fn view(&self) -> ConstraintView {
        ConstraintView {
            constraint_type: self.constraint_type,
            comparator: self.comparator,
            value: self.value@,
            number: self.number,
        }
    }
}

impl Constraint {
    /// The filter without its drop down values.
    pub fn partial_clone(&self) -> (r: EmptyConstraint)
        ensures
            r@ == self@,
            r.constraint_type == self.constraint_type,
            r.comparator == self.comparator,
            r.value@ == self.value@,
            r.number == self.number,
    {
        EmptyConstraint {
            constraint_type: self.constraint_type,
            comparator: self.comparator,
            value: self.value.clone(),
            number: self.number,
        }
    }

    /// Whether this constraint filters as `other` does (type, comparator and
    /// value agree).
    pub fn eq_empty(&self, other: &EmptyConstraint) -> (r: bool)
        ensures
            r == (self.constraint_type == other.constraint_type && self.comparator
                == other.comparator && self.value@ == other.value@),
    {
        self.constraint_type == other.constraint_type && self.comparator == other.comparator
            && self.value == other.value
    }
}

impl Default for Constraint {
    /// The filled form of the default constraint: `PlayerName = ""`.
    fn default() -> (r: Self)
        ensures
            r.constraint_type == ConstraintType::PlayerName,
            r.comparator == Comparator::Equal,
            r.value@ == Seq::<char>::empty(),
            r.number is None,
            r.drop_down_values is None,
    {
        EmptyConstraint::default().fill()
    }
}

/// The attribute of a town that a constraint looks at.
#[derive(Debug, Clone, Copy, PartialEq, Eq, Hash, PartialOrd, Ord, Structural)]
pub enum ConstraintType {
    PlayerID,
    PlayerName,
    PlayerPoints,
    PlayerRank,
    PlayerTowns,
    AllianceName,
    AlliancePoints,
    AllianceTowns,
    AllianceMembers,
    AllianceRank,
    TownID,
    TownName,
    TownPoints,
    IslandID,
    IslandX,
    IslandY,
    IslandType,
    IslandTowns,
    IslandResMore,
    IslandResLess,
}

impl ConstraintType {
    /// Every constraint type, in declaration order.
    pub fn all() -> (r: Vec<ConstraintType>)
        ensures
            r@.len() == 20,
            r@[0] == ConstraintType::PlayerID,
            r@[19] == ConstraintType::IslandResLess,
            forall|c: ConstraintType| r@.contains(c),
    {
        let r = vec![
            ConstraintType::PlayerID,
            ConstraintType::PlayerName,
            ConstraintType::PlayerPoints,
            ConstraintType::PlayerRank,
            ConstraintType::PlayerTowns,
            ConstraintType::AllianceName,
            ConstraintType::AlliancePoints,
            ConstraintType::AllianceTowns,
            ConstraintType::AllianceMembers,
            ConstraintType::AllianceRank,
            ConstraintType::TownID,
            ConstraintType::TownName,
            ConstraintType::TownPoints,
            ConstraintType::IslandID,
            ConstraintType::IslandX,
            ConstraintType::IslandY,
            ConstraintType::IslandType,
            ConstraintType::IslandTowns,
            ConstraintType::IslandResMore,
            ConstraintType::IslandResLess,
        ];
        assert forall|c: ConstraintType| r@.contains(c) by {
            match c {
                ConstraintType::PlayerID => assert(r@[0] == c),
                ConstraintType::PlayerName => assert(r@[1] == c),
                ConstraintType::PlayerPoints => assert(r@[2] == c),
                ConstraintType::PlayerRank => assert(r@[3] == c),
                ConstraintType::PlayerTowns => assert(r@[4] == c),
                ConstraintType::AllianceName => assert(r@[5] == c),
                ConstraintType::AlliancePoints => assert(r@[6] == c),
                ConstraintType::AllianceTowns => assert(r@[7] == c),
                ConstraintType::AllianceMembers => assert(r@[8] == c),
                ConstraintType::AllianceRank => assert(r@[9] == c),
                ConstraintType::TownID => assert(r@[10] == c),
                ConstraintType::TownName => assert(r@[11] == c),
                ConstraintType::TownPoints => assert(r@[12] == c),
                ConstraintType::IslandID => assert(r@[13] == c),
                ConstraintType::IslandX => assert(r@[14] == c),
                ConstraintType::IslandY => assert(r@[15] == c),
                ConstraintType::IslandType => assert(r@[16] == c),
                ConstraintType::IslandTowns => assert(r@[17] == c),
                ConstraintType::IslandResMore => assert(r@[18] == c),
                ConstraintType::IslandResLess => assert(r@[19] == c),
            }
        }
        r
    }

    /// The key of the translated label of this constraint type.
    pub fn translation_key(self) -> (r: &'static str)
        ensures
            r@ == constraint_type_key(self),
    {
        match self {
            ConstraintType::PlayerID => "selection.constraint.player_id",
            ConstraintType::PlayerName => "selection.constraint.player_name",
            ConstraintType::PlayerPoints => "selection.constraint.player_points",
            ConstraintType::PlayerRank => "selection.constraint.player_rank",
            ConstraintType::PlayerTowns => "selection.constraint.player_towns",
            ConstraintType::AllianceName => "selection.constraint.alliance_name",
            ConstraintType::AlliancePoints => "selection.constraint.alliance_points",
            ConstraintType::AllianceTowns => "selection.constraint.alliance_towns",
            ConstraintType::AllianceMembers => "selection.constraint.alliance_members",
            ConstraintType::AllianceRank => "selection.constraint.alliance_rank",
            ConstraintType::TownID => "selection.constraint.town_id",
            ConstraintType::TownName => "selection.constraint.town_name",
            ConstraintType::TownPoints => "selection.constraint.town_points",
            ConstraintType::IslandID => "selection.constraint.island_id",
            ConstraintType::IslandX => "selection.constraint.island_x",
            ConstraintType::IslandY => "selection.constraint.island_y",
            ConstraintType::IslandType => "selection.constraint.island_type",
            ConstraintType::IslandTowns => "selection.constraint.island_towns",
            ConstraintType::IslandResMore => "selection.constraint.island_resmore",
            ConstraintType::IslandResLess => "selection.constraint.island_resless",
        }
    }
}

/// The translation key of each constraint type.
pub open spec fn constraint_type_key(c: ConstraintType) -> Seq<char> {
    match c {
        ConstraintType::PlayerID => "selection.constraint.player_id"@,
        ConstraintType::PlayerName => "selection.constraint.player_name"@,
        ConstraintType::PlayerPoints => "selection.constraint.player_points"@,
        ConstraintType::PlayerRank => "selection.constraint.player_rank"@,
        ConstraintType::PlayerTowns => "selection.constraint.player_towns"@,
        ConstraintType::AllianceName => "selection.constraint.alliance_name"@,
        ConstraintType::AlliancePoints => "selection.constraint.alliance_points"@,
        ConstraintType::AllianceTowns => "selection.constraint.alliance_towns"@,
        ConstraintType::AllianceMembers => "selection.constraint.alliance_members"@,
        ConstraintType::AllianceRank => "selection.constraint.alliance_rank"@,
        ConstraintType::TownID => "selection.constraint.town_id"@,
        ConstraintType::TownName => "selection.constraint.town_name"@,
        ConstraintType::TownPoints => "selection.constraint.town_points"@,
        ConstraintType::IslandID => "selection.constraint.island_id"@,
        ConstraintType::IslandX => "selection.constraint.island_x"@,
        ConstraintType::IslandY => "selection.constraint.island_y"@,
        ConstraintType::IslandType => "selection.constraint.island_type"@,
        ConstraintType::IslandTowns => "selection.constraint.island_towns"@,
        ConstraintType::IslandResMore => "selection.constraint.island_resmore"@,
        ConstraintType::IslandResLess => "selection.constraint.island_resless"@,
    }
}

/// How a constraint compares the attribute of a town with its value.
#[derive(Debug, Clone, Copy, PartialEq, Eq, Hash, PartialOrd, Ord, Structural)]
pub enum Comparator {
    LessThan,
    Equal,
    GreaterThan,
    NotEqual,
    InSelection,
    NotInSelection,
}

/// The comparators that refer to another selection by its name.
pub open spec fn is_selection_comparator(c: Comparator) -> bool {
    c == Comparator::InSelection || c == Comparator::NotInSelection
}

/// What comparing text `a` with text `b` gives (`<=` and `>=` in the
/// lexicographic order of `str`).
#[verifier::opaque]
pub open spec fn text_comparison(comparator: Comparator, a: Seq<char>, b: Seq<char>) -> bool {
    match comparator {
        Comparator::LessThan => lex_le(a, b),
        Comparator::Equal => a == b,
        Comparator::GreaterThan => lex_le(b, a),
        _ => a != b,
    }
}

/// What comparing the whole number `n` with the double whose bits are
/// `bits` gives, as the operators on `f64` do (a NaN is unequal to all).
#[verifier::opaque]
pub open spec fn number_comparison(comparator: Comparator, n: int, bits: u64) -> bool {
    let o = compare_with_double(n, bits);
    match comparator {
        Comparator::LessThan => o == NumberOrder::Less || o == NumberOrder::Equal,
        Comparator::Equal => o == NumberOrder::Equal,
        Comparator::GreaterThan => o == NumberOrder::Greater || o == NumberOrder::Equal,
        _ => o != NumberOrder::Equal,
    }
}

/// The text comparators mean what they say: `==` is equality and `!=`
/// its negation; `a <= b` holds exactly when `a` is a prefix of `b` or,
/// at the first position where they differ, `a` has the character with
/// the smaller code point; and `a >= b` is `b <= a`.
pub proof fn lemma_text_comparison_laws(a: Seq<char>, b: Seq<char>)
    ensures
        text_comparison(Comparator::Equal, a, b) == (a == b),
        text_comparison(Comparator::NotEqual, a, b) == (a != b),
        text_comparison(Comparator::LessThan, a, b) == ((a.len() <= b.len() && b.take(a.len() as int) == a) || exists|i: int|
            #![trigger a[i], b[i]]
            0 <= i < a.len() && i < b.len() && a.take(i) == b.take(i) && (a[i] as u32) < (b[i] as u32)),
        text_comparison(Comparator::GreaterThan, a, b) == ((b.len() <= a.len() && a.take(b.len() as int) == b) || exists|i: int|
            #![trigger b[i], a[i]]
            0 <= i < b.len() && i < a.len() && b.take(i) == a.take(i) && (b[i] as u32) < (a[i] as u32)),
{
    reveal(text_comparison);
    crate::text::lemma_lex_le_first_difference(a, b);
    crate::text::lemma_lex_le_first_difference(b, a);
}

/// The number comparators agree with the order of numbers against the
/// double: `==` holds exactly where the number equals the double, and `!=`
/// exactly where it does not (a NaN is unequal to every number); `<=`
/// holds where the number is below or equal, `>=` where it is above or
/// equal, so a number below a double that some number equals passes `<=`
/// and `!=` and fails `>=`, and a number above it the other way round;
/// `<=` passes down to smaller numbers and `>=` up to larger ones; and
/// every number passes `<=` or `>=` of a double that is not a NaN.
pub proof fn lemma_number_comparison_laws(n: int, m: int, bits: u64)
    ensures
        number_comparison(Comparator::Equal, n, bits) == (compare_with_double(n, bits) == NumberOrder::Equal),
        number_comparison(Comparator::NotEqual, n, bits) == !number_comparison(Comparator::Equal, n, bits),
        number_comparison(Comparator::Equal, n, bits) == (number_comparison(Comparator::LessThan, n, bits)
            && number_comparison(Comparator::GreaterThan, n, bits)),
        m <= n && number_comparison(Comparator::LessThan, n, bits) ==> number_comparison(Comparator::LessThan, m, bits),
        n <= m && number_comparison(Comparator::GreaterThan, n, bits) ==> number_comparison(Comparator::GreaterThan, m, bits),
        m < n && number_comparison(Comparator::Equal, n, bits) ==> {
            &&& number_comparison(Comparator::LessThan, m, bits)
            &&& !number_comparison(Comparator::GreaterThan, m, bits)
            &&& !number_comparison(Comparator::Equal, m, bits)
            &&& number_comparison(Comparator::NotEqual, m, bits)
        },
        n < m && number_comparison(Comparator::Equal, n, bits) ==> {
            &&& number_comparison(Comparator::GreaterThan, m, bits)
            &&& !number_comparison(Comparator::LessThan, m, bits)
            &&& !number_comparison(Comparator::Equal, m, bits)
            &&& number_comparison(Comparator::NotEqual, m, bits)
        },
        compare_with_double(n, bits) != NumberOrder::Unordered ==> number_comparison(Comparator::LessThan, n, bits)
            || number_comparison(Comparator::GreaterThan, n, bits),
        compare_with_double(n, bits) == NumberOrder::Unordered ==> {
            &&& number_comparison(Comparator::NotEqual, n, bits)
            &&& !number_comparison(Comparator::LessThan, n, bits)
            &&& !number_comparison(Comparator::GreaterThan, n, bits)
        },
{
    reveal(number_comparison);
    crate::number::lemma_compare_with_double_monotone(n, m, bits);
}

impl Comparator {
    /// Compares `a` with `b`: `<=`, `==`, `>=` or `!=`. The selection
    /// comparators are handled by the caller and never reach this.
    pub fn compare<T: PartialEq + PartialOrd>(self, a: T, b: T) -> (r: bool)
        requires
            !is_selection_comparator(self),
        ensures
            T::obeys_partial_cmp_spec() && T::obeys_eq_spec() ==> r == match self {
                Comparator::LessThan => a.partial_cmp_spec(&b) matches Some(
                    Ordering::Less
                    | Ordering::Equal,
                ),
                Comparator::Equal => a.eq_spec(&b),
                Comparator::GreaterThan => a.partial_cmp_spec(&b) matches Some(
                    Ordering::Greater
                    | Ordering::Equal,
                ),
                _ => !a.eq_spec(&b),
            },
    {
        match self {
            Comparator::LessThan => a <= b,
            Comparator::Equal => a == b,
            Comparator::GreaterThan => a >= b,
            _ => a != b,
        }
    }

    /// Compares two texts in the order of `str`.
    pub fn compare_text(self, a: &String, b: &String) -> (r: bool)
        requires
            !is_selection_comparator(self),
        ensures
            r == text_comparison(self, a@, b@),
    {
        reveal(text_comparison);
        match self {
            Comparator::LessThan => {
                let x = chars_of(a.as_str());
                let y = chars_of(b.as_str());
                text_le(&x, &y)
            },
            Comparator::Equal => *a == *b,
            Comparator::GreaterThan => {
                let x = chars_of(a.as_str());
                let y = chars_of(b.as_str());
                text_le(&y, &x)
            },
            _ => !(*a == *b),
        }
    }

    /// Compares the whole number `n` with the double whose bits are `bits`.
    pub fn compare_number(self, n: u32, bits: u64) -> (r: bool)
        requires
            !is_selection_comparator(self),
        ensures
            r == number_comparison(self, n as int, bits),
    {
        reveal(number_comparison);
        let o = compare_int_with_double(n, bits);
        match self {
            Comparator::LessThan => o == NumberOrder::Less || o == NumberOrder::Equal,
            Comparator::Equal => o == NumberOrder::Equal,
            Comparator::GreaterThan => o == NumberOrder::Greater || o == NumberOrder::Equal,
            _ => o != NumberOrder::Equal,
        }
    }

    /// Every comparator, in declaration order.
    pub fn all() -> (r: Vec<Comparator>)
        ensures
            r@ == seq![
                Comparator::LessThan,
                Comparator::Equal,
                Comparator::GreaterThan,
                Comparator::NotEqual,
                Comparator::InSelection,
                Comparator::NotInSelection,
            ],
    {
        vec![
            Comparator::LessThan,
            Comparator::Equal,
            Comparator::GreaterThan,
            Comparator::NotEqual,
            Comparator::InSelection,
            Comparator::NotInSelection,
        ]
    }

    /// The text shown for this comparator: a symbol, or for the selection
    /// comparators the key of a translated label (second component `true`).
    pub fn label(self) -> (r: (&'static str, bool))
        ensures
            r.1 == is_selection_comparator(self),
            r.0@ == match self {
                Comparator::LessThan => "<="@,
                Comparator::Equal => "="@,
                Comparator::GreaterThan => ">="@,
                Comparator::NotEqual => "!="@,
                Comparator::InSelection => "selection.comparator.in"@,
                Comparator::NotInSelection => "selection.comparator.not_in"@,
            },
    {
        match self {
            Comparator::LessThan => ("<=", false),
            Comparator::Equal => ("=", false),
            Comparator::GreaterThan => (">=", false),
            Comparator::NotEqual => ("!=", false),
            Comparator::InSelection => ("selection.comparator.in", true),
            Comparator::NotInSelection => ("selection.comparator.not_in", true),
        }
    }
}

/// The kind of value a constraint expects.
#[derive(Debug, Clone, Copy, PartialEq, Eq, Structural)]
pub enum ConstraintTypeType {
    StringLike,
    Number,
    IslandRessource,
    Selection,
}

/// The kind of value that a constraint with this type and comparator expects.
pub open spec fn type_type_of(constraint_type: ConstraintType, comparator: Comparator) -> ConstraintTypeType {
    if is_selection_comparator(comparator) {
        ConstraintTypeType::Selection
    } else {
        match constraint_type {
            ConstraintType::AllianceName | ConstraintType::TownName | ConstraintType::PlayerName => ConstraintTypeType::StringLike,
            ConstraintType::IslandResMore | ConstraintType::IslandResLess => ConstraintTypeType::IslandRessource,
            _ => ConstraintTypeType::Number,
        }
    }
}

impl ConstraintTypeType {
    /// The kind of value that `value` expects.
    pub fn from(value: &EmptyConstraint) -> (r: ConstraintTypeType)
        ensures
            r == type_type_of(value.constraint_type, value.comparator),
    {
        match value.comparator {
            Comparator::LessThan | Comparator::Equal | Comparator::GreaterThan | Comparator::NotEqual => {
                match value.constraint_type {
                    ConstraintType::PlayerTowns
                    | ConstraintType::PlayerID
                    | ConstraintType::AlliancePoints
                    | ConstraintType::PlayerRank
                    | ConstraintType::TownPoints
                    | ConstraintType::IslandID
                    | ConstraintType::IslandX
                    | ConstraintType::IslandY
                    | ConstraintType::IslandType
                    | ConstraintType::IslandTowns
                    | ConstraintType::AllianceTowns
                    | ConstraintType::AllianceMembers
                    | ConstraintType::AllianceRank
                    | ConstraintType::TownID
                    | ConstraintType::PlayerPoints => ConstraintTypeType::Number,
                    ConstraintType::AllianceName
                    | ConstraintType::TownName
                    | ConstraintType::PlayerName => ConstraintTypeType::StringLike,
                    ConstraintType::IslandResMore | ConstraintType::IslandResLess => {
                        ConstraintTypeType::IslandRessource
                    },
                }
            },
            Comparator::InSelection | Comparator::NotInSelection => ConstraintTypeType::Selection,
        }
    }
}

} // verus!
