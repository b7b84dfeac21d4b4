//! The values that towns show for a kind of constraint, as the drop down
//! lists offer them: each value once, numbers in ascending order, text in
//! the order of its lower case form.
use std::rc::Rc;
use vstd::prelude::*;

use crate::constraint::ConstraintType;
use crate::database::BackendTown;
use crate::text::{lemma_lex_antisymmetric, lex_le, lex_lt, decimal, u64_to_string};
use crate::world::TownRecord;

verus! {

/// Whether the values of this kind of constraint are text.
pub open spec fn is_text_type(ct: ConstraintType) -> bool {
    match ct {
        ConstraintType::PlayerName | ConstraintType::AllianceName | ConstraintType::TownName
        | ConstraintType::IslandResMore | ConstraintType::IslandResLess => true,
        _ => false,
    }
}

/// The number a town shows for a numeric kind of constraint; `None` where
/// the town has no owner, or the owner no alliance, to take it from.
pub open spec fn town_number(t: TownRecord, ct: ConstraintType) -> Option<int> {
    match ct {
        ConstraintType::PlayerID => match t.player {
            Some(p) => Some(p.0 as int),
            None => None,
        },
        ConstraintType::PlayerPoints => match t.player {
            Some(p) => Some(p.1.points as int),
            None => None,
        },
        ConstraintType::PlayerRank => match t.player {
            Some(p) => Some(p.1.rank as int),
            None => None,
        },
        ConstraintType::PlayerTowns => match t.player {
            Some(p) => Some(p.1.towns as int),
            None => None,
        },
        ConstraintType::AlliancePoints => match t.player {
            Some(p) => match p.1.alliance {
                Some(a) => Some(a.1.points as int),
                None => None,
            },
            None => None,
        },
        ConstraintType::AllianceTowns => match t.player {
            Some(p) => match p.1.alliance {
                Some(a) => Some(a.1.towns as int),
                None => None,
            },
            None => None,
        },
        ConstraintType::AllianceMembers => match t.player {
            Some(p) => match p.1.alliance {
                Some(a) => Some(a.1.members as int),
                None => None,
            },
            None => None,
        },
        ConstraintType::AllianceRank => match t.player {
            Some(p) => match p.1.alliance {
                Some(a) => Some(a.1.rank as int),
                None => None,
            },
            None => None,
        },
        ConstraintType::TownID => Some(t.id as int),
        ConstraintType::TownPoints => Some(t.points as int),
        ConstraintType::IslandID => Some(t.island.2.id as int),
        ConstraintType::IslandX => Some(t.island.0 as int),
        ConstraintType::IslandY => Some(t.island.1 as int),
        ConstraintType::IslandType => Some(t.island.2.typ as int),
        ConstraintType::IslandTowns => Some(t.island.2.towns as int),
        _ => None,
    }
}

/// The text a town shows for a text kind of constraint; `None` where the
/// town has no owner, or the owner no alliance, to take it from.
pub open spec fn town_text(t: TownRecord, ct: ConstraintType) -> Option<Seq<char>> {
    match ct {
        ConstraintType::PlayerName => match t.player {
            Some(p) => Some(p.1.name),
            None => None,
        },
        ConstraintType::AllianceName => match t.player {
            Some(p) => match p.1.alliance {
                Some(a) => Some(a.1.name),
                None => None,
            },
            None => None,
        },
        ConstraintType::TownName => Some(t.name),
        ConstraintType::IslandResMore => Some(t.island.2.ressource_plus),
        ConstraintType::IslandResLess => Some(t.island.2.ressource_minus),
        _ => None,
    }
}

/// The towns as plain values.
pub open spec fn records(towns: Seq<Rc<BackendTown>>) -> Seq<TownRecord> {
    towns.map_values(|t: Rc<BackendTown>| t@)
}

/// The numbers the towns show, in the order of the towns.
pub open spec fn number_list(ts: Seq<TownRecord>, ct: ConstraintType) -> Seq<int> {
    ts.filter_map(|t: TownRecord| town_number(t, ct))
}

/// The texts the towns show, in the order of the towns.
pub open spec fn text_list(ts: Seq<TownRecord>, ct: ConstraintType) -> Seq<Seq<char>> {
    ts.filter_map(|t: TownRecord| town_text(t, ct))
}

/// A number is in a town list's numbers exactly when some town shows it.
proof fn lemma_number_list_has(ts: Seq<TownRecord>, ct: ConstraintType, v: int)
    ensures
        number_list(ts, ct).contains(v) <==> exists|i: int| 0 <= i < ts.len() && town_number(#[trigger] ts[i], ct) == Some(v),
{
    let f = |t: TownRecord| town_number(t, ct);
    if number_list(ts, ct).contains(v) {
        ts.lemma_filter_map_contains(f, v);
        let t = choose|t: TownRecord| #[trigger] ts.contains(t) && f(t) == Some(v);
        let i = choose|i: int| 0 <= i < ts.len() && ts[i] == t;
        assert(town_number(ts[i], ct) == Some(v));
    }
    if exists|i: int| 0 <= i < ts.len() && town_number(#[trigger] ts[i], ct) == Some(v) {
        let i = choose|i: int| 0 <= i < ts.len() && town_number(#[trigger] ts[i], ct) == Some(v);
        crate::references::lemma_filter_map_has(ts, f, i);
    }
}

/// A text is in a town list's texts exactly when some town shows it.
proof fn lemma_text_list_has(ts: Seq<TownRecord>, ct: ConstraintType, w: Seq<char>)
    ensures
        text_list(ts, ct).contains(w) <==> exists|i: int| 0 <= i < ts.len() && town_text(#[trigger] ts[i], ct) == Some(w),
{
    let f = |t: TownRecord| town_text(t, ct);
    if text_list(ts, ct).contains(w) {
        ts.lemma_filter_map_contains(f, w);
        let t = choose|t: TownRecord| #[trigger] ts.contains(t) && f(t) == Some(w);
        let i = choose|i: int| 0 <= i < ts.len() && ts[i] == t;
        assert(town_text(ts[i], ct) == Some(w));
    }
    if exists|i: int| 0 <= i < ts.len() && town_text(#[trigger] ts[i], ct) == Some(w) {
        let i = choose|i: int| 0 <= i < ts.len() && town_text(#[trigger] ts[i], ct) == Some(w);
        crate::references::lemma_filter_map_has(ts, f, i);
    }
}

/// The values that the drop down list of a kind of constraint offers are
/// the attribute it is named after, of some town, and nothing else: a
/// number (or a text) is offered exactly when some town's owner, the
/// owner's alliance, the town itself or its island has it as that
/// attribute (the island's y coordinate for `IslandY`, its x coordinate
/// for `IslandX`, and so on).
pub proof fn lemma_offered_values_are_the_attribute(ts: Seq<TownRecord>, v: int, w: Seq<char>)
    ensures
        number_list(ts, ConstraintType::PlayerID).contains(v) <==> exists|i: int| 0 <= i < ts.len() && ((#[trigger] ts[i]).player matches Some(p) && p.0 == v),
        number_list(ts, ConstraintType::PlayerPoints).contains(v) <==> exists|i: int| 0 <= i < ts.len() && ((#[trigger] ts[i]).player matches Some(p) && p.1.points == v),
        number_list(ts, ConstraintType::PlayerRank).contains(v) <==> exists|i: int| 0 <= i < ts.len() && ((#[trigger] ts[i]).player matches Some(p) && p.1.rank == v),
        number_list(ts, ConstraintType::PlayerTowns).contains(v) <==> exists|i: int| 0 <= i < ts.len() && ((#[trigger] ts[i]).player matches Some(p) && p.1.towns == v),
        number_list(ts, ConstraintType::AlliancePoints).contains(v) <==> exists|i: int| 0 <= i < ts.len() && ((#[trigger] ts[i]).player matches Some(p) && p.1.alliance matches Some(a) && a.1.points == v),
        number_list(ts, ConstraintType::AllianceTowns).contains(v) <==> exists|i: int| 0 <= i < ts.len() && ((#[trigger] ts[i]).player matches Some(p) && p.1.alliance matches Some(a) && a.1.towns == v),
        number_list(ts, ConstraintType::AllianceMembers).contains(v) <==> exists|i: int| 0 <= i < ts.len() && ((#[trigger] ts[i]).player matches Some(p) && p.1.alliance matches Some(a) && a.1.members == v),
        number_list(ts, ConstraintType::AllianceRank).contains(v) <==> exists|i: int| 0 <= i < ts.len() && ((#[trigger] ts[i]).player matches Some(p) && p.1.alliance matches Some(a) && a.1.rank == v),
        number_list(ts, ConstraintType::TownID).contains(v) <==> exists|i: int| 0 <= i < ts.len() && (#[trigger] ts[i]).id == v,
        number_list(ts, ConstraintType::TownPoints).contains(v) <==> exists|i: int| 0 <= i < ts.len() && (#[trigger] ts[i]).points == v,
        number_list(ts, ConstraintType::IslandID).contains(v) <==> exists|i: int| 0 <= i < ts.len() && (#[trigger] ts[i]).island.2.id == v,
        number_list(ts, ConstraintType::IslandX).contains(v) <==> exists|i: int| 0 <= i < ts.len() && (#[trigger] ts[i]).island.0 == v,
        number_list(ts, ConstraintType::IslandY).contains(v) <==> exists|i: int| 0 <= i < ts.len() && (#[trigger] ts[i]).island.1 == v,
        number_list(ts, ConstraintType::IslandType).contains(v) <==> exists|i: int| 0 <= i < ts.len() && (#[trigger] ts[i]).island.2.typ == v,
        number_list(ts, ConstraintType::IslandTowns).contains(v) <==> exists|i: int| 0 <= i < ts.len() && (#[trigger] ts[i]).island.2.towns == v,
        text_list(ts, ConstraintType::PlayerName).contains(w) <==> exists|i: int| 0 <= i < ts.len() && ((#[trigger] ts[i]).player matches Some(p) && p.1.name == w),
        text_list(ts, ConstraintType::AllianceName).contains(w) <==> exists|i: int| 0 <= i < ts.len() && ((#[trigger] ts[i]).player matches Some(p) && p.1.alliance matches Some(a) && a.1.name == w),
        text_list(ts, ConstraintType::TownName).contains(w) <==> exists|i: int| 0 <= i < ts.len() && (#[trigger] ts[i]).name == w,
        text_list(ts, ConstraintType::IslandResMore).contains(w) <==> exists|i: int| 0 <= i < ts.len() && (#[trigger] ts[i]).island.2.ressource_plus == w,
        text_list(ts, ConstraintType::IslandResLess).contains(w) <==> exists|i: int| 0 <= i < ts.len() && (#[trigger] ts[i]).island.2.ressource_minus == w,
{
    lemma_number_list_has(ts, ConstraintType::PlayerID, v);
    lemma_number_list_has(ts, ConstraintType::PlayerPoints, v);
    lemma_number_list_has(ts, ConstraintType::PlayerRank, v);
    lemma_number_list_has(ts, ConstraintType::PlayerTowns, v);
    lemma_number_list_has(ts, ConstraintType::AlliancePoints, v);
    lemma_number_list_has(ts, ConstraintType::AllianceTowns, v);
    lemma_number_list_has(ts, ConstraintType::AllianceMembers, v);
    lemma_number_list_has(ts, ConstraintType::AllianceRank, v);
    lemma_number_list_has(ts, ConstraintType::TownID, v);
    lemma_number_list_has(ts, ConstraintType::TownPoints, v);
    lemma_number_list_has(ts, ConstraintType::IslandID, v);
    lemma_number_list_has(ts, ConstraintType::IslandX, v);
    lemma_number_list_has(ts, ConstraintType::IslandY, v);
    lemma_number_list_has(ts, ConstraintType::IslandType, v);
    lemma_number_list_has(ts, ConstraintType::IslandTowns, v);
    lemma_text_list_has(ts, ConstraintType::PlayerName, w);
    lemma_text_list_has(ts, ConstraintType::AllianceName, w);
    lemma_text_list_has(ts, ConstraintType::TownName, w);
    lemma_text_list_has(ts, ConstraintType::IslandResMore, w);
    lemma_text_list_has(ts, ConstraintType::IslandResLess, w);
}

/// The lower case form of a text, as `str::to_lowercase` gives it.
pub uninterp spec fn lowercase_of(s: Seq<char>) -> Seq<char>;

/// The lower case form of a text (`str::to_lowercase`). Unicode case
/// mapping is the standard library's; the contract names its result.
#[verifier::external_body]
pub(crate) fn to_lowercase(s: &String) -> (r: String)
    ensures
        r@ == lowercase_of(s@),
{
    s.to_lowercase()
}

/// `a < b` in the order of the drop down lists: by lower case form, then
/// by the text itself.
pub open spec fn text_before(a: Seq<char>, b: Seq<char>) -> bool {
    lex_lt(lowercase_of(a), lowercase_of(b)) || (lowercase_of(a) == lowercase_of(b) && lex_lt(a, b))
}

/// Each number comes before the next.
pub open spec fn strictly_increasing(s: Seq<int>) -> bool {
    forall|i: int, j: int| 0 <= i < j < s.len() ==> #[trigger] s[i] < #[trigger] s[j]
}

/// `r` lists the numbers of `values`, each once, in ascending order, in
/// decimal.
pub open spec fn lists_numbers(r: Seq<Seq<char>>, values: Seq<int>) -> bool {
    exists|ns: Seq<int>|
        strictly_increasing(ns) && ns.to_set() == values.to_set() && #[trigger] decimals(ns) == r
}

/// Each number in decimal.
pub open spec fn decimals(ns: Seq<int>) -> Seq<Seq<char>> {
    ns.map_values(|n: int| decimal(n as nat))
}

/// `r` lists the texts of `values`, each once, in the order of the drop
/// down lists.
pub open spec fn lists_texts(r: Seq<Seq<char>>, values: Seq<Seq<char>>) -> bool {
    &&& r.to_set() == values.to_set()
    &&& forall|i: int, j: int| 0 <= i < j < r.len() ==> text_before(#[trigger] r[i], #[trigger] r[j])
}

/// Sorts numbers (`slice::sort_unstable`): the same numbers, each as often,
/// in ascending order.
#[verifier::external_body]
fn sort_numbers(v: &mut Vec<u64>)
    ensures
        final(v)@.to_multiset() == old(v)@.to_multiset(),
        forall|i: int, j: int| 0 <= i <= j < final(v)@.len() ==> final(v)@[i] <= final(v)@[j],
{
    v.sort_unstable();
}

/// Pairs of texts as plain values.
pub open spec fn pair_views(v: Seq<(String, String)>) -> Seq<(Seq<char>, Seq<char>)> {
    v.map_values(|p: (String, String)| (p.0@, p.1@))
}

/// `a <= b` in the order of pairs of strings: by the first, then by the
/// second, each in the lexicographic order of characters.
pub open spec fn pair_le(a: (Seq<char>, Seq<char>), b: (Seq<char>, Seq<char>)) -> bool {
    lex_lt(a.0, b.0) || (a.0 == b.0 && lex_le(a.1, b.1))
}

/// Sorts pairs of strings (`slice::sort_unstable`, with the order of
/// tuples and of `String`): the same pairs, each as often, in ascending
/// order.
#[verifier::external_body]
fn sort_text_pairs(v: &mut Vec<(String, String)>)
    ensures
        pair_views(final(v)@).to_multiset() == pair_views(old(v)@).to_multiset(),
        forall|i: int, j: int|
            0 <= i <= j < final(v)@.len() ==> pair_le(pair_views(final(v)@)[i], pair_views(final(v)@)[j]),
{
    v.sort_unstable();
}

fn town_number_exec(t: &BackendTown, ct: ConstraintType) -> (r: Option<u64>)
    ensures
        match r {
            Some(n) => town_number(t@, ct) == Some(n as int),
            None => town_number(t@, ct) is None,
        },
{
    match ct {
        ConstraintType::PlayerID => match &t.player {
            Some(p) => Some(p.0 as u64),
            None => None,
        },
        ConstraintType::PlayerPoints => match &t.player {
            Some(p) => Some(p.1.points as u64),
            None => None,
        },
        ConstraintType::PlayerRank => match &t.player {
            Some(p) => Some(p.1.rank as u64),
            None => None,
        },
        ConstraintType::PlayerTowns => match &t.player {
            Some(p) => Some(p.1.towns as u64),
            None => None,
        },
        ConstraintType::AlliancePoints => match &t.player {
            Some(p) => match &p.1.alliance {
                Some(a) => Some(a.1.points as u64),
                None => None,
            },
            None => None,
        },
        ConstraintType::AllianceTowns => match &t.player {
            Some(p) => match &p.1.alliance {
                Some(a) => Some(a.1.towns as u64),
                None => None,
            },
            None => None,
        },
        ConstraintType::AllianceMembers => match &t.player {
            Some(p) => match &p.1.alliance {
                Some(a) => Some(a.1.members as u64),
                None => None,
            },
            None => None,
        },
        ConstraintType::AllianceRank => match &t.player {
            Some(p) => match &p.1.alliance {
                Some(a) => Some(a.1.rank as u64),
                None => None,
            },
            None => None,
        },
        ConstraintType::TownID => Some(t.id as u64),
        ConstraintType::TownPoints => Some(t.points as u64),
        ConstraintType::IslandID => Some(t.island.2.id as u64),
        ConstraintType::IslandX => Some(t.island.0 as u64),
        ConstraintType::IslandY => Some(t.island.1 as u64),
        ConstraintType::IslandType => Some(t.island.2.typ as u64),
        ConstraintType::IslandTowns => Some(t.island.2.towns as u64),
        _ => None,
    }
}

fn town_text_exec(t: &BackendTown, ct: ConstraintType) -> (r: Option<String>)
    ensures
        match r {
            Some(s) => town_text(t@, ct) == Some(s@),
            None => town_text(t@, ct) is None,
        },
{
    match ct {
        ConstraintType::PlayerName => match &t.player {
            Some(p) => Some(p.1.name.clone()),
            None => None,
        },
        ConstraintType::AllianceName => match &t.player {
            Some(p) => match &p.1.alliance {
                Some(a) => Some(a.1.name.clone()),
                None => None,
            },
            None => None,
        },
        ConstraintType::TownName => Some(t.name.clone()),
        ConstraintType::IslandResMore => Some(t.island.2.ressource_plus.clone()),
        ConstraintType::IslandResLess => Some(t.island.2.ressource_minus.clone()),
        _ => None,
    }
}

/// The numbers of a sorted list, each once.
fn dedup_numbers(v: &Vec<u64>) -> (r: Vec<u64>)
    requires
        forall|i: int, j: int| 0 <= i <= j < v@.len() ==> v@[i] <= v@[j],
    ensures
        forall|i: int, j: int| 0 <= i < j < r@.len() ==> r@[i] < r@[j],
        r@.to_set() == v@.to_set(),
{
    let mut r: Vec<u64> = Vec::new();
    let mut i: usize = 0;
    while i < v.len()
        invariant
            forall|a: int, b: int| 0 <= a <= b < v@.len() ==> v@[a] <= v@[b],
            i <= v@.len(),
            forall|a: int, b: int| 0 <= a < b < r@.len() ==> r@[a] < r@[b],
            r@.to_set() == v@.take(i as int).to_set(),
            i > 0 ==> r@.len() > 0 && r@.last() == v@[i - 1],
            i == 0 ==> r@.len() == 0,
        decreases v@.len() - i,
    {
        let x = v[i];
        proof {
            assert(v@.take(i + 1) =~= v@.take(i as int).push(x));
            v@.take(i as int).lemma_push_to_set_commute(x);
        }
        if r.len() == 0 || r[r.len() - 1] != x {
            let ghost r0 = r@;
            r.push(x);
            proof {
                r0.lemma_push_to_set_commute(x);
                if r0.len() > 0 {
                    assert(v@[i - 1] <= x);
                    assert forall|a: int, b: int| 0 <= a < b < r@.len() implies r@[a] < r@[b] by {
                        if b == r@.len() - 1 && a < b {
                            assert(r0[a] <= r0.last());
                        }
                    }
                }
            }
        } else {
            proof {
                assert(v@.take(i as int).to_set().contains(x)) by {
                    assert(v@.take(i as int)[i - 1] == x);
                }
                assert(v@.take(i as int).to_set().insert(x) =~= v@.take(i as int).to_set());
            }
        }
        i = i + 1;
    }
    assert(v@.take(i as int) =~= v@);
    r
}

/// The pairs of a sorted list, each once.
fn dedup_pairs(v: &Vec<(String, String)>) -> (r: Vec<(String, String)>)
    requires
        forall|i: int, j: int| 0 <= i <= j < v@.len() ==> pair_le(pair_views(v@)[i], pair_views(v@)[j]),
    ensures
        forall|i: int, j: int|
            0 <= i < j < r@.len() ==> pair_le(#[trigger] pair_views(r@)[i], #[trigger] pair_views(r@)[j])
                && pair_views(r@)[i] != pair_views(r@)[j],
        pair_views(r@).to_set() == pair_views(v@).to_set(),
{
    let ghost pv = pair_views(v@);
    let mut r: Vec<(String, String)> = Vec::new();
    let mut i: usize = 0;
    while i < v.len()
        invariant
            pv == pair_views(v@),
            forall|a: int, b: int| 0 <= a <= b < v@.len() ==> pair_le(pv[a], pv[b]),
            i <= v@.len(),
            forall|a: int| 0 <= a < r@.len() ==> #[trigger] occurs_before(pv, i as int, pair_views(r@)[a]),
            forall|a: int, b: int|
                0 <= a < b < r@.len() ==> pair_le(#[trigger] pair_views(r@)[a], #[trigger] pair_views(r@)[b])
                    && pair_views(r@)[a] != pair_views(r@)[b],
            pair_views(r@).to_set() == pv.take(i as int).to_set(),
            i > 0 ==> r@.len() > 0 && pair_views(r@).last() == pv[i - 1],
            i == 0 ==> r@.len() == 0,
        decreases v@.len() - i,
    {
        let ghost x = pv[i as int];
        let ghost rv0 = pair_views(r@);
        proof {
            assert(pv.take(i + 1) =~= pv.take(i as int).push(x));
            pv.take(i as int).lemma_push_to_set_commute(x);
        }
        let same = r.len() > 0 && r[r.len() - 1].0 == v[i].0 && r[r.len() - 1].1 == v[i].1;
        proof {
            if r@.len() > 0 {
                assert(rv0.last() == (r@[r@.len() - 1].0@, r@[r@.len() - 1].1@));
            }
            assert(x == (v@[i as int].0@, v@[i as int].1@));
            assert(same == (r@.len() > 0 && rv0.last() == x));
        }
        if !same {
            let p = (v[i].0.clone(), v[i].1.clone());
            r.push(p);
            proof {
                let rv = pair_views(r@);
                assert(rv =~= rv0.push(x));
                rv0.lemma_push_to_set_commute(x);
                assert forall|a: int| 0 <= a < r@.len() implies #[trigger] occurs_before(pv, i + 1, pair_views(r@)[a]) by {
                    if a < rv0.len() {
                        assert(occurs_before(pv, i as int, rv0[a]));
                        let m = choose|m: int| 0 <= m < i && pv[m] == rv0[a];
                        assert(pv[m] == rv[a]);
                    } else {
                        assert(pv[i as int] == rv[a]);
                    }
                }
                assert forall|a: int, b: int| 0 <= a < b < rv.len() implies pair_le(#[trigger] pair_views(r@)[a], #[trigger] pair_views(r@)[b])
                    && pair_views(r@)[a] != pair_views(r@)[b] by {
                    if b == rv.len() - 1 {
                        assert(rv[b] == x);
                        assert(rv[a] == rv0[a]);
                        assert(occurs_before(pv, i as int, rv0[a]));
                        let m = choose|m: int| 0 <= m < i && pv[m] == rv0[a];
                        assert(pair_le(pv[m], pv[i as int]));
                        if rv[a] == rv[b] {
                            assert(i > 0);
                            assert(pair_le(pv[m], pv[i - 1]));
                            assert(pv[i as int] == pv[m]);
                            assert(pair_le(pv[i - 1], pv[i as int]));
                            lemma_pair_antisymmetric(pv[i - 1], pv[i as int]);
                            assert(rv0.last() == pv[i - 1]);
                            assert(false);
                        }
                    } else {
                        assert(rv[a] == rv0[a] && rv[b] == rv0[b]);
                    }
                }
            }
        } else {
            proof {
                assert(rv0.last() == x);
                assert forall|a: int| 0 <= a < r@.len() implies #[trigger] occurs_before(pv, i + 1, pair_views(r@)[a]) by {
                    assert(occurs_before(pv, i as int, rv0[a]));
                    let m = choose|m: int| 0 <= m < i && pv[m] == rv0[a];
                    assert(pv[m] == pair_views(r@)[a]);
                }
                assert(pv.take(i as int).to_set().contains(x)) by {
                    assert(pv.take(i as int)[i - 1] == x);
                }
                assert(pv.take(i as int).to_set().insert(x) =~= pv.take(i as int).to_set());
            }
        }
        i = i + 1;
    }
    assert(pv.take(i as int) =~= pv);
    r
}

/// `x` is one of the first `n` entries of `s`.
pub open spec fn occurs_before<T>(s: Seq<T>, n: int, x: T) -> bool {
    exists|m: int| 0 <= m < n && s[m] == x
}

proof fn lemma_pair_antisymmetric(a: (Seq<char>, Seq<char>), b: (Seq<char>, Seq<char>))
    requires
        pair_le(a, b),
        pair_le(b, a),
    ensures
        a == b,
{
    if a.0 == b.0 {
        lemma_lex_antisymmetric(a.1, b.1);
    } else {
        lemma_lex_antisymmetric(a.0, b.0);
    }
}

/// A text with its lower case form in front.
pub open spec fn keyed(s: Seq<char>) -> (Seq<char>, Seq<char>) {
    (lowercase_of(s), s)
}

fn number_names(towns: &[Rc<BackendTown>], ct: ConstraintType) -> (r: Vec<String>)
    ensures
        lists_numbers(r@.map_values(|s: String| s@), number_list(records(towns@), ct)),
{
    let ghost ts = records(towns@);
    let ghost f = |t: TownRecord| town_number(t, ct);
    let mut values: Vec<u64> = Vec::new();
    let mut i: usize = 0;
    while i < towns.len()
        invariant
            ts == records(towns@),
            f == (|t: TownRecord| town_number(t, ct)),
            i <= towns@.len(),
            values@.map_values(|v: u64| v as int) == ts.take(i as int).filter_map(f),
        decreases towns@.len() - i,
    {
        proof {
            ts.lemma_filter_map_take_succ(f, i as int);
            assert(ts[i as int] == towns@[i as int]@);
        }
        match town_number_exec(&towns[i], ct) {
            Some(n) => {
                values.push(n);
            },
            None => {},
        }
        assert(values@.map_values(|v: u64| v as int) =~= ts.take(i + 1).filter_map(f));
        i = i + 1;
    }
    assert(ts.take(i as int) =~= ts);
    let ghost values0 = values@;
    sort_numbers(&mut values);
    let uniq = dedup_numbers(&values);
    let mut r: Vec<String> = Vec::new();
    let mut k: usize = 0;
    while k < uniq.len()
        invariant
            k <= uniq@.len(),
            r@.len() == k,
            forall|a: int| 0 <= a < k ==> #[trigger] r@[a]@ == decimal(uniq@[a] as nat),
        decreases uniq@.len() - k,
    {
        r.push(u64_to_string(uniq[k]));
        k = k + 1;
    }
    proof {
        let ns = uniq@.map_values(|v: u64| v as int);
        assert(decimals(ns) =~= r@.map_values(|s: String| s@));
        assert(strictly_increasing(ns)) by {
            assert forall|a: int, b: int| 0 <= a < b < ns.len() implies #[trigger] ns[a] < #[trigger] ns[b] by {
                assert(uniq@[a] < uniq@[b]);
            }
        }
        broadcast use vstd::seq_lib::to_multiset_contains;
        assert(values@.to_set() =~= values0.to_set()) by {
            assert forall|x: u64| values@.to_set().contains(x) <==> values0.to_set().contains(x) by {
                assert(values@.to_multiset().count(x) == values0.to_multiset().count(x));
            }
        }
        assert(ns.to_set() =~= values0.map_values(|v: u64| v as int).to_set()) by {
            assert forall|n: int| ns.to_set().contains(n) implies values0.map_values(|v: u64| v as int).to_set().contains(n) by {
                let a = choose|a: int| 0 <= a < ns.len() && ns[a] == n;
                assert(uniq@.to_set().contains(uniq@[a]));
                assert(values0.to_set().contains(uniq@[a]));
                let b = choose|b: int| 0 <= b < values0.len() && values0[b] == uniq@[a];
                assert(values0.map_values(|v: u64| v as int)[b] == n);
            }
            let vi = values0.map_values(|v: u64| v as int);
            assert forall|n: int| vi.to_set().contains(n) implies ns.to_set().contains(n) by {
                let b = choose|b: int| 0 <= b < vi.len() && #[trigger] vi[b] == n;
                assert(values0.to_set().contains(values0[b]));
                assert(uniq@.to_set().contains(values0[b]));
                let a = choose|a: int| 0 <= a < uniq@.len() && uniq@[a] == values0[b];
                assert(ns[a] == n);
            }
        }
        assert(decimals(ns) == r@.map_values(|s: String| s@));
    }
    r
}

fn text_names(towns: &[Rc<BackendTown>], ct: ConstraintType) -> (r: Vec<String>)
    ensures
        lists_texts(r@.map_values(|s: String| s@), text_list(records(towns@), ct)),
{
    let ghost ts = records(towns@);
    let ghost f = |t: TownRecord| town_text(t, ct);
    let mut pairs: Vec<(String, String)> = Vec::new();
    let mut i: usize = 0;
    while i < towns.len()
        invariant
            ts == records(towns@),
            f == (|t: TownRecord| town_text(t, ct)),
            i <= towns@.len(),
            pair_views(pairs@) == ts.take(i as int).filter_map(f).map_values(|s: Seq<char>| keyed(s)),
        decreases towns@.len() - i,
    {
        proof {
            ts.lemma_filter_map_take_succ(f, i as int);
            assert(ts[i as int] == towns@[i as int]@);
        }
        let ghost prev = ts.take(i as int).filter_map(f);
        match town_text_exec(&towns[i], ct) {
            Some(s) => {
                let low = to_lowercase(&s);
                let ghost sv = s@;
                pairs.push((low, s));
                proof {
                    assert(ts.take(i + 1).filter_map(f) =~= prev.push(sv));
                    assert(prev.push(sv).map_values(|s: Seq<char>| keyed(s)) =~= prev.map_values(|s: Seq<char>| keyed(s)).push(
                        keyed(sv),
                    ));
                }
            },
            None => {
                assert(ts.take(i + 1).filter_map(f) =~= prev);
            },
        }
        assert(pair_views(pairs@) =~= ts.take(i + 1).filter_map(f).map_values(|s: Seq<char>| keyed(s)));
        i = i + 1;
    }
    assert(ts.take(i as int) =~= ts);
    let ghost texts = ts.filter_map(f);
    let ghost pairs0 = pair_views(pairs@);
    sort_text_pairs(&mut pairs);
    let uniq = dedup_pairs(&pairs);
    let ghost uv = pair_views(uniq@);
    let mut r: Vec<String> = Vec::new();
    let mut k: usize = 0;
    while k < uniq.len()
        invariant
            uv == pair_views(uniq@),
            k <= uniq@.len(),
            r@.len() == k,
            forall|a: int| 0 <= a < k ==> #[trigger] r@[a]@ == uv[a].1,
        decreases uniq@.len() - k,
    {
        r.push(uniq[k].1.clone());
        k = k + 1;
    }
    proof {
        let rv = r@.map_values(|s: String| s@);
        broadcast use vstd::seq_lib::to_multiset_contains;
        let sorted = pair_views(pairs@);
        assert(sorted.to_set() =~= pairs0.to_set()) by {
            assert forall|x: (Seq<char>, Seq<char>)| sorted.to_set().contains(x) <==> pairs0.to_set().contains(x) by {
                assert(sorted.to_multiset().count(x) == pairs0.to_multiset().count(x));
            }
        }
        // every pair is a text with its lower case form
        assert forall|a: int| 0 <= a < uv.len() implies #[trigger] uv[a] == keyed(uv[a].1) by {
            assert(uv.to_set().contains(uv[a]));
            assert(pairs0.to_set().contains(uv[a]));
            let b = choose|b: int| 0 <= b < pairs0.len() && pairs0[b] == uv[a];
            assert(pairs0[b] == keyed(texts[b]));
        }
        assert forall|a: int, b: int| 0 <= a < b < rv.len() implies text_before(#[trigger] rv[a], #[trigger] rv[b]) by {
            assert(pair_le(uv[a], uv[b]) && uv[a] != uv[b]);
            assert(uv[a] == keyed(uv[a].1));
            assert(uv[b] == keyed(uv[b].1));
            assert(rv[a] == uv[a].1 && rv[b] == uv[b].1);
        }
        assert(rv.to_set() =~= texts.to_set()) by {
            assert forall|s: Seq<char>| rv.to_set().contains(s) implies texts.to_set().contains(s) by {
                let a = choose|a: int| 0 <= a < rv.len() && rv[a] == s;
                assert(uv.to_set().contains(uv[a]));
                assert(pairs0.to_set().contains(uv[a]));
                let b = choose|b: int| 0 <= b < pairs0.len() && pairs0[b] == uv[a];
                assert(pairs0[b] == keyed(texts[b]));
                assert(texts[b] == s);
            }
            assert forall|s: Seq<char>| texts.to_set().contains(s) implies rv.to_set().contains(s) by {
                let b = choose|b: int| 0 <= b < texts.len() && texts[b] == s;
                assert(pairs0[b] == keyed(s));
                assert(pairs0.to_set().contains(keyed(s)));
                assert(uv.to_set().contains(keyed(s)));
                let a = choose|a: int| 0 <= a < uv.len() && uv[a] == keyed(s);
                assert(rv[a] == s);
            }
        }
    }
    r
}

fn is_text_kind(ct: ConstraintType) -> (r: bool)
    ensures
        r == is_text_type(ct),
{
    match ct {
        ConstraintType::PlayerName | ConstraintType::AllianceName | ConstraintType::TownName
        | ConstraintType::IslandResMore | ConstraintType::IslandResLess => true,
        _ => false,
    }
}

/// The values that the towns show for this kind of constraint, each once:
/// numbers in ascending order, written in decimal; text in the order of its
/// lower case form, texts with the same lower case form in their own order.
pub fn get_names_for_constraint_type_in_town_list(towns: &[Rc<BackendTown>], constraint_type: ConstraintType) -> (r: Vec<
    String,
>)
    ensures
        is_text_type(constraint_type) ==> lists_texts(
            r@.map_values(|s: String| s@),
            text_list(records(towns@), constraint_type),
        ),
        !is_text_type(constraint_type) ==> lists_numbers(
            r@.map_values(|s: String| s@),
            number_list(records(towns@), constraint_type),
        ),
{
    if is_text_kind(constraint_type) {
        text_names(towns, constraint_type)
    } else {
        number_names(towns, constraint_type)
    }
}

} // verus!
