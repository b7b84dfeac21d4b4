//! The world data of a server: alliances, players, islands and towns, and the
//! queries that the presenter makes on them.
use std::collections::HashSet;
use std::rc::Rc;
use vstd::prelude::*;

use crate::constraint::ConstraintType;
use crate::emptyconstraint::{matching_towns_for_selection, passes_selection, rc_clone};
use crate::emptyselection::{acyclic_from, views, EmptyTownSelection};
use crate::names::{get_names_for_constraint_type_in_town_list, is_text_type, lists_numbers, lists_texts, number_list, records, text_list};
use crate::town::{town_of, Town, TownView};

verus! {

/// Where a town sits on an island of a given type, in 1/125 map units.
#[derive(Debug, Clone, PartialEq, Eq, Hash)]
pub struct Offset {
    pub typ: u8,
    pub x: u16,
    pub y: u16,
    pub slot_number: u8,
}

/// An island of the world.
#[derive(Debug, Clone, PartialEq, Eq, Hash)]
pub struct Island {
    pub id: u32,
    pub x: u16,
    pub y: u16,
    pub typ: u8,
    pub towns: u8,
    pub ressource_plus: String,
    pub ressource_minus: String,
}

/// An alliance of players.
#[derive(Debug, Clone, PartialEq, Eq, Hash)]
pub struct Alliance {
    pub id: u32,
    pub name: String,
    pub points: u32,
    pub towns: u32,
    pub members: u16,
    pub rank: u16,
}

/// A player, with the alliance it belongs to.
#[derive(Debug, Clone, PartialEq, Eq, Hash)]
pub struct Player {
    pub id: u32,
    pub name: String,
    /// `(alliance id, alliance)`
    pub alliance: Option<(u32, Rc<Alliance>)>,
    pub points: u32,
    pub rank: u16,
    pub towns: u16,
}

/// A town with everything it is linked to: its owner, its island (with the
/// island's coordinates) and the offset of its slot (with the slot number).
#[derive(Debug)]
pub struct BackendTown {
    pub id: u32,
    pub name: String,
    pub points: u16,
    /// `(player id, player)`; `None` for a ghost town.
    pub player: Option<(u32, Rc<Player>)>,
    /// `(island x, island y, island)`
    pub island: (u16, u16, Rc<Island>),
    /// `(slot number, offset)`
    pub offset: (u8, Rc<Offset>),
}

/// The towns of a world.
pub struct DataTable {
    pub towns: Vec<Rc<BackendTown>>,
}

/// The towns as the map shows them, in order.
pub open spec fn towns_shown(ts: Seq<Rc<BackendTown>>) -> Seq<TownView> {
    ts.map_values(|t: Rc<BackendTown>| town_of(t@))
}

/// Selects the towns that nobody owns.
pub open spec fn is_ghost() -> spec_fn(Rc<BackendTown>) -> bool {
    |t: Rc<BackendTown>| t.player is None
}

/// The towns with the first town of each id only, in order.
pub open spec fn first_by_id(ts: Seq<Rc<BackendTown>>) -> Seq<Rc<BackendTown>>
    decreases ts.len(),
{
    if ts.len() == 0 {
        Seq::empty()
    } else {
        let prev = first_by_id(ts.drop_last());
        if exists|k: int| 0 <= k < ts.len() - 1 && #[trigger] ts[k].id == ts.last().id {
            prev
        } else {
            prev.push(ts.last())
        }
    }
}

/// The towns shown on the map, in order.
fn shown(ts: &Vec<Rc<BackendTown>>) -> (r: Vec<Town>)
    ensures
        r@.map_values(|t: Town| t@) == towns_shown(ts@),
{
    let mut r: Vec<Town> = Vec::new();
    let mut i: usize = 0;
    while i < ts.len()
        invariant
            i <= ts@.len(),
            r@.len() == i,
            forall|a: int| 0 <= a < i ==> #[trigger] r@[a]@ == town_of(ts@[a]@),
        decreases ts@.len() - i,
    {
        let t = Town::from(&ts[i]);
        assert(t@ == town_of(ts@[i as int]@));
        r.push(t);
        i = i + 1;
    }
    assert(r@.map_values(|t: Town| t@) =~= towns_shown(ts@));
    r
}

/// The towns with the first town of each id only, in order.
fn unique_by_id(ts: &Vec<Rc<BackendTown>>) -> (r: Vec<Rc<BackendTown>>)
    ensures
        r@ == first_by_id(ts@),
{
    broadcast use vstd::std_specs::hash::group_hash_axioms;

    let mut seen: HashSet<u32> = HashSet::new();
    let mut r: Vec<Rc<BackendTown>> = Vec::new();
    let mut i: usize = 0;
    while i < ts.len()
        invariant
            i <= ts@.len(),
            forall|id: u32| #[trigger] seen@.contains(id) <==> exists|k: int| 0 <= k < i && #[trigger] ts@[k].id == id,
            r@ == first_by_id(ts@.take(i as int)),
        decreases ts@.len() - i,
    {
        let t = &ts[i];
        let ghost pre = ts@.take(i + 1);
        assert(pre.drop_last() =~= ts@.take(i as int));
        assert(pre.last() == ts@[i as int]);
        let id = t.id;
        if seen.contains(&id) {
            proof {
                let k = choose|k: int| 0 <= k < i && #[trigger] ts@[k].id == id;
                assert(pre[k].id == pre.last().id);
            }
        } else {
            r.push(rc_clone(t));
            seen.insert(id);
            proof {
                assert(!exists|k: int| 0 <= k < pre.len() - 1 && #[trigger] pre[k].id == pre.last().id) by {
                    if exists|k: int| 0 <= k < pre.len() - 1 && #[trigger] pre[k].id == pre.last().id {
                        let k = choose|k: int| 0 <= k < pre.len() - 1 && #[trigger] pre[k].id == pre.last().id;
                        assert(ts@[k].id == id);
                    }
                }
                assert forall|id2: u32| #[trigger] seen@.contains(id2) <==> exists|k: int| 0 <= k < i + 1 && #[trigger] ts@[k].id == id2 by {
                    if id2 == id {
                        assert(ts@[i as int].id == id);
                    }
                }
            }
        }
        i = i + 1;
    }
    assert(ts@.take(i as int) =~= ts@);
    r
}

impl DataTable {
    /// Every town, as the map shows it.
    pub fn get_all_towns(&self) -> (r: Vec<Town>)
        ensures
            r@.map_values(|t: Town| t@) == towns_shown(self.towns@),
    {
        shown(&self.towns)
    }

    /// The towns that nobody owns, as the map shows them.
    pub fn get_ghost_towns(&self) -> (r: Vec<Town>)
        ensures
            r@.map_values(|t: Town| t@) == towns_shown(self.towns@.filter(is_ghost())),
    {
        let mut ghosts: Vec<Rc<BackendTown>> = Vec::new();
        let mut i: usize = 0;
        while i < self.towns.len()
            invariant
                i <= self.towns@.len(),
                ghosts@ == self.towns@.take(i as int).filter(is_ghost()),
            decreases self.towns@.len() - i,
        {
            proof {
                assert(self.towns@.take(i + 1) =~= self.towns@.take(i as int).push(self.towns@[i as int]));
                self.towns@.take(i as int).lemma_filter_push(self.towns@[i as int], is_ghost());
            }
            if self.towns[i].player.is_none() {
                ghosts.push(rc_clone(&self.towns[i]));
            }
            i = i + 1;
        }
        assert(self.towns@.take(i as int) =~= self.towns@);
        shown(&ghosts)
    }

    /// The values the towns show for this kind of constraint, as the drop
    /// down lists offer them.
    pub fn get_names_for_constraint_type(&self, constraint_type: ConstraintType) -> (r: Vec<String>)
        ensures
            is_text_type(constraint_type) ==> lists_texts(
                r@.map_values(|s: String| s@),
                text_list(records(self.towns@), constraint_type),
            ),
            !is_text_type(constraint_type) ==> lists_numbers(
                r@.map_values(|s: String| s@),
                number_list(records(self.towns@), constraint_type),
            ),
    {
        get_names_for_constraint_type_in_town_list(self.towns.as_slice(), constraint_type)
    }

    /// The towns (each id once) that pass the selection; none for a
    /// selection without constraints.
    pub fn get_backendtowns_for_constraints(
        &self,
        selection: &EmptyTownSelection,
        all_selections: &[EmptyTownSelection],
    ) -> (r: Vec<Rc<BackendTown>>)
        requires
            selection.constraints@.len() > 0 ==> acyclic_from(selection@, views(all_selections@)),
        ensures
            selection.constraints@.len() == 0 ==> r@.len() == 0,
            selection.constraints@.len() > 0 ==> r@ == first_by_id(self.towns@).filter(
                passes_selection(selection@, views(all_selections@)),
            ),
    {
        if selection.constraints.len() == 0 {
            return Vec::new();
        }
        let unique = unique_by_id(&self.towns);
        matching_towns_for_selection(&unique, selection, all_selections)
    }

    /// The towns that pass the selection, as the map shows them; none for a
    /// selection without constraints.
    pub fn get_towns_for_constraints(&self, selection: &EmptyTownSelection, all_selections: &[EmptyTownSelection]) -> (r: Vec<
        Town,
    >)
        requires
            selection.constraints@.len() > 0 ==> acyclic_from(selection@, views(all_selections@)),
        ensures
            selection.constraints@.len() == 0 ==> r@.len() == 0,
            selection.constraints@.len() > 0 ==> r@.map_values(|t: Town| t@) == towns_shown(
                first_by_id(self.towns@).filter(passes_selection(selection@, views(all_selections@))),
            ),
    {
        if selection.constraints.len() == 0 {
            return Vec::new();
        }
        let towns = self.get_backendtowns_for_constraints(selection, all_selections);
        shown(&towns)
    }

    /// The values that the towns passing the selection show for this kind
    /// of constraint; those of every town for a selection without
    /// constraints.
    pub fn get_names_for_constraint_type_in_constraints(
        &self,
        constraint_type: ConstraintType,
        selection: &EmptyTownSelection,
        all_selections: &[EmptyTownSelection],
    ) -> (r: Vec<String>)
        requires
            selection.constraints@.len() > 0 ==> acyclic_from(selection@, views(all_selections@)),
        ensures
            ({
                let towns = if selection.constraints@.len() == 0 {
                    self.towns@
                } else {
                    first_by_id(self.towns@).filter(passes_selection(selection@, views(all_selections@)))
                };
                &&& is_text_type(constraint_type) ==> lists_texts(
                    r@.map_values(|s: String| s@),
                    text_list(records(towns), constraint_type),
                )
                &&& !is_text_type(constraint_type) ==> lists_numbers(
                    r@.map_values(|s: String| s@),
                    number_list(records(towns), constraint_type),
                )
            }),
    {
        if selection.constraints.len() == 0 {
            return self.get_names_for_constraint_type(constraint_type);
        }
        let towns = self.get_backendtowns_for_constraints(selection, all_selections);
        get_names_for_constraint_type_in_town_list(towns.as_slice(), constraint_type)
    }
}

} // verus!
