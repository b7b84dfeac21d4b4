//! A town as the map draws it.
use vstd::prelude::*;

use crate::database::BackendTown;
use crate::emptyconstraint::rc_clone;
use crate::world::TownRecord;

verus! {

/// A town with what the map shows of it. Its position is the position of
/// its island plus the offset of its slot in 1/125 units of the map:
/// `x = island_x + offset_x / 125` and likewise for `y`.
#[derive(Debug, Clone)]
pub struct Town {
    pub id: u32,
    pub player_id: Option<u32>,
    pub player_name: Option<String>,
    pub alliance_name: Option<String>,
    pub name: String,
    pub island_x: u16,
    pub island_y: u16,
    pub offset_x: u16,
    pub offset_y: u16,
    pub slot_number: u8,
    pub points: u16,
}

/// A town as plain values.
pub struct TownView {
    pub id: u32,
    pub player_id: Option<u32>,
    pub player_name: Option<Seq<char>>,
    pub alliance_name: Option<Seq<char>>,
    pub name: Seq<char>,
    pub island_x: u16,
    pub island_y: u16,
    pub offset_x: u16,
    pub offset_y: u16,
    pub slot_number: u8,
    pub points: u16,
}

impl View for Town {
    type V = TownView;

    open spec fn view(&self) -> TownView {
        TownView {
            id: self.id,
            player_id: self.player_id,
            player_name: match self.player_name {
                Some(s) => Some(s@),
                None => None,
            },
            alliance_name: match self.alliance_name {
                Some(s) => Some(s@),
                None => None,
            },
            name: self.name@,
            island_x: self.island_x,
            island_y: self.island_y,
            offset_x: self.offset_x,
            offset_y: self.offset_y,
            slot_number: self.slot_number,
            points: self.points,
        }
    }
}

/// What the map shows of a town: its owner's id and name, the owner's
/// alliance's name, and the position from its island and its slot's offset.
pub open spec fn town_of(t: TownRecord) -> TownView {
    TownView {
        id: t.id,
        player_id: match t.player {
            Some(p) => Some(p.0),
            None => None,
        },
        player_name: match t.player {
            Some(p) => Some(p.1.name),
            None => None,
        },
        alliance_name: match t.player {
            Some(p) => match p.1.alliance {
                Some(a) => Some(a.1.name),
                None => None,
            },
            None => None,
        },
        name: t.name,
        island_x: t.island.0,
        island_y: t.island.1,
        offset_x: t.offset.1.x,
        offset_y: t.offset.1.y,
        slot_number: t.offset.1.slot_number,
        points: t.points,
    }
}

/// The map shows a town as it is: its id, name and points, its island's
/// coordinates, its slot's offset and number, and its owner's id and name
/// and the owner's alliance's name, each taken from the town itself.
pub proof fn lemma_town_shown_as_it_is(t: TownRecord)
    ensures
        town_of(t).id == t.id,
        town_of(t).name == t.name,
        town_of(t).points == t.points,
        town_of(t).island_x == t.island.0,
        town_of(t).island_y == t.island.1,
        town_of(t).offset_x == t.offset.1.x,
        town_of(t).offset_y == t.offset.1.y,
        town_of(t).slot_number == t.offset.1.slot_number,
        town_of(t).player_id == match t.player {
            Some(p) => Some(p.0),
            None => None::<u32>,
        },
        town_of(t).player_name == match t.player {
            Some(p) => Some(p.1.name),
            None => None::<Seq<char>>,
        },
        town_of(t).alliance_name == match t.player {
            Some(p) => match p.1.alliance {
                Some(a) => Some(a.1.name),
                None => None::<Seq<char>>,
            },
            None => None::<Seq<char>>,
        },
{
}

impl Town {
    /// The town as the map shows it (`From<&BackendTown>`).
    pub fn from(value: &BackendTown) -> (r: Town)
        ensures
            r@ == town_of(value@),
    {
        let (player_id, player_name, alliance_name) = match &value.player {
            Some((id, p)) => {
                let alliance_name = match &p.alliance {
                    Some((_, a)) => Some(a.name.clone()),
                    None => None,
                };
                (Some(*id), Some(p.name.clone()), alliance_name)
            },
            None => (None, None, None),
        };
        let offset = rc_clone(&value.offset.1);
        Town {
            id: value.id,
            player_id,
            player_name,
            alliance_name,
            name: value.name.clone(),
            island_x: value.island.0,
            island_y: value.island.1,
            offset_x: offset.x,
            offset_y: offset.y,
            slot_number: offset.slot_number,
            points: value.points,
        }
    }
}

} // verus!
