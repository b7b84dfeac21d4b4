//! Reading the world data files of a server: one record per line, fields
//! separated by commas, names in `application/x-www-form-urlencoded` form.
use std::collections::HashMap;
use std::rc::Rc;
use vstd::prelude::*;

use crate::database::{Alliance, BackendTown, DataTable, Island, Offset, Player};
use crate::emptyconstraint::rc_clone;
use crate::text::{chars_of, lines, lines_of, parse_unsigned, parse_unsigned_spec, push_chars, split_chars, split_on, string_of};

verus! {

broadcast use vstd::std_specs::hash::group_hash_axioms;

// ---------------------------------------------------------------------------
// Fields of a line
// ---------------------------------------------------------------------------

/// The comma separated fields of a line.
pub open spec fn fields_of(line: Seq<char>) -> Seq<Seq<char>> {
    split_on(line, ',')
}

/// Field `k` read as an unsigned number no larger than `max`; `None` where
/// there is no such field or it does not read as one.
pub open spec fn number_field(f: Seq<Seq<char>>, k: int, max: int) -> Option<int> {
    if 0 <= k < f.len() {
        parse_unsigned_spec(f[k], max)
    } else {
        None
    }
}

fn read_number(f: &Vec<Vec<char>>, k: usize, max: u64) -> (r: Option<u64>)
    requires
        max <= u32::MAX,
    ensures
        match r {
            Some(v) => number_field(f@.map_values(|p: Vec<char>| p@), k as int, max as int) == Some(v as int),
            None => number_field(f@.map_values(|p: Vec<char>| p@), k as int, max as int) is None,
        },
{
    if k < f.len() {
        parse_unsigned(&f[k], max)
    } else {
        None
    }
}

/// The fields of a line, each as characters.
fn split_fields(line: &Vec<char>) -> (r: Vec<Vec<char>>)
    ensures
        r@.map_values(|p: Vec<char>| p@) == fields_of(line@),
{
    let r = split_chars(line, ',');
    assert(r@.map_values(|p: Vec<char>| p@) =~= fields_of(line@));
    r
}

// ---------------------------------------------------------------------------
// Names
// ---------------------------------------------------------------------------

/// The `(name, value)` pairs that `form_urlencoded::parse` reads from the
/// UTF-8 bytes of `text`.
pub uninterp spec fn form_pairs(text: Seq<char>) -> Seq<(Seq<char>, Seq<char>)>;

/// Reads `text` as `application/x-www-form-urlencoded` pairs
/// (`form_urlencoded::parse` on the bytes of `text`). The contract claims
/// only that the pairs are the crate's reading of those bytes; how it
/// splits and decodes them is the crate's own.
#[verifier::external_body]
fn form_urlencoded_pairs(text: &str) -> (r: Vec<(String, String)>)
    ensures
        r@.map_values(|p: (String, String)| (p.0@, p.1@)) == form_pairs(text@),
{
    let mut r = Vec::new();
    for (name, value) in form_urlencoded::parse(text.as_bytes()) {
        r.push((name.into_owned(), value.into_owned()));
    }
    r
}

/// The pairs written one after the other, each name followed by its value.
pub open spec fn joined_pairs(pairs: Seq<(Seq<char>, Seq<char>)>) -> Seq<char>
    decreases pairs.len(),
{
    if pairs.len() == 0 {
        Seq::empty()
    } else {
        joined_pairs(pairs.drop_last()) + pairs.last().0 + pairs.last().1
    }
}

/// A name as the data files write it, decoded.
pub open spec fn decoded_name(text: Seq<char>) -> Seq<char> {
    joined_pairs(form_pairs(text))
}

/// Decodes a name field: every pair that the form reading gives, its name
/// then its value, in order.
pub fn decode_name(text: &Vec<char>) -> (r: String)
    ensures
        r@ == decoded_name(text@),
{
    let s = string_of(text);
    let pairs = form_urlencoded_pairs(s.as_str());
    let ghost pv = pairs@.map_values(|p: (String, String)| (p.0@, p.1@));
    let mut r = String::new();
    let mut i: usize = 0;
    while i < pairs.len()
        invariant
            i <= pairs@.len(),
            pv == pairs@.map_values(|p: (String, String)| (p.0@, p.1@)),
            pv == form_pairs(text@),
            r@ == joined_pairs(pv.take(i as int)),
        decreases pairs@.len() - i,
    {
        let name = chars_of(pairs[i].0.as_str());
        let value = chars_of(pairs[i].1.as_str());
        push_chars(&mut r, &name, 0, name.len());
        push_chars(&mut r, &value, 0, value.len());
        proof {
            assert(pv.take(i + 1).drop_last() =~= pv.take(i as int));
            assert(name@.subrange(0, name@.len() as int) =~= name@);
            assert(value@.subrange(0, value@.len() as int) =~= value@);
        }
        i = i + 1;
    }
    assert(pv.take(i as int) =~= pv);
    r
}

// ---------------------------------------------------------------------------
// Records and their views
// ---------------------------------------------------------------------------

/// An alliance as plain values.
pub struct AllianceView {
    pub id: u32,
    pub name: Seq<char>,
    pub points: u32,
    pub towns: u32,
    pub members: u16,
    pub rank: u16,
}

impl View for Alliance {
    type V = AllianceView;

    open spec fn view(&self) -> AllianceView {
        AllianceView {
            id: self.id,
            name: self.name@,
            points: self.points,
            towns: self.towns,
            members: self.members,
            rank: self.rank,
        }
    }
}

/// A player as plain values, with the alliance it belongs to.
pub struct PlayerView {
    pub id: u32,
    pub name: Seq<char>,
    pub alliance: Option<(u32, AllianceView)>,
    pub points: u32,
    pub rank: u16,
    pub towns: u16,
}

impl View for Player {
    type V = PlayerView;

    open spec fn view(&self) -> PlayerView {
        PlayerView {
            id: self.id,
            name: self.name@,
            alliance: match self.alliance {
                Some(a) => Some((a.0, a.1@)),
                None => None,
            },
            points: self.points,
            rank: self.rank,
            towns: self.towns,
        }
    }
}

/// An island as plain values.
pub struct IslandView {
    pub id: u32,
    pub x: u16,
    pub y: u16,
    pub typ: u8,
    pub towns: u8,
    pub ressource_plus: Seq<char>,
    pub ressource_minus: Seq<char>,
}

impl View for Island {
    type V = IslandView;

    open spec fn view(&self) -> IslandView {
        IslandView {
            id: self.id,
            x: self.x,
            y: self.y,
            typ: self.typ,
            towns: self.towns,
            ressource_plus: self.ressource_plus@,
            ressource_minus: self.ressource_minus@,
        }
    }
}

/// A town as plain values, with its owner, island and offset.
pub struct TownRecord {
    pub id: u32,
    pub name: Seq<char>,
    pub points: u16,
    pub player: Option<(u32, PlayerView)>,
    pub island: (u16, u16, IslandView),
    pub offset: (u8, Offset),
}

impl View for BackendTown {
    type V = TownRecord;

    open spec fn view(&self) -> TownRecord {
        TownRecord {
            id: self.id,
            name: self.name@,
            points: self.points,
            player: match self.player {
                Some(p) => Some((p.0, p.1@)),
                None => None,
            },
            island: (self.island.0, self.island.1, self.island.2@),
            offset: (self.offset.0, *self.offset.1),
        }
    }
}

// ---------------------------------------------------------------------------
// Reading a file line by line
// ---------------------------------------------------------------------------

/// The lines that `read` does not accept.
pub open spec fn bad_lines<T>(lines: Seq<Seq<char>>, read: spec_fn(Seq<char>) -> Option<T>) -> nat
    decreases lines.len(),
{
    if lines.len() == 0 {
        0
    } else {
        bad_lines(lines.drop_last(), read) + if read(lines.last()) is Some {
            0nat
        } else {
            1nat
        }
    }
}

/// The records that `read` accepts, each under its `key`; a later line
/// replaces an earlier one with the same key.
pub open spec fn records_by_key<T>(
    lines: Seq<Seq<char>>,
    read: spec_fn(Seq<char>) -> Option<T>,
    key: spec_fn(T) -> u32,
) -> Map<u32, T>
    decreases lines.len(),
{
    if lines.len() == 0 {
        Map::empty()
    } else {
        let m = records_by_key(lines.drop_last(), read, key);
        match read(lines.last()) {
            Some(t) => m.insert(key(t), t),
            None => m,
        }
    }
}

proof fn lemma_records_finite<T>(lines: Seq<Seq<char>>, read: spec_fn(Seq<char>) -> Option<T>, key: spec_fn(T) -> u32)
    ensures
        records_by_key(lines, read, key).dom().finite(),
    decreases lines.len(),
{
    if lines.len() > 0 {
        lemma_records_finite(lines.drop_last(), read, key);
    }
}

proof fn lemma_bad_lines_bound<T>(lines: Seq<Seq<char>>, read: spec_fn(Seq<char>) -> Option<T>)
    ensures
        bad_lines(lines, read) <= lines.len(),
    decreases lines.len(),
{
    if lines.len() > 0 {
        lemma_bad_lines_bound(lines.drop_last(), read);
    }
}

// ---------------------------------------------------------------------------
// Alliances
// ---------------------------------------------------------------------------

/// An alliance line: id, name, points, towns, members, rank; further
/// fields are ignored.
pub open spec fn alliance_line(line: Seq<char>) -> Option<AllianceView> {
    let f = fields_of(line);
    let id = number_field(f, 0, u32::MAX as int);
    let points = number_field(f, 2, u32::MAX as int);
    let towns = number_field(f, 3, u32::MAX as int);
    let members = number_field(f, 4, u16::MAX as int);
    let rank = number_field(f, 5, u16::MAX as int);
    if id is Some && points is Some && towns is Some && members is Some && rank is Some {
        Some(
            AllianceView {
                id: id->0 as u32,
                name: decoded_name(f[1]),
                points: points->0 as u32,
                towns: towns->0 as u32,
                members: members->0 as u16,
                rank: rank->0 as u16,
            },
        )
    } else {
        None
    }
}

pub open spec fn read_alliance() -> spec_fn(Seq<char>) -> Option<AllianceView> {
    |line: Seq<char>| alliance_line(line)
}

pub open spec fn alliance_key() -> spec_fn(AllianceView) -> u32 {
    |a: AllianceView| a.id
}

/// Reads one alliance line.
pub fn parse_alliance_line(line: &Vec<char>) -> (r: Option<Alliance>)
    ensures
        match r {
            Some(a) => alliance_line(line@) == Some(a@),
            None => alliance_line(line@) is None,
        },
{
    let f = split_fields(line);
    let ghost fv = f@.map_values(|p: Vec<char>| p@);
    let id = match read_number(&f, 0, 4294967295) {
        Some(v) => v as u32,
        None => return None,
    };
    let points = match read_number(&f, 2, 4294967295) {
        Some(v) => v as u32,
        None => return None,
    };
    let towns = match read_number(&f, 3, 4294967295) {
        Some(v) => v as u32,
        None => return None,
    };
    let members = match read_number(&f, 4, 65535) {
        Some(v) => v as u16,
        None => return None,
    };
    let rank = match read_number(&f, 5, 65535) {
        Some(v) => v as u16,
        None => return None,
    };
    assert(fv[1] == f@[1]@);
    let name = decode_name(&f[1]);
    Some(Alliance { id, name, points, towns, members, rank })
}

/// Reads the alliances file: how many lines could not be read, and the
/// alliances by id (a later line with the same id wins).
pub fn parse_alliances(data: &str) -> (r: (u32, HashMap<u32, Rc<Alliance>>))
    requires
        lines_of(data@).len() <= u32::MAX,
    ensures
        r.0 == bad_lines(lines_of(data@), read_alliance()),
        r.1@.map_values(|a: Rc<Alliance>| a@) == records_by_key(lines_of(data@), read_alliance(), alliance_key()),
{
    let text = chars_of(data);
    let all_lines = lines(&text);
    let ghost lv = lines_of(data@);
    let mut bad: u32 = 0;
    let mut re: HashMap<u32, Rc<Alliance>> = HashMap::new();
    let mut i: usize = 0;
    while i < all_lines.len()
        invariant
            lv == lines_of(data@),
            all_lines@.len() == lv.len(),
            lv.len() <= u32::MAX,
            forall|k: int| 0 <= k < lv.len() ==> #[trigger] all_lines@[k]@ == lv[k],
            i <= lv.len(),
            bad == bad_lines(lv.take(i as int), read_alliance()),
            re@.map_values(|a: Rc<Alliance>| a@) == records_by_key(lv.take(i as int), read_alliance(), alliance_key()),
        decreases lv.len() - i,
    {
        proof {
            assert(lv.take(i + 1).drop_last() =~= lv.take(i as int));
            assert(lv.take(i + 1).last() == lv[i as int]);
            lemma_bad_lines_bound(lv.take(i as int), read_alliance());
        }
        match parse_alliance_line(&all_lines[i]) {
            Some(a) => {
                let id = a.id;
                let ghost av = a@;
                re.insert(id, Rc::new(a));
                proof {
                    let before = records_by_key(lv.take(i as int), read_alliance(), alliance_key());
                    assert(re@.map_values(|a: Rc<Alliance>| a@) =~= before.insert(id, av));
                }
            },
            None => {
                bad = bad + 1;
            },
        }
        i = i + 1;
    }
    assert(lv.take(i as int) =~= lv);
    (bad, re)
}

// ---------------------------------------------------------------------------
// Players
// ---------------------------------------------------------------------------

/// The alliances of a map of handles, as plain values.
pub open spec fn alliance_views(m: Map<u32, Rc<Alliance>>) -> Map<u32, AllianceView> {
    m.map_values(|a: Rc<Alliance>| a@)
}

/// A player line: id, name, alliance id (empty for none), points, rank,
/// towns; further fields are ignored. An alliance id that names no
/// alliance of `alliances` leaves the player without one.
pub open spec fn player_line(line: Seq<char>, alliances: Map<u32, AllianceView>) -> Option<PlayerView> {
    let f = fields_of(line);
    let id = number_field(f, 0, u32::MAX as int);
    let alliance_ok = f.len() > 2 && (f[2].len() == 0 || parse_unsigned_spec(f[2], u32::MAX as int) is Some);
    let points = number_field(f, 3, u32::MAX as int);
    let rank = number_field(f, 4, u16::MAX as int);
    let towns = number_field(f, 5, u16::MAX as int);
    if id is Some && alliance_ok && points is Some && rank is Some && towns is Some {
        let alliance = if f[2].len() == 0 {
            None
        } else {
            let aid = parse_unsigned_spec(f[2], u32::MAX as int)->0 as u32;
            if alliances.contains_key(aid) {
                Some((aid, alliances[aid]))
            } else {
                None
            }
        };
        Some(
            PlayerView {
                id: id->0 as u32,
                name: decoded_name(f[1]),
                alliance,
                points: points->0 as u32,
                rank: rank->0 as u16,
                towns: towns->0 as u16,
            },
        )
    } else {
        None
    }
}

pub open spec fn read_player(alliances: Map<u32, AllianceView>) -> spec_fn(Seq<char>) -> Option<PlayerView> {
    |line: Seq<char>| player_line(line, alliances)
}

pub open spec fn player_key() -> spec_fn(PlayerView) -> u32 {
    |p: PlayerView| p.id
}

/// Reads one player line, linking the player to its alliance.
pub fn parse_player_line(line: &Vec<char>, alliances: &HashMap<u32, Rc<Alliance>>) -> (r: Option<Player>)
    ensures
        match r {
            Some(p) => player_line(line@, alliance_views(alliances@)) == Some(p@),
            None => player_line(line@, alliance_views(alliances@)) is None,
        },
{
    let f = split_fields(line);
    let ghost fv = f@.map_values(|p: Vec<char>| p@);
    let id = match read_number(&f, 0, 4294967295) {
        Some(v) => v as u32,
        None => return None,
    };
    if f.len() <= 2 {
        return None;
    }
    assert(fv[2] == f@[2]@);
    let alliance_id: Option<u32> = if f[2].len() == 0 {
        None
    } else {
        match parse_unsigned(&f[2], 4294967295) {
            Some(v) => Some(v as u32),
            None => return None,
        }
    };
    let points = match read_number(&f, 3, 4294967295) {
        Some(v) => v as u32,
        None => return None,
    };
    let rank = match read_number(&f, 4, 65535) {
        Some(v) => v as u16,
        None => return None,
    };
    let towns = match read_number(&f, 5, 65535) {
        Some(v) => v as u16,
        None => return None,
    };
    assert(fv[1] == f@[1]@);
    let name = decode_name(&f[1]);
    let alliance = match alliance_id {
        Some(aid) => match alliances.get(&aid) {
            Some(a) => Some((aid, rc_clone(a))),
            None => None,
        },
        None => None,
    };
    Some(Player { id, name, alliance, points, rank, towns })
}

/// Reads the players file against the alliances: how many lines could not
/// be read, and the players by id (a later line with the same id wins).
pub fn parse_players(data: &str, alliances: &HashMap<u32, Rc<Alliance>>) -> (r: (u32, HashMap<u32, Rc<Player>>))
    requires
        lines_of(data@).len() <= u32::MAX,
    ensures
        r.0 == bad_lines(lines_of(data@), read_player(alliance_views(alliances@))),
        r.1@.map_values(|p: Rc<Player>| p@) == records_by_key(
            lines_of(data@),
            read_player(alliance_views(alliances@)),
            player_key(),
        ),
{
    let text = chars_of(data);
    let all_lines = lines(&text);
    let ghost lv = lines_of(data@);
    let ghost read = read_player(alliance_views(alliances@));
    let mut bad: u32 = 0;
    let mut re: HashMap<u32, Rc<Player>> = HashMap::new();
    let mut i: usize = 0;
    while i < all_lines.len()
        invariant
            lv == lines_of(data@),
            read == read_player(alliance_views(alliances@)),
            all_lines@.len() == lv.len(),
            lv.len() <= u32::MAX,
            forall|k: int| 0 <= k < lv.len() ==> #[trigger] all_lines@[k]@ == lv[k],
            i <= lv.len(),
            bad == bad_lines(lv.take(i as int), read),
            re@.map_values(|p: Rc<Player>| p@) == records_by_key(lv.take(i as int), read, player_key()),
        decreases lv.len() - i,
    {
        proof {
            assert(lv.take(i + 1).drop_last() =~= lv.take(i as int));
            assert(lv.take(i + 1).last() == lv[i as int]);
            lemma_bad_lines_bound(lv.take(i as int), read);
        }
        match parse_player_line(&all_lines[i], alliances) {
            Some(p) => {
                let id = p.id;
                let ghost pv = p@;
                re.insert(id, Rc::new(p));
                proof {
                    let before = records_by_key(lv.take(i as int), read, player_key());
                    assert(re@.map_values(|p: Rc<Player>| p@) =~= before.insert(id, pv));
                }
            },
            None => {
                bad = bad + 1;
            },
        }
        i = i + 1;
    }
    assert(lv.take(i as int) =~= lv);
    (bad, re)
}

// ---------------------------------------------------------------------------
// Islands
// ---------------------------------------------------------------------------

/// The key of the island at `(x, y)`.
pub open spec fn island_key(x: u16, y: u16) -> u32 {
    (x as int * 65536 + y as int) as u32
}

fn island_key_exec(x: u16, y: u16) -> (r: u32)
    ensures
        r == island_key(x, y),
{
    x as u32 * 65536 + y as u32
}

/// An island line: id, x, y, type, towns, resource in plenty, resource in
/// want; further fields are ignored.
pub open spec fn island_line(line: Seq<char>) -> Option<IslandView> {
    let f = fields_of(line);
    let id = number_field(f, 0, u32::MAX as int);
    let x = number_field(f, 1, u16::MAX as int);
    let y = number_field(f, 2, u16::MAX as int);
    let typ = number_field(f, 3, u8::MAX as int);
    let towns = number_field(f, 4, u8::MAX as int);
    if id is Some && x is Some && y is Some && typ is Some && towns is Some && f.len() > 6 {
        Some(
            IslandView {
                id: id->0 as u32,
                x: x->0 as u16,
                y: y->0 as u16,
                typ: typ->0 as u8,
                towns: towns->0 as u8,
                ressource_plus: f[5],
                ressource_minus: f[6],
            },
        )
    } else {
        None
    }
}

pub open spec fn read_island() -> spec_fn(Seq<char>) -> Option<IslandView> {
    |line: Seq<char>| island_line(line)
}

pub open spec fn island_view_key() -> spec_fn(IslandView) -> u32 {
    |i: IslandView| island_key(i.x, i.y)
}

/// Reads one island line.
pub fn parse_island_line(line: &Vec<char>) -> (r: Option<Island>)
    ensures
        match r {
            Some(i) => island_line(line@) == Some(i@),
            None => island_line(line@) is None,
        },
{
    let f = split_fields(line);
    let ghost fv = f@.map_values(|p: Vec<char>| p@);
    let id = match read_number(&f, 0, 4294967295) {
        Some(v) => v as u32,
        None => return None,
    };
    let x = match read_number(&f, 1, 65535) {
        Some(v) => v as u16,
        None => return None,
    };
    let y = match read_number(&f, 2, 65535) {
        Some(v) => v as u16,
        None => return None,
    };
    let typ = match read_number(&f, 3, 255) {
        Some(v) => v as u8,
        None => return None,
    };
    let towns = match read_number(&f, 4, 255) {
        Some(v) => v as u8,
        None => return None,
    };
    if f.len() <= 6 {
        return None;
    }
    assert(fv[5] == f@[5]@);
    assert(fv[6] == f@[6]@);
    let ressource_plus = string_of(&f[5]);
    let ressource_minus = string_of(&f[6]);
    Some(Island { id, x, y, typ, towns, ressource_plus, ressource_minus })
}

/// Reads the islands file: how many lines could not be read, and the
/// islands by position (a later line for the same position wins).
pub fn parse_islands(data: &str) -> (r: (u32, HashMap<u32, Rc<Island>>))
    requires
        lines_of(data@).len() <= u32::MAX,
    ensures
        r.0 == bad_lines(lines_of(data@), read_island()),
        r.1@.map_values(|i: Rc<Island>| i@) == records_by_key(lines_of(data@), read_island(), island_view_key()),
{
    let text = chars_of(data);
    let all_lines = lines(&text);
    let ghost lv = lines_of(data@);
    let mut bad: u32 = 0;
    let mut re: HashMap<u32, Rc<Island>> = HashMap::new();
    let mut i: usize = 0;
    while i < all_lines.len()
        invariant
            lv == lines_of(data@),
            all_lines@.len() == lv.len(),
            lv.len() <= u32::MAX,
            forall|k: int| 0 <= k < lv.len() ==> #[trigger] all_lines@[k]@ == lv[k],
            i <= lv.len(),
            bad == bad_lines(lv.take(i as int), read_island()),
            re@.map_values(|i: Rc<Island>| i@) == records_by_key(lv.take(i as int), read_island(), island_view_key()),
        decreases lv.len() - i,
    {
        proof {
            assert(lv.take(i + 1).drop_last() =~= lv.take(i as int));
            assert(lv.take(i + 1).last() == lv[i as int]);
            lemma_bad_lines_bound(lv.take(i as int), read_island());
        }
        match parse_island_line(&all_lines[i]) {
            Some(island) => {
                let key = island_key_exec(island.x, island.y);
                let ghost iv = island@;
                re.insert(key, Rc::new(island));
                proof {
                    let before = records_by_key(lv.take(i as int), read_island(), island_view_key());
                    assert(re@.map_values(|i: Rc<Island>| i@) =~= before.insert(key, iv));
                }
            },
            None => {
                bad = bad + 1;
            },
        }
        i = i + 1;
    }
    assert(lv.take(i as int) =~= lv);
    (bad, re)
}

// ---------------------------------------------------------------------------
// Offsets
// ---------------------------------------------------------------------------

/// The key of the offset of slot `slot` on islands of type `typ`.
pub open spec fn offset_key(typ: u8, slot: u8) -> u32 {
    (typ as int * 256 + slot as int) as u32
}

fn offset_key_exec(typ: u8, slot: u8) -> (r: u32)
    ensures
        r == offset_key(typ, slot),
{
    typ as u32 * 256 + slot as u32
}

/// An offset line: island type, x, y, slot number; further fields are
/// ignored.
pub open spec fn offset_line(line: Seq<char>) -> Option<Offset> {
    let f = fields_of(line);
    let typ = number_field(f, 0, u8::MAX as int);
    let x = number_field(f, 1, u16::MAX as int);
    let y = number_field(f, 2, u16::MAX as int);
    let slot = number_field(f, 3, u8::MAX as int);
    if typ is Some && x is Some && y is Some && slot is Some {
        Some(Offset { typ: typ->0 as u8, x: x->0 as u16, y: y->0 as u16, slot_number: slot->0 as u8 })
    } else {
        None
    }
}

pub open spec fn read_offset() -> spec_fn(Seq<char>) -> Option<Offset> {
    |line: Seq<char>| offset_line(line)
}

pub open spec fn offset_view_key() -> spec_fn(Offset) -> u32 {
    |o: Offset| offset_key(o.typ, o.slot_number)
}

/// Reads one offset line.
pub fn parse_offset_line(line: &Vec<char>) -> (r: Option<Offset>)
    ensures
        r == offset_line(line@),
{
    let f = split_fields(line);
    let typ = match read_number(&f, 0, 255) {
        Some(v) => v as u8,
        None => return None,
    };
    let x = match read_number(&f, 1, 65535) {
        Some(v) => v as u16,
        None => return None,
    };
    let y = match read_number(&f, 2, 65535) {
        Some(v) => v as u16,
        None => return None,
    };
    let slot_number = match read_number(&f, 3, 255) {
        Some(v) => v as u8,
        None => return None,
    };
    Some(Offset { typ, x, y, slot_number })
}

/// Reads the table of town offsets, by island type and slot number (a
/// later line for the same pair wins). `None` when a line cannot be read:
/// the table is part of the program and every line of it must be good.
pub fn make_offsets(data: &str) -> (r: Option<HashMap<u32, Rc<Offset>>>)
    ensures
        r is None <==> bad_lines(lines_of(data@), read_offset()) > 0,
        r matches Some(m) ==> m@.map_values(|o: Rc<Offset>| *o) == records_by_key(
            lines_of(data@),
            read_offset(),
            offset_view_key(),
        ),
{
    let text = chars_of(data);
    let all_lines = lines(&text);
    let ghost lv = lines_of(data@);
    let mut re: HashMap<u32, Rc<Offset>> = HashMap::new();
    let mut i: usize = 0;
    while i < all_lines.len()
        invariant
            lv == lines_of(data@),
            all_lines@.len() == lv.len(),
            forall|k: int| 0 <= k < lv.len() ==> #[trigger] all_lines@[k]@ == lv[k],
            i <= lv.len(),
            bad_lines(lv.take(i as int), read_offset()) == 0,
            re@.map_values(|o: Rc<Offset>| *o) == records_by_key(lv.take(i as int), read_offset(), offset_view_key()),
        decreases lv.len() - i,
    {
        proof {
            assert(lv.take(i + 1).drop_last() =~= lv.take(i as int));
            assert(lv.take(i + 1).last() == lv[i as int]);
        }
        match parse_offset_line(&all_lines[i]) {
            Some(o) => {
                let key = offset_key_exec(o.typ, o.slot_number);
                re.insert(key, Rc::new(o));
                proof {
                    let before = records_by_key(lv.take(i as int), read_offset(), offset_view_key());
                    assert(re@.map_values(|o: Rc<Offset>| *o) =~= before.insert(key, o));
                }
            },
            None => {
                proof {
                    lemma_bad_lines_prefix(lv, read_offset(), i as int + 1);
                }
                return None;
            },
        }
        i = i + 1;
    }
    assert(lv.take(i as int) =~= lv);
    Some(re)
}

/// A bad line in a prefix is a bad line of the whole.
proof fn lemma_bad_lines_prefix<T>(lines: Seq<Seq<char>>, read: spec_fn(Seq<char>) -> Option<T>, k: int)
    requires
        0 <= k <= lines.len(),
    ensures
        bad_lines(lines.take(k), read) <= bad_lines(lines, read),
    decreases lines.len(),
{
    if k < lines.len() {
        assert(lines.drop_last().take(k) =~= lines.take(k));
        lemma_bad_lines_prefix(lines.drop_last(), read, k);
    } else {
        assert(lines.take(k) =~= lines);
    }
}

// ---------------------------------------------------------------------------
// Towns
// ---------------------------------------------------------------------------

/// Some value of the map, where it has any: the first one that walking the
/// map gives, so which one it is depends on the order of the walk.
fn some_value<V>(m: &HashMap<u32, Rc<V>>) -> (r: Option<Rc<V>>)
    ensures
        r is None <==> m@.dom().len() == 0,
        r matches Some(v) ==> m@.values().contains(v),
{
    let mut r: Option<Rc<V>> = None;
    for v in it: m.values()
        invariant_except_break
            r is None,
            it.index() == 0,
        ensures
            r is None ==> m@.dom().len() == 0,
            r matches Some(x) ==> m@.dom().len() > 0 && m@.values().contains(x),
    {
        proof {
            let sq = it.seq();
            assert(sq.len() == m@.dom().len());
            assert(sq.unref().to_set() == m@.values());
            assert(sq.unref()[0] == *v);
            assert(sq.unref().to_set().contains(*v));
        }
        r = Some(rc_clone(v));
        break;
    }
    r
}

/// The players of a map of handles, as plain values.
pub open spec fn player_views(m: Map<u32, Rc<Player>>) -> Map<u32, PlayerView> {
    m.map_values(|p: Rc<Player>| p@)
}

/// The islands of a map of handles, as plain values.
pub open spec fn island_views(m: Map<u32, Rc<Island>>) -> Map<u32, IslandView> {
    m.map_values(|i: Rc<Island>| i@)
}

/// The offsets of a map of handles, as plain values.
pub open spec fn offset_values(m: Map<u32, Rc<Offset>>) -> Map<u32, Offset> {
    m.map_values(|o: Rc<Offset>| *o)
}

/// The fields of a town line all read: id, owner id (empty for none),
/// name, island x, island y, slot number, points.
pub open spec fn town_fields_ok(f: Seq<Seq<char>>) -> bool {
    &&& number_field(f, 0, u32::MAX as int) is Some
    &&& f.len() > 2
    &&& (f[1].len() == 0 || parse_unsigned_spec(f[1], u32::MAX as int) is Some)
    &&& number_field(f, 3, u16::MAX as int) is Some
    &&& number_field(f, 4, u16::MAX as int) is Some
    &&& number_field(f, 5, u8::MAX as int) is Some
    &&& number_field(f, 6, u16::MAX as int) is Some
}

/// The island a town at `(x, y)` is put on: the island at that position,
/// else the stand-in.
pub open spec fn town_island(islands: Map<u32, IslandView>, x: u16, y: u16, any_island: Option<IslandView>) -> Option<
    IslandView,
> {
    if islands.contains_key(island_key(x, y)) {
        Some(islands[island_key(x, y)])
    } else {
        any_island
    }
}

/// The offset of slot `slot` on an island of type `typ`, else the stand-in.
pub open spec fn town_offset(offsets: Map<u32, Offset>, typ: u8, slot: u8, any_offset: Option<Offset>) -> Option<Offset> {
    if offsets.contains_key(offset_key(typ, slot)) {
        Some(offsets[offset_key(typ, slot)])
    } else {
        any_offset
    }
}

/// A town line, linked to its owner, its island and the offset of its
/// slot. An owner id that names no player leaves the town without owner;
/// a position without island, or a slot without offset, takes the
/// stand-in. `None` where the line does not read, or a stand-in is needed
/// and there is none.
pub open spec fn town_line(
    line: Seq<char>,
    players: Map<u32, PlayerView>,
    islands: Map<u32, IslandView>,
    offsets: Map<u32, Offset>,
    any_island: Option<IslandView>,
    any_offset: Option<Offset>,
) -> Option<TownRecord> {
    let f = fields_of(line);
    if town_fields_ok(f) {
        let x = number_field(f, 3, u16::MAX as int)->0 as u16;
        let y = number_field(f, 4, u16::MAX as int)->0 as u16;
        let slot = number_field(f, 5, u8::MAX as int)->0 as u8;
        let player = if f[1].len() == 0 {
            None
        } else {
            let pid = parse_unsigned_spec(f[1], u32::MAX as int)->0 as u32;
            if players.contains_key(pid) {
                Some((pid, players[pid]))
            } else {
                None
            }
        };
        match town_island(islands, x, y, any_island) {
            Some(island) => match town_offset(offsets, island.typ, slot, any_offset) {
                Some(offset) => Some(
                    TownRecord {
                        id: number_field(f, 0, u32::MAX as int)->0 as u32,
                        name: decoded_name(f[2]),
                        points: number_field(f, 6, u16::MAX as int)->0 as u16,
                        player,
                        island: (x, y, island),
                        offset: (slot, offset),
                    },
                ),
                None => None,
            },
            None => None,
        }
    } else {
        None
    }
}

/// A town line that reads, but needs a stand-in island or offset that
/// there is not.
pub open spec fn town_line_stuck(
    line: Seq<char>,
    players: Map<u32, PlayerView>,
    islands: Map<u32, IslandView>,
    offsets: Map<u32, Offset>,
    any_island: Option<IslandView>,
    any_offset: Option<Offset>,
) -> bool {
    town_fields_ok(fields_of(line)) && town_line(line, players, islands, offsets, any_island, any_offset) is None
}

pub open spec fn read_town(
    players: Map<u32, PlayerView>,
    islands: Map<u32, IslandView>,
    offsets: Map<u32, Offset>,
    any_island: Option<IslandView>,
    any_offset: Option<Offset>,
) -> spec_fn(Seq<char>) -> Option<TownRecord> {
    |line: Seq<char>| town_line(line, players, islands, offsets, any_island, any_offset)
}

pub open spec fn town_key() -> spec_fn(TownRecord) -> u32 {
    |t: TownRecord| t.id
}

/// The stand-in as plain values.
pub open spec fn island_option_view(i: Option<Rc<Island>>) -> Option<IslandView> {
    match i {
        Some(x) => Some(x@),
        None => None,
    }
}

pub open spec fn offset_option_value(o: Option<Rc<Offset>>) -> Option<Offset> {
    match o {
        Some(x) => Some(*x),
        None => None,
    }
}

/// Reads one town line. The first part of the result says whether the
/// fields read.
pub fn parse_town_line(
    line: &Vec<char>,
    players: &HashMap<u32, Rc<Player>>,
    islands: &HashMap<u32, Rc<Island>>,
    offsets: &HashMap<u32, Rc<Offset>>,
    any_island: &Option<Rc<Island>>,
    any_offset: &Option<Rc<Offset>>,
) -> (r: (bool, Option<BackendTown>))
    ensures
        r.0 == town_fields_ok(fields_of(line@)),
        match r.1 {
            Some(t) => town_line(
                line@,
                player_views(players@),
                island_views(islands@),
                offset_values(offsets@),
                island_option_view(*any_island),
                offset_option_value(*any_offset),
            ) == Some(t@),
            None => town_line(
                line@,
                player_views(players@),
                island_views(islands@),
                offset_values(offsets@),
                island_option_view(*any_island),
                offset_option_value(*any_offset),
            ) is None,
        },
{
    let f = split_fields(line);
    let ghost fv = f@.map_values(|p: Vec<char>| p@);
    let id = match read_number(&f, 0, 4294967295) {
        Some(v) => v as u32,
        None => return (false, None),
    };
    if f.len() <= 2 {
        return (false, None);
    }
    assert(fv[1] == f@[1]@);
    assert(fv[2] == f@[2]@);
    let player_id: Option<u32> = if f[1].len() == 0 {
        None
    } else {
        match parse_unsigned(&f[1], 4294967295) {
            Some(v) => Some(v as u32),
            None => return (false, None),
        }
    };
    let x = match read_number(&f, 3, 65535) {
        Some(v) => v as u16,
        None => return (false, None),
    };
    let y = match read_number(&f, 4, 65535) {
        Some(v) => v as u16,
        None => return (false, None),
    };
    let slot_number = match read_number(&f, 5, 255) {
        Some(v) => v as u8,
        None => return (false, None),
    };
    let points = match read_number(&f, 6, 65535) {
        Some(v) => v as u16,
        None => return (false, None),
    };
    let name = decode_name(&f[2]);
    let player = match player_id {
        Some(pid) => match players.get(&pid) {
            Some(p) => Some((pid, rc_clone(p))),
            None => None,
        },
        None => None,
    };
    let island: Rc<Island> = match islands.get(&island_key_exec(x, y)) {
        Some(i) => rc_clone(i),
        None => match any_island {
            Some(i) => rc_clone(i),
            None => return (true, None),
        },
    };
    let offset: Rc<Offset> = match offsets.get(&offset_key_exec(island.typ, slot_number)) {
        Some(o) => rc_clone(o),
        None => match any_offset {
            Some(o) => rc_clone(o),
            None => return (true, None),
        },
    };
    (true, Some(BackendTown { id, name, points, player, island: (x, y, island), offset: (slot_number, offset) }))
}

/// `towns` holds each town of `m` once, under its id, in some order.
pub open spec fn towns_match(towns: Seq<Rc<BackendTown>>, m: Map<u32, TownRecord>) -> bool {
    &&& forall|i: int| 0 <= i < towns.len() ==> m.contains_key(#[trigger] towns[i].id) && towns[i]@ == m[towns[i].id]
    &&& forall|i: int, j: int| 0 <= i < j < towns.len() ==> #[trigger] towns[i].id != #[trigger] towns[j].id
    &&& forall|id: u32| #[trigger] m.contains_key(id) ==> exists|i: int| 0 <= i < towns.len() && towns[i].id == id
}

/// Where each town of `m` sits in `towns`.
spec fn towns_indexed(towns: Seq<Rc<BackendTown>>, pos: Map<u32, usize>, m: Map<u32, TownRecord>) -> bool {
    &&& pos.dom() == m.dom()
    &&& forall|id: u32|
        #[trigger] m.contains_key(id) ==> pos[id] < towns.len() && towns[pos[id] as int].id == id && towns[pos[id] as int]@
            == m[id]
    &&& forall|k: int| 0 <= k < towns.len() ==> m.contains_key(#[trigger] towns[k].id) && pos[towns[k].id] == k
}

proof fn lemma_towns_indexed_match(towns: Seq<Rc<BackendTown>>, pos: Map<u32, usize>, m: Map<u32, TownRecord>)
    requires
        towns_indexed(towns, pos, m),
    ensures
        towns_match(towns, m),
{
    assert forall|i: int, j: int| 0 <= i < j < towns.len() implies #[trigger] towns[i].id != #[trigger] towns[j].id by {
        if towns[i].id == towns[j].id {
            assert(pos[towns[i].id] == i);
        }
    }
    assert forall|id: u32| #[trigger] m.contains_key(id) implies exists|i: int| 0 <= i < towns.len() && towns[i].id == id by {
        assert(towns[pos[id] as int].id == id);
    }
}

/// Reads the towns file, linking each town to its owner, island and
/// offset: how many lines could not be read, and each town once (a later
/// line with the same id wins), in some order. `None` where a line reads
/// but needs a stand-in island or offset that there is not.
pub fn parse_towns(
    data: &str,
    players: &HashMap<u32, Rc<Player>>,
    islands: &HashMap<u32, Rc<Island>>,
    offsets: &HashMap<u32, Rc<Offset>>,
    any_island: &Option<Rc<Island>>,
    any_offset: &Option<Rc<Offset>>,
) -> (r: Option<(u32, Vec<Rc<BackendTown>>)>)
    requires
        lines_of(data@).len() <= u32::MAX,
    ensures
        r is None <==> exists|k: int|
            0 <= k < lines_of(data@).len() && #[trigger] town_line_stuck(
                lines_of(data@)[k],
                player_views(players@),
                island_views(islands@),
                offset_values(offsets@),
                island_option_view(*any_island),
                offset_option_value(*any_offset),
            ),
        r matches Some(p) ==> {
            let read = read_town(
                player_views(players@),
                island_views(islands@),
                offset_values(offsets@),
                island_option_view(*any_island),
                offset_option_value(*any_offset),
            );
            &&& p.0 == bad_lines(lines_of(data@), read)
            &&& towns_match(p.1@, records_by_key(lines_of(data@), read, town_key()))
        },
{
    let text = chars_of(data);
    let all_lines = lines(&text);
    let ghost lv = lines_of(data@);
    let ghost pm = player_views(players@);
    let ghost im = island_views(islands@);
    let ghost om = offset_values(offsets@);
    let ghost ai = island_option_view(*any_island);
    let ghost ao = offset_option_value(*any_offset);
    let ghost read = read_town(pm, im, om, ai, ao);
    let mut bad: u32 = 0;
    let mut towns: Vec<Rc<BackendTown>> = Vec::new();
    let mut pos: HashMap<u32, usize> = HashMap::new();
    let mut i: usize = 0;
    while i < all_lines.len()
        invariant
            lv == lines_of(data@),
            pm == player_views(players@),
            im == island_views(islands@),
            om == offset_values(offsets@),
            ai == island_option_view(*any_island),
            ao == offset_option_value(*any_offset),
            read == read_town(pm, im, om, ai, ao),
            all_lines@.len() == lv.len(),
            lv.len() <= u32::MAX,
            forall|k: int| 0 <= k < lv.len() ==> #[trigger] all_lines@[k]@ == lv[k],
            i <= lv.len(),
            forall|k: int| 0 <= k < i ==> !#[trigger] town_line_stuck(lv[k], pm, im, om, ai, ao),
            bad == bad_lines(lv.take(i as int), read),
            towns_indexed(towns@, pos@, records_by_key(lv.take(i as int), read, town_key())),
        decreases lv.len() - i,
    {
        proof {
            assert(lv.take(i + 1).drop_last() =~= lv.take(i as int));
            assert(lv.take(i + 1).last() == lv[i as int]);
            lemma_bad_lines_bound(lv.take(i as int), read);
        }
        let ghost before = records_by_key(lv.take(i as int), read, town_key());
        let (fields_ok, parsed) = parse_town_line(&all_lines[i], players, islands, offsets, any_island, any_offset);
        match parsed {
            Some(t) => {
                let id = t.id;
                let ghost tv = t@;
                let ghost after = before.insert(id, tv);
                match pos.get(&id) {
                    Some(p) => {
                        let p = *p;
                        let ghost towns0 = towns@;
                        towns.set(p, Rc::new(t));
                        proof {
                            assert(before.contains_key(id));
                            assert(towns0[p as int].id == id);
                            assert forall|id2: u32| #[trigger] after.contains_key(id2) implies pos@[id2] < towns@.len()
                                && towns@[pos@[id2] as int].id == id2 && towns@[pos@[id2] as int]@ == after[id2] by {
                                if id2 != id {
                                    assert(before.contains_key(id2));
                                    assert(towns0[pos@[id2] as int].id == id2);
                                    assert(pos@[id2] != p);
                                    assert(towns@[pos@[id2] as int] == towns0[pos@[id2] as int]);
                                }
                            }
                            assert forall|k: int| 0 <= k < towns@.len() implies after.contains_key(#[trigger] towns@[k].id)
                                && pos@[towns@[k].id] == k by {
                                if k != p {
                                    assert(towns@[k] == towns0[k]);
                                }
                            }
                        }
                    },
                    None => {
                        let n = towns.len();
                        let ghost towns0 = towns@;
                        let ghost pos0 = pos@;
                        pos.insert(id, n);
                        towns.push(Rc::new(t));
                        proof {
                            assert(!before.contains_key(id));
                            assert(pos@.dom() =~= after.dom());
                            assert forall|id2: u32| #[trigger] after.contains_key(id2) implies pos@[id2] < towns@.len()
                                && towns@[pos@[id2] as int].id == id2 && towns@[pos@[id2] as int]@ == after[id2] by {
                                if id2 != id {
                                    assert(before.contains_key(id2));
                                    assert(pos@[id2] == pos0[id2]);
                                    assert(towns@[pos@[id2] as int] == towns0[pos0[id2] as int]);
                                }
                            }
                            assert forall|k: int| 0 <= k < towns@.len() implies after.contains_key(#[trigger] towns@[k].id)
                                && pos@[towns@[k].id] == k by {
                                if k < n {
                                    assert(towns@[k] == towns0[k]);
                                    assert(before.contains_key(towns0[k].id));
                                }
                            }
                        }
                    },
                }
                proof {
                    assert(pos@.dom() =~= after.dom());
                    assert(towns_indexed(towns@, pos@, after));
                }
            },
            None => {
                if fields_ok {
                    proof {
                        assert(town_line_stuck(lv[i as int], pm, im, om, ai, ao));
                    }
                    return None;
                }
                bad = bad + 1;
            },
        }
        i = i + 1;
    }
    proof {
        assert(lv.take(i as int) =~= lv);
        lemma_towns_indexed_match(towns@, pos@, records_by_key(lv, read, town_key()));
    }
    Some((bad, towns))
}

// ---------------------------------------------------------------------------
// A world
// ---------------------------------------------------------------------------

/// The four data files of a server, as far as they have arrived, with the
/// file the response is kept in and when it was asked for (seconds since
/// 1970 and the local offset from UTC in seconds).
#[derive(Debug, Clone)]
pub struct APIResponse {
    pub for_server: String,
    pub filename: Option<String>,
    pub timestamp: i64,
    pub utc_offset: i32,
    pub players: Option<String>,
    pub alliances: Option<String>,
    pub towns: Option<String>,
    pub islands: Option<String>,
}

/// How many of the four files have arrived.
pub open spec fn completed_count(r: APIResponse) -> int {
    (if r.players is Some { 1int } else { 0int }) + (if r.alliances is Some { 1int } else { 0int }) + (if r.towns is Some {
        1int
    } else {
        0int
    }) + (if r.islands is Some { 1int } else { 0int })
}

impl APIResponse {
    /// A response for `server_id` that nothing has arrived for yet.
    pub fn new(server_id: String, filename: Option<String>, timestamp: i64, utc_offset: i32) -> (r: APIResponse)
        ensures
            r.for_server == server_id,
            r.filename == filename,
            r.timestamp == timestamp,
            r.utc_offset == utc_offset,
            r.players is None,
            r.alliances is None,
            r.towns is None,
            r.islands is None,
    {
        APIResponse {
            for_server: server_id,
            filename,
            timestamp,
            utc_offset,
            players: None,
            alliances: None,
            towns: None,
            islands: None,
        }
    }

    /// How many of the four files have arrived.
    pub fn count_completed(&self) -> (r: u8)
        ensures
            r == completed_count(*self),
    {
        let mut re: u8 = 0;
        if self.players.is_some() {
            re = re + 1;
        }
        if self.alliances.is_some() {
            re = re + 1;
        }
        if self.towns.is_some() {
            re = re + 1;
        }
        if self.islands.is_some() {
            re = re + 1;
        }
        re
    }

    /// Whether all four files have arrived.
    pub fn is_complete(&self) -> (r: bool)
        ensures
            r == (self.players is Some && self.alliances is Some && self.towns is Some && self.islands is Some),
    {
        self.count_completed() == 4
    }
}

/// `pick` stands in for any value of `m`: nothing where `m` is empty,
/// else one of its values.
pub open spec fn stand_in<V>(m: Map<u32, V>, pick: Option<V>) -> bool {
    &&& pick is None <==> m.dom().len() == 0
    &&& pick matches Some(v) ==> m.values().contains(v)
}

/// The alliances that the alliances file gives.
pub open spec fn world_alliances(alliances: Seq<char>) -> Map<u32, AllianceView> {
    records_by_key(lines_of(alliances), read_alliance(), alliance_key())
}

/// The players that the players file gives, linked to those alliances.
pub open spec fn world_players(players: Seq<char>, alliances: Seq<char>) -> Map<u32, PlayerView> {
    records_by_key(lines_of(players), read_player(world_alliances(alliances)), player_key())
}

/// The islands that the islands file gives.
pub open spec fn world_islands(islands: Seq<char>) -> Map<u32, IslandView> {
    records_by_key(lines_of(islands), read_island(), island_view_key())
}

/// The offsets that the table of offsets gives.
pub open spec fn world_offsets(offset_data: Seq<char>) -> Map<u32, Offset> {
    records_by_key(lines_of(offset_data), read_offset(), offset_view_key())
}

/// How the towns file reads, given the stand-ins.
pub open spec fn world_read_town(
    players: Seq<char>,
    alliances: Seq<char>,
    islands: Seq<char>,
    offset_data: Seq<char>,
    any_island: Option<IslandView>,
    any_offset: Option<Offset>,
) -> spec_fn(Seq<char>) -> Option<TownRecord> {
    read_town(
        world_players(players, alliances),
        world_islands(islands),
        world_offsets(offset_data),
        any_island,
        any_offset,
    )
}

/// Some line of the towns file reads, but needs a stand-in that there is
/// not.
pub open spec fn world_stuck(
    towns: Seq<char>,
    players: Seq<char>,
    alliances: Seq<char>,
    islands: Seq<char>,
    offset_data: Seq<char>,
    any_island: Option<IslandView>,
    any_offset: Option<Offset>,
) -> bool {
    exists|k: int|
        0 <= k < lines_of(towns).len() && #[trigger] town_line_stuck(
            lines_of(towns)[k],
            world_players(players, alliances),
            world_islands(islands),
            world_offsets(offset_data),
            any_island,
            any_offset,
        )
}

impl DataTable {
    /// Builds the world from the four files and the table of offsets: the
    /// towns, each once, linked to their owners (and the owners to their
    /// alliances), islands and offsets. A town on a position without island
    /// is put on some island of the world, and a slot without offset takes
    /// some offset of the table. `None` where the table of offsets has a
    /// line that does not read, or a town needs such a stand-in and there
    /// is none at all.
    pub fn create_for_world(api_response: &APIResponse, offset_data: &str) -> (r: Option<DataTable>)
        requires
            api_response.players is Some,
            api_response.alliances is Some,
            api_response.towns is Some,
            api_response.islands is Some,
            lines_of(api_response.players->0@).len() <= u32::MAX,
            lines_of(api_response.alliances->0@).len() <= u32::MAX,
            lines_of(api_response.towns->0@).len() <= u32::MAX,
            lines_of(api_response.islands->0@).len() <= u32::MAX,
        ensures
            ({
                let p = api_response.players->0@;
                let a = api_response.alliances->0@;
                let t = api_response.towns->0@;
                let i = api_response.islands->0@;
                let o = offset_data@;
                exists|ai: Option<IslandView>, ao: Option<Offset>|
                    #![trigger world_read_town(p, a, i, o, ai, ao)]
                    stand_in(world_islands(i), ai) && stand_in(world_offsets(o), ao) && (r is None <==> (bad_lines(
                        lines_of(o),
                        read_offset(),
                    ) > 0 || world_stuck(t, p, a, i, o, ai, ao))) && (r matches Some(db) ==> towns_match(
                        db.towns@,
                        records_by_key(lines_of(t), world_read_town(p, a, i, o, ai, ao), town_key()),
                    ))
            }),
    {
        let offsets = make_offsets(offset_data);
        let ghost p = api_response.players->0@;
        let ghost a = api_response.alliances->0@;
        let ghost t = api_response.towns->0@;
        let ghost i = api_response.islands->0@;
        let ghost o = offset_data@;
        let alliances_text = match &api_response.alliances {
            Some(x) => x,
            None => return None,
        };
        let islands_text = match &api_response.islands {
            Some(x) => x,
            None => return None,
        };
        let players_text = match &api_response.players {
            Some(x) => x,
            None => return None,
        };
        let towns_text = match &api_response.towns {
            Some(x) => x,
            None => return None,
        };
        let (_bad_alliances, alliances) = parse_alliances(alliances_text.as_str());
        let (_bad_islands, islands) = parse_islands(islands_text.as_str());
        let (_bad_players, players) = parse_players(players_text.as_str(), &alliances);
        let any_island = some_value(&islands);
        proof {
            assert(island_views(islands@) == world_islands(i));
            assert(player_views(players@) == world_players(p, a));
            if any_island is Some {
                let x = any_island->0;
                let m = islands@;
                assert(m.values().contains(x));
                let k = choose|k: u32| #[trigger] m.contains_key(k) && m[k] == x;
                assert(island_views(m).values().contains(x@)) by {
                    assert(island_views(m)[k] == x@);
                }
            }
            assert(island_views(islands@).dom() == islands@.dom());
        }
        match offsets {
            None => {
                proof {
                    assert(stand_in(world_islands(i), island_option_view(any_island)));
                    let ao: Option<Offset> = if world_offsets(o).dom().len() == 0 {
                        None
                    } else {
                        let k = world_offsets(o).dom().choose();
                        Some(world_offsets(o)[k])
                    };
                    assert(stand_in(world_offsets(o), ao)) by {
                        if world_offsets(o).dom().len() != 0 {
                            let k = world_offsets(o).dom().choose();
                            assert(world_offsets(o).dom().contains(k)) by {
                                lemma_records_finite(lines_of(o), read_offset(), offset_view_key());
                                vstd::set_lib::lemma_set_empty_equivalency_len(world_offsets(o).dom());
                            }
                            assert(world_offsets(o).values().contains(world_offsets(o)[k]));
                        }
                    }
                    assert(world_read_town(p, a, i, o, island_option_view(any_island), ao) == world_read_town(
                        p,
                        a,
                        i,
                        o,
                        island_option_view(any_island),
                        ao,
                    ));
                }
                None
            },
            Some(offsets) => {
                let any_offset = some_value(&offsets);
                proof {
                    assert(offset_values(offsets@) == world_offsets(o));
                    if any_offset is Some {
                        let x = any_offset->0;
                        let m = offsets@;
                        let k = choose|k: u32| #[trigger] m.contains_key(k) && m[k] == x;
                        assert(offset_values(m).values().contains(*x)) by {
                            assert(offset_values(m)[k] == *x);
                        }
                    }
                    assert(offset_values(offsets@).dom() == offsets@.dom());
                }
                let parsed = parse_towns(towns_text.as_str(), &players, &islands, &offsets, &any_island, &any_offset);
                proof {
                    let ai = island_option_view(any_island);
                    let ao = offset_option_value(any_offset);
                    assert(world_read_town(p, a, i, o, ai, ao) == read_town(
                        player_views(players@),
                        island_views(islands@),
                        offset_values(offsets@),
                        ai,
                        ao,
                    ));
                    assert(stand_in(world_islands(i), ai));
                    assert(stand_in(world_offsets(o), ao));
                }
                match parsed {
                    Some((_bad_towns, towns)) => Some(DataTable { towns }),
                    None => None,
                }
            },
        }
    }
}

/// At most four files can arrive, and a response is complete exactly
/// when all four have.
pub proof fn lemma_completed_count(r: APIResponse)
    ensures
        0 <= completed_count(r) <= 4,
        completed_count(r) == 4 <==> (r.players is Some && r.alliances is Some && r.towns is Some && r.islands is Some),
{
}

} // verus!
