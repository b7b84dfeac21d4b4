//! Turning the rows of an old saved database into the lines of the world
//! data files, so that it reads like a fresh answer of the server.
use vstd::prelude::*;

use crate::text::{
    chars_of, decimal, lemma_decimal_reads, lemma_split_on_nonempty, parse_unsigned_spec, push_chars, push_i64,
    signed_decimal, split_on,
};
use crate::world::{
    alliance_line, decoded_name, fields_of, island_line, number_field, player_line, town_island, town_line,
    town_offset, AllianceView, IslandView, PlayerView, TownRecord,
};

verus! {

/// `text` with every UTF-8 byte that is not an ASCII letter or digit
/// written as `%` and two hexadecimal digits, as `percent_encoding`
/// writes it with the `NON_ALPHANUMERIC` set.
pub uninterp spec fn percent_encoded(text: Seq<char>) -> Seq<char>;

/// Encodes a name (`utf8_percent_encode` with `NON_ALPHANUMERIC`). The
/// contract names the result and states two facts of it that the sources
/// of both crates show: it holds no `','` (every byte that is not an ASCII
/// letter or digit is written as `%XX`), and `form_urlencoded::parse` reads
/// it back as the name (no `'&'`, `'='` or `'+'` remain, and `%XX` is
/// decoded to the bytes of the name, which are UTF-8); the encoding itself
/// is the crate's.
#[verifier::external_body]
fn encode_name(text: &str) -> (r: String)
    ensures
        r@ == percent_encoded(text@),
        !r@.contains(','),
        decoded_name(r@) == text@,
{
    percent_encoding::utf8_percent_encode(text, percent_encoding::NON_ALPHANUMERIC).to_string()
}

/// The fields joined with commas.
pub open spec fn comma_joined(fields: Seq<Seq<char>>) -> Seq<char>
    decreases fields.len(),
{
    if fields.len() == 0 {
        Seq::empty()
    } else if fields.len() == 1 {
        fields[0]
    } else {
        comma_joined(fields.drop_last()) + seq![','] + fields.last()
    }
}

/// An optional number in decimal; nothing where there is none.
pub open spec fn optional_decimal(n: Option<i64>) -> Seq<char> {
    match n {
        Some(v) => signed_decimal(v as int),
        None => Seq::empty(),
    }
}

proof fn lemma_split_after(p: Seq<char>, b: Seq<char>, sep: char)
    requires
        !b.contains(sep),
    ensures
        split_on(p + b, sep) == split_on(p, sep).update(
            split_on(p, sep).len() - 1,
            split_on(p, sep).last() + b,
        ),
    decreases b.len(),
{
    lemma_split_on_nonempty(p, sep);
    if b.len() == 0 {
        assert(p + b =~= p);
        assert(split_on(p, sep).last() + b =~= split_on(p, sep).last());
        assert(split_on(p, sep).update(split_on(p, sep).len() - 1, split_on(p, sep).last()) =~= split_on(p, sep));
    } else {
        let b0 = b.drop_last();
        let c = b.last();
        assert(!b0.contains(sep)) by {
            if b0.contains(sep) {
                let i = choose|i: int| 0 <= i < b0.len() && b0[i] == sep;
                assert(b[i] == sep);
            }
        }
        assert(c != sep) by {
            assert(b[b.len() - 1] == c);
        }
        lemma_split_after(p, b0, sep);
        assert((p + b).drop_last() =~= p + b0);
        assert((p + b).last() == c);
        let prev = split_on(p + b0, sep);
        assert(prev.last() == split_on(p, sep).last() + b0);
        assert(prev.len() == split_on(p, sep).len());
        assert(prev.last().push(c) =~= split_on(p, sep).last() + b);
        assert(prev.update(prev.len() - 1, prev.last().push(c)) =~= split_on(p, sep).update(
            split_on(p, sep).len() - 1,
            split_on(p, sep).last() + b,
        ));
    }
}

/// Fields without commas, joined with commas, split back into the same
/// fields.
pub proof fn lemma_fields_of_joined(fields: Seq<Seq<char>>)
    requires
        fields.len() >= 1,
        forall|i: int| 0 <= i < fields.len() ==> !(#[trigger] fields[i]).contains(','),
    ensures
        split_on(comma_joined(fields), ',') == fields,
    decreases fields.len(),
{
    if fields.len() == 1 {
        lemma_split_after(Seq::<char>::empty(), fields[0], ',');
        assert(Seq::<char>::empty() + fields[0] =~= fields[0]);
        assert(Seq::<char>::empty() + fields[0] =~= fields[0]);
        assert(split_on(Seq::<char>::empty(), ',') =~= seq![Seq::<char>::empty()]);
        assert(fields =~= seq![fields[0]]);
    } else {
        let rest = fields.drop_last();
        assert forall|i: int| 0 <= i < rest.len() implies !(#[trigger] rest[i]).contains(',') by {
            assert(rest[i] == fields[i]);
        }
        lemma_fields_of_joined(rest);
        let head = comma_joined(rest).push(',');
        assert(comma_joined(fields) =~= head + fields.last());
        assert(head.drop_last() =~= comma_joined(rest));
        assert(split_on(head, ',') == rest.push(Seq::<char>::empty()));
        assert(!fields.last().contains(',')) by {
            assert(fields[fields.len() - 1] == fields.last());
        }
        lemma_split_after(head, fields.last(), ',');
        assert(Seq::<char>::empty() + fields.last() =~= fields.last());
        assert(rest.push(Seq::<char>::empty()).update(rest.len() as int, fields.last()) =~= fields);
    }
}

proof fn lemma_number_reads(n: i64, max: int)
    requires
        0 <= n <= max,
    ensures
        parse_unsigned_spec(signed_decimal(n as int), max) == Some(n as int),
        !signed_decimal(n as int).contains(','),
        signed_decimal(n as int).len() > 0,
{
    lemma_decimal_reads(n as nat, max);
}

/// The fields of a line of the alliances file as `alliance_row_line`
/// writes it.
pub open spec fn alliance_row_fields(id: i64, encoded: Seq<char>, points: i64, towns: i64, members: i64, rank: i64) -> Seq<Seq<char>> {
    seq![
        signed_decimal(id as int),
        encoded,
        signed_decimal(points as int),
        signed_decimal(towns as int),
        signed_decimal(members as int),
        signed_decimal(rank as int),
    ]
}

proof fn lemma_alliance_round_trip(id: i64, encoded: Seq<char>, name: Seq<char>, points: i64, towns: i64, members: i64, rank: i64)
    requires
        0 <= id <= u32::MAX,
        0 <= points <= u32::MAX,
        0 <= towns <= u32::MAX,
        0 <= members <= u16::MAX,
        0 <= rank <= u16::MAX,
        !encoded.contains(','),
        decoded_name(encoded) == name,
    ensures
        alliance_line(comma_joined(alliance_row_fields(id, encoded, points, towns, members, rank))) == Some(
            AllianceView {
                id: id as u32,
                name,
                points: points as u32,
                towns: towns as u32,
                members: members as u16,
                rank: rank as u16,
            },
        ),
{
    let f = alliance_row_fields(id, encoded, points, towns, members, rank);
    lemma_number_reads(id, u32::MAX as int);
    lemma_number_reads(points, u32::MAX as int);
    lemma_number_reads(towns, u32::MAX as int);
    lemma_number_reads(members, u16::MAX as int);
    lemma_number_reads(rank, u16::MAX as int);
    assert forall|i: int| 0 <= i < f.len() implies !(#[trigger] f[i]).contains(',') by {
        if i == 0 {} else if i == 1 {} else if i == 2 {} else if i == 3 {} else if i == 4 {} else {}
    }
    lemma_fields_of_joined(f);
    assert(fields_of(comma_joined(f)) == f);
}

/// The fields of a line of the players file as `player_row_line` writes
/// it.
pub open spec fn player_row_fields(id: i64, encoded: Seq<char>, alliance_id: Option<i64>, points: i64, rank: i64, towns: i64) -> Seq<Seq<char>> {
    seq![
        signed_decimal(id as int),
        encoded,
        optional_decimal(alliance_id),
        signed_decimal(points as int),
        signed_decimal(rank as int),
        signed_decimal(towns as int),
    ]
}

/// The player a line written from a row reads as, given the alliances.
pub open spec fn player_from_row(
    id: i64,
    name: Seq<char>,
    alliance_id: Option<i64>,
    points: i64,
    rank: i64,
    towns: i64,
    alliances: Map<u32, AllianceView>,
) -> PlayerView {
    PlayerView {
        id: id as u32,
        name,
        alliance: match alliance_id {
            Some(a) => if alliances.contains_key(a as u32) {
                Some((a as u32, alliances[a as u32]))
            } else {
                None
            },
            None => None,
        },
        points: points as u32,
        rank: rank as u16,
        towns: towns as u16,
    }
}

proof fn lemma_player_round_trip(
    id: i64,
    encoded: Seq<char>,
    name: Seq<char>,
    alliance_id: Option<i64>,
    points: i64,
    rank: i64,
    towns: i64,
    alliances: Map<u32, AllianceView>,
)
    requires
        0 <= id <= u32::MAX,
        alliance_id matches Some(a) ==> 0 <= a <= u32::MAX,
        0 <= points <= u32::MAX,
        0 <= rank <= u16::MAX,
        0 <= towns <= u16::MAX,
        !encoded.contains(','),
        decoded_name(encoded) == name,
    ensures
        player_line(comma_joined(player_row_fields(id, encoded, alliance_id, points, rank, towns)), alliances) == Some(
            player_from_row(id, name, alliance_id, points, rank, towns, alliances),
        ),
{
    let f = player_row_fields(id, encoded, alliance_id, points, rank, towns);
    lemma_number_reads(id, u32::MAX as int);
    lemma_number_reads(points, u32::MAX as int);
    lemma_number_reads(rank, u16::MAX as int);
    lemma_number_reads(towns, u16::MAX as int);
    match alliance_id {
        Some(a) => lemma_number_reads(a, u32::MAX as int),
        None => {},
    }
    assert forall|i: int| 0 <= i < f.len() implies !(#[trigger] f[i]).contains(',') by {
        if i == 0 {} else if i == 1 {} else if i == 2 {} else if i == 3 {} else if i == 4 {} else {}
    }
    lemma_fields_of_joined(f);
    assert(fields_of(comma_joined(f)) == f);
}

/// The fields of a line of the towns file as `town_row_line` writes it.
pub open spec fn town_row_fields(id: i64, player_id: Option<i64>, encoded: Seq<char>, x: i64, y: i64, slot: i64, points: i64) -> Seq<Seq<char>> {
    seq![
        signed_decimal(id as int),
        optional_decimal(player_id),
        encoded,
        signed_decimal(x as int),
        signed_decimal(y as int),
        signed_decimal(slot as int),
        signed_decimal(points as int),
    ]
}

/// The town a line written from a row reads as, given the players,
/// islands and offsets and the stand-ins.
pub open spec fn town_from_row(
    id: i64,
    player_id: Option<i64>,
    name: Seq<char>,
    x: i64,
    y: i64,
    slot: i64,
    points: i64,
    players: Map<u32, PlayerView>,
    islands: Map<u32, IslandView>,
    offsets: Map<u32, crate::database::Offset>,
    any_island: Option<IslandView>,
    any_offset: Option<crate::database::Offset>,
) -> Option<TownRecord> {
    let player = match player_id {
        Some(p) => if players.contains_key(p as u32) {
            Some((p as u32, players[p as u32]))
        } else {
            None
        },
        None => None,
    };
    match town_island(islands, x as u16, y as u16, any_island) {
        Some(island) => match town_offset(offsets, island.typ, slot as u8, any_offset) {
            Some(offset) => Some(
                TownRecord {
                    id: id as u32,
                    name,
                    points: points as u16,
                    player,
                    island: (x as u16, y as u16, island),
                    offset: (slot as u8, offset),
                },
            ),
            None => None,
        },
        None => None,
    }
}

proof fn lemma_town_round_trip(
    id: i64,
    player_id: Option<i64>,
    encoded: Seq<char>,
    name: Seq<char>,
    x: i64,
    y: i64,
    slot: i64,
    points: i64,
    players: Map<u32, PlayerView>,
    islands: Map<u32, IslandView>,
    offsets: Map<u32, crate::database::Offset>,
    any_island: Option<IslandView>,
    any_offset: Option<crate::database::Offset>,
)
    requires
        0 <= id <= u32::MAX,
        player_id matches Some(p) ==> 0 <= p <= u32::MAX,
        0 <= x <= u16::MAX,
        0 <= y <= u16::MAX,
        0 <= slot <= u8::MAX,
        0 <= points <= u16::MAX,
        !encoded.contains(','),
        decoded_name(encoded) == name,
    ensures
        town_line(comma_joined(town_row_fields(id, player_id, encoded, x, y, slot, points)), players, islands, offsets, any_island, any_offset)
            == town_from_row(id, player_id, name, x, y, slot, points, players, islands, offsets, any_island, any_offset),
{
    let f = town_row_fields(id, player_id, encoded, x, y, slot, points);
    lemma_number_reads(id, u32::MAX as int);
    lemma_number_reads(x, u16::MAX as int);
    lemma_number_reads(y, u16::MAX as int);
    lemma_number_reads(slot, u8::MAX as int);
    lemma_number_reads(points, u16::MAX as int);
    match player_id {
        Some(p) => lemma_number_reads(p, u32::MAX as int),
        None => {},
    }
    assert forall|i: int| 0 <= i < f.len() implies !(#[trigger] f[i]).contains(',') by {
        if i == 0 {} else if i == 1 {} else if i == 2 {} else if i == 3 {} else if i == 4 {} else if i == 5 {} else {}
    }
    lemma_fields_of_joined(f);
    assert(fields_of(comma_joined(f)) == f);
}

/// The fields of a line of the islands file as `island_row_line` writes
/// it.
pub open spec fn island_row_fields(id: i64, x: i64, y: i64, typ: i64, towns: i64, plus: Seq<char>, minus: Seq<char>) -> Seq<Seq<char>> {
    seq![
        signed_decimal(id as int),
        signed_decimal(x as int),
        signed_decimal(y as int),
        signed_decimal(typ as int),
        signed_decimal(towns as int),
        plus,
        minus,
    ]
}

proof fn lemma_island_round_trip(id: i64, x: i64, y: i64, typ: i64, towns: i64, plus: Seq<char>, minus: Seq<char>)
    requires
        0 <= id <= u32::MAX,
        0 <= x <= u16::MAX,
        0 <= y <= u16::MAX,
        0 <= typ <= u8::MAX,
        0 <= towns <= u8::MAX,
        !plus.contains(','),
        !minus.contains(','),
    ensures
        island_line(comma_joined(island_row_fields(id, x, y, typ, towns, plus, minus))) == Some(
            IslandView {
                id: id as u32,
                x: x as u16,
                y: y as u16,
                typ: typ as u8,
                towns: towns as u8,
                ressource_plus: plus,
                ressource_minus: minus,
            },
        ),
{
    let f = island_row_fields(id, x, y, typ, towns, plus, minus);
    lemma_number_reads(id, u32::MAX as int);
    lemma_number_reads(x, u16::MAX as int);
    lemma_number_reads(y, u16::MAX as int);
    lemma_number_reads(typ, u8::MAX as int);
    lemma_number_reads(towns, u8::MAX as int);
    assert forall|i: int| 0 <= i < f.len() implies !(#[trigger] f[i]).contains(',') by {
        if i == 0 {} else if i == 1 {} else if i == 2 {} else if i == 3 {} else if i == 4 {} else if i == 5 {} else {}
    }
    lemma_fields_of_joined(f);
    assert(fields_of(comma_joined(f)) == f);
}

fn push_comma_i64(s: &mut String, n: i64)
    ensures
        final(s)@ == old(s)@ + seq![','] + signed_decimal(n as int),
{
    crate::text::push_char(s, ',');
    push_i64(s, n);
}

fn push_comma_text(s: &mut String, t: &str)
    ensures
        final(s)@ == old(s)@ + seq![','] + t@,
{
    crate::text::push_char(s, ',');
    let v = chars_of(t);
    push_chars(s, &v, 0, v.len());
    assert(v@.subrange(0, v@.len() as int) =~= v@);
}

fn push_comma_optional(s: &mut String, n: Option<i64>)
    ensures
        final(s)@ == old(s)@ + seq![','] + optional_decimal(n),
{
    crate::text::push_char(s, ',');
    match n {
        Some(v) => push_i64(s, v),
        None => {
            assert(old(s)@.push(',') =~= old(s)@ + seq![','] + Seq::<char>::empty());
        },
    }
}

/// A line of the players file: id, encoded name, alliance id (empty for
/// none), points, rank, towns.
pub fn player_row_line(id: i64, name: &str, alliance_id: Option<i64>, points: i64, rank: i64, towns: i64) -> (r: String)
    ensures
        r@ == comma_joined(player_row_fields(id, percent_encoded(name@), alliance_id, points, rank, towns)),
        ({
            &&& 0 <= id <= u32::MAX
            &&& alliance_id matches Some(a) ==> 0 <= a <= u32::MAX
            &&& 0 <= points <= u32::MAX
            &&& 0 <= rank <= u16::MAX
            &&& 0 <= towns <= u16::MAX
        }) ==> forall|alliances: Map<u32, AllianceView>| #[trigger] player_line(r@, alliances) == Some(
            player_from_row(id, name@, alliance_id, points, rank, towns, alliances),
        ),
{
    let mut s = String::new();
    push_i64(&mut s, id);
    let enc = encode_name(name);
    push_comma_text(&mut s, enc.as_str());
    push_comma_optional(&mut s, alliance_id);
    push_comma_i64(&mut s, points);
    push_comma_i64(&mut s, rank);
    push_comma_i64(&mut s, towns);
    proof {
        reveal_with_fuel(comma_joined, 7);
        assert(s@ =~= comma_joined(player_row_fields(id, enc@, alliance_id, points, rank, towns)));
        if 0 <= id <= u32::MAX && (alliance_id matches Some(a) ==> 0 <= a <= u32::MAX) && 0 <= points <= u32::MAX
            && 0 <= rank <= u16::MAX && 0 <= towns <= u16::MAX {
            assert forall|alliances: Map<u32, AllianceView>| #[trigger] player_line(s@, alliances) == Some(
                player_from_row(id, name@, alliance_id, points, rank, towns, alliances),
            ) by {
                lemma_player_round_trip(id, enc@, name@, alliance_id, points, rank, towns, alliances);
            }
        }
    }
    s
}

/// A line of the alliances file: id, encoded name, points, towns, members,
/// rank.
pub fn alliance_row_line(id: i64, name: &str, points: i64, towns: i64, members: i64, rank: i64) -> (r: String)
    ensures
        r@ == comma_joined(alliance_row_fields(id, percent_encoded(name@), points, towns, members, rank)),
        ({
            &&& 0 <= id <= u32::MAX
            &&& 0 <= points <= u32::MAX
            &&& 0 <= towns <= u32::MAX
            &&& 0 <= members <= u16::MAX
            &&& 0 <= rank <= u16::MAX
        }) ==> alliance_line(r@) == Some(
            AllianceView {
                id: id as u32,
                name: name@,
                points: points as u32,
                towns: towns as u32,
                members: members as u16,
                rank: rank as u16,
            },
        ),
{
    let mut s = String::new();
    push_i64(&mut s, id);
    let enc = encode_name(name);
    push_comma_text(&mut s, enc.as_str());
    push_comma_i64(&mut s, points);
    push_comma_i64(&mut s, towns);
    push_comma_i64(&mut s, members);
    push_comma_i64(&mut s, rank);
    proof {
        reveal_with_fuel(comma_joined, 7);
        assert(s@ =~= comma_joined(alliance_row_fields(id, enc@, points, towns, members, rank)));
        if 0 <= id <= u32::MAX && 0 <= points <= u32::MAX && 0 <= towns <= u32::MAX && 0 <= members <= u16::MAX
            && 0 <= rank <= u16::MAX {
            lemma_alliance_round_trip(id, enc@, name@, points, towns, members, rank);
        }
    }
    s
}

/// A line of the towns file: id, owner id (empty for none), encoded name,
/// island x, island y, slot number, points.
pub fn town_row_line(id: i64, player_id: Option<i64>, name: &str, island_x: i64, island_y: i64, slot: i64, points: i64) -> (r:
    String)
    ensures
        r@ == comma_joined(town_row_fields(id, player_id, percent_encoded(name@), island_x, island_y, slot, points)),
        ({
            &&& 0 <= id <= u32::MAX
            &&& player_id matches Some(p) ==> 0 <= p <= u32::MAX
            &&& 0 <= island_x <= u16::MAX
            &&& 0 <= island_y <= u16::MAX
            &&& 0 <= slot <= u8::MAX
            &&& 0 <= points <= u16::MAX
        }) ==> forall|
            players: Map<u32, PlayerView>,
            islands: Map<u32, IslandView>,
            offsets: Map<u32, crate::database::Offset>,
            any_island: Option<IslandView>,
            any_offset: Option<crate::database::Offset>,
        |
            #[trigger] town_line(r@, players, islands, offsets, any_island, any_offset) == town_from_row(
                id,
                player_id,
                name@,
                island_x,
                island_y,
                slot,
                points,
                players,
                islands,
                offsets,
                any_island,
                any_offset,
            ),
{
    let mut s = String::new();
    push_i64(&mut s, id);
    push_comma_optional(&mut s, player_id);
    let enc = encode_name(name);
    push_comma_text(&mut s, enc.as_str());
    push_comma_i64(&mut s, island_x);
    push_comma_i64(&mut s, island_y);
    push_comma_i64(&mut s, slot);
    push_comma_i64(&mut s, points);
    proof {
        reveal_with_fuel(comma_joined, 8);
        assert(s@ =~= comma_joined(town_row_fields(id, player_id, enc@, island_x, island_y, slot, points)));
        if 0 <= id <= u32::MAX && (player_id matches Some(p) ==> 0 <= p <= u32::MAX) && 0 <= island_x <= u16::MAX
            && 0 <= island_y <= u16::MAX && 0 <= slot <= u8::MAX && 0 <= points <= u16::MAX {
            assert forall|
                players: Map<u32, PlayerView>,
                islands: Map<u32, IslandView>,
                offsets: Map<u32, crate::database::Offset>,
                any_island: Option<IslandView>,
                any_offset: Option<crate::database::Offset>,
            |
                #[trigger] town_line(s@, players, islands, offsets, any_island, any_offset) == town_from_row(
                    id,
                    player_id,
                    name@,
                    island_x,
                    island_y,
                    slot,
                    points,
                    players,
                    islands,
                    offsets,
                    any_island,
                    any_offset,
                ) by {
                lemma_town_round_trip(
                    id,
                    player_id,
                    enc@,
                    name@,
                    island_x,
                    island_y,
                    slot,
                    points,
                    players,
                    islands,
                    offsets,
                    any_island,
                    any_offset,
                );
            }
        }
    }
    s
}

/// A line of the islands file: id, x, y, type, towns, resource in plenty,
/// resource in want (the resources as they are).
pub fn island_row_line(id: i64, x: i64, y: i64, typ: i64, towns: i64, plus: &str, minus: &str) -> (r: String)
    ensures
        r@ == comma_joined(island_row_fields(id, x, y, typ, towns, plus@, minus@)),
        ({
            &&& 0 <= id <= u32::MAX
            &&& 0 <= x <= u16::MAX
            &&& 0 <= y <= u16::MAX
            &&& 0 <= typ <= u8::MAX
            &&& 0 <= towns <= u8::MAX
            &&& !plus@.contains(',')
            &&& !minus@.contains(',')
        }) ==> island_line(r@) == Some(
            IslandView {
                id: id as u32,
                x: x as u16,
                y: y as u16,
                typ: typ as u8,
                towns: towns as u8,
                ressource_plus: plus@,
                ressource_minus: minus@,
            },
        ),
{
    let mut s = String::new();
    push_i64(&mut s, id);
    push_comma_i64(&mut s, x);
    push_comma_i64(&mut s, y);
    push_comma_i64(&mut s, typ);
    push_comma_i64(&mut s, towns);
    push_comma_text(&mut s, plus);
    push_comma_text(&mut s, minus);
    proof {
        reveal_with_fuel(comma_joined, 8);
        assert(s@ =~= comma_joined(island_row_fields(id, x, y, typ, towns, plus@, minus@)));
        if 0 <= id <= u32::MAX && 0 <= x <= u16::MAX && 0 <= y <= u16::MAX && 0 <= typ <= u8::MAX && 0 <= towns
            <= u8::MAX && !plus@.contains(',') && !minus@.contains(',') {
            lemma_island_round_trip(id, x, y, typ, towns, plus@, minus@);
        }
    }
    s
}

/// The lines joined with line breaks.
pub open spec fn newline_joined(lines: Seq<Seq<char>>) -> Seq<char>
    decreases lines.len(),
{
    if lines.len() == 0 {
        Seq::empty()
    } else if lines.len() == 1 {
        lines[0]
    } else {
        newline_joined(lines.drop_last()) + seq!['\n'] + lines.last()
    }
}

/// Joins lines with line breaks (`join("\n")`).
pub fn join_lines(lines: &Vec<String>) -> (r: String)
    ensures
        r@ == newline_joined(lines@.map_values(|l: String| l@)),
{
    let ghost lv = lines@.map_values(|l: String| l@);
    let mut s = String::new();
    let mut i: usize = 0;
    while i < lines.len()
        invariant
            lv == lines@.map_values(|l: String| l@),
            i <= lines@.len(),
            s@ == newline_joined(lv.take(i as int)),
        decreases lines@.len() - i,
    {
        if i > 0 {
            crate::text::push_char(&mut s, '\n');
        }
        let v = chars_of(lines[i].as_str());
        push_chars(&mut s, &v, 0, v.len());
        proof {
            assert(v@.subrange(0, v@.len() as int) =~= v@);
            assert(lv.take(i + 1).drop_last() =~= lv.take(i as int));
            assert(lv.take(i + 1).last() == lv[i as int]);
            if i == 0 {
                assert(lv.take(1) =~= seq![lv[0]]);
            }
        }
        i = i + 1;
    }
    assert(lv.take(i as int) =~= lv);
    s
}

} // verus!
