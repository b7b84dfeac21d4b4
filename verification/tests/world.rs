use std::rc::Rc;
use turun_map::constraint::{Comparator, ConstraintType};
use turun_map::database::{BackendTown, DataTable};
use turun_map::emptyconstraint::{matching_towns_for_selection, EmptyConstraint};
use turun_map::emptyselection::{Color, EmptyTownSelection, HiddenId};
use turun_map::export::{alliance_row_line, island_row_line, player_row_line};
use turun_map::names::get_names_for_constraint_type_in_town_list;
use turun_map::presenter::{get_names_for_constraint_with_constraints, get_towns_for_constraints, towns_for_selection};
use turun_map::selection::AndOr;
use turun_map::references::ReferenceError;
use turun_map::world::{
    decode_name, make_offsets, parse_alliance_line, parse_alliances, parse_island_line, parse_islands, parse_player_line,
    parse_players, parse_towns, APIResponse,
};

const ALLIANCES: &str = "1,The+Ally,100,5,3,1\n2,Second%21,50,2,1,2\nbroken\n1,The+Ally+Renamed,101,5,3,1\n";
const PLAYERS: &str = "10,Bob,1,500,2,3\n11,Al%21,,20,9,1\n12,Lost,99,7,8,1\nx,y\n";
const ISLANDS: &str = "100,500,500,1,20,Iron,Wood\n101,510,500,2,10,Stone,Iron\nshort,1\n";
const OFFSETS: &str = "1,10,20,1\n1,30,40,2\n2,50,60,1\n";
const TOWNS: &str = "1000,10,Town+One,500,500,1,300\n1001,,Ghost,500,500,2,50\n1002,11,Other,510,500,1,100\n1003,12,Far,999,999,1,7\nbad line\n";

fn number_of(value: &str) -> Option<u64> {
    value.parse::<f64>().ok().map(|f| f.to_bits())
}

fn constraint(ct: ConstraintType, cmp: Comparator, value: &str) -> EmptyConstraint {
    EmptyConstraint::new(ct, cmp, value.to_string(), number_of(value))
}

fn selection(name: &str, join: AndOr, constraints: Vec<EmptyConstraint>) -> EmptyTownSelection {
    EmptyTownSelection {
        name: name.to_string(),
        hidden_id: HiddenId(name.to_string()),
        constraints,
        constraint_join_mode: join,
        color: Color { r: 0, g: 0, b: 0, a: 255 },
    }
}

fn world() -> DataTable {
    let mut api = APIResponse::new("de99".to_string(), None, 0, 0);
    api.alliances = Some(ALLIANCES.to_string());
    api.players = Some(PLAYERS.to_string());
    api.islands = Some(ISLANDS.to_string());
    api.towns = Some(TOWNS.to_string());
    DataTable::create_for_world(&api, OFFSETS).expect("world")
}

fn ids(towns: &[Rc<BackendTown>]) -> Vec<u32> {
    let mut v: Vec<u32> = towns.iter().map(|t| t.id).collect();
    v.sort();
    v
}

#[test]
fn names_are_form_decoded() {
    let chars: Vec<char> = "A+b%21%C3%A4&x=y".chars().collect();
    assert_eq!(decode_name(&chars), "A b!äxy");
    let plain: Vec<char> = "Plain".chars().collect();
    assert_eq!(decode_name(&plain), "Plain");
}

#[test]
fn alliance_line_fields() {
    let line: Vec<char> = "7,Name+X,1,2,3,4,extra".chars().collect();
    let a = parse_alliance_line(&line).unwrap();
    assert_eq!((a.id, a.name.as_str(), a.points, a.towns, a.members, a.rank), (7, "Name X", 1, 2, 3, 4));
    let short: Vec<char> = "7,Name,1,2,3".chars().collect();
    assert!(parse_alliance_line(&short).is_none());
    let too_big: Vec<char> = "7,Name,1,2,70000,4".chars().collect();
    assert!(parse_alliance_line(&too_big).is_none());
}

#[test]
fn alliances_later_line_wins_and_bad_lines_counted() {
    let (bad, m) = parse_alliances(ALLIANCES);
    assert_eq!(bad, 1);
    assert_eq!(m.len(), 2);
    assert_eq!(m[&1].name, "The Ally Renamed");
    assert_eq!(m[&1].points, 101);
    assert_eq!(m[&2].name, "Second!");
}

#[test]
fn players_link_alliances() {
    let (_, alliances) = parse_alliances(ALLIANCES);
    let (bad, players) = parse_players(PLAYERS, &alliances);
    assert_eq!(bad, 1);
    assert_eq!(players.len(), 3);
    assert_eq!(players[&10].alliance.as_ref().map(|a| a.0), Some(1));
    assert!(players[&11].alliance.is_none());
    assert_eq!(players[&11].name, "Al!");
    assert!(players[&12].alliance.is_none());
}

#[test]
fn islands_by_position() {
    let (bad, islands) = parse_islands(ISLANDS);
    assert_eq!(bad, 1);
    assert_eq!(islands.len(), 2);
    assert_eq!(islands[&(500 * 65536 + 500)].id, 100);
    assert_eq!(islands[&(510 * 65536 + 500)].ressource_plus, "Stone");
}

#[test]
fn offsets_must_all_read() {
    let m = make_offsets(OFFSETS).unwrap();
    assert_eq!(m.len(), 3);
    assert_eq!(m[&(256 + 1)].x, 10);
    assert!(make_offsets("1,2,3,4\nnot an offset\n").is_none());
    assert_eq!(make_offsets("").unwrap().len(), 0);
}

#[test]
fn towns_need_a_stand_in_island() {
    let (_, alliances) = parse_alliances(ALLIANCES);
    let (_, players) = parse_players(PLAYERS, &alliances);
    let (_, islands) = parse_islands("");
    let offsets = make_offsets(OFFSETS).unwrap();
    assert!(parse_towns(TOWNS, &players, &islands, &offsets, &None, &None).is_none());
    let (bad, towns) = parse_towns("garbage\n", &players, &islands, &offsets, &None, &None).unwrap();
    assert_eq!((bad, towns.len()), (1, 0));
}

#[test]
fn world_is_built() {
    let db = world();
    assert_eq!(db.towns.len(), 4);
    let mut sorted: Vec<&Rc<BackendTown>> = db.towns.iter().collect();
    sorted.sort_by_key(|t| t.id);
    assert_eq!(sorted[0].name, "Town One");
    assert_eq!(sorted[0].player.as_ref().unwrap().1.name, "Bob");
    assert_eq!(sorted[0].offset.1.x, 10);
    assert!(sorted[1].player.is_none());
    assert_eq!(sorted[1].offset.1.y, 40);
    assert_eq!(sorted[2].island.2.id, 101);
    assert_eq!(sorted[2].offset.1.x, 50);
    // a town on a position without island stands on some island of the world
    assert!(sorted[3].island.2.id == 100 || sorted[3].island.2.id == 101);
    assert_eq!((sorted[3].island.0, sorted[3].island.1), (999, 999));
}

#[test]
fn world_fails_on_bad_offset_table() {
    let mut api = APIResponse::new("de99".to_string(), None, 0, 0);
    api.alliances = Some(String::new());
    api.players = Some(String::new());
    api.islands = Some(String::new());
    api.towns = Some(String::new());
    assert!(DataTable::create_for_world(&api, "oops").is_none());
    assert!(DataTable::create_for_world(&api, OFFSETS).is_some());
}

#[test]
fn response_counts_arrived_files() {
    let mut api = APIResponse::new("de99".to_string(), Some("f".to_string()), 5, 3600);
    assert_eq!(api.count_completed(), 0);
    assert!(!api.is_complete());
    api.towns = Some(String::new());
    api.players = Some(String::new());
    assert_eq!(api.count_completed(), 2);
    api.islands = Some(String::new());
    api.alliances = Some(String::new());
    assert_eq!(api.count_completed(), 4);
    assert!(api.is_complete());
}

#[test]
fn all_and_ghost_towns() {
    let db = world();
    assert_eq!(db.get_all_towns().len(), 4);
    let ghosts = db.get_ghost_towns();
    assert_eq!(ghosts.len(), 1);
    assert_eq!(ghosts[0].id, 1001);
    assert!(ghosts[0].player_name.is_none());
    let all = db.get_all_towns();
    let one = all.iter().find(|t| t.id == 1000).unwrap();
    assert_eq!(one.player_name.as_deref(), Some("Bob"));
    assert_eq!(one.alliance_name.as_deref(), Some("The Ally Renamed"));
    assert_eq!((one.island_x, one.island_y, one.offset_x, one.offset_y, one.slot_number), (500, 500, 10, 20, 1));
}

#[test]
fn number_names_sorted_and_unique() {
    let db = world();
    let ids = get_names_for_constraint_type_in_town_list(&db.towns, ConstraintType::IslandX);
    assert_eq!(ids, vec!["500".to_string(), "510".to_string(), "999".to_string()]);
    let points = db.get_names_for_constraint_type(ConstraintType::PlayerPoints);
    assert_eq!(points, vec!["7".to_string(), "20".to_string(), "500".to_string()]);
    let alliance_points = db.get_names_for_constraint_type(ConstraintType::AlliancePoints);
    assert_eq!(alliance_points, vec!["101".to_string()]);
}

#[test]
fn text_names_sorted_by_lower_case() {
    let db = world();
    let names = db.get_names_for_constraint_type(ConstraintType::TownName);
    assert_eq!(names, vec!["Far", "Ghost", "Other", "Town One"]);
    let mut towns = db.towns.clone();
    let extra = BackendTown {
        id: 5,
        name: "far".to_string(),
        points: 1,
        player: None,
        island: db.towns[0].island.clone(),
        offset: db.towns[0].offset.clone(),
    };
    towns.push(Rc::new(extra.clone_shallow()));
    towns.push(Rc::new(extra.clone_shallow()));
    let names = get_names_for_constraint_type_in_town_list(&towns, ConstraintType::TownName);
    assert_eq!(names, vec!["Far", "far", "Ghost", "Other", "Town One"]);
}

trait Shallow {
    fn clone_shallow(&self) -> BackendTown;
}

impl Shallow for BackendTown {
    fn clone_shallow(&self) -> BackendTown {
        BackendTown {
            id: self.id,
            name: self.name.clone(),
            points: self.points,
            player: self.player.clone(),
            island: self.island.clone(),
            offset: self.offset.clone(),
        }
    }
}

#[test]
fn towns_for_a_selection() {
    let db = world();
    let all: Vec<EmptyTownSelection> = vec![];
    let s = selection("s", AndOr::And, vec![constraint(ConstraintType::TownPoints, Comparator::GreaterThan, "100")]);
    let towns = db.get_towns_for_constraints(&s, &all);
    let mut got: Vec<u32> = towns.iter().map(|t| t.id).collect();
    got.sort();
    assert_eq!(got, vec![1000, 1002]);
    let none = selection("n", AndOr::And, vec![]);
    assert_eq!(db.get_towns_for_constraints(&none, &all).len(), 0);
}

#[test]
fn or_join_unites_and_join_intersects() {
    let db = world();
    let all: Vec<EmptyTownSelection> = vec![];
    let cs = vec![
        constraint(ConstraintType::PlayerName, Comparator::Equal, "Bob"),
        constraint(ConstraintType::TownPoints, Comparator::LessThan, "50"),
    ];
    let or = selection("o", AndOr::Or, cs.clone());
    let and = selection("a", AndOr::And, cs);
    assert_eq!(ids(&db.get_backendtowns_for_constraints(&or, &all)), vec![1000, 1001, 1003]);
    assert_eq!(ids(&db.get_backendtowns_for_constraints(&and, &all)), Vec::<u32>::new());
}

#[test]
fn invalid_filled_constraint_matches_nothing() {
    let db = world();
    let all: Vec<EmptyTownSelection> = vec![];
    let s = selection("s", AndOr::And, vec![constraint(ConstraintType::IslandResMore, Comparator::Equal, "gold")]);
    assert_eq!(matching_towns_for_selection(&db.towns, &s, &all).len(), 0);
    // the value is checked without regard to case, but compared exactly
    let lower = selection("s", AndOr::And, vec![constraint(ConstraintType::IslandResMore, Comparator::Equal, "iron")]);
    assert_eq!(matching_towns_for_selection(&db.towns, &lower, &all).len(), 0);
    let ok = selection("s", AndOr::And, vec![constraint(ConstraintType::IslandResMore, Comparator::Equal, "Iron")]);
    let got: Vec<u32> = ids(&matching_towns_for_selection(&db.towns, &ok, &all)).into_iter().filter(|i| *i != 1003).collect();
    assert_eq!(got, vec![1000, 1001]);
}

#[test]
fn selection_in_selection() {
    let db = world();
    let all = vec![
        selection("bobs", AndOr::And, vec![constraint(ConstraintType::PlayerName, Comparator::Equal, "Bob")]),
        selection("not_bobs", AndOr::And, vec![constraint(ConstraintType::PlayerName, Comparator::NotInSelection, "bobs")]),
    ];
    assert_eq!(ids(&db.get_backendtowns_for_constraints(&all[1], &all)), vec![1001, 1002, 1003]);
}

#[test]
fn presenter_towns_and_names() {
    let db = world();
    let all = vec![
        selection("a", AndOr::And, vec![constraint(ConstraintType::PlayerName, Comparator::InSelection, "b")]),
        selection("b", AndOr::And, vec![constraint(ConstraintType::PlayerName, Comparator::InSelection, "a")]),
    ];
    assert!(towns_for_selection(&db, &all[0], &all).is_err());
    let s = selection(
        "s",
        AndOr::And,
        vec![constraint(ConstraintType::TownID, Comparator::LessThan, "1000"), constraint(ConstraintType::TownName, Comparator::Equal, "")],
    );
    let towns = towns_for_selection(&db, &s, &[]).unwrap();
    assert_eq!(towns.iter().map(|t| t.id).collect::<Vec<_>>(), vec![1000]);
    let cs = vec![constraint(ConstraintType::TownID, Comparator::GreaterThan, "1002")];
    let names = get_names_for_constraint_with_constraints(&db, &s, ConstraintType::TownName, &cs, &[]).unwrap();
    assert_eq!(names, vec!["Far", "Other"]);
    let or = selection("o", AndOr::Or, vec![]);
    let present = vec![constraint(ConstraintType::TownName, Comparator::Equal, "Ghost")];
    let names = get_names_for_constraint_with_constraints(&db, &or, ConstraintType::TownName, &present, &[]).unwrap();
    // with `or`, every value of the kind is offered, also those already chosen
    assert_eq!(names, vec!["Far", "Ghost", "Other", "Town One"]);
    let towns = get_towns_for_constraints(&db, &s, &[], &[]).unwrap();
    assert_eq!(towns.len(), 0);
}

#[test]
fn exported_rows_read_back() {
    let line = alliance_row_line(5, "Die Ä-Team & Co, 1+1=2", 100, 3, 7, 2);
    let a = parse_alliance_line(&line.chars().collect()).unwrap();
    assert_eq!(a.id, 5);
    assert_eq!(a.name, "Die Ä-Team & Co, 1+1=2");
    assert_eq!((a.points, a.towns, a.members, a.rank), (100, 3, 7, 2));
    let line = island_row_line(7, 500, 510, 3, 20, "Iron", "Wood");
    let i = parse_island_line(&line.chars().collect()).unwrap();
    assert_eq!((i.id, i.x, i.y, i.typ, i.towns), (7, 500, 510, 3, 20));
    assert_eq!((i.ressource_plus.as_str(), i.ressource_minus.as_str()), ("Iron", "Wood"));
    let line = player_row_line(10, "Bob %41", None, 500, 2, 3);
    let alliances = std::collections::HashMap::new();
    let p = parse_player_line(&line.chars().collect(), &alliances).unwrap();
    assert_eq!(p.name, "Bob %41");
    assert!(p.alliance.is_none());
}

#[test]
fn refresh_self_stores_the_towns_of_the_selection() {
    let db = world();
    let all = vec![selection("s", AndOr::And, vec![constraint(ConstraintType::PlayerName, Comparator::Equal, "Bob")])];
    let mut t = all[0].fill();
    assert_eq!(t.towns.len(), 0);
    assert!(t.refresh_self(&db, &[], &all).is_ok());
    assert_eq!(t.towns.iter().map(|x| x.id).collect::<Vec<u32>>(), vec![1000]);
}

#[test]
fn refresh_self_on_a_cycle_keeps_the_towns() {
    let db = world();
    let all = vec![selection("s", AndOr::And, vec![constraint(ConstraintType::PlayerName, Comparator::InSelection, "s")])];
    let mut t = all[0].fill();
    assert_eq!(t.refresh_self(&db, &[], &all), Err(ReferenceError::CircularReference));
    assert_eq!(t.towns.len(), 0);
}
