use turun_map::emptyselection::Color;
use turun_map::export::{alliance_row_line, island_row_line, join_lines, player_row_line, town_row_line};
use turun_map::message::{MessageToServer, MessageToView};
use turun_map::preferences::{AutoDeletePref, CacheSize, DarkModePref, Language, Preferences, Telemetry};
use turun_map::presenter::{ready_for_requests, PresenterReady};
use turun_map::selection::{AndOr, TownSelection};
use turun_map::shortform::{short_constraint_line, split_constraint_line, trim_quotes};
use turun_map::dropdown::drop_down_entries;
use turun_map::storage::{get_new_db_filename, group_saved_dbs, has_world_extension, remove_all, split_file_stem, SavedDB};
use turun_map::telemetry::{get_latest_version, is_newer_version, process_messages};
use turun_map::url::{selections_text_from_url, state_to_url_string};
use turun_map::view::{
    all_towns_dark, all_towns_light, apply_change, apply_darkmode, default_town_groups, refresh_after, Change,
    DefaultTownGroup, Refresh,
};

fn chars(s: &str) -> Vec<char> {
    s.chars().collect()
}

#[test]
fn change_add_and_remove() {
    let mut v = vec![1, 2, 3];
    apply_change(&mut v, Change::Add, 9);
    assert_eq!(v, vec![1, 2, 3, 9]);
    apply_change(&mut v, Change::Remove(1), 0);
    assert_eq!(v, vec![1, 3, 9]);
    let mut one = vec![5];
    apply_change(&mut one, Change::Remove(0), 7);
    assert_eq!(one, vec![7]);
}

#[test]
fn change_moves() {
    let mut v = vec!['a', 'b', 'c'];
    apply_change(&mut v, Change::MoveUp(2), 'z');
    assert_eq!(v, vec!['a', 'c', 'b']);
    apply_change(&mut v, Change::MoveDown(1), 'z');
    assert_eq!(v, vec!['a', 'b', 'c']);
    apply_change(&mut v, Change::MoveUp(0), 'z');
    assert_eq!(v, vec!['a', 'b', 'c']);
    apply_change(&mut v, Change::MoveDown(2), 'z');
    assert_eq!(v, vec!['a', 'b', 'c']);
    apply_change(&mut v, Change::MoveDown(7), 'z');
    assert_eq!(v, vec!['a', 'b', 'c']);
}

#[test]
fn refresh_decisions() {
    assert!(matches!(refresh_after(Some(Change::Add), false, vec![], Refresh::Nothing), Refresh::Complete));
    assert!(matches!(refresh_after(Some(Change::Remove(0)), false, vec![], Refresh::Nothing), Refresh::Complete));
    assert!(matches!(refresh_after(Some(Change::MoveUp(1)), true, vec![], Refresh::Nothing), Refresh::Complete));
    assert!(matches!(refresh_after(Some(Change::MoveUp(1)), false, vec![], Refresh::Nothing), Refresh::Nothing));
    let edited = vec![turun_map::emptyconstraint::EmptyConstraint::default()];
    match refresh_after(None, false, edited, Refresh::Nothing) {
        Refresh::InSitu(k) => assert_eq!(k.len(), 1),
        _ => panic!("expected a refresh in place"),
    }
}

#[test]
fn darkmode_switches_default_color_only() {
    let mut prefs = Preferences::default();
    let (mut all, ghosts) = default_town_groups();
    assert_eq!(all, DefaultTownGroup { enabled: true, color: Color { r: 60, g: 60, b: 60, a: 255 } });
    assert_eq!(ghosts.color, Color { r: 255, g: 0, b: 0, a: 255 });
    apply_darkmode(&mut prefs, &mut all, DarkModePref::Light);
    assert_eq!(prefs.darkmode, DarkModePref::Light);
    assert_eq!(all.color, all_towns_light());
    apply_darkmode(&mut prefs, &mut all, DarkModePref::Dark);
    assert_eq!(all.color, all_towns_dark());
    all.color = Color { r: 1, g: 2, b: 3, a: 4 };
    apply_darkmode(&mut prefs, &mut all, DarkModePref::Light);
    assert_eq!(all.color, Color { r: 1, g: 2, b: 3, a: 4 });
}

#[test]
fn preference_defaults_and_names() {
    let p = Preferences::default();
    assert_eq!(p.darkmode, DarkModePref::FollowSystem);
    assert_eq!(p.auto_delete, AutoDeletePref::Eternity);
    assert_eq!(p.cache_size, CacheSize::Normal);
    assert_eq!(p.language, Language::EN);
    assert_eq!(p.telemetry, Telemetry::All);
    assert_eq!(AutoDeletePref::default(), AutoDeletePref::OneWeek);
    assert_eq!(CacheSize::Disabled.value(), 0);
    assert_eq!(CacheSize::Normal.value(), 100);
    assert_eq!(CacheSize::Large.value(), 10_000);
    assert_eq!(CacheSize::Large.to_string(), "Large");
    assert_eq!(Language::DE.to_string(), "DE");
    assert_eq!(Language::FR.locale(), "fr");
    assert_eq!(Language::all().len(), 3);
    assert_eq!(AndOr::Or.as_sql(), "OR");
    assert_eq!(AndOr::And.toggled(), AndOr::Or);
    assert_eq!(MessageToView::GotServer.to_string(), "MessageToView::GotServer");
}

#[test]
fn readiness() {
    assert_eq!(ready_for_requests(true, false), PresenterReady::AlwaysHasBeen);
    assert_eq!(ready_for_requests(false, false), PresenterReady::WaitingForAPI);
    assert_eq!(ready_for_requests(false, true), PresenterReady::NewlyReady);
}

#[test]
fn telemetry_only_with_consent() {
    let r = process_messages(Telemetry::All, MessageToServer::LoadServer("de99".to_string())).unwrap();
    assert_eq!(r.url, "https://gmap.turun.de/v1/load_server");
    assert_eq!(r.body, "de99");
    let r = process_messages(Telemetry::All, MessageToServer::StoredConfig("yaml".to_string())).unwrap();
    assert_eq!(r.url, "https://gmap.turun.de/v1/stored_config");
    assert!(process_messages(Telemetry::OnlyVersionCheck, MessageToServer::LoadServer("x".to_string())).is_none());
    assert!(process_messages(Telemetry::Nothing, MessageToServer::StoredConfig("x".to_string())).is_none());
}

#[test]
fn version_comparison() {
    assert!(is_newer_version(&chars("1.2.3"), &chars("1.2.4")));
    assert!(is_newer_version(&chars("1.2"), &chars("1.2.1")));
    assert!(is_newer_version(&chars("1.9.9"), &chars("1.10.0")));
    assert!(!is_newer_version(&chars("1.2.3"), &chars("1.2.3")));
    assert!(!is_newer_version(&chars("2.0.0"), &chars("1.9.9")));
    assert!(!is_newer_version(&chars("1.2.0"), &chars("1.2")));
    assert!(is_newer_version(&chars("1.x.0"), &chars("1.1.0")));
}

#[test]
fn latest_version_notice() {
    let n = get_latest_version(&chars("1.0.0"), 200, Some(chars("1.1.0\nNew features\nand more"))).unwrap();
    assert_eq!(n.server_version, "1.1.0");
    assert_eq!(n.message, "New features\nand more");
    let n = get_latest_version(&chars("1.0.0"), 200, Some(chars("2.0.0"))).unwrap();
    assert_eq!(n.message, "");
    assert!(get_latest_version(&chars("1.0.0"), 404, Some(chars("2.0.0"))).is_none());
    assert!(get_latest_version(&chars("1.0.0"), 200, None).is_none());
    assert!(get_latest_version(&chars("3.0.0"), 200, Some(chars("2.0.0"))).is_none());
}

#[test]
fn saved_file_names() {
    let (server, date) = split_file_stem("de99-2024-01-02-03-04-05T+01-00-00").unwrap();
    assert_eq!(server, "de99");
    assert_eq!(date, "2024-01-02-03-04-05T+01:00:00");
    assert!(split_file_stem("nodash").is_none());
    let db = SavedDB::from_stem("/x/de99-2024-01-02-03-04-05T+01-00-00.apiresponse".to_string(), "de99-2024-01-02-03-04-05T+01-00-00");
    assert_eq!(db.server_str, "de99");
    // chrono reads an offset as hours and minutes only: the seconds of the
    // offset that file names carry leave the date unread, so the time falls
    // back to the epoch.
    assert_eq!(db.timestamp, 0);
    // with nothing between hours and minutes of the offset but colons, it reads
    let readable = SavedDB::from_stem("p".to_string(), "de99-2024-01-02-03-04-05T+01--00");
    assert_eq!(readable.server_str, "de99");
    assert_eq!(readable.timestamp, 1_704_161_045);
    let fallback = SavedDB::from_stem("p".to_string(), "de99-not a date");
    assert_eq!(fallback.timestamp, 0);
    let name = get_new_db_filename("de99", "2024-01-02-03-04-05T+01:00:00");
    assert_eq!(name, "de99-2024-01-02-03-04-05T+01-00-00.apiresponse");
    let stem = name.trim_end_matches(".apiresponse");
    assert_eq!(split_file_stem(stem).unwrap(), ("de99".to_string(), "2024-01-02-03-04-05T+01:00:00".to_string()));
}

#[test]
fn remove_all_lists_every_file() {
    let mk = |p: &str| SavedDB { path: p.to_string(), timestamp: 0, server_str: "s".to_string() };
    let saved = vec![("a".to_string(), vec![mk("1"), mk("2")]), ("b".to_string(), vec![]), ("c".to_string(), vec![mk("3")])];
    assert_eq!(remove_all(&saved), vec!["1".to_string(), "2".to_string(), "3".to_string()]);
}

#[test]
fn url_state() {
    let one = vec![TownSelection::default()];
    assert_eq!(state_to_url_string(Some("de99"), None, ""), "?server=de99");
    assert_eq!(state_to_url_string(None, None, ""), "?");
    assert_eq!(state_to_url_string(Some("de99"), Some(&[]), "[]\n"), "?server=de99");
    let url = state_to_url_string(Some("de99"), Some(&one), "- name: a\n");
    assert_eq!(url, "?server=de99&selections=LSBuYW1lOiBhCg==");
    assert_eq!(state_to_url_string(None, Some(&one), "hi?"), "?selections=aGk_");
    assert_eq!(selections_text_from_url("LSBuYW1lOiBhCg=="), Some("- name: a\n".to_string()));
    assert_eq!(selections_text_from_url("%%%"), None);
}

#[test]
fn export_lines() {
    assert_eq!(player_row_line(10, "Bob Ä", Some(3), 500, 2, -1), "10,Bob%20%C3%84,3,500,2,-1");
    assert_eq!(player_row_line(11, "x", None, 0, 0, 0), "11,x,,0,0,0");
    assert_eq!(alliance_row_line(1, "A&B", 1, 2, 3, 4), "1,A%26B,1,2,3,4");
    assert_eq!(town_row_line(5, None, "T.1", 500, 501, 3, 77), "5,,T%2E1,500,501,3,77");
    assert_eq!(island_row_line(1, 2, 3, 4, 5, "Iron", "Wood"), "1,2,3,4,5,Iron,Wood");
    assert_eq!(join_lines(&vec!["a".to_string(), "b".to_string()]), "a\nb");
    assert_eq!(join_lines(&vec![]), "");
}

#[test]
fn exported_names_read_back() {
    let line = player_row_line(10, "Bob + Ä&=", Some(3), 500, 2, 1);
    let (_, m) = turun_map::world::parse_alliances("3,x,1,1,1,1\n");
    let (bad, players) = turun_map::world::parse_players(&line, &m);
    assert_eq!(bad, 0);
    assert_eq!(players[&10].name, "Bob + Ä&=");
}

#[test]
fn short_form_of_constraints() {
    assert_eq!(short_constraint_line("PlayerName\n", " Equal\n", "'abc'\n"), "PlayerName Equal 'abc'");
    assert_eq!(
        split_constraint_line("TownName Equal some name"),
        Some(("TownName".to_string(), "Equal".to_string(), "some name".to_string()))
    );
    assert_eq!(split_constraint_line("TownName Equal"), None);
    assert_eq!(split_constraint_line("A B "), Some(("A".to_string(), "B".to_string(), String::new())));
    assert_eq!(trim_quotes("''abc'"), "abc");
    assert_eq!(trim_quotes("a'b"), "a'b");
    assert_eq!(trim_quotes("'''"), "");
}

#[test]
fn saved_worlds_grouped_by_server() {
    let mk = |p: &str, s: &str| SavedDB { path: p.to_string(), timestamp: 0, server_str: s.to_string() };
    let groups = group_saved_dbs(vec![
        mk("/d/zz-3", "zz"),
        mk("/d/de99-2", "de99"),
        mk("/d/de1-1", "de1"),
        mk("/d/de99-1", "de99"),
    ]);
    let servers: Vec<&str> = groups.iter().map(|g| g.0.as_str()).collect();
    assert_eq!(servers, vec!["de1", "de99", "zz"]);
    let de99: Vec<&str> = groups[1].1.iter().map(|d| d.path.as_str()).collect();
    assert_eq!(de99, vec!["/d/de99-1", "/d/de99-2"]);
    assert!(group_saved_dbs(vec![]).is_empty());
    assert!(has_world_extension("sqlite"));
    assert!(has_world_extension("apiresponse"));
    assert!(!has_world_extension("txt"));
    assert!(!has_world_extension("SQLITE"));
}

#[test]
fn drop_down_offers_prefix_matches_first() {
    let options = vec!["Alpha".to_string(), "beta".to_string(), "Alphabet".to_string(), "gamma".to_string()];
    let all = drop_down_entries(&options, "");
    assert_eq!(all.len(), 4);
    assert!(all.iter().all(|e| e.found_at.is_empty()));
    // lower case input: case is ignored
    let e = drop_down_entries(&options, "a");
    let texts: Vec<&str> = e.iter().map(|x| x.text.as_str()).collect();
    assert_eq!(texts, vec!["Alpha", "Alphabet", "beta", "gamma"]);
    assert_eq!(e[0].found_at, vec![0, 4]);
    assert_eq!(e[1].found_at, vec![0, 4]);
    assert_eq!(e[2].found_at, vec![3]);
    assert_eq!(e[3].found_at, vec![1, 4]);
    // input with upper case: case matters
    let e = drop_down_entries(&options, "Al");
    let texts: Vec<&str> = e.iter().map(|x| x.text.as_str()).collect();
    assert_eq!(texts, vec!["Alpha", "Alphabet"]);
    // matches do not overlap
    let e = drop_down_entries(&vec!["aaaa".to_string()], "aa");
    assert_eq!(e[0].found_at, vec![0, 2]);
    assert!(drop_down_entries(&options, "xyz").is_empty());
}

#[test]
fn url_selections_read_back() {
    let text = "- name: Ä b\n  color: [1, 2, 3, 4]\n";
    let one = vec![TownSelection::default()];
    let url = state_to_url_string(Some("de99"), Some(&one), text);
    let b64 = url.split("selections=").nth(1).unwrap();
    assert_eq!(selections_text_from_url(b64), Some(text.to_string()));
}

#[test]
fn deleting_everything_lists_each_saved_file_once() {
    let mk = |p: &str, s: &str| SavedDB { path: p.to_string(), timestamp: 0, server_str: s.to_string() };
    let files = vec![mk("/d/b-2", "b"), mk("/d/a-1", "a"), mk("/d/b-1", "b"), mk("/d/c-1", "c")];
    let mut paths = remove_all(&group_saved_dbs(files));
    assert_eq!(paths, vec!["/d/a-1".to_string(), "/d/b-1".to_string(), "/d/b-2".to_string(), "/d/c-1".to_string()]);
    paths.sort();
    paths.dedup();
    assert_eq!(paths.len(), 4);
}

#[test]
fn short_form_trims_unicode_whitespace_only() {
    assert_eq!(short_constraint_line("\u{3000}TownID\u{a0}", "\t\u{2028}Equal\u{85}", " x y \u{200b}"), "TownID Equal x y \u{200b}");
    assert_eq!(short_constraint_line("", " ", "\u{2000}\u{200a}"), "  ");
}

#[test]
fn number_syntax_agrees_with_parse() {
    let samples = [
        "", "0", "12", "-3", "+4", "1.", ".5", ".", "-.", "1.5", "1.5.2", "1e5", "1E5", "1e", "1e+", "1e-7", "e5", ".e1",
        "1.e3", "inf", "-Infinity", "NaN", "nan1", "infinit", " 1", "1 ", "0x10", "1_000", "--1", "+", "1e5e5", "1.2e3.4",
        "٣", "1e+-2", "00012.000e0001",
    ];
    for s in samples {
        assert_eq!(turun_map::number::parses_as_number(s), s.parse::<f64>().is_ok(), "{s:?}");
    }
}

#[test]
fn number_constraint_needs_text_that_reads_as_number() {
    let all: Vec<turun_map::emptyselection::EmptyTownSelection> = vec![];
    let out_of_step = turun_map::emptyconstraint::EmptyConstraint::new(
        turun_map::constraint::ConstraintType::TownPoints,
        turun_map::constraint::Comparator::LessThan,
        "abc".to_string(),
        Some(5f64.to_bits()),
    );
    assert!(!out_of_step.has_valid_input(&all));
    let ok = turun_map::emptyconstraint::EmptyConstraint::new(
        turun_map::constraint::ConstraintType::TownPoints,
        turun_map::constraint::Comparator::LessThan,
        "5".to_string(),
        Some(5f64.to_bits()),
    );
    assert!(ok.has_valid_input(&all));
}
