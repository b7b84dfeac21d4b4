use std::cmp::Ordering;
use turun_map::constraint::{Comparator, Constraint, ConstraintType};
use turun_map::emptyconstraint::EmptyConstraint;
use turun_map::emptyselection::{Color, EmptyTownSelection, HiddenId};
use turun_map::presenter::{drop_down_request, filled_constraints, possible_ddv_selections_or, DropDownRequest};
use turun_map::references::ReferenceError;
use turun_map::selection::{dependents_to_refresh, AndOr, TownSelection};
use turun_map::town::Town;

fn number_of(value: &str) -> Option<u64> {
    value.parse::<f64>().ok().map(|f| f.to_bits())
}

fn constraint(ct: ConstraintType, cmp: Comparator, value: &str) -> EmptyConstraint {
    EmptyConstraint::new(ct, cmp, value.to_string(), number_of(value))
}

fn selection(name: &str, constraints: Vec<EmptyConstraint>) -> EmptyTownSelection {
    EmptyTownSelection {
        name: name.to_string(),
        hidden_id: HiddenId(format!("id-{name}")),
        constraints,
        constraint_join_mode: AndOr::And,
        color: Color { r: 1, g: 2, b: 3, a: 255 },
    }
}

fn refers(target: &str) -> EmptyConstraint {
    constraint(ConstraintType::PlayerName, Comparator::InSelection, target)
}

#[test]
fn directly_referenced_names_in_constraint_order() {
    let s = selection(
        "a",
        vec![
            refers("b"),
            constraint(ConstraintType::TownID, Comparator::Equal, "5"),
            constraint(ConstraintType::PlayerName, Comparator::NotInSelection, "c"),
        ],
    );
    assert_eq!(s.directly_referenced_selection_names(), vec!["b".to_string(), "c".to_string()]);
}

#[test]
fn directly_referenced_selections_in_list_order() {
    let all = vec![
        selection("c", vec![]),
        selection("x", vec![]),
        selection("b", vec![]),
        selection("b", vec![constraint(ConstraintType::TownID, Comparator::Equal, "1")]),
    ];
    let s = selection("a", vec![refers("b"), refers("c")]);
    let r = s.directly_referenced_selections(&all);
    let names: Vec<&str> = r.iter().map(|x| x.name.as_str()).collect();
    assert_eq!(names, vec!["c", "b", "b"]);
}

#[test]
fn no_cycle_in_a_chain() {
    let all = vec![selection("a", vec![refers("b")]), selection("b", vec![refers("c")]), selection("c", vec![])];
    assert!(!all[0].contains_circular_reference(&all));
}

#[test]
fn cycle_of_two_selections() {
    let all = vec![selection("a", vec![refers("b")]), selection("b", vec![refers("a")])];
    assert!(all[0].contains_circular_reference(&all));
    assert!(all[1].contains_circular_reference(&all));
}

#[test]
fn selection_referring_to_itself_is_a_cycle() {
    let all = vec![selection("a", vec![refers("a")])];
    assert!(all[0].contains_circular_reference(&all));
}

#[test]
fn cycle_further_down_is_found() {
    let all = vec![
        selection("a", vec![refers("b")]),
        selection("b", vec![refers("c")]),
        selection("c", vec![refers("b")]),
    ];
    assert!(all[0].contains_circular_reference(&all));
}

#[test]
fn diamond_is_not_a_cycle() {
    let all = vec![
        selection("a", vec![refers("b"), refers("c")]),
        selection("b", vec![refers("d")]),
        selection("c", vec![refers("d")]),
        selection("d", vec![]),
    ];
    assert!(!all[0].contains_circular_reference(&all));
}

#[test]
fn all_referenced_selections_sorted_by_name() {
    let all = vec![
        selection("a", vec![refers("c"), refers("b")]),
        selection("c", vec![refers("d")]),
        selection("b", vec![]),
        selection("d", vec![refers("missing")]),
        selection("e", vec![]),
    ];
    let r = all[0].all_referenced_selections(&all).unwrap();
    let names: Vec<&str> = r.iter().map(|x| x.name.as_str()).collect();
    assert_eq!(names, vec!["b", "c", "d"]);
}

#[test]
fn all_referenced_selections_use_the_first_of_a_name() {
    let all = vec![
        selection("a", vec![refers("b")]),
        selection("b", vec![constraint(ConstraintType::TownID, Comparator::Equal, "1")]),
        selection("b", vec![refers("c")]),
        selection("c", vec![]),
    ];
    let r = all[0].all_referenced_selections(&all).unwrap();
    assert_eq!(r.len(), 1);
    assert_eq!(r[0].constraints[0].value, "1");
    assert_eq!(r[0].hidden_id, HiddenId("id-b".to_string()));
}

#[test]
fn all_referenced_selections_fail_on_a_cycle() {
    let all = vec![selection("a", vec![refers("b")]), selection("b", vec![refers("a")])];
    assert!(matches!(all[0].all_referenced_selections(&all), Err(ReferenceError::CircularReference)));
}

#[test]
fn all_referenced_selections_of_a_plain_selection_are_none() {
    let all = vec![selection("a", vec![constraint(ConstraintType::TownID, Comparator::Equal, "3")])];
    assert_eq!(all[0].all_referenced_selections(&all).unwrap().len(), 0);
}

#[test]
fn dependents_direct_and_indirect() {
    let all = vec![
        selection("base", vec![]),
        selection("mid", vec![refers("base")]),
        selection("top", vec![refers("mid")]),
        selection("other", vec![]),
        selection("loop1", vec![refers("base"), refers("loop2")]),
        selection("loop2", vec![refers("loop1")]),
    ];
    let base = all[0].fill();
    let deps = base.get_dependents(&all);
    let names: Vec<&str> = deps.iter().map(|x| x.name.as_str()).collect();
    assert_eq!(names, vec!["mid", "top"]);
}

#[test]
fn dependents_listed_once() {
    let all = vec![selection("base", vec![]), selection("mid", vec![refers("base")]), selection("mid", vec![refers("base")])];
    let base = all[0].fill();
    assert_eq!(base.get_dependents(&all).len(), 1);
}

#[test]
fn fill_then_partial_clone_gives_the_selection_back() {
    let e = selection("a", vec![refers("b"), constraint(ConstraintType::TownPoints, Comparator::GreaterThan, "10")]);
    let t = e.fill();
    assert!(!t.collapsed);
    assert_eq!(t.towns.len(), 0);
    assert!(t.constraints.iter().all(|c| c.drop_down_values.is_none()));
    let back = t.partial_clone();
    assert_eq!(back.name, e.name);
    assert_eq!(back.hidden_id, e.hidden_id);
    assert_eq!(back.color, e.color);
    assert_eq!(back.constraint_join_mode, e.constraint_join_mode);
    assert_eq!(back.constraints, e.constraints);
}

#[test]
fn hidden_when_transparent() {
    let mut e = selection("a", vec![]);
    assert!(!e.is_hidden());
    e.color.a = 0;
    assert!(e.is_hidden());
    assert!(e.fill().is_hidden());
}

#[test]
fn default_selection_has_random_name() {
    let e = EmptyTownSelection::default();
    assert_eq!(e.name.chars().count(), 6);
    assert!(e.name.chars().all(|c| c.is_ascii_alphanumeric()));
    assert_eq!(e.hidden_id.0.chars().count(), 6);
    assert_eq!(e.constraints.len(), 1);
    assert_eq!(e.constraints[0].constraint_type, ConstraintType::PlayerName);
    assert_eq!(e.constraints[0].comparator, Comparator::Equal);
    assert_eq!(e.constraints[0].value, "");
    assert_eq!(e.constraint_join_mode, AndOr::And);
    assert_eq!(e.color, Color { r: 0, g: 255, b: 0, a: 255 });
    let t = TownSelection::default();
    assert_eq!(t.constraints.len(), 1);
}

#[test]
fn prepare_refresh_drops_lists_not_kept() {
    let all = vec![selection("a", vec![])];
    let mut t = selection("s", vec![constraint(ConstraintType::TownID, Comparator::Equal, "1"), constraint(ConstraintType::TownID, Comparator::Equal, "2")]).fill();
    for c in t.constraints.iter_mut() {
        c.drop_down_values = Some(std::sync::Arc::new(vec!["x".to_string()]));
    }
    let keep = vec![constraint(ConstraintType::TownID, Comparator::Equal, "2")];
    let e = t.prepare_refresh(&keep, &all).unwrap();
    assert_eq!(e.name, "s");
    assert!(t.constraints[0].drop_down_values.is_none());
    assert!(t.constraints[1].drop_down_values.is_some());
}

#[test]
fn prepare_refresh_fails_on_a_cycle_and_changes_nothing() {
    let all = vec![selection("s", vec![refers("s")])];
    let mut t = all[0].fill();
    t.constraints[0].drop_down_values = Some(std::sync::Arc::new(vec!["x".to_string()]));
    assert!(t.prepare_refresh(&[], &all).is_err());
    assert!(t.constraints[0].drop_down_values.is_some());
}

#[test]
fn selectable_names_leave_out_own_name_and_cycles() {
    let all = vec![
        selection("me", vec![refers("")]),
        selection("free", vec![]),
        selection("needs_me", vec![refers("me")]),
    ];
    let me = selection("me", vec![refers("")]);
    let c = refers("");
    let names = possible_ddv_selections_or(&c, &me, &all).unwrap();
    assert_eq!(names, vec!["free".to_string(), "needs_me".to_string()]);
    let plain = constraint(ConstraintType::TownID, Comparator::Equal, "1");
    assert!(possible_ddv_selections_or(&plain, &me, &all).is_none());
}

#[test]
fn drop_down_request_leaves_out_the_constraint_itself() {
    let s = selection(
        "s",
        vec![
            constraint(ConstraintType::TownID, Comparator::Equal, "1"),
            constraint(ConstraintType::TownID, Comparator::Equal, ""),
            constraint(ConstraintType::TownPoints, Comparator::Equal, "2"),
            constraint(ConstraintType::TownName, Comparator::Equal, "x"),
        ],
    );
    let filled = filled_constraints(&s);
    assert_eq!(filled.len(), 3);
    match drop_down_request(&s.constraints[0], &s, &[]) {
        DropDownRequest::Names(cs) => {
            let values: Vec<&str> = cs.iter().map(|c| c.value.as_str()).collect();
            assert_eq!(values, vec!["x", "2"]);
        }
        DropDownRequest::Selections(_) => panic!("expected names"),
    }
    match drop_down_request(&s.constraints[1], &s, &[]) {
        DropDownRequest::Names(cs) => assert_eq!(cs.len(), 3),
        DropDownRequest::Selections(_) => panic!("expected names"),
    }
}

#[test]
fn constraint_partial_clone_and_eq() {
    let e = constraint(ConstraintType::AllianceName, Comparator::NotEqual, "abc");
    let c: Constraint = e.fill();
    assert!(c.eq_empty(&e));
    assert_eq!(c.partial_clone(), e);
    assert_eq!(e.referenced_selection(), None);
    assert_eq!(refers("zz").referenced_selection(), Some("zz".to_string()));
}

#[test]
fn selections_ordered_by_name_join_then_constraints() {
    let a = selection("alpha", vec![constraint(ConstraintType::PlayerName, Comparator::Equal, "x")]);
    let b = selection("beta", vec![]);
    assert_eq!(a.order(&b), Ordering::Less);
    assert_eq!(b.order(&a), Ordering::Greater);
    assert_eq!(a.order(&a), Ordering::Equal);
    let mut a_or = selection("alpha", vec![constraint(ConstraintType::PlayerName, Comparator::Equal, "x")]);
    a_or.constraint_join_mode = AndOr::Or;
    assert_eq!(a.order(&a_or), Ordering::Less);
    // same name and join: the first pair of constraints that differs decides
    let by_type = selection("alpha", vec![constraint(ConstraintType::PlayerID, Comparator::Equal, "x")]);
    assert_eq!(by_type.order(&a), Ordering::Less);
    let by_comparator = selection("alpha", vec![constraint(ConstraintType::PlayerName, Comparator::NotEqual, "x")]);
    assert_eq!(by_comparator.order(&a), Ordering::Greater);
    let by_value = selection("alpha", vec![constraint(ConstraintType::PlayerName, Comparator::Equal, "w")]);
    assert_eq!(by_value.order(&a), Ordering::Less);
    // a list comes before every longer list that it starts
    let longer = selection(
        "alpha",
        vec![
            constraint(ConstraintType::PlayerName, Comparator::Equal, "x"),
            constraint(ConstraintType::TownName, Comparator::Equal, "y"),
        ],
    );
    assert_eq!(longer.order(&a), Ordering::Greater);
    assert_eq!(a.order(&longer), Ordering::Less);
    let c = constraint(ConstraintType::TownName, Comparator::Equal, "b");
    let d = constraint(ConstraintType::TownName, Comparator::Equal, "a");
    assert_eq!(c.order(&d), Ordering::Greater);
}

fn town(id: u32) -> Town {
    Town {
        id,
        player_id: None,
        player_name: None,
        alliance_name: None,
        name: format!("t{id}"),
        island_x: 1,
        island_y: 2,
        offset_x: 3,
        offset_y: 4,
        slot_number: 5,
        points: 6,
    }
}

#[test]
fn store_towns_keeps_what_was_fetched() {
    let mut t = selection("s", vec![]).fill();
    let fetched = std::sync::Arc::new(vec![town(7), town(9)]);
    assert!(t.store_towns(Ok(fetched.clone())).is_ok());
    assert_eq!(t.towns.iter().map(|x| x.id).collect::<Vec<u32>>(), vec![7, 9]);
    assert_eq!(t.store_towns(Err(ReferenceError::CircularReference)), Err(ReferenceError::CircularReference));
    assert_eq!(t.towns.len(), 2);
    assert_eq!(t.name, "s");
}

#[test]
fn dependents_to_refresh_follow_references_in_list_order() {
    let all = vec![
        selection("c", vec![refers("b")]),
        selection("a", vec![]),
        selection("b", vec![refers("a")]),
        selection("loop", vec![refers("loop"), refers("a")]),
        selection("other", vec![]),
    ];
    assert_eq!(dependents_to_refresh(&all, 1), vec![0, 2]);
    assert_eq!(dependents_to_refresh(&all, 2), vec![0]);
    assert_eq!(dependents_to_refresh(&all, 0), Vec::<usize>::new());
    assert_eq!(dependents_to_refresh(&all, 4), Vec::<usize>::new());
}

#[test]
fn text_constraint_with_empty_value_is_valid() {
    let all: Vec<EmptyTownSelection> = vec![];
    let c = constraint(ConstraintType::PlayerName, Comparator::Equal, "");
    assert!(c.has_valid_input(&all));
    let n = constraint(ConstraintType::PlayerPoints, Comparator::LessThan, "");
    assert!(!n.has_valid_input(&all));
}

fn owned(id: u32, owner: Option<&str>) -> Town {
    let mut t = town(id);
    t.player_name = owner.map(|o| o.to_string());
    t
}

#[test]
fn mailing_list_of_picked_owners_sorted_once_each() {
    let all = vec![owned(1, Some("timbrick")), owned(2, Some("adamb")), owned(3, Some("bobbydonut")), owned(4, Some("adamb")), owned(5, Some("zed"))];
    let ghosts = vec![owned(6, None), owned(7, Some("lawnjittle"))];
    let picked: std::collections::HashSet<u32> = [1, 2, 3, 4, 6, 7].into_iter().collect();
    assert_eq!(turun_map::mailing::mailing_list(&all, &ghosts, &picked), "adamb; bobbydonut; lawnjittle; timbrick");
    let none: std::collections::HashSet<u32> = [6].into_iter().collect();
    assert_eq!(turun_map::mailing::mailing_list(&all, &ghosts, &none), "");
    let upper = vec![owned(1, Some("b")), owned(2, Some("B")), owned(3, Some("a"))];
    let all_picked: std::collections::HashSet<u32> = [1, 2, 3].into_iter().collect();
    assert_eq!(turun_map::mailing::mailing_list(&upper, &[], &all_picked), "B; a; b");
}

#[test]
fn import_adds_only_selections_not_there_yet() {
    let mut list = vec![selection("a", vec![refers("x")]).fill()];
    let mut other_color = selection("a", vec![refers("x")]);
    other_color.color = Color { r: 9, g: 9, b: 9, a: 9 };
    let imported = vec![
        other_color,
        selection("b", vec![]),
        selection("a", vec![refers("y")]),
        selection("b", vec![]),
    ];
    turun_map::selection::import_selections(&mut list, &imported);
    let names: Vec<&str> = list.iter().map(|s| s.name.as_str()).collect();
    assert_eq!(names, vec!["a", "b", "a"]);
    assert_eq!(list[0].color, Color { r: 1, g: 2, b: 3, a: 255 });
    assert_eq!(list[2].constraints[0].value, "y");
    assert!(list[1].towns.is_empty());
}

#[test]
fn import_takes_color_from_first_of_equal_selections() {
    let mut list: Vec<TownSelection> = vec![];
    let mut red = selection("a", vec![]);
    red.color = Color { r: 255, g: 0, b: 0, a: 255 };
    red.hidden_id = HiddenId("red".to_string());
    let mut blue = selection("a", vec![]);
    blue.color = Color { r: 0, g: 0, b: 255, a: 255 };
    blue.hidden_id = HiddenId("blue".to_string());
    turun_map::selection::import_selections(&mut list, &[red, blue]);
    assert_eq!(list.len(), 1);
    assert_eq!(list[0].color, Color { r: 255, g: 0, b: 0, a: 255 });
    assert_eq!(list[0].hidden_id, HiddenId("red".to_string()));
    assert!(!list[0].collapsed);
}
