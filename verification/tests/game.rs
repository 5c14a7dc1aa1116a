use mailnewsletter::camera::{Camera, Point};
use mailnewsletter::systems::combat::{combat, find_combatant, Attack, Combatant};
use mailnewsletter::systems::tooltips::{label_for, push_decimal, tooltips, Labelled, Tooltip};
use mailnewsletter::turn_state::TurnState;

fn camera() -> Camera {
    Camera { left_x: 10, right_x: 50, top_y: 20, bottom_y: 45 }
}

fn named(x: i32, y: i32, name: &str, health: Option<i32>) -> Labelled {
    Labelled { position: Point { x, y }, name: String::from(name), health }
}

#[test]
fn tooltips_label_the_entities_under_the_mouse() {
    let entities = vec![
        named(13, 24, "Goblin", Some(3)),
        named(13, 25, "Orc", Some(5)),
        named(13, 24, "Amulet of Yala", None),
        named(3, 4, "Ettin", Some(9)),
    ];
    let tips = tooltips(&entities, &Point { x: 3, y: 4 }, &camera());
    assert_eq!(
        tips,
        vec![
            Tooltip { position: Point { x: 12, y: 16 }, text: String::from("Goblin : 3 hp") },
            Tooltip { position: Point { x: 12, y: 16 }, text: String::from("Amulet of Yala") },
        ]
    );
}

#[test]
fn tooltips_are_empty_when_nothing_is_hovered() {
    let entities = vec![named(13, 24, "Goblin", Some(3))];
    assert_eq!(tooltips(&entities, &Point { x: 0, y: 0 }, &camera()), Vec::new());
    assert_eq!(tooltips(&Vec::new(), &Point { x: 3, y: 4 }, &camera()), Vec::new());
}

#[test]
fn tooltips_compare_positions_without_overflow() {
    let far = Camera { left_x: i32::MAX, right_x: 0, top_y: i32::MAX, bottom_y: 0 };
    let entities = vec![named(i32::MIN, i32::MIN, "Ghost", None), named(i32::MAX, i32::MAX, "Rat", Some(1))];
    assert_eq!(tooltips(&entities, &Point { x: 1, y: 1 }, &far), Vec::new());
    let tips = tooltips(&entities, &Point { x: 0, y: 0 }, &far);
    assert_eq!(tips, vec![Tooltip { position: Point { x: 0, y: 0 }, text: String::from("Rat : 1 hp") }]);
}

#[test]
fn labels_show_hit_points_in_decimal() {
    let name = String::from("Player");
    assert_eq!(label_for(&name, Some(20)), "Player : 20 hp");
    assert_eq!(label_for(&name, Some(0)), "Player : 0 hp");
    assert_eq!(label_for(&name, Some(-1)), "Player : -1 hp");
    assert_eq!(label_for(&name, Some(1000)), "Player : 1000 hp");
    assert_eq!(label_for(&name, Some(i32::MAX)), "Player : 2147483647 hp");
    assert_eq!(label_for(&name, Some(i32::MIN)), "Player : -2147483648 hp");
    assert_eq!(label_for(&name, None), "Player");
    assert_eq!(label_for(&String::new(), Some(7)), " : 7 hp");
}

#[test]
fn push_decimal_agrees_with_the_standard_formatting() {
    for n in [0, 1, 9, 10, 11, 99, 100, 101, 12345, -1, -9, -10, -100, 907, i32::MAX, i32::MIN, i32::MIN + 1] {
        let mut out = String::from("n=");
        push_decimal(&mut out, n);
        assert_eq!(out, format!("n={}", n));
    }
}

fn monster(entity: u64, health: i32) -> Combatant {
    Combatant { entity, health: Some(health), is_player: false }
}

#[test]
fn combat_wounds_the_victim_and_consumes_the_message() {
    let mut world = vec![Combatant { entity: 1, health: Some(20), is_player: true }, monster(2, 2)];
    let commands = combat(&mut world, &vec![Attack { message: 100, victim: 2 }]);
    assert_eq!(commands, vec![100]);
    assert_eq!(world, vec![Combatant { entity: 1, health: Some(20), is_player: true }, monster(2, 1)]);
}

#[test]
fn combat_removes_a_slain_monster_before_the_message() {
    let mut world = vec![monster(2, 1), monster(3, 1)];
    let commands = combat(&mut world, &vec![Attack { message: 100, victim: 3 }]);
    assert_eq!(commands, vec![3, 100]);
    assert_eq!(world, vec![monster(2, 1), monster(3, 0)]);
}

#[test]
fn combat_never_removes_the_player() {
    let mut world = vec![Combatant { entity: 1, health: Some(1), is_player: true }];
    let attacks = vec![Attack { message: 100, victim: 1 }, Attack { message: 101, victim: 1 }];
    let commands = combat(&mut world, &attacks);
    assert_eq!(commands, vec![100, 101]);
    assert_eq!(world[0].health, Some(-1));
}

#[test]
fn combat_leaves_victims_without_hit_points_alone() {
    let mut world = vec![Combatant { entity: 5, health: None, is_player: false }];
    let commands = combat(&mut world, &vec![Attack { message: 100, victim: 5 }]);
    assert_eq!(commands, vec![100]);
    assert_eq!(world[0].health, None);
}

#[test]
fn combat_lands_every_attack_in_order() {
    let mut world = vec![monster(2, 2), monster(3, 5)];
    let attacks = vec![
        Attack { message: 100, victim: 2 },
        Attack { message: 101, victim: 3 },
        Attack { message: 102, victim: 2 },
        Attack { message: 103, victim: 2 },
    ];
    let commands = combat(&mut world, &attacks);
    // The monster is slain by the second blow; the third still lands, since
    // removals are only carried out afterwards.
    assert_eq!(commands, vec![100, 101, 2, 102, 2, 103]);
    assert_eq!(world, vec![monster(2, -1), monster(3, 4)]);
    assert_eq!(combat(&mut world, &Vec::new()), Vec::new());
}

#[test]
fn combat_stops_counting_at_the_smallest_health() {
    let mut world = vec![monster(2, i32::MIN)];
    let commands = combat(&mut world, &vec![Attack { message: 100, victim: 2 }]);
    assert_eq!(commands, vec![2, 100]);
    assert_eq!(world[0].health, Some(i32::MIN));
}

#[test]
fn find_combatant_returns_the_first_match() {
    let world = vec![monster(4, 1), monster(7, 1), monster(4, 9)];
    assert_eq!(find_combatant(&world, 4), Some(0));
    assert_eq!(find_combatant(&world, 7), Some(1));
    assert_eq!(find_combatant(&world, 8), None);
    assert_eq!(find_combatant(&Vec::new(), 4), None);
}

#[test]
fn turn_states_are_told_apart() {
    assert_eq!(TurnState::AwaitingInput, TurnState::AwaitingInput);
    assert_ne!(TurnState::AwaitingInput, TurnState::PlayerTurn);
    assert_ne!(TurnState::PlayerTurn, TurnState::MonsterTurn);
    let copy = TurnState::MonsterTurn;
    assert_eq!(format!("{:?}", copy), "MonsterTurn");
}
