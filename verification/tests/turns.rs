use buck::colors::{black, orange, white, red, Color};
use buck::game::{Game, Messages};
use buck::map::{Grid, Tile};
use buck::object::{Ai, DeathCallback, Fighter, Object};
use buck::render::{draw_order, get_names_under_mouse, message_row, shade_tile};
use buck::turns::{
    ai_take_turn, handle_keys, is_blocked, move_by, move_towards, mut_two, player_move_or_attack,
    Key, KeyCode, PlayerAction,
};
use buck::world::{new_game, play_turn, take_enemy_turns};

/// A 7x7 room: walls on the outer ring, floor inside.
fn arena() -> Grid {
    let mut map = Vec::new();
    for x in 0..7 {
        let mut column = Vec::new();
        for y in 0..7 {
            if x == 0 || y == 0 || x == 6 || y == 6 {
                column.push(Tile::wall());
            } else {
                column.push(Tile::empty());
            }
        }
        map.push(column);
    }
    map
}

fn game() -> Game {
    Game { map: arena(), messages: Messages::new() }
}

fn hero(x: i32, y: i32) -> Object {
    let mut p = Object::new(x, y, 'B', black(), "Buck", true);
    p.fighter = Some(Fighter { max_hp: 30, hp: 30, defense: 2, power: 5, on_death: DeathCallback::Player });
    p.alive = true;
    p
}

fn grunt(x: i32, y: i32) -> Object {
    let mut g = Object::new(x, y, 'G', orange(), "Grunt", true);
    g.fighter = Some(Fighter { max_hp: 10, hp: 10, defense: 0, power: 3, on_death: DeathCallback::Enemy });
    g.ai = Some(Ai::Basic);
    g.alive = true;
    g
}

fn texts(game: &Game) -> Vec<String> {
    game.messages.iter().iter().map(|m| m.0.clone()).collect()
}

#[test]
fn blocked_by_wall_and_by_blocking_objects() {
    let map = arena();
    let mut remains = grunt(2, 2);
    remains.blocks = false;
    let objects = vec![hero(1, 1), remains];
    assert!(is_blocked(0, 3, &map, &objects));
    assert!(is_blocked(1, 1, &map, &objects));
    assert!(!is_blocked(2, 2, &map, &objects));
    assert!(!is_blocked(3, 3, &map, &objects));
}

#[test]
fn mut_two_gives_both_in_either_order() {
    let mut v = vec![10, 20, 30];
    {
        let (a, b) = mut_two(2, 0, &mut v);
        assert_eq!((*a, *b), (30, 10));
        *a = 3;
        *b = 1;
    }
    assert_eq!(v, vec![1, 20, 3]);
    let (a, b) = mut_two(0, 1, &mut v);
    std::mem::swap(a, b);
    assert_eq!(v, vec![20, 1, 3]);
}

#[test]
fn move_by_respects_walls() {
    let map = arena();
    let mut objects = vec![hero(1, 1)];
    move_by(0, -1, 0, &map, &mut objects);
    assert_eq!(objects[0].pos(), (1, 1));
    move_by(0, 1, 1, &map, &mut objects);
    assert_eq!(objects[0].pos(), (2, 2));
}

#[test]
fn move_towards_steps_straight_or_diagonal() {
    let map = arena();
    let mut objects = vec![hero(1, 1), grunt(5, 1)];
    move_towards(1, 1, 2, &map, &mut objects);
    assert_eq!(objects[1].pos(), (4, 1));
    let mut objects = vec![hero(1, 1), grunt(5, 5)];
    move_towards(1, 1, 1, &map, &mut objects);
    assert_eq!(objects[1].pos(), (4, 4));
    // dx = -4, dy = -1: |dx| is more than half the distance, |dy| is not.
    let mut objects = vec![hero(1, 4), grunt(5, 5)];
    move_towards(1, 1, 4, &map, &mut objects);
    assert_eq!(objects[1].pos(), (4, 5));
    // dx = -1, dy = -2: 3 * 1 < 4 so no horizontal step; 3 * 4 >= 1 so one step up.
    let mut objects = vec![hero(4, 3), grunt(5, 5)];
    move_towards(1, 4, 3, &map, &mut objects);
    assert_eq!(objects[1].pos(), (5, 4));
    // already there: no step
    let mut objects = vec![hero(4, 3), grunt(5, 5)];
    move_towards(1, 5, 5, &map, &mut objects);
    assert_eq!(objects[1].pos(), (5, 5));
}

#[test]
fn player_moves_or_attacks() {
    let mut g = game();
    let mut objects = vec![hero(2, 2), grunt(3, 2)];
    player_move_or_attack(0, 1, &mut g, &mut objects);
    assert_eq!(objects[0].pos(), (2, 3));
    player_move_or_attack(1, -1, &mut g, &mut objects);
    assert_eq!(objects[0].pos(), (2, 3));
    assert_eq!(objects[1].fighter.unwrap().hp, 5);
    assert_eq!(texts(&g), vec!["Buck attacks Grunt for 5 hit points."]);
}

#[test]
fn player_walks_over_remains() {
    let mut g = game();
    let mut remains = grunt(3, 2);
    remains.blocks = false;
    remains.fighter = None;
    let mut objects = vec![hero(2, 2), remains];
    player_move_or_attack(1, 0, &mut g, &mut objects);
    assert_eq!(objects[0].pos(), (3, 2));
    assert!(texts(&g).is_empty());
}

#[test]
fn enemy_out_of_view_waits() {
    let mut g = game();
    let mut objects = vec![hero(1, 1), grunt(5, 5)];
    ai_take_turn(1, false, &mut g, &mut objects);
    assert_eq!(objects[1].pos(), (5, 5));
    assert!(texts(&g).is_empty());
}

#[test]
fn enemy_in_view_approaches_then_attacks() {
    let mut g = game();
    let mut objects = vec![hero(1, 1), grunt(3, 3)];
    ai_take_turn(1, true, &mut g, &mut objects);
    assert_eq!(objects[1].pos(), (2, 2));
    ai_take_turn(1, true, &mut g, &mut objects);
    assert_eq!(objects[1].pos(), (2, 2));
    assert_eq!(objects[0].fighter.unwrap().hp, 29);
    assert_eq!(texts(&g), vec!["Grunt attacks Buck for 1 hit points."]);
}

#[test]
fn enemy_leaves_a_dead_player_alone() {
    let mut g = game();
    let mut p = hero(1, 1);
    p.fighter = Some(Fighter { max_hp: 30, hp: 0, defense: 2, power: 5, on_death: DeathCallback::Player });
    let mut objects = vec![p, grunt(2, 1)];
    ai_take_turn(1, true, &mut g, &mut objects);
    assert_eq!(objects[0].fighter.unwrap().hp, 0);
    assert!(texts(&g).is_empty());
}

#[test]
fn keys_map_to_actions() {
    let mut g = game();
    let mut objects = vec![hero(2, 2)];
    let mut fullscreen = false;
    let a = handle_keys(Key { code: KeyCode::Enter, alt: true }, &mut fullscreen, &mut g, &mut objects);
    assert_eq!(a, PlayerAction::DidntTakeTurn);
    assert!(fullscreen);
    let a = handle_keys(Key { code: KeyCode::Enter, alt: false }, &mut fullscreen, &mut g, &mut objects);
    assert_eq!(a, PlayerAction::DidntTakeTurn);
    assert!(fullscreen);
    let a = handle_keys(Key { code: KeyCode::Escape, alt: true }, &mut fullscreen, &mut g, &mut objects);
    assert_eq!(a, PlayerAction::Exit);
    let a = handle_keys(Key { code: KeyCode::Up, alt: false }, &mut fullscreen, &mut g, &mut objects);
    assert_eq!(a, PlayerAction::TookTurn);
    assert_eq!(objects[0].pos(), (2, 1));
    let a = handle_keys(Key { code: KeyCode::Up, alt: false }, &mut fullscreen, &mut g, &mut objects);
    assert_eq!(a, PlayerAction::TookTurn);
    assert_eq!(objects[0].pos(), (2, 1));
    let a = handle_keys(Key { code: KeyCode::Right, alt: false }, &mut fullscreen, &mut g, &mut objects);
    assert_eq!(a, PlayerAction::TookTurn);
    assert_eq!(objects[0].pos(), (3, 1));
    let a = handle_keys(Key { code: KeyCode::Other, alt: false }, &mut fullscreen, &mut g, &mut objects);
    assert_eq!(a, PlayerAction::DidntTakeTurn);
    objects[0].alive = false;
    let a = handle_keys(Key { code: KeyCode::Down, alt: false }, &mut fullscreen, &mut g, &mut objects);
    assert_eq!(a, PlayerAction::DidntTakeTurn);
    assert_eq!(objects[0].pos(), (3, 1));
}

#[test]
fn enemy_round_in_order() {
    let mut g = game();
    let mut objects = vec![hero(1, 1), grunt(2, 1), grunt(5, 5), grunt(5, 1)];
    take_enemy_turns(&vec![true, true, false, true], &mut g, &mut objects);
    assert_eq!(objects[2].pos(), (5, 5));
    assert_eq!(objects[3].pos(), (4, 1));
    assert_eq!(objects[0].fighter.unwrap().hp, 29);
    assert_eq!(texts(&g), vec!["Grunt attacks Buck for 1 hit points."]);
}

#[test]
fn new_game_is_kept_through_turns() {
    let (mut g, mut objects) = new_game();
    assert_eq!(objects[0].name, "Buck");
    assert_eq!(objects[0].char, 'B');
    assert!(objects[0].alive && objects[0].ai.is_none());
    assert_eq!(
        g.messages.iter().to_vec(),
        vec![("Explore the depths beneath the streets of New Mombasa.".to_string(), white())]
    );
    let mut fullscreen = false;
    let keys = [KeyCode::Up, KeyCode::Left, KeyCode::Down, KeyCode::Right, KeyCode::Up, KeyCode::Up];
    for round in 0..60 {
        let key = Key { code: keys[round % keys.len()], alt: false };
        handle_keys(key, &mut fullscreen, &mut g, &mut objects);
        let visible = vec![true; objects.len()];
        take_enemy_turns(&visible, &mut g, &mut objects);
        for o in &objects {
            assert!(o.x >= 1 && o.x <= 78 && o.y >= 1 && o.y <= 41);
        }
    }
}

#[test]
fn shading_marks_explored() {
    let mut map = arena();
    assert_eq!(shade_tile(&mut map, 2, 2, false), None);
    assert!(!map[2][2].explored);
    assert_eq!(shade_tile(&mut map, 2, 2, true), Some(Color { r: 202, g: 206, b: 162 }));
    assert!(map[2][2].explored);
    assert_eq!(shade_tile(&mut map, 2, 2, false), Some(Color { r: 60, g: 60, b: 60 }));
    assert_eq!(shade_tile(&mut map, 0, 0, true), Some(Color { r: 164, g: 168, b: 132 }));
    assert_eq!(shade_tile(&mut map, 0, 0, false), Some(Color { r: 40, g: 40, b: 40 }));
    assert!(!map[0][1].explored);
}

#[test]
fn draw_order_puts_blocking_last() {
    let mut remains = grunt(1, 1);
    remains.blocks = false;
    let objects = vec![hero(1, 1), remains, grunt(2, 2), Object::new(3, 3, '!', red(), "potion", false)];
    assert_eq!(draw_order(&objects, &vec![true, true, true, true]), vec![1, 3, 0, 2]);
    assert_eq!(draw_order(&objects, &vec![false, true, true, false]), vec![1, 2]);
}

#[test]
fn names_under_mouse_joined() {
    let mut remains = grunt(2, 2);
    remains.name = "Remains of Grunt".to_string();
    remains.blocks = false;
    let objects = vec![hero(1, 1), remains, grunt(2, 2), grunt(3, 2)];
    assert_eq!(get_names_under_mouse(2, 2, true, &objects), "Remains of Grunt, Grunt");
    assert_eq!(get_names_under_mouse(1, 1, true, &objects), "Buck");
    assert_eq!(get_names_under_mouse(2, 2, false, &objects), "");
    assert_eq!(get_names_under_mouse(4, 4, true, &objects), "");
}

#[test]
fn enemies_act_only_after_a_living_players_turn() {
    let mut objects = vec![hero(1, 1)];
    assert!(buck::turns::enemies_act(PlayerAction::TookTurn, &objects));
    assert!(!buck::turns::enemies_act(PlayerAction::DidntTakeTurn, &objects));
    objects[0].alive = false;
    assert!(!buck::turns::enemies_act(PlayerAction::TookTurn, &objects));
}

#[test]
fn enemy_out_of_view_far_away_does_nothing() {
    let mut g = game();
    let mut objects = vec![hero(1, 1), grunt(i32::MAX, i32::MIN)];
    ai_take_turn(1, false, &mut g, &mut objects);
    assert_eq!(objects[1].pos(), (i32::MAX, i32::MIN));
}

/// A far target: the step is still one square on each axis toward it.
#[test]
fn move_towards_far_target_steps_one_square() {
    let mut map = Vec::new();
    for _ in 0..3 {
        map.push(vec![Tile::empty(), Tile::empty(), Tile::empty()]);
    }
    let mut objects = vec![hero(0, 0), grunt(1, 1)];
    move_towards(1, 1000, 1000, &map, &mut objects);
    assert_eq!(objects[1].pos(), (2, 2));
    objects[1].set_pos(1, 1);
    move_towards(1, 30000, 1, &map, &mut objects);
    assert_eq!(objects[1].pos(), (2, 1));
    objects[1].set_pos(1, 1);
    move_towards(1, -20000, -100, &map, &mut objects);
    assert_eq!(objects[1].pos(), (0, 1));
}

#[test]
fn play_turn_moves_then_enemies_answer() {
    let mut g = game();
    let mut objects = vec![hero(1, 1), grunt(3, 1), grunt(5, 5)];
    let mut fullscreen = false;
    let action = play_turn(Key { code: KeyCode::Down, alt: false }, &mut fullscreen, &vec![true, true, false], &mut g, &mut objects);
    assert_eq!(action, PlayerAction::TookTurn);
    assert_eq!(objects[0].pos(), (1, 2));
    assert_eq!(objects[1].pos(), (2, 1));
    assert_eq!(objects[2].pos(), (5, 5));
    assert!(!fullscreen);
    assert!(texts(&g).is_empty());
}

#[test]
fn play_turn_without_a_turn_leaves_enemies_still() {
    let mut g = game();
    let mut objects = vec![hero(1, 1), grunt(3, 1)];
    let mut fullscreen = false;
    let visible = vec![true, true];
    let action = play_turn(Key { code: KeyCode::Enter, alt: true }, &mut fullscreen, &visible, &mut g, &mut objects);
    assert_eq!(action, PlayerAction::DidntTakeTurn);
    assert!(fullscreen);
    assert_eq!(objects[1].pos(), (3, 1));
    let action = play_turn(Key { code: KeyCode::Escape, alt: false }, &mut fullscreen, &visible, &mut g, &mut objects);
    assert_eq!(action, PlayerAction::Exit);
    assert_eq!(objects[1].pos(), (3, 1));
    let action = play_turn(Key { code: KeyCode::Other, alt: false }, &mut fullscreen, &visible, &mut g, &mut objects);
    assert_eq!(action, PlayerAction::DidntTakeTurn);
    assert_eq!(objects[1].pos(), (3, 1));
}

#[test]
fn play_turn_attack_then_counterattack() {
    let mut g = game();
    let mut objects = vec![hero(1, 1), grunt(2, 1)];
    let mut fullscreen = false;
    let action = play_turn(Key { code: KeyCode::Right, alt: false }, &mut fullscreen, &vec![true, true], &mut g, &mut objects);
    assert_eq!(action, PlayerAction::TookTurn);
    assert_eq!(objects[1].fighter.unwrap().hp, 5);
    assert_eq!(objects[0].fighter.unwrap().hp, 29);
    assert_eq!(
        texts(&g),
        vec!["Buck attacks Grunt for 5 hit points.", "Grunt attacks Buck for 1 hit points."]
    );
}

#[test]
fn message_rows_stop_above_the_top() {
    assert_eq!(message_row(6, 1), Some(5));
    assert_eq!(message_row(6, 6), Some(0));
    assert_eq!(message_row(2, 3), None);
    assert_eq!(message_row(0, 0), Some(0));
}
