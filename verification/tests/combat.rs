use buck::colors::{dark_red, red, white, yellow, black, orange};
use buck::game::{Game, Messages};
use buck::map::Tile;
use buck::object::{Ai, DeathCallback, Fighter, Object, enemy_death, player_death};

fn empty_game() -> Game {
    Game { map: vec![vec![Tile::empty(); 3]; 3], messages: Messages::new() }
}

fn fighter(hp: i32, defense: i32, power: i32, on_death: DeathCallback) -> Fighter {
    Fighter { max_hp: hp, hp, defense, power, on_death }
}

fn grunt(x: i32, y: i32) -> Object {
    let mut g = Object::new(x, y, 'G', orange(), "Grunt", true);
    g.fighter = Some(fighter(10, 0, 3, DeathCallback::Enemy));
    g.ai = Some(Ai::Basic);
    g.alive = true;
    g
}

fn hero() -> Object {
    let mut p = Object::new(1, 1, 'B', black(), "Buck", true);
    p.fighter = Some(fighter(30, 2, 5, DeathCallback::Player));
    p.alive = true;
    p
}

fn log(game: &Game) -> Vec<(String, buck::colors::Color)> {
    game.messages.iter().to_vec()
}

#[test]
fn new_object_fields() {
    let o = Object::new(3, 4, 'x', red(), "thing", false);
    assert_eq!((o.x, o.y, o.char, o.color, o.blocks, o.alive), (3, 4, 'x', red(), false, false));
    assert_eq!(o.name, "thing");
    assert!(o.fighter.is_none() && o.ai.is_none());
}

#[test]
fn pos_and_set_pos() {
    let mut o = Object::new(3, 4, 'x', red(), "thing", false);
    assert_eq!(o.pos(), (3, 4));
    o.set_pos(-7, 9);
    assert_eq!(o.pos(), (-7, 9));
    assert_eq!(o.name, "thing");
}

#[test]
fn messages_append_in_order() {
    let mut m = Messages::new();
    assert!(m.iter().is_empty());
    m.add("one".to_string(), red());
    m.add("two".to_string(), white());
    let all = m.iter();
    assert_eq!(all.len(), 2);
    assert_eq!(all[0], ("one".to_string(), red()));
    assert_eq!(all[1], ("two".to_string(), white()));
}

#[test]
fn positive_damage_lowers_hp() {
    let mut game = empty_game();
    let mut g = grunt(0, 0);
    g.take_damage(4, &mut game);
    assert_eq!(g.fighter.unwrap().hp, 6);
    assert!(g.alive);
    assert!(log(&game).is_empty());
}

#[test]
fn non_positive_damage_changes_nothing() {
    let mut game = empty_game();
    let mut g = grunt(0, 0);
    g.take_damage(0, &mut game);
    g.take_damage(-5, &mut game);
    assert_eq!(g.fighter.unwrap().hp, 10);
    assert!(log(&game).is_empty());
}

#[test]
fn damage_without_fighter_changes_nothing() {
    let mut game = empty_game();
    let mut o = Object::new(0, 0, 'x', red(), "rock", true);
    o.alive = true;
    o.take_damage(100, &mut game);
    assert!(o.alive && o.fighter.is_none() && o.blocks);
    assert!(log(&game).is_empty());
}

#[test]
fn enemy_dies_into_remains() {
    let mut game = empty_game();
    let mut g = grunt(2, 1);
    g.take_damage(10, &mut game);
    assert!(!g.alive);
    assert_eq!(g.char, '%');
    assert_eq!(g.color, dark_red());
    assert!(!g.blocks);
    assert!(g.fighter.is_none() && g.ai.is_none());
    assert_eq!(g.name, "Remains of Grunt");
    assert_eq!((g.x, g.y), (2, 1));
    assert_eq!(log(&game), vec![("Grunt is dead.".to_string(), yellow())]);
}

#[test]
fn player_dies_and_keeps_fighter() {
    let mut game = empty_game();
    let mut p = hero();
    p.take_damage(31, &mut game);
    assert!(!p.alive);
    assert_eq!(p.char, '%');
    assert_eq!(p.color, dark_red());
    assert!(p.blocks);
    assert_eq!(p.fighter.unwrap().hp, -1);
    assert_eq!(p.name, "Buck");
    assert_eq!(log(&game), vec![("You died.".to_string(), red())]);
}

#[test]
fn death_handlers_directly() {
    let mut game = empty_game();
    let mut p = hero();
    player_death(&mut p, &mut game);
    assert_eq!((p.char, p.color), ('%', dark_red()));
    let mut g = grunt(0, 0);
    enemy_death(&mut g, &mut game);
    assert_eq!(g.name, "Remains of Grunt");
    DeathCallback::Enemy.callback(&mut g, &mut game);
    assert_eq!(g.name, "Remains of Remains of Grunt");
    assert_eq!(log(&game).len(), 3);
    assert_eq!(log(&game)[2], ("Remains of Grunt is dead.".to_string(), yellow()));
}

#[test]
fn attack_message_carries_the_damage() {
    let mut game = empty_game();
    let mut p = hero();
    let mut g = grunt(2, 1);
    p.attack(&mut g, &mut game);
    assert_eq!(g.fighter.unwrap().hp, 5);
    assert_eq!(log(&game), vec![("Buck attacks Grunt for 5 hit points.".to_string(), white())]);
    p.attack(&mut g, &mut game);
    assert!(g.fighter.is_none());
    assert_eq!(
        log(&game)[1..].to_vec(),
        vec![
            ("Buck attacks Grunt for 5 hit points.".to_string(), white()),
            ("Grunt is dead.".to_string(), yellow()),
        ]
    );
    assert_eq!(p.fighter.unwrap().hp, 30);
}

#[test]
fn attack_with_large_damage_prints_all_digits() {
    let mut game = empty_game();
    let mut p = hero();
    p.fighter = Some(fighter(30, 2, 1234567, DeathCallback::Player));
    let mut g = grunt(2, 1);
    p.attack(&mut g, &mut game);
    assert_eq!(log(&game)[0].0, "Buck attacks Grunt for 1234567 hit points.");
}

#[test]
fn weak_attack_has_no_effect() {
    let mut game = empty_game();
    let mut g = grunt(2, 1);
    let mut p = hero();
    p.fighter = Some(fighter(30, 3, 5, DeathCallback::Player));
    g.attack(&mut p, &mut game);
    assert_eq!(p.fighter.unwrap().hp, 30);
    assert_eq!(log(&game), vec![("Grunt attacks Buck but it has no effect!".to_string(), white())]);
}

#[test]
fn attacker_without_fighter_deals_nothing() {
    let mut game = empty_game();
    let mut rock = Object::new(0, 0, 'r', red(), "Rock", true);
    let mut g = grunt(2, 1);
    rock.attack(&mut g, &mut game);
    assert_eq!(g.fighter.unwrap().hp, 10);
    assert_eq!(log(&game)[0].0, "Rock attacks Grunt but it has no effect!");
}
