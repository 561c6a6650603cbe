use buck::colors::{azure, orange};
use buck::dungeon::{make_map, monster_draws, monster_roll_ranges, place_objects, MAP_HEIGHT, MAP_WIDTH};
use buck::map::{create_h_tunnel, create_room, create_v_tunnel, Grid, Tile};
use buck::object::Object;
use buck::rect::Rect;

fn walls(width: usize, height: usize) -> Grid {
    let mut map = Vec::new();
    for _ in 0..width {
        let mut column = Vec::new();
        for _ in 0..height {
            column.push(Tile::wall());
        }
        map.push(column);
    }
    map
}

fn is_floor(t: &Tile) -> bool {
    !t.blocked && !t.block_sight && !t.explored
}

fn is_wall(t: &Tile) -> bool {
    t.blocked && t.block_sight && !t.explored
}

#[test]
fn tile_constructors() {
    let e = Tile::empty();
    assert!(is_floor(&e));
    let w = Tile::wall();
    assert!(is_wall(&w));
}

#[test]
fn rect_new_and_centre() {
    let r = Rect::new(2, 3, 6, 7);
    assert_eq!((r.x1, r.y1, r.x2, r.y2), (2, 3, 8, 10));
    assert_eq!(r.centre(), (5, 6));
    let odd = Rect::new(0, 0, 7, 9);
    assert_eq!(odd.centre(), (3, 4));
}

#[test]
fn rect_centre_rounds_toward_zero() {
    let r = Rect::new(-3, -5, 3, 5);
    assert_eq!(r.centre(), (-1, -2));
}

#[test]
fn rect_intersections() {
    let a = Rect::new(0, 0, 5, 5);
    let touching = Rect::new(5, 0, 5, 5);
    let apart = Rect::new(6, 0, 5, 5);
    let below = Rect::new(0, 6, 5, 5);
    assert!(a.intersects_with(&touching));
    assert!(touching.intersects_with(&a));
    assert!(!a.intersects_with(&apart));
    assert!(!apart.intersects_with(&a));
    assert!(!a.intersects_with(&below));
    assert!(a.intersects_with(&a));
}

#[test]
fn room_carves_only_its_inside() {
    let mut map = walls(10, 8);
    let room = Rect::new(1, 1, 4, 3);
    create_room(room, &mut map);
    for x in 0..10 {
        for y in 0..8 {
            let inside = x > 1 && x < 5 && y > 1 && y < 4;
            assert_eq!(is_floor(&map[x][y]), inside, "tile {} {}", x, y);
            assert_eq!(is_wall(&map[x][y]), !inside, "tile {} {}", x, y);
        }
    }
}

#[test]
fn degenerate_room_carves_nothing() {
    let mut map = walls(4, 4);
    create_room(Rect::new(1, 1, 1, 1), &mut map);
    assert!(map.iter().all(|c| c.iter().all(is_wall)));
}

#[test]
fn tunnels_in_either_direction() {
    let mut map = walls(10, 10);
    create_h_tunnel(7, 2, 4, &mut map);
    create_v_tunnel(8, 5, 3, &mut map);
    for x in 0..10 {
        for y in 0..10 {
            let carved = (y == 4 && (2..=7).contains(&x)) || (x == 3 && (5..=8).contains(&y));
            assert_eq!(is_floor(&map[x][y]), carved, "tile {} {}", x, y);
        }
    }
}

#[test]
fn single_square_tunnel() {
    let mut map = walls(5, 5);
    create_v_tunnel(2, 2, 2, &mut map);
    let floors: usize = map.iter().map(|c| c.iter().filter(|t| is_floor(t)).count()).sum();
    assert_eq!(floors, 1);
    assert!(is_floor(&map[2][2]));
}

#[test]
fn placed_monsters_stay_in_room_and_apart() {
    for _ in 0..50 {
        let mut map = walls(20, 20);
        let room = Rect::new(2, 2, 4, 4);
        create_room(room, &mut map);
        let mut objects = vec![Object::new(4, 4, '@', orange(), "Blocker", true)];
        place_objects(room, &map, &mut objects);
        assert!(objects.len() <= 4);
        assert_eq!(objects[0].name, "Blocker");
        for i in 1..objects.len() {
            let m = &objects[i];
            assert!(m.x > 2 && m.x < 6 && m.y > 2 && m.y < 6);
            assert!(!(m.x == 4 && m.y == 4));
            assert!(m.alive && m.blocks);
            let f = m.fighter.unwrap();
            if m.char == 'G' {
                assert_eq!(m.name, "Grunt");
                assert_eq!(m.color, orange());
                assert_eq!((f.max_hp, f.hp, f.defense, f.power), (10, 10, 0, 3));
            } else {
                assert_eq!(m.char, 'E');
                assert_eq!(m.name, "Arbiter");
                assert_eq!(m.color, azure());
                assert_eq!((f.max_hp, f.hp, f.defense, f.power), (16, 16, 1, 4));
            }
            for j in 1..i {
                assert!(!(objects[j].x == m.x && objects[j].y == m.y));
            }
        }
    }
}

#[test]
fn generated_dungeon_is_walled_and_player_on_floor() {
    for _ in 0..20 {
        let mut objects = vec![Object::new(0, 0, '@', orange(), "Hero", true)];
        let map = make_map(&mut objects);
        assert_eq!(map.len(), MAP_WIDTH as usize);
        for column in &map {
            assert_eq!(column.len(), MAP_HEIGHT as usize);
            for t in column {
                assert!(is_wall(t) || is_floor(t));
            }
        }
        for x in 0..MAP_WIDTH as usize {
            assert!(is_wall(&map[x][0]));
            assert!(is_wall(&map[x][MAP_HEIGHT as usize - 1]));
        }
        for y in 0..MAP_HEIGHT as usize {
            assert!(is_wall(&map[0][y]));
            assert!(is_wall(&map[MAP_WIDTH as usize - 1][y]));
        }
        let p = &objects[0];
        assert_eq!(p.name, "Hero");
        assert!(is_floor(&map[p.x as usize][p.y as usize]));
        for i in 1..objects.len() {
            let m = &objects[i];
            assert!(is_floor(&map[m.x as usize][m.y as usize]));
            for j in 1..i {
                assert!(!(objects[j].x == m.x && objects[j].y == m.y));
            }
        }
    }
}

#[test]
fn every_floor_tile_is_reachable_from_the_player() {
    for _ in 0..20 {
        let mut objects = vec![Object::new(0, 0, '@', orange(), "Hero", true)];
        let map = make_map(&mut objects);
        let (w, h) = (MAP_WIDTH as usize, MAP_HEIGHT as usize);
        let mut seen = vec![vec![false; h]; w];
        let start = (objects[0].x as usize, objects[0].y as usize);
        let mut stack = vec![start];
        seen[start.0][start.1] = true;
        while let Some((x, y)) = stack.pop() {
            let steps = [(x + 1, y), (x - 1, y), (x, y + 1), (x, y - 1)];
            for &(nx, ny) in &steps {
                if nx < w && ny < h && !map[nx][ny].blocked && !seen[nx][ny] {
                    seen[nx][ny] = true;
                    stack.push((nx, ny));
                }
            }
        }
        for x in 0..w {
            for y in 0..h {
                assert_eq!(!map[x][y].blocked, seen[x][y], "tile {} {}", x, y);
            }
        }
    }
}


fn draw(room: Rect, horizontal_first: bool, monsters: Vec<(i32, i32, bool)>) -> buck::dungeon::RoomDraw {
    buck::dungeon::RoomDraw { room, horizontal_first, monsters }
}

#[test]
fn monsters_follow_their_draws() {
    let mut map = walls(12, 12);
    let room = Rect::new(1, 1, 6, 6);
    create_room(room, &mut map);
    let mut objects = vec![Object::new(3, 3, '@', orange(), "Blocker", true)];
    let draws = vec![(2, 2, true), (3, 3, true), (2, 2, false), (4, 5, false), (5, 5, true)];
    buck::dungeon::place_monsters(room, &map, &mut objects, &draws);
    let placed: Vec<(i32, i32, char)> = objects[1..].iter().map(|o| (o.x, o.y, o.char)).collect();
    assert_eq!(placed, vec![(2, 2, 'G'), (4, 5, 'E'), (5, 5, 'G')]);
    assert_eq!(objects[2].name, "Arbiter");
    assert_eq!(objects[2].fighter.unwrap().hp, 16);
}

#[test]
fn built_dungeon_keeps_only_rooms_that_meet_nothing() {
    let plan = vec![
        draw(Rect::new(1, 1, 6, 6), false, vec![(2, 2, true), (2, 2, false)]),
        draw(Rect::new(5, 5, 6, 6), true, vec![(8, 8, true)]),
        draw(Rect::new(20, 10, 8, 6), true, vec![(21, 11, false)]),
    ];
    let mut objects = vec![Object::new(0, 0, '@', orange(), "Hero", true)];
    let map = buck::dungeon::build_dungeon(&mut objects, &plan);
    assert_eq!(objects[0].pos(), (4, 4));
    let monsters: Vec<(i32, i32, char)> = objects[1..].iter().map(|o| (o.x, o.y, o.char)).collect();
    assert_eq!(monsters, vec![(2, 2, 'G'), (21, 11, 'E')]);
    for x in 0..MAP_WIDTH as usize {
        for y in 0..MAP_HEIGHT as usize {
            let (xi, yi) = (x as i32, y as i32);
            let room_a = xi > 1 && xi < 7 && yi > 1 && yi < 7;
            let room_c = xi > 20 && xi < 28 && yi > 10 && yi < 16;
            let leg_h = yi == 4 && (4..=24).contains(&xi);
            let leg_v = xi == 24 && (4..=13).contains(&yi);
            assert_eq!(is_floor(&map[x][y]), room_a || room_c || leg_h || leg_v, "tile {} {}", x, y);
        }
    }
}

#[test]
fn vertical_first_tunnel_turns_at_the_other_corner() {
    let plan = vec![
        draw(Rect::new(1, 1, 6, 6), true, vec![]),
        draw(Rect::new(20, 10, 8, 6), false, vec![]),
    ];
    let mut objects = vec![Object::new(0, 0, '@', orange(), "Hero", true)];
    let map = buck::dungeon::build_dungeon(&mut objects, &plan);
    assert!(is_floor(&map[4][10]));
    assert!(is_floor(&map[15][13]));
    assert!(!is_floor(&map[15][4]));
    assert!(!is_floor(&map[24][8]));
}

#[test]
fn monster_rolls_for_a_room() {
    let ranges = monster_roll_ranges(Rect::new(10, 5, 6, 8));
    assert_eq!(ranges.count, (0, 4));
    assert_eq!(ranges.x, (11, 16));
    assert_eq!(ranges.y, (6, 13));
    assert_eq!(ranges.kind, (0, 5));
}

#[test]
fn kind_rolls_below_four_make_grunts() {
    let rolls = vec![(11, 6, 0), (12, 7, 3), (13, 8, 4)];
    assert_eq!(monster_draws(&rolls), vec![(11, 6, true), (12, 7, true), (13, 8, false)]);
    assert_eq!(monster_draws(&Vec::new()), Vec::<(i32, i32, bool)>::new());
}
