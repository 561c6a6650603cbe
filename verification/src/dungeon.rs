use vstd::prelude::*;
use rand::Rng;
use crate::colors::{azure, orange};
use crate::map::{Grid, Tile, carved, create_h_tunnel, create_room, create_v_tunnel, floor_tile, in_map, in_room_floor, max_int, min_int, tile_at, wall_tile};
use crate::object::{Ai, DeathCallback, Fighter, Object};
use crate::rect::Rect;
use crate::reach::{all_open_reachable, lemma_first_room_connected, lemma_joined_room_connected, on_segment, open_at};
use crate::turns::{PLAYER, blocked_at, is_blocked, occupied, placed};

verus! {

/// Width of the dungeon in tiles.
pub const MAP_WIDTH: i32 = 80;

/// Height of the dungeon in tiles.
pub const MAP_HEIGHT: i32 = 43;

/// Largest side of a room, walls included.
pub const ROOM_MAX_SIZE: i32 = 10;

/// Smallest side of a room, walls included.
pub const ROOM_MIN_SIZE: i32 = 6;

/// How many rooms the generator tries to place.
pub const MAX_ROOMS: i32 = 30;

/// Most monsters placed in one room.
pub const MAX_ROOM_MONSTERS: i32 = 3;

/// A uniformly random integer in `[low, high)`: rand's `thread_rng().gen_range(low, high)`.
/// The contract claims only the range that rand documents (it panics when `low >= high`, which
/// `requires` excludes); nothing is claimed of which value comes. rand also panics if the
/// system's entropy source fails when the thread's generator is first seeded.
#[verifier::external_body]
fn random_in(low: i32, high: i32) -> (r: i32)
    requires
        low < high,
    ensures
        low <= r < high,
{
    rand::thread_rng().gen_range(low, high)
}

/// A random boolean: rand's `random::<bool>()`. Nothing is claimed of the value.
#[verifier::external_body]
fn random_bool() -> bool {
    rand::random::<bool>()
}

/// A grunt: the common monster.
pub open spec fn is_grunt(o: Object) -> bool {
    &&& o.char == 'G'
    &&& o.color == orange()
    &&& o.name@ == "Grunt"@
    &&& o.fighter == Some(
        Fighter { max_hp: 10, hp: 10, defense: 0, power: 3, on_death: DeathCallback::Enemy },
    )
}

/// An arbiter: the rarer, stronger monster.
pub open spec fn is_elite(o: Object) -> bool {
    &&& o.char == 'E'
    &&& o.color == azure()
    &&& o.name@ == "Arbiter"@
    &&& o.fighter == Some(
        Fighter { max_hp: 16, hp: 16, defense: 1, power: 4, on_death: DeathCallback::Enemy },
    )
}

/// A freshly placed monster: a grunt or an arbiter, alive, blocking, with the basic behaviour.
pub open spec fn is_new_monster(o: Object) -> bool {
    &&& is_grunt(o) || is_elite(o)
    &&& o.blocks
    &&& o.alive
    &&& o.ai == Some(Ai::Basic)
}

/// Whether `objects` keeps `before` as its prefix and adds at most `limit` monsters, each on
/// the floor of `room` at a square that neither the map nor an earlier blocking object blocked.
pub open spec fn monsters_added(
    map: Seq<Vec<Tile>>,
    room: Rect,
    before: Seq<Object>,
    objects: Seq<Object>,
    limit: int,
) -> bool {
    &&& before.len() <= objects.len() <= before.len() + limit
    &&& objects.subrange(0, before.len() as int) == before
    &&& forall|i: int|
        before.len() <= i < objects.len() ==> {
            &&& is_new_monster(#[trigger] objects[i])
            &&& in_room_floor(room, objects[i].x as int, objects[i].y as int)
            &&& !blocked_at(map, objects.subrange(0, i), objects[i].x as int, objects[i].y as int)
        }
}

/// A monster as a draw `(x, y, grunt)` makes it: standing at `(x, y)`, a grunt when the flag
/// is set and an arbiter otherwise.
pub open spec fn made_from_draw(o: Object, draw: (i32, i32, bool)) -> bool {
    &&& o.x == draw.0
    &&& o.y == draw.1
    &&& if draw.2 { is_grunt(o) } else { is_elite(o) }
    &&& o.blocks
    &&& o.alive
    &&& o.ai == Some(Ai::Basic)
}

/// What one draw does: when its square is not blocked, the monster it makes is appended;
/// otherwise nothing happens (the draw is dropped, not retried).
pub open spec fn draw_placed(
    map: Seq<Vec<Tile>>,
    before: Seq<Object>,
    after: Seq<Object>,
    draw: (i32, i32, bool),
) -> bool {
    if blocked_at(map, before, draw.0 as int, draw.1 as int) {
        after == before
    } else {
        &&& after.len() == before.len() + 1
        &&& after.subrange(0, before.len() as int) == before
        &&& made_from_draw(after.last(), draw)
    }
}

/// `states` goes through the draws one by one, in order.
pub open spec fn draws_placed_through(
    map: Seq<Vec<Tile>>,
    draws: Seq<(i32, i32, bool)>,
    states: Seq<Seq<Object>>,
) -> bool {
    &&& states.len() == draws.len() + 1
    &&& forall|k: int| 0 <= k < draws.len() ==> draw_placed(map, #[trigger] states[k], states[k + 1], draws[k])
}

/// `after` is what the draws, in order, make of `before`.
pub open spec fn draws_placed(
    map: Seq<Vec<Tile>>,
    draws: Seq<(i32, i32, bool)>,
    before: Seq<Object>,
    after: Seq<Object>,
) -> bool {
    exists|states: Seq<Seq<Object>>|
        #[trigger] draws_placed_through(map, draws, states) && states[0] == before && states.last() == after
}

/// Places one monster per draw `(x, y, grunt)`, in order, on the floor of `room`: a grunt when
/// the flag is set and an arbiter otherwise; a draw whose square is blocked at that moment,
/// by the map or by a blocking object, places nothing.
pub fn place_monsters(room: Rect, map: &Grid, objects: &mut Vec<Object>, draws: &Vec<(i32, i32, bool)>)
    requires
        forall|x: int, y: int| in_room_floor(room, x, y) ==> in_map(map@, x, y),
        forall|k: int| 0 <= k < draws@.len() ==> in_room_floor(room, #[trigger] draws@[k].0 as int, draws@[k].1 as int),
    ensures
        draws_placed(map@, draws@, old(objects)@, final(objects)@),
        monsters_added(map@, room, old(objects)@, final(objects)@, draws@.len() as int),
{
    let ghost before = objects@;
    let ghost mut states: Seq<Seq<Object>> = seq![objects@];
    let mut n: usize = 0;
    assert(objects@.subrange(0, before.len() as int) =~= before);
    while n < draws.len()
        invariant
            0 <= n <= draws@.len(),
            forall|x: int, y: int| in_room_floor(room, x, y) ==> in_map(map@, x, y),
            forall|k: int| 0 <= k < draws@.len() ==> in_room_floor(room, #[trigger] draws@[k].0 as int, draws@[k].1 as int),
            monsters_added(map@, room, before, objects@, n as int),
            states.len() == n + 1,
            states[0] == before,
            states[n as int] == objects@,
            forall|k: int| 0 <= k < n ==> draw_placed(map@, #[trigger] states[k], states[k + 1], draws@[k]),
        decreases draws@.len() - n,
    {
        let (x, y, grunt) = draws[n];
        assert(in_room_floor(room, draws@[n as int].0 as int, draws@[n as int].1 as int));
        let ghost prior = objects@;
        if !is_blocked(x, y, map, objects.as_slice()) {
            let mut monster = if grunt {
                let mut grunt = Object::new(x, y, 'G', orange(), "Grunt", true);
                grunt.fighter = Some(
                    Fighter { max_hp: 10, hp: 10, defense: 0, power: 3, on_death: DeathCallback::Enemy },
                );
                grunt.ai = Some(Ai::Basic);
                grunt
            } else {
                let mut arbiter = Object::new(x, y, 'E', azure(), "Arbiter", true);
                arbiter.fighter = Some(
                    Fighter { max_hp: 16, hp: 16, defense: 1, power: 4, on_death: DeathCallback::Enemy },
                );
                arbiter.ai = Some(Ai::Basic);
                arbiter
            };
            monster.alive = true;
            objects.push(monster);
            assert(objects@.subrange(0, prior.len() as int) =~= prior);
            assert(objects@.subrange(0, before.len() as int) =~= before);
            assert forall|i: int| before.len() <= i < prior.len() implies objects@.subrange(0, i) == prior.subrange(0, i) by {
                assert(objects@.subrange(0, i) =~= prior.subrange(0, i));
            }
        }
        proof {
            assert(draw_placed(map@, prior, objects@, draws@[n as int]));
            states = states.push(objects@);
            assert(states[n as int] == prior);
        }
        n = n + 1;
    }
    assert(draws_placed_through(map@, draws@, states));
}

/// How many sides the die for a monster's kind has.
pub const KIND_SIDES: i32 = 5;

/// How many sides of the kind die make a grunt: four in five.
pub const GRUNT_SIDES: i32 = 4;

/// The ranges, each from its first bound up to but not including its second, of the rolls
/// that make a room's monsters: how many, and for each its column, its row and its kind.
#[derive(Clone, Copy, Debug)]
pub struct MonsterRollRanges {
    pub count: (i32, i32),
    pub x: (i32, i32),
    pub y: (i32, i32),
    pub kind: (i32, i32),
}

/// The roll ranges for the monsters of `room`: up to `MAX_ROOM_MONSTERS` of them, each on the
/// room's floor, and a kind die of `KIND_SIDES` sides.
pub open spec fn monster_ranges_of(room: Rect) -> MonsterRollRanges {
    MonsterRollRanges {
        count: (0, (MAX_ROOM_MONSTERS + 1) as i32),
        x: ((room.x1 + 1) as i32, room.x2),
        y: ((room.y1 + 1) as i32, room.y2),
        kind: (0, KIND_SIDES),
    }
}

/// The ranges of the rolls that make the monsters of `room`.
pub fn monster_roll_ranges(room: Rect) -> (ranges: MonsterRollRanges)
    requires
        room.x1 + 1 < room.x2,
        room.y1 + 1 < room.y2,
    ensures
        ranges == monster_ranges_of(room),
{
    MonsterRollRanges {
        count: (0, MAX_ROOM_MONSTERS + 1),
        x: (room.x1 + 1, room.x2),
        y: (room.y1 + 1, room.y2),
        kind: (0, KIND_SIDES),
    }
}

/// The monster draw that a roll `(x, y, kind)` makes: at `(x, y)`, a grunt exactly when the
/// kind roll is below `GRUNT_SIDES`.
pub open spec fn draw_of_roll(roll: (i32, i32, i32)) -> (i32, i32, bool) {
    (roll.0, roll.1, roll.2 < GRUNT_SIDES)
}

/// Makes the monster draws from their rolls, one for one (see `draw_of_roll`).
pub fn monster_draws(rolls: &Vec<(i32, i32, i32)>) -> (draws: Vec<(i32, i32, bool)>)
    ensures
        draws@ == rolls@.map_values(|r: (i32, i32, i32)| draw_of_roll(r)),
{
    let mut draws: Vec<(i32, i32, bool)> = Vec::new();
    let mut k: usize = 0;
    while k < rolls.len()
        invariant
            k <= rolls@.len(),
            draws@ == rolls@.subrange(0, k as int).map_values(|r: (i32, i32, i32)| draw_of_roll(r)),
        decreases rolls@.len() - k,
    {
        let (x, y, kind) = rolls[k];
        draws.push((x, y, kind < GRUNT_SIDES));
        assert(rolls@.subrange(0, k + 1).drop_last() =~= rolls@.subrange(0, k as int));
        k = k + 1;
        assert(draws@ =~= rolls@.subrange(0, k as int).map_values(|r: (i32, i32, i32)| draw_of_roll(r)));
    }
    assert(rolls@.subrange(0, rolls@.len() as int) =~= rolls@);
    draws
}

/// Whether `rolls` are rolls for the monsters of `room`: no more than the count range allows,
/// and each inside its ranges.
pub open spec fn monster_rolls_fit(room: Rect, rolls: Seq<(i32, i32, i32)>) -> bool {
    let ranges = monster_ranges_of(room);
    &&& rolls.len() < ranges.count.1
    &&& forall|k: int|
        0 <= k < rolls.len() ==> {
            &&& ranges.x.0 <= #[trigger] rolls[k].0 < ranges.x.1
            &&& ranges.y.0 <= rolls[k].1 < ranges.y.1
            &&& ranges.kind.0 <= rolls[k].2 < ranges.kind.1
        }
}

/// Whether `draws` are monster draws of `room` made from fitting rolls.
pub open spec fn drawn_monsters(room: Rect, draws: Seq<(i32, i32, bool)>) -> bool {
    exists|rolls: Seq<(i32, i32, i32)>|
        #[trigger] monster_rolls_fit(room, rolls) && draws == rolls.map_values(|r: (i32, i32, i32)| draw_of_roll(r))
}

/// Monster draws made from fitting rolls are few enough and lie on the room's floor.
proof fn lemma_drawn_monsters_fit(room: Rect, draws: Seq<(i32, i32, bool)>)
    requires
        room.x1 + 1 < room.x2,
        room.y1 + 1 < room.y2,
        drawn_monsters(room, draws),
    ensures
        draws.len() <= MAX_ROOM_MONSTERS,
        forall|k: int| 0 <= k < draws.len() ==> in_room_floor(room, #[trigger] draws[k].0 as int, draws[k].1 as int),
{
    let rolls = choose|rolls: Seq<(i32, i32, i32)>|
        #[trigger] monster_rolls_fit(room, rolls) && draws == rolls.map_values(|r: (i32, i32, i32)| draw_of_roll(r));
    assert forall|k: int| 0 <= k < draws.len() implies in_room_floor(room, #[trigger] draws[k].0 as int, draws[k].1 as int) by {
        assert(draws[k] == draw_of_roll(rolls[k]));
        assert(monster_ranges_of(room).x.0 <= rolls[k].0);
    }
}

/// Places up to three monsters on the floor of `room`: rolls their number, then for each a
/// square on the room's floor and its kind (four in five grunts, the rest arbiters), and
/// places them by `place_monsters`.
pub fn place_objects(room: Rect, map: &Grid, objects: &mut Vec<Object>)
    requires
        room.x1 + 1 < room.x2,
        room.y1 + 1 < room.y2,
        forall|x: int, y: int| in_room_floor(room, x, y) ==> in_map(map@, x, y),
    ensures
        monsters_added(map@, room, old(objects)@, final(objects)@, MAX_ROOM_MONSTERS as int),
        exists|draws: Seq<(i32, i32, bool)>|
            {
                &&& drawn_monsters(room, draws)
                &&& #[trigger] draws_placed(map@, draws, old(objects)@, final(objects)@)
            },
{
    let draws = draw_monsters(room);
    proof {
        lemma_drawn_monsters_fit(room, draws@);
    }
    place_monsters(room, map, objects, &draws);
}

/// Rolls the monsters of a room within the ranges of `monster_roll_ranges` and makes their
/// draws by `monster_draws`.
fn draw_monsters(room: Rect) -> (draws: Vec<(i32, i32, bool)>)
    requires
        room.x1 + 1 < room.x2,
        room.y1 + 1 < room.y2,
    ensures
        drawn_monsters(room, draws@),
{
    let ranges = monster_roll_ranges(room);
    let num_monsters = random_in(ranges.count.0, ranges.count.1);
    let mut rolls: Vec<(i32, i32, i32)> = Vec::new();
    let mut n: i32 = 0;
    while n < num_monsters
        invariant
            ranges == monster_ranges_of(room),
            0 <= n <= num_monsters < ranges.count.1,
            rolls@.len() == n,
            room.x1 + 1 < room.x2,
            room.y1 + 1 < room.y2,
            forall|k: int|
                0 <= k < rolls@.len() ==> {
                    &&& ranges.x.0 <= #[trigger] rolls@[k].0 < ranges.x.1
                    &&& ranges.y.0 <= rolls@[k].1 < ranges.y.1
                    &&& ranges.kind.0 <= rolls@[k].2 < ranges.kind.1
                },
        decreases num_monsters - n,
    {
        let x = random_in(ranges.x.0, ranges.x.1);
        let y = random_in(ranges.y.0, ranges.y.1);
        let kind = random_in(ranges.kind.0, ranges.kind.1);
        rolls.push((x, y, kind));
        n = n + 1;
    }
    let draws = monster_draws(&rolls);
    assert(monster_rolls_fit(room, rolls@));
    draws
}

/// Whether `(x, y)` lies off the outermost ring of the dungeon.
pub open spec fn interior(x: int, y: int) -> bool {
    1 <= x <= MAP_WIDTH - 2 && 1 <= y <= MAP_HEIGHT - 2
}

/// The map has `MAP_WIDTH` columns of `MAP_HEIGHT` tiles.
pub open spec fn map_shape(map: Seq<Vec<Tile>>) -> bool {
    &&& map.len() == MAP_WIDTH
    &&& forall|x: int| 0 <= x < map.len() ==> #[trigger] map[x]@.len() == MAP_HEIGHT
}

/// Every tile is an unexplored wall or floor, and the outermost ring is all wall.
pub open spec fn dungeon_tiles(map: Seq<Vec<Tile>>) -> bool {
    forall|x: int, y: int|
        in_map(map, x, y) ==> {
            &&& #[trigger] tile_at(map, x, y) == wall_tile() || tile_at(map, x, y) == floor_tile()
            &&& !interior(x, y) ==> tile_at(map, x, y) == wall_tile()
        }
}

/// A room the generator may place: inside the map, each side from `ROOM_MIN_SIZE` to
/// `ROOM_MAX_SIZE`.
pub open spec fn room_fits(r: Rect) -> bool {
    &&& 0 <= r.x1
    &&& r.x2 <= MAP_WIDTH - 1
    &&& 0 <= r.y1
    &&& r.y2 <= MAP_HEIGHT - 1
    &&& ROOM_MIN_SIZE <= r.x2 - r.x1 <= ROOM_MAX_SIZE
    &&& ROOM_MIN_SIZE <= r.y2 - r.y1 <= ROOM_MAX_SIZE
}

/// Carving interior tiles keeps the shape and the walled ring, and keeps every floor tile floor.
proof fn lemma_carving_keeps_dungeon(before: Seq<Vec<Tile>>, after: Seq<Vec<Tile>>, p: spec_fn(int, int) -> bool)
    requires
        map_shape(before),
        dungeon_tiles(before),
        carved(before, after, p),
        forall|x: int, y: int| in_map(before, x, y) && p(x, y) ==> interior(x, y),
    ensures
        map_shape(after),
        dungeon_tiles(after),
        forall|x: int, y: int| #[trigger] in_map(after, x, y) <==> in_map(before, x, y),
        forall|x: int, y: int|
            in_map(before, x, y) && !tile_at(before, x, y).blocked ==> !#[trigger] tile_at(after, x, y).blocked,
{
    assert forall|x: int, y: int| #[trigger] in_map(after, x, y) <==> in_map(before, x, y) by {
        if 0 <= x < before.len() {
            assert(before[x]@.len() == after[x]@.len());
        }
    }
    assert forall|x: int, y: int| in_map(after, x, y) implies {
        &&& #[trigger] tile_at(after, x, y) == wall_tile() || tile_at(after, x, y) == floor_tile()
        &&& !interior(x, y) ==> tile_at(after, x, y) == wall_tile()
    } by {
        assert(in_map(before, x, y));
        assert(tile_at(before, x, y) == wall_tile() || tile_at(before, x, y) == floor_tile());
    }
    assert forall|x: int| 0 <= x < after.len() implies #[trigger] after[x]@.len() == MAP_HEIGHT by {
        assert(before[x]@.len() == after[x]@.len());
    }
    assert forall|x: int, y: int|
        in_map(before, x, y) && !tile_at(before, x, y).blocked implies !#[trigger] tile_at(after, x, y).blocked by {
        assert(tile_at(before, x, y) == wall_tile() || tile_at(before, x, y) == floor_tile());
    }
}

/// The centre of a room the generator may place lies on the room's floor, off the outer ring.
proof fn lemma_centre_inside(r: Rect)
    requires
        room_fits(r),
    ensures
        in_room_floor(r, r.centre_of().0, r.centre_of().1),
        interior(r.centre_of().0, r.centre_of().1),
{
}

/// Monsters that `place_objects` adds stand on the floor, off the outer ring, and apart from every
/// blocking object before them.
proof fn lemma_added_monsters_apart(
    map: Seq<Vec<Tile>>,
    room: Rect,
    before: Seq<Object>,
    objects: Seq<Object>,
    limit: int,
)
    requires
        monsters_added(map, room, before, objects, limit),
        room_fits(room),
        map_shape(map),
    ensures
        forall|i: int|
            before.len() <= i < objects.len() ==> {
                &&& interior(#[trigger] objects[i].x as int, objects[i].y as int)
                &&& !tile_at(map, objects[i].x as int, objects[i].y as int).blocked
            },
        forall|i: int, j: int|
            before.len() <= i < objects.len() && 0 <= j < i && #[trigger] objects[j].blocks ==> !(
            objects[j].x == #[trigger] objects[i].x && objects[j].y == objects[i].y),
{
    assert forall|i: int, j: int|
        before.len() <= i < objects.len() && 0 <= j < i && #[trigger] objects[j].blocks implies !(
        objects[j].x == #[trigger] objects[i].x && objects[j].y == objects[i].y) by {
        let prefix = objects.subrange(0, i);
        assert(!blocked_at(map, prefix, objects[i].x as int, objects[i].y as int));
        assert(prefix[j] == objects[j]);
        if objects[j].x == objects[i].x && objects[j].y == objects[i].y {
            assert(occupied(prefix, objects[i].x as int, objects[i].y as int));
        }
    }
}

/// Every room and tunnel square lies off the outer ring, so every carving keeps it walled.
proof fn lemma_tunnel_interior(a: int, b: int, c: int)
    requires
        1 <= a <= MAP_WIDTH - 2,
        1 <= b <= MAP_WIDTH - 2,
        1 <= c <= MAP_HEIGHT - 2,
    ensures
        forall|x: int| min_int(a, b) <= x <= max_int(a, b) ==> interior(x, c),
{
}

/// One drawn room of a dungeon plan: the room, whether its tunnel from the previous room runs
/// horizontally first, and the draws of its monsters.
pub struct RoomDraw {
    pub room: Rect,
    pub horizontal_first: bool,
    pub monsters: Vec<(i32, i32, bool)>,
}

/// Every drawn room fits the map, and every monster draw lies on its room's floor.
pub open spec fn plan_fits(plan: Seq<RoomDraw>) -> bool {
    forall|k: int|
        0 <= k < plan.len() ==> {
            &&& room_fits(#[trigger] plan[k].room)
            &&& forall|m: int|
                0 <= m < plan[k].monsters@.len() ==> in_room_floor(
                    plan[k].room,
                    #[trigger] plan[k].monsters@[m].0 as int,
                    plan[k].monsters@[m].1 as int,
                )
        }
}

/// Whether `r` meets (overlaps or touches) the room of one of `rooms`.
pub open spec fn meets_any(r: Rect, rooms: Seq<RoomDraw>) -> bool {
    exists|i: int| 0 <= i < rooms.len() && r.overlaps(#[trigger] rooms[i].room)
}

/// The drawn rooms that the dungeon keeps, in order: each that meets no room kept before it.
pub open spec fn accepted(plan: Seq<RoomDraw>) -> Seq<RoomDraw>
    decreases plan.len(),
{
    if plan.len() == 0 {
        Seq::empty()
    } else {
        let earlier = accepted(plan.drop_last());
        if meets_any(plan.last().room, earlier) {
            earlier
        } else {
            earlier.push(plan.last())
        }
    }
}

/// The corner of the L-shaped tunnel from `from` to `to`: it runs horizontally first when
/// `horizontal_first` holds, and vertically first otherwise.
pub open spec fn tunnel_corner(from: (int, int), to: (int, int), horizontal_first: bool) -> (int, int) {
    if horizontal_first {
        (to.0, from.1)
    } else {
        (from.0, to.1)
    }
}

/// Whether `q` lies on the L-shaped tunnel from `from` to `to`.
pub open spec fn on_tunnel(from: (int, int), to: (int, int), horizontal_first: bool, q: (int, int)) -> bool {
    let corner = tunnel_corner(from, to, horizontal_first);
    on_segment(from, corner, q) || on_segment(corner, to, q)
}

/// Whether the `i`-th kept room carves `(x, y)`: its floor, or its tunnel from the room before it.
pub open spec fn carves(rooms: Seq<RoomDraw>, i: int, x: int, y: int) -> bool {
    ||| in_room_floor(rooms[i].room, x, y)
    ||| i > 0 && on_tunnel(
        rooms[i - 1].room.centre_of(),
        rooms[i].room.centre_of(),
        rooms[i].horizontal_first,
        (x, y),
    )
}

/// Whether some kept room carves `(x, y)`.
pub open spec fn carved_by(rooms: Seq<RoomDraw>, x: int, y: int) -> bool {
    exists|i: int| 0 <= i < rooms.len() && #[trigger] carves(rooms, i, x, y)
}

/// The map is solid rock with exactly the floors and tunnels of `rooms` carved out.
#[verifier::opaque]
pub open spec fn carved_from_rock(map: Seq<Vec<Tile>>, rooms: Seq<RoomDraw>) -> bool {
    forall|x: int, y: int|
        in_map(map, x, y) ==> #[trigger] tile_at(map, x, y) == if carved_by(rooms, x, y) {
            floor_tile()
        } else {
            wall_tile()
        }
}

/// A tile carved by the rooms kept so far, or by one more room, is carved by all of them.
proof fn lemma_carved_by_push(rooms: Seq<RoomDraw>, d: RoomDraw, x: int, y: int)
    ensures
        carved_by(rooms.push(d), x, y) == (carved_by(rooms, x, y) || carves(rooms.push(d), rooms.len() as int, x, y)),
{
    let more = rooms.push(d);
    if carved_by(rooms, x, y) {
        let i = choose|i: int| 0 <= i < rooms.len() && #[trigger] carves(rooms, i, x, y);
        assert(more[i] == rooms[i]);
        if i > 0 {
            assert(more[i - 1] == rooms[i - 1]);
        }
        assert(carves(more, i, x, y));
    }
    if carved_by(more, x, y) {
        let i = choose|i: int| 0 <= i < more.len() && #[trigger] carves(more, i, x, y);
        if i < rooms.len() {
            assert(more[i] == rooms[i]);
            if i > 0 {
                assert(more[i - 1] == rooms[i - 1]);
            }
            assert(carves(rooms, i, x, y));
        }
    }
}

/// Carving the first kept room out of solid rock leaves exactly that room carved.
proof fn lemma_first_room_carved(m0: Seq<Vec<Tile>>, m1: Seq<Vec<Tile>>, d: RoomDraw)
    requires
        carved_from_rock(m0, Seq::empty()),
        carved(m0, m1, |x: int, y: int| in_room_floor(d.room, x, y)),
    ensures
        carved_from_rock(m1, seq![d]),
{
    reveal(carved_from_rock);
    assert forall|x: int, y: int| in_map(m1, x, y) implies #[trigger] tile_at(m1, x, y) == if carved_by(
        seq![d],
        x,
        y,
    ) {
        floor_tile()
    } else {
        wall_tile()
    } by {
        assert(m0[x]@.len() == m1[x]@.len());
        assert(in_map(m0, x, y));
        assert(!carved_by(Seq::<RoomDraw>::empty(), x, y));
        lemma_carved_by_push(Seq::empty(), d, x, y);
        assert(Seq::<RoomDraw>::empty().push(d) =~= seq![d]);
    }
}

/// Carving one more kept room and its tunnel from the last kept room leaves exactly the kept
/// rooms carved.
proof fn lemma_joined_room_carved(
    m0: Seq<Vec<Tile>>,
    m1: Seq<Vec<Tile>>,
    m2: Seq<Vec<Tile>>,
    m3: Seq<Vec<Tile>>,
    rooms: Seq<RoomDraw>,
    d: RoomDraw,
    first_leg: spec_fn(int, int) -> bool,
    second_leg: spec_fn(int, int) -> bool,
)
    requires
        rooms.len() > 0,
        carved_from_rock(m0, rooms),
        carved(m0, m1, |x: int, y: int| in_room_floor(d.room, x, y)),
        carved(m1, m2, first_leg),
        carved(m2, m3, second_leg),
        forall|x: int, y: int|
            first_leg(x, y) == on_segment(
                rooms.last().room.centre_of(),
                tunnel_corner(rooms.last().room.centre_of(), d.room.centre_of(), d.horizontal_first),
                (x, y),
            ),
        forall|x: int, y: int|
            second_leg(x, y) == on_segment(
                tunnel_corner(rooms.last().room.centre_of(), d.room.centre_of(), d.horizontal_first),
                d.room.centre_of(),
                (x, y),
            ),
    ensures
        carved_from_rock(m3, rooms.push(d)),
{
    reveal(carved_from_rock);
    let more = rooms.push(d);
    assert(more[rooms.len() - 1] == rooms.last());
    assert(more[rooms.len() as int] == d);
    assert forall|x: int, y: int| in_map(m3, x, y) implies #[trigger] tile_at(m3, x, y) == if carved_by(more, x, y) {
        floor_tile()
    } else {
        wall_tile()
    } by {
        assert(m0[x]@.len() == m1[x]@.len());
        assert(m1[x]@.len() == m2[x]@.len());
        assert(m2[x]@.len() == m3[x]@.len());
        assert(in_map(m0, x, y));
        assert(in_map(m1, x, y));
        assert(in_map(m2, x, y));
        lemma_carved_by_push(rooms, d, x, y);
        assert(tile_at(m1, x, y) == if in_room_floor(d.room, x, y) { floor_tile() } else { tile_at(m0, x, y) });
        assert(tile_at(m2, x, y) == if first_leg(x, y) { floor_tile() } else { tile_at(m1, x, y) });
        assert(tile_at(m3, x, y) == if second_leg(x, y) { floor_tile() } else { tile_at(m2, x, y) });
    }
}

/// The `i`-th kept room is populated from `states[i]`: its monster draws make `mids[i]`, and
/// after the first room the player is moved to that room's centre.
#[verifier::opaque]
pub open spec fn room_populated(
    map: Seq<Vec<Tile>>,
    rooms: Seq<RoomDraw>,
    i: int,
    states: Seq<Seq<Object>>,
    mids: Seq<Seq<Object>>,
) -> bool {
    &&& draws_placed(map, rooms[i].monsters@, states[i], mids[i])
    &&& states[i + 1] == if i == 0 {
        placed(mids[i], 0, rooms[0].room.centre_of().0, rooms[0].room.centre_of().1)
    } else {
        mids[i]
    }
}

/// `after` is `before` with the kept rooms populated one by one through `states` and `mids`.
pub open spec fn populated(
    map: Seq<Vec<Tile>>,
    rooms: Seq<RoomDraw>,
    before: Seq<Object>,
    after: Seq<Object>,
    states: Seq<Seq<Object>>,
    mids: Seq<Seq<Object>>,
) -> bool {
    &&& states.len() == rooms.len() + 1
    &&& mids.len() == rooms.len()
    &&& states[0] == before
    &&& states[rooms.len() as int] == after
    &&& forall|i: int| 0 <= i < rooms.len() ==> #[trigger] room_populated(map, rooms, i, states, mids)
}

/// Draws are placed alike on two maps that block their squares alike.
proof fn lemma_draws_transfer(
    m1: Seq<Vec<Tile>>,
    m2: Seq<Vec<Tile>>,
    draws: Seq<(i32, i32, bool)>,
    before: Seq<Object>,
    after: Seq<Object>,
)
    requires
        draws_placed(m1, draws, before, after),
        forall|k: int|
            0 <= k < draws.len() ==> tile_at(m1, #[trigger] draws[k].0 as int, draws[k].1 as int).blocked
                == tile_at(m2, draws[k].0 as int, draws[k].1 as int).blocked,
    ensures
        draws_placed(m2, draws, before, after),
{
    let states = choose|states: Seq<Seq<Object>>|
        #[trigger] draws_placed_through(m1, draws, states) && states[0] == before && states.last() == after;
    assert forall|k: int| 0 <= k < draws.len() implies draw_placed(m2, #[trigger] states[k], states[k + 1], draws[k]) by {
        assert(draw_placed(m1, states[k], states[k + 1], draws[k]));
        assert(tile_at(m1, draws[k].0 as int, draws[k].1 as int).blocked == tile_at(m2, draws[k].0 as int, draws[k].1 as int).blocked);
    }
    assert(draws_placed_through(m2, draws, states));
}

/// The floors of kept rooms are open on a map carved from them.
proof fn lemma_room_floors_open(map: Seq<Vec<Tile>>, rooms: Seq<RoomDraw>)
    requires
        carved_from_rock(map, rooms),
        map_shape(map),
        plan_fits(rooms),
    ensures
        forall|i: int, x: int, y: int|
            #![trigger rooms[i], tile_at(map, x, y)]
            0 <= i < rooms.len() && in_room_floor(rooms[i].room, x, y) ==> tile_at(map, x, y) == floor_tile(),
{
    reveal(carved_from_rock);
    assert forall|i: int, x: int, y: int|
        #![trigger rooms[i], tile_at(map, x, y)]
        0 <= i < rooms.len() && in_room_floor(rooms[i].room, x, y) implies tile_at(map, x, y) == floor_tile() by {
        assert(room_fits(rooms[i].room));
        assert(map[x]@.len() == MAP_HEIGHT);
        assert(in_map(map, x, y));
        assert(carves(rooms, i, x, y));
    }
}

/// Populating one more kept room, carved and joined, keeps the earlier rooms populated on the
/// new map.
proof fn lemma_population_extends(
    map0: Seq<Vec<Tile>>,
    map1: Seq<Vec<Tile>>,
    map_f: Seq<Vec<Tile>>,
    rooms: Seq<RoomDraw>,
    d: RoomDraw,
    states: Seq<Seq<Object>>,
    mids: Seq<Seq<Object>>,
    mid: Seq<Object>,
    objects_f: Seq<Object>,
)
    requires
        map_shape(map0),
        map_shape(map_f),
        carved_from_rock(map0, rooms),
        carved_from_rock(map_f, rooms.push(d)),
        plan_fits(rooms.push(d)),
        carved(map0, map1, |x: int, y: int| in_room_floor(d.room, x, y)),
        states.len() == rooms.len() + 1,
        mids.len() == rooms.len(),
        forall|i: int| 0 <= i < rooms.len() ==> #[trigger] room_populated(map0, rooms, i, states, mids),
        draws_placed(map1, d.monsters@, states[rooms.len() as int], mid),
        objects_f == if rooms.len() == 0 {
            placed(mid, 0, d.room.centre_of().0, d.room.centre_of().1)
        } else {
            mid
        },
    ensures
        forall|i: int|
            0 <= i < rooms.len() + 1 ==> #[trigger] room_populated(
                map_f,
                rooms.push(d),
                i,
                states.push(objects_f),
                mids.push(mid),
            ),
{
    reveal(room_populated);
    let more = rooms.push(d);
    let states2 = states.push(objects_f);
    let mids2 = mids.push(mid);
    assert(plan_fits(rooms)) by {
        assert forall|k: int| 0 <= k < rooms.len() implies more[k] == rooms[k] by {}
    }
    lemma_room_floors_open(map0, rooms);
    lemma_room_floors_open(map_f, more);
    assert forall|i: int| 0 <= i < rooms.len() + 1 implies #[trigger] room_populated(map_f, more, i, states2, mids2) by {
        assert(more[i] == if i < rooms.len() { rooms[i] } else { d });
        assert(room_fits(more[i].room));
        let draws = more[i].monsters@;
        if i < rooms.len() {
            assert(room_populated(map0, rooms, i, states, mids));
            assert(more[0] == rooms[0]);
            assert forall|k: int| 0 <= k < draws.len() implies tile_at(map0, #[trigger] draws[k].0 as int, draws[k].1 as int).blocked
                == tile_at(map_f, draws[k].0 as int, draws[k].1 as int).blocked by {
                assert(in_room_floor(more[i].room, draws[k].0 as int, draws[k].1 as int));
                assert(tile_at(map0, draws[k].0 as int, draws[k].1 as int) == floor_tile());
                assert(tile_at(map_f, draws[k].0 as int, draws[k].1 as int) == floor_tile());
            }
            lemma_draws_transfer(map0, map_f, draws, states[i], mids[i]);
        } else {
            assert forall|k: int| 0 <= k < draws.len() implies tile_at(map1, #[trigger] draws[k].0 as int, draws[k].1 as int).blocked
                == tile_at(map_f, draws[k].0 as int, draws[k].1 as int).blocked by {
                let x = draws[k].0 as int;
                let y = draws[k].1 as int;
                assert(in_room_floor(d.room, x, y));
                assert(map0[x]@.len() == MAP_HEIGHT);
                assert(in_map(map0, x, y));
                assert(tile_at(map1, x, y) == floor_tile());
                assert(tile_at(map_f, x, y) == floor_tile());
            }
            lemma_draws_transfer(map1, map_f, draws, states[i], mid);
            if i == 0 {
                assert(more[0] == d);
            }
        }
    }
}

/// The first drawn room is always kept.
proof fn lemma_first_draw_kept(plan: Seq<RoomDraw>)
    requires
        plan.len() > 0,
    ensures
        accepted(plan).len() > 0,
        accepted(plan)[0] == plan[0],
    decreases plan.len(),
{
    if plan.len() == 1 {
        assert(plan.drop_last() =~= Seq::<RoomDraw>::empty());
        assert(accepted(plan.drop_last()) =~= Seq::<RoomDraw>::empty());
    } else {
        lemma_first_draw_kept(plan.drop_last());
        assert(plan.drop_last()[0] == plan[0]);
    }
}

/// Every room's monster draws were made from fitting rolls.
pub open spec fn plan_drawn(plan: Seq<RoomDraw>) -> bool {
    forall|k: int| 0 <= k < plan.len() ==> drawn_monsters(plan[k].room, #[trigger] plan[k].monsters@)
}

/// Draws a dungeon plan of `MAX_ROOMS` rooms: each with its size and position, the order of
/// its tunnel's legs, and its monsters.
fn draw_plan() -> (plan: Vec<RoomDraw>)
    ensures
        plan@.len() == MAX_ROOMS,
        plan_fits(plan@),
        plan_drawn(plan@),
{
    let mut plan: Vec<RoomDraw> = Vec::new();
    let mut attempt: i32 = 0;
    while attempt < MAX_ROOMS
        invariant
            0 <= attempt <= MAX_ROOMS,
            plan@.len() == attempt,
            plan_fits(plan@),
            plan_drawn(plan@),
        decreases MAX_ROOMS - attempt,
    {
        let w = random_in(ROOM_MIN_SIZE, ROOM_MAX_SIZE + 1);
        let h = random_in(ROOM_MIN_SIZE, ROOM_MAX_SIZE + 1);
        let x = random_in(0, MAP_WIDTH - w);
        let y = random_in(0, MAP_HEIGHT - h);
        let room = Rect::new(x, y, w, h);
        assert(room_fits(room));
        let horizontal_first = random_bool();
        let monsters = draw_monsters(room);
        proof {
            lemma_drawn_monsters_fit(room, monsters@);
        }
        let ghost prior = plan@;
        plan.push(RoomDraw { room, horizontal_first, monsters });
        assert forall|k: int| 0 <= k < plan@.len() implies {
            &&& room_fits(#[trigger] plan@[k].room)
            &&& forall|m: int|
                0 <= m < plan@[k].monsters@.len() ==> in_room_floor(
                    plan@[k].room,
                    #[trigger] plan@[k].monsters@[m].0 as int,
                    plan@[k].monsters@[m].1 as int,
                )
        } by {
            if k < prior.len() {
                assert(plan@[k] == prior[k]);
            }
        }
        assert forall|k: int| 0 <= k < plan@.len() implies drawn_monsters(plan@[k].room, #[trigger] plan@[k].monsters@) by {
            if k < prior.len() {
                assert(plan@[k] == prior[k]);
            }
        }
        attempt = attempt + 1;
    }
    plan
}

/// The state that building a dungeon keeps between drawn rooms, with `rooms` the kept rooms'
/// rectangles, `acc` their draws, `start` the objects before building, and `states` and `mids`
/// the objects as the kept rooms were populated.
#[verifier::opaque]
pub open spec fn build_invariant(
    map: Seq<Vec<Tile>>,
    objects: Seq<Object>,
    rooms: Seq<Rect>,
    acc: Seq<RoomDraw>,
    start: Seq<Object>,
    states: Seq<Seq<Object>>,
    mids: Seq<Seq<Object>>,
) -> bool {
    &&& rooms.len() == acc.len()
    &&& forall|i: int| 0 <= i < rooms.len() ==> #[trigger] rooms[i] == acc[i].room
    &&& acc.len() > 0 ==> (objects[0].x as int, objects[0].y as int) == acc[0].room.centre_of()
    &&& carved_from_rock(map, acc)
    &&& plan_fits(acc)
    &&& states.len() == acc.len() + 1
    &&& mids.len() == acc.len()
    &&& states[0] == start
    &&& states[acc.len() as int] == objects
    &&& forall|i: int| 0 <= i < acc.len() ==> #[trigger] room_populated(map, acc, i, states, mids)
    &&& forall|r: int| 0 <= r < rooms.len() ==> room_fits(#[trigger] rooms[r])
    &&& map_shape(map)
    &&& dungeon_tiles(map)
    &&& objects.len() >= start.len() >= 1
    &&& objects[0] == (Object { x: objects[0].x, y: objects[0].y, ..start[0] })
    &&& rooms.len() > 0 ==> interior(objects[0].x as int, objects[0].y as int)
    &&& rooms.len() > 0 ==> !tile_at(map, objects[0].x as int, objects[0].y as int).blocked
    &&& rooms.len() == 0 ==> forall|x: int, y: int| in_map(map, x, y) ==> #[trigger] tile_at(map, x, y) == wall_tile()
    &&& rooms.len() > 0 ==> all_open_reachable(map, (objects[0].x as int, objects[0].y as int))
    &&& rooms.len() > 0 ==> open_at(map, rooms[rooms.len() - 1].centre_of())
    &&& forall|i: int| 1 <= i < start.len() ==> objects[i] == start[i]
    &&& forall|i: int|
        start.len() <= i < objects.len() ==> {
            &&& is_new_monster(#[trigger] objects[i])
            &&& interior(objects[i].x as int, objects[i].y as int)
            &&& !tile_at(map, objects[i].x as int, objects[i].y as int).blocked
        }
    &&& forall|i: int, j: int|
        start.len() <= j < i < objects.len() ==> !(#[trigger] objects[j].x == #[trigger] objects[i].x
            && objects[j].y == objects[i].y)
}

/// `map` and `after` are what building `plan` makes of the objects `before`: the kept rooms
/// are exactly the drawn ones that meet no room kept before them, the first drawn room always
/// among them; the map is solid rock with exactly their floors and their tunnels carved out; the
/// player stands at the centre of the first kept room; and the kept rooms' monster draws were
/// placed room by room, in order.
pub open spec fn built_from(plan: Seq<RoomDraw>, before: Seq<Object>, map: Seq<Vec<Tile>>, after: Seq<Object>) -> bool {
    &&& accepted(plan).len() > 0
    &&& accepted(plan)[0] == plan[0]
    &&& (after[0].x as int, after[0].y as int) == accepted(plan)[0].room.centre_of()
    &&& carved_from_rock(map, accepted(plan))
    &&& exists|states: Seq<Seq<Object>>, mids: Seq<Seq<Object>>|
        #[trigger] populated(map, accepted(plan), before, after, states, mids)
}

/// Keeps one more drawn room: carves it, places its monsters, puts the player at its centre if
/// it is the first room and otherwise joins it to the previous room by its L-shaped tunnel.
#[verifier::rlimit(60)]
#[verifier::spinoff_prover]
fn add_room(
    map: &mut Grid,
    objects: &mut Vec<Object>,
    rooms: &mut Vec<Rect>,
    draw: &RoomDraw,
    Ghost(acc): Ghost<Seq<RoomDraw>>,
    Ghost(start): Ghost<Seq<Object>>,
    Ghost(states): Ghost<Seq<Seq<Object>>>,
    Ghost(mids): Ghost<Seq<Seq<Object>>>,
) -> (grown: Ghost<(Seq<Seq<Object>>, Seq<Seq<Object>>)>)
    requires
        build_invariant(old(map)@, old(objects)@, old(rooms)@, acc, start, states, mids),
        room_fits(draw.room),
        plan_fits(seq![*draw]),
    ensures
        final(rooms)@ == old(rooms)@.push(draw.room),
        build_invariant(final(map)@, final(objects)@, final(rooms)@, acc.push(*draw), start, grown@.0, grown@.1),
{
    proof {
        reveal(build_invariant);
        assert(seq![*draw][0] == *draw);
    }
    let new_room = draw.room;
        proof {
            lemma_centre_inside(new_room);
        }
        let ghost map0 = map@;
        create_room(new_room,  map);
        proof {
            lemma_carving_keeps_dungeon(map0, map@, |i: int, j: int| in_room_floor(new_room, i, j));
        }
        let ghost prior = objects@;
        let ghost map_placed = map@;
        place_monsters(new_room, map, objects, &draw.monsters);
        let ghost mid = objects@;
        proof {
            lemma_added_monsters_apart(map@, new_room, prior, objects@, draw.monsters@.len() as int);
            assert forall|i: int| 0 <= i < prior.len() implies #[trigger] objects@[i] == prior[i] by {
                assert(objects@.subrange(0, prior.len() as int)[i] == objects@[i]);
            }
        }
        let (new_x, new_y) = new_room.centre();
        let ghost map1 = map@;
        if rooms.len() == 0 {
            proof {
                lemma_first_room_connected(map0, map@, new_room, new_room.centre_of());
                assert(acc =~= Seq::<RoomDraw>::empty());
                lemma_first_room_carved(map0, map@, *draw);
                assert(acc.push(*draw) =~= seq![*draw]);
            }
            objects[PLAYER].set_pos(new_x, new_y);
        } else {
            let (prev_x, prev_y) = rooms[rooms.len() - 1].centre();
            proof {
                lemma_centre_inside(rooms@[rooms@.len() - 1]);
                lemma_tunnel_interior(prev_x as int, new_x as int, prev_y as int);
                lemma_tunnel_interior(prev_x as int, new_x as int, new_y as int);
            }
            let ghost start = (objects@[0].x as int, objects@[0].y as int);
            let ghost from = (prev_x as int, prev_y as int);
            let ghost centre = (new_x as int, new_y as int);
            if draw.horizontal_first {
                create_h_tunnel(prev_x, new_x, prev_y,  map);
                proof {
                    lemma_carving_keeps_dungeon(
                        map1,
                        map@,
                        |i: int, j: int|
                            j == prev_y && min_int(prev_x as int, new_x as int) <= i <= max_int(
                                prev_x as int,
                                new_x as int,
                            ),
                    );
                }
                let ghost map2 = map@;
                create_v_tunnel(prev_y, new_y, new_x,  map);
                proof {
                    lemma_carving_keeps_dungeon(
                        map2,
                        map@,
                        |i: int, j: int|
                            i == new_x && min_int(prev_y as int, new_y as int) <= j <= max_int(
                                prev_y as int,
                                new_y as int,
                            ),
                    );
                    let corner = (new_x as int, prev_y as int);
                    lemma_joined_room_connected(
                        map0,
                        map1,
                        map2,
                        map@,
                        new_room,
                        start,
                        from,
                        corner,
                        centre,
                        |i: int, j: int|
                            j == prev_y && min_int(prev_x as int, new_x as int) <= i <= max_int(
                                prev_x as int,
                                new_x as int,
                            ),
                        |i: int, j: int|
                            i == new_x && min_int(prev_y as int, new_y as int) <= j <= max_int(
                                prev_y as int,
                                new_y as int,
                            ),
                    );
                    lemma_joined_room_carved(
                        map0,
                        map1,
                        map2,
                        map@,
                        acc,
                        *draw,
                        |i: int, j: int|
                            j == prev_y && min_int(prev_x as int, new_x as int) <= i <= max_int(
                                prev_x as int,
                                new_x as int,
                            ),
                        |i: int, j: int|
                            i == new_x && min_int(prev_y as int, new_y as int) <= j <= max_int(
                                prev_y as int,
                                new_y as int,
                            ),
                    );
                }
            } else {
                create_v_tunnel(prev_y, new_y, prev_x,  map);
                proof {
                    lemma_carving_keeps_dungeon(
                        map1,
                        map@,
                        |i: int, j: int|
                            i == prev_x && min_int(prev_y as int, new_y as int) <= j <= max_int(
                                prev_y as int,
                                new_y as int,
                            ),
                    );
                }
                let ghost map2 = map@;
                create_h_tunnel(prev_x, new_x, new_y,  map);
                proof {
                    lemma_carving_keeps_dungeon(
                        map2,
                        map@,
                        |i: int, j: int|
                            j == new_y && min_int(prev_x as int, new_x as int) <= i <= max_int(
                                prev_x as int,
                                new_x as int,
                            ),
                    );
                    let corner = (prev_x as int, new_y as int);
                    lemma_joined_room_connected(
                        map0,
                        map1,
                        map2,
                        map@,
                        new_room,
                        start,
                        from,
                        corner,
                        centre,
                        |i: int, j: int|
                            i == prev_x && min_int(prev_y as int, new_y as int) <= j <= max_int(
                                prev_y as int,
                                new_y as int,
                            ),
                        |i: int, j: int|
                            j == new_y && min_int(prev_x as int, new_x as int) <= i <= max_int(
                                prev_x as int,
                                new_x as int,
                            ),
                    );
                    lemma_joined_room_carved(
                        map0,
                        map1,
                        map2,
                        map@,
                        acc,
                        *draw,
                        |i: int, j: int|
                            i == prev_x && min_int(prev_y as int, new_y as int) <= j <= max_int(
                                prev_y as int,
                                new_y as int,
                            ),
                        |i: int, j: int|
                            j == new_y && min_int(prev_x as int, new_x as int) <= i <= max_int(
                                prev_x as int,
                                new_x as int,
                            ),
                    );
                }
            }
        }
        rooms.push(new_room);
        let ghost mut grown_states = states;
        let ghost mut grown_mids = mids;
        proof {
            assert(plan_fits(acc.push(*draw))) by {
                assert forall|k: int| 0 <= k < acc.len() + 1 implies acc.push(*draw)[k]
                    == if k < acc.len() { acc[k] } else { *draw } by {}
            }
            lemma_population_extends(map0, map_placed, map@, acc, *draw, states, mids, mid, objects@);
            grown_states = states.push(objects@);
            grown_mids = mids.push(mid);
        }
        assert(build_invariant(map@, objects@, rooms@, acc.push(*draw), start, grown_states, grown_mids)) by {
            reveal(build_invariant);
            assert forall|i: int| 0 <= i < rooms@.len() implies #[trigger] rooms@[i] == acc.push(*draw)[i].room by {}
        }
        Ghost((grown_states, grown_mids))
}

/// Builds the dungeon that `plan` draws: each drawn room that meets no room accepted before it is
/// carved out of solid rock, filled with its drawn monsters, and joined to the previous accepted
/// room by an L-shaped tunnel (horizontal leg first when its flag says so); the player
/// (`objects[PLAYER]`) is put at the centre of the first room.
pub fn build_dungeon(objects: &mut Vec<Object>, plan: &Vec<RoomDraw>) -> (map: Grid)
    requires
        old(objects)@.len() >= 1,
        plan@.len() >= 1,
        plan_fits(plan@),
    ensures
        built_from(plan@, old(objects)@, map@, final(objects)@),
        map_shape(map@),
        dungeon_tiles(map@),
        final(objects)@.len() >= old(objects)@.len(),
        final(objects)@[0] == (Object { x: final(objects)@[0].x, y: final(objects)@[0].y, ..old(objects)@[0] }),
        interior(final(objects)@[0].x as int, final(objects)@[0].y as int),
        !tile_at(map@, final(objects)@[0].x as int, final(objects)@[0].y as int).blocked,
        all_open_reachable(map@, (final(objects)@[0].x as int, final(objects)@[0].y as int)),
        forall|i: int| 1 <= i < old(objects)@.len() ==> final(objects)@[i] == old(objects)@[i],
        forall|i: int|
            old(objects)@.len() <= i < final(objects)@.len() ==> {
                &&& is_new_monster(#[trigger] final(objects)@[i])
                &&& interior(final(objects)@[i].x as int, final(objects)@[i].y as int)
                &&& !tile_at(map@, final(objects)@[i].x as int, final(objects)@[i].y as int).blocked
            },
        forall|i: int, j: int|
            old(objects)@.len() <= j < i < final(objects)@.len() ==> !(#[trigger] final(objects)@[j].x
                == #[trigger] final(objects)@[i].x && final(objects)@[j].y == final(objects)@[i].y),
{
    let ghost start = objects@;
    let mut map: Grid = Vec::new();
    let mut col_index: i32 = 0;
    while col_index < MAP_WIDTH
        invariant
            0 <= col_index <= MAP_WIDTH,
            map@.len() == col_index,
            forall|x: int| 0 <= x < map@.len() ==> #[trigger] map@[x]@.len() == MAP_HEIGHT,
            forall|x: int, y: int| in_map(map@, x, y) ==> #[trigger] tile_at(map@, x, y) == wall_tile(),
        decreases MAP_WIDTH - col_index,
    {
        let mut column: Vec<Tile> = Vec::new();
        let mut row: i32 = 0;
        while row < MAP_HEIGHT
            invariant
                0 <= row <= MAP_HEIGHT,
                column@.len() == row,
                forall|y: int| 0 <= y < column@.len() ==> #[trigger] column@[y] == wall_tile(),
            decreases MAP_HEIGHT - row,
        {
            column.push(Tile::wall());
            row = row + 1;
        }
        let ghost prior = map@;
        let ghost col = column@;
        map.push(column);
        assert forall|x: int, y: int| in_map(map@, x, y) implies #[trigger] tile_at(map@, x, y) == wall_tile() by {
            if x < prior.len() {
                assert(in_map(prior, x, y));
                assert(map@[x] == prior[x]);
                assert(tile_at(prior, x, y) == wall_tile());
            } else {
                assert(map@[x]@ == col);
                assert(col[y] == wall_tile());
            }
        }
        col_index = col_index + 1;
    }
    let mut rooms: Vec<Rect> = Vec::new();
    let mut attempt: usize = 0;
    let ghost mut acc: Seq<RoomDraw> = Seq::empty();
    assert(plan@.subrange(0, 0) =~= Seq::<RoomDraw>::empty());
    assert(carved_from_rock(map@, acc)) by {
        reveal(carved_from_rock);
    }
    let ghost mut states: Seq<Seq<Object>> = seq![objects@];
    let ghost mut mids: Seq<Seq<Object>> = Seq::empty();
    assert(build_invariant(map@, objects@, rooms@, acc, start, states, mids)) by {
        reveal(build_invariant);
        assert(dungeon_tiles(map@));
    }
    while attempt < plan.len()
        invariant
            0 <= attempt <= plan@.len(),
            plan_fits(plan@),
            acc == accepted(plan@.subrange(0, attempt as int)),
            rooms@.len() == acc.len(),
            forall|i: int| 0 <= i < rooms@.len() ==> #[trigger] rooms@[i] == acc[i].room,
            attempt > 0 ==> rooms@.len() > 0,
            build_invariant(map@, objects@, rooms@, acc, start, states, mids),
        decreases plan@.len() - attempt,
    {
        let new_room = plan[attempt].room;
        assert(room_fits(new_room));

        let mut intersects = false;
        let mut r: usize = 0;
        while r < rooms.len()
            invariant
                r <= rooms@.len(),
                intersects ==> r > 0,
                intersects == exists|j: int| 0 <= j < r && new_room.overlaps(#[trigger] rooms@[j]),
            decreases rooms@.len() - r,
        {
            if new_room.intersects_with(&rooms[r]) {
                intersects = true;
            }
            r = r + 1;
        }

        proof {
            assert(plan@.subrange(0, attempt + 1).drop_last() =~= plan@.subrange(0, attempt as int));
            assert(plan@.subrange(0, attempt + 1).last() == plan@[attempt as int]);
            if intersects {
                let j = choose|j: int| 0 <= j < rooms@.len() && new_room.overlaps(#[trigger] rooms@[j]);
                assert(new_room.overlaps(acc[j].room));
            } else {
                assert forall|j: int| 0 <= j < acc.len() implies !new_room.overlaps(#[trigger] acc[j].room) by {
                    assert(rooms@[j] == acc[j].room);
                }
            }
        }
        if !intersects {
            let ghost prior_rooms = rooms@;
            let Ghost(grown) = add_room(
                &mut map,
                objects,
                &mut rooms,
                &plan[attempt],
                Ghost(acc),
                Ghost(start),
                Ghost(states),
                Ghost(mids),
            );
            proof {
                acc = acc.push(plan@[attempt as int]);
                states = grown.0;
                mids = grown.1;
            }
        }
        attempt = attempt + 1;
    }
    assert(plan@.subrange(0, plan@.len() as int) =~= plan@);
    proof {
        reveal(build_invariant);
        lemma_first_draw_kept(plan@);
        assert(populated(map@, acc, start, objects@, states, mids));
    }
    map
}

/// Generates a dungeon: draws a plan of `MAX_ROOMS` random rooms with their tunnels and
/// monsters, and builds it (`build_dungeon`): rooms that would meet an earlier room are
/// skipped, each room is joined to the previous one by an L-shaped tunnel, and the player
/// (`objects[PLAYER]`) is put at the centre of the first room.
pub fn make_map(objects: &mut Vec<Object>) -> (map: Grid)
    requires
        old(objects)@.len() >= 1,
    ensures
        map_shape(map@),
        dungeon_tiles(map@),
        final(objects)@.len() >= old(objects)@.len(),
        final(objects)@[0] == (Object { x: final(objects)@[0].x, y: final(objects)@[0].y, ..old(objects)@[0] }),
        interior(final(objects)@[0].x as int, final(objects)@[0].y as int),
        !tile_at(map@, final(objects)@[0].x as int, final(objects)@[0].y as int).blocked,
        all_open_reachable(map@, (final(objects)@[0].x as int, final(objects)@[0].y as int)),
        forall|i: int| 1 <= i < old(objects)@.len() ==> final(objects)@[i] == old(objects)@[i],
        forall|i: int|
            old(objects)@.len() <= i < final(objects)@.len() ==> {
                &&& is_new_monster(#[trigger] final(objects)@[i])
                &&& interior(final(objects)@[i].x as int, final(objects)@[i].y as int)
                &&& !tile_at(map@, final(objects)@[i].x as int, final(objects)@[i].y as int).blocked
            },
        forall|i: int, j: int|
            old(objects)@.len() <= j < i < final(objects)@.len() ==> !(#[trigger] final(objects)@[j].x
                == #[trigger] final(objects)@[i].x && final(objects)@[j].y == final(objects)@[i].y),
        exists|plan: Seq<RoomDraw>|
            {
                &&& plan.len() == MAX_ROOMS
                &&& plan_fits(plan)
                &&& plan_drawn(plan)
                &&& #[trigger] built_from(plan, old(objects)@, map@, final(objects)@)
            },
{
    let plan = draw_plan();
    build_dungeon(objects, &plan)
}

/// The rooms a dungeon keeps are pairwise apart: no two of them overlap or touch. And none is
/// skipped for nothing: every drawn room is kept or meets a kept room.
pub proof fn lemma_kept_rooms_apart(plan: Seq<RoomDraw>)
    ensures
        forall|i: int, j: int|
            0 <= i < j < accepted(plan).len() ==> {
                let a = #[trigger] accepted(plan)[i].room;
                let b = #[trigger] accepted(plan)[j].room;
                !(a.x1 <= b.x2 && a.x2 >= b.x1 && a.y1 <= b.y2 && a.y2 >= b.y1)
            },
        forall|k: int|
            #![trigger plan[k]]
            0 <= k < plan.len() ==> {
                ||| exists|i: int| 0 <= i < accepted(plan).len() && #[trigger] accepted(plan)[i] == plan[k]
                ||| exists|i: int|
                    0 <= i < accepted(plan).len() && {
                        let a = #[trigger] accepted(plan)[i].room;
                        let r = plan[k].room;
                        r.x1 <= a.x2 && r.x2 >= a.x1 && r.y1 <= a.y2 && r.y2 >= a.y1
                    }
            },
    decreases plan.len(),
{
    if plan.len() > 0 {
        let prior = plan.drop_last();
        lemma_kept_rooms_apart(prior);
        let earlier = accepted(prior);
        let kept = accepted(plan);
        assert(forall|i: int| 0 <= i < earlier.len() ==> kept[i] == earlier[i]);
        assert forall|i: int, j: int| 0 <= i < j < kept.len() implies {
            let a = #[trigger] kept[i].room;
            let b = #[trigger] kept[j].room;
            !(a.x1 <= b.x2 && a.x2 >= b.x1 && a.y1 <= b.y2 && a.y2 >= b.y1)
        } by {
            if j < earlier.len() {
                assert(kept[i] == earlier[i] && kept[j] == earlier[j]);
                let a = earlier[i].room;
                let b = earlier[j].room;
                assert(!(a.x1 <= b.x2 && a.x2 >= b.x1 && a.y1 <= b.y2 && a.y2 >= b.y1));
            } else {
                assert(!meets_any(plan.last().room, earlier));
                assert(kept[j] == plan.last());
                assert(!plan.last().room.overlaps(earlier[i].room));
            }
        }
        assert forall|k: int| #![trigger plan[k]] 0 <= k < plan.len() implies {
            ||| exists|i: int| 0 <= i < kept.len() && #[trigger] kept[i] == plan[k]
            ||| exists|i: int|
                0 <= i < kept.len() && {
                    let a = #[trigger] kept[i].room;
                    let r = plan[k].room;
                    r.x1 <= a.x2 && r.x2 >= a.x1 && r.y1 <= a.y2 && r.y2 >= a.y1
                }
        } by {
            if k < prior.len() {
                assert(prior[k] == plan[k]);
                if exists|i: int| 0 <= i < earlier.len() && #[trigger] earlier[i] == prior[k] {
                    let i = choose|i: int| 0 <= i < earlier.len() && #[trigger] earlier[i] == prior[k];
                    assert(kept[i] == plan[k]);
                } else {
                    let i = choose|i: int|
                        0 <= i < earlier.len() && {
                            let a = #[trigger] earlier[i].room;
                            let r = prior[k].room;
                            r.x1 <= a.x2 && r.x2 >= a.x1 && r.y1 <= a.y2 && r.y2 >= a.y1
                        };
                    assert(kept[i] == earlier[i]);
                }
            } else if meets_any(plan.last().room, earlier) {
                let i = choose|i: int| 0 <= i < earlier.len() && plan.last().room.overlaps(#[trigger] earlier[i].room);
                assert(kept[i] == earlier[i]);
            } else {
                assert(kept[earlier.len() as int] == plan[k]);
            }
        }
    }
}

} // verus!
