use vstd::prelude::*;
use crate::map::{Grid, Tile, in_map, tile_at};
use crate::object::{Object, attack_fits, attack_outcome};
use crate::game::Game;

verus! {

/// Whether some blocking object stands at `(x, y)`.
pub open spec fn occupied(objects: Seq<Object>, x: int, y: int) -> bool {
    exists|i: int| 0 <= i < objects.len() && #[trigger] objects[i].blocks && objects[i].x == x && objects[i].y == y
}

/// Whether `(x, y)` cannot be entered: a blocking tile, or a blocking object on it.
pub open spec fn blocked_at(map: Seq<Vec<Tile>>, objects: Seq<Object>, x: int, y: int) -> bool {
    tile_at(map, x, y).blocked || occupied(objects, x, y)
}

/// Whether `(x, y)` is a blocking tile or holds a blocking object.
pub fn is_blocked(x: i32, y: i32, map: &Grid, objects: &[Object]) -> (b: bool)
    requires
        in_map(map@, x as int, y as int),
    ensures
        b == blocked_at(map@, objects@, x as int, y as int),
{
    if map[x as usize][y as usize].blocked {
        return true;
    }
    let mut i: usize = 0;
    while i < objects.len()
        invariant
            i <= objects@.len(),
            forall|j: int| 0 <= j < i ==> !(#[trigger] objects@[j].blocks && objects@[j].x == x && objects@[j].y == y),
        decreases objects@.len() - i,
    {
        if objects[i].blocks && objects[i].x == x && objects[i].y == y {
            return true;
        }
        i = i + 1;
    }
    false
}

/// Borrows two distinct elements of a slice mutably at once.
pub fn mut_two<T>(first_index: usize, second_index: usize, items: &mut [T]) -> (pair: (&mut T, &mut T))
    requires
        first_index != second_index,
        first_index < old(items)@.len(),
        second_index < old(items)@.len(),
    ensures
        *pair.0 == old(items)@[first_index as int],
        *pair.1 == old(items)@[second_index as int],
        final(items)@ == old(items)@.update(first_index as int, *final(pair.0)).update(
            second_index as int,
            *final(pair.1),
        ),
{
    let split_at_index = if first_index >= second_index { first_index } else { second_index };
    let (first_slice, second_slice) = items.split_at_mut(split_at_index);
    if first_index < second_index {
        (&mut first_slice[first_index], &mut second_slice[0])
    } else {
        (&mut second_slice[0], &mut first_slice[second_index])
    }
}

/// The index of the player among the objects.
pub const PLAYER: usize = 0;

/// `objects` with the object at `id` moved to `(x, y)`.
pub open spec fn placed(objects: Seq<Object>, id: int, x: int, y: int) -> Seq<Object> {
    objects.update(id, Object { x: x as i32, y: y as i32, ..objects[id] })
}

/// The objects after the one at `id` tries to step by `(dx, dy)`:
/// it moves unless the destination is blocked.
pub open spec fn step_result(map: Seq<Vec<Tile>>, objects: Seq<Object>, id: int, dx: int, dy: int) -> Seq<Object> {
    let x = objects[id].x + dx;
    let y = objects[id].y + dy;
    if blocked_at(map, objects, x, y) {
        objects
    } else {
        placed(objects, id, x, y)
    }
}

/// Whether the object at `id` can try to step by `(dx, dy)`: the destination is a tile of the map.
pub open spec fn step_fits(map: Seq<Vec<Tile>>, objects: Seq<Object>, id: int, dx: int, dy: int) -> bool {
    &&& 0 <= id < objects.len()
    &&& i32::MIN <= objects[id].x + dx <= i32::MAX
    &&& i32::MIN <= objects[id].y + dy <= i32::MAX
    &&& in_map(map, objects[id].x + dx, objects[id].y + dy)
}

/// Whether `o` is a fighter standing at `(x, y)`.
pub open spec fn fighter_at(o: Object, x: int, y: int) -> bool {
    o.fighter is Some && o.x == x && o.y == y
}

/// Whether `i` is the first index of a fighter standing at `(x, y)`.
pub open spec fn first_fighter_at(objects: Seq<Object>, x: int, y: int, i: int) -> bool {
    &&& 0 <= i < objects.len()
    &&& fighter_at(objects[i], x, y)
    &&& forall|j: int| 0 <= j < i ==> !fighter_at(#[trigger] objects[j], x, y)
}

/// Whether no fighter stands at `(x, y)`.
pub open spec fn no_fighter_at(objects: Seq<Object>, x: int, y: int) -> bool {
    forall|j: int| 0 <= j < objects.len() ==> !fighter_at(#[trigger] objects[j], x, y)
}

/// `after` and `log_after` are what an attack of the object at `a` on the one at `t`
/// makes of `before` and `log_before`: only the target changes.
pub open spec fn attacked(
    before: Seq<Object>,
    after: Seq<Object>,
    a: int,
    t: int,
    log_before: Seq<(Seq<char>, crate::colors::Color)>,
    log_after: Seq<(Seq<char>, crate::colors::Color)>,
) -> bool {
    &&& after == before.update(t, after[t])
    &&& attack_outcome(before[a], before[t], after[t], log_before, log_after)
}

/// Moves the object at `id` by `(dx, dy)` unless the destination is blocked.
pub fn move_by(id: usize, dx: i32, dy: i32, map: &Grid, objects: &mut [Object])
    requires
        step_fits(map@, old(objects)@, id as int, dx as int, dy as int),
    ensures
        final(objects)@ == step_result(map@, old(objects)@, id as int, dx as int, dy as int),
{
    let (x, y) = objects[id].pos();
    if !is_blocked(x + dx, y + dy, map, objects) {
        objects[id].set_pos(x + dx, y + dy);
    }
}

/// Whether the player can act toward `(dx, dy)` without a fault: the target square is computable,
/// the player is not its own target, an attack's damage fits, and a move stays on the map.
pub open spec fn player_action_fits(map: Seq<Vec<Tile>>, objects: Seq<Object>, dx: int, dy: int) -> bool {
    let x = objects[0].x + dx;
    let y = objects[0].y + dy;
    &&& objects.len() >= 1
    &&& i32::MIN <= x <= i32::MAX
    &&& i32::MIN <= y <= i32::MAX
    &&& !fighter_at(objects[0], x, y)
    &&& forall|i: int| first_fighter_at(objects, x, y, i) ==> attack_fits(objects[0], objects[i])
    &&& no_fighter_at(objects, x, y) ==> in_map(map, x, y)
}

/// `after` and `log_after` are what the player's action toward `(dx, dy)` makes of
/// `before` and `log_before`: an attack on the first fighter standing there, or else a step there.
pub open spec fn player_acted(
    map: Seq<Vec<Tile>>,
    before: Seq<Object>,
    after: Seq<Object>,
    log_before: Seq<(Seq<char>, crate::colors::Color)>,
    log_after: Seq<(Seq<char>, crate::colors::Color)>,
    dx: int,
    dy: int,
) -> bool {
    let x = before[0].x + dx;
    let y = before[0].y + dy;
    &&& forall|t: int| first_fighter_at(before, x, y, t) ==> attacked(before, after, 0, t, log_before, log_after)
    &&& no_fighter_at(before, x, y) ==> {
        &&& after == step_result(map, before, 0, dx, dy)
        &&& log_after == log_before
    }
}

/// The player acts toward `(dx, dy)`: attacks the first fighter standing there, or else steps there.
pub fn player_move_or_attack(dx: i32, dy: i32, game: &mut Game, objects: &mut [Object])
    requires
        player_action_fits(old(game).map@, old(objects)@, dx as int, dy as int),
    ensures
        final(game).map == old(game).map,
        player_acted(
            old(game).map@,
            old(objects)@,
            final(objects)@,
            old(game).messages@,
            final(game).messages@,
            dx as int,
            dy as int,
        ),
{
    let x = objects[PLAYER].x + dx;
    let y = objects[PLAYER].y + dy;
    let mut i: usize = 0;
    let mut target_id: Option<usize> = None;
    while i < objects.len() && target_id.is_none()
        invariant
            i <= objects@.len(),
            forall|j: int| 0 <= j < i ==> !fighter_at(#[trigger] objects@[j], x as int, y as int),
            target_id matches Some(t) ==> first_fighter_at(objects@, x as int, y as int, t as int),
        decreases objects@.len() - i + (if target_id is None { 1int } else { 0 }),
    {
        if objects[i].fighter.is_some() && objects[i].x == x && objects[i].y == y {
            target_id = Some(i);
        } else {
            i = i + 1;
        }
    }
    match target_id {
        Some(target_id) => {
            let ghost before = objects@;
            let (player, target) = mut_two(PLAYER, target_id, objects);
            player.attack(target, game);
            proof {
                assert(objects@ =~= before.update(target_id as int, objects@[target_id as int]));
                assert forall|t: int| first_fighter_at(before, x as int, y as int, t) implies t == target_id by {
                    if t < target_id {
                        assert(!fighter_at(before[t], x as int, y as int));
                    } else if t > target_id {
                        assert(!fighter_at(before[target_id as int], x as int, y as int));
                    }
                }
            }
        },
        None => {
            move_by(PLAYER, dx, dy, &game.map, objects);
        },
    }
}

/// One component of the unit step along `(d, other)`: the component `d / sqrt(d² + other²)`
/// rounded to the nearest integer, which is the sign of `d` when `|d|` is at least half the length.
pub open spec fn unit_step(d: int, other: int) -> int {
    if d != 0 && 3 * (d * d) >= other * other {
        if d > 0 {
            1
        } else {
            -1
        }
    } else {
        0
    }
}

/// A step toward a target is at most one square on each axis, never away from it, and not
/// empty unless the target is where the object stands.
pub proof fn lemma_unit_step_heads_for_target(dx: int, dy: int)
    ensures
        -1 <= unit_step(dx, dy) <= 1,
        unit_step(dx, dy) == 0 || (unit_step(dx, dy) > 0) == (dx > 0),
        (dx != 0 || dy != 0) ==> (unit_step(dx, dy) != 0 || unit_step(dy, dx) != 0),
{
    if dx != 0 || dy != 0 {
        if dx * dx >= dy * dy {
            assert(dx != 0) by (nonlinear_arith)
                requires
                    dx * dx >= dy * dy,
                    dx != 0 || dy != 0,
            ;
            assert(3 * (dx * dx) >= dy * dy) by (nonlinear_arith)
                requires
                    dx * dx >= dy * dy,
            ;
        } else {
            assert(dy != 0) by (nonlinear_arith)
                requires
                    dx * dx < dy * dy,
            ;
            assert(3 * (dy * dy) >= dx * dx) by (nonlinear_arith)
                requires
                    dx * dx < dy * dy,
            ;
        }
    }
}

/// Whether `(sx, sy)` is a step toward the offset `(dx, dy)`: at most one square on each axis,
/// never away from it, and not empty unless the offset is.
pub open spec fn toward_step(dx: int, dy: int, sx: int, sy: int) -> bool {
    &&& -1 <= sx <= 1
    &&& -1 <= sy <= 1
    &&& sx != 0 ==> (sx > 0) == (dx > 0) && dx != 0
    &&& sy != 0 ==> (sy > 0) == (dy > 0) && dy != 0
    &&& (dx != 0 || dy != 0) ==> (sx != 0 || sy != 0)
}

/// `after` is `before` with the object at `id` stepping toward the offset `(dx, dy)`: by the
/// exact rounding of `unit_step` while the squared distance is `rounding_exact`, and otherwise by
/// some step toward the offset.
pub open spec fn headed(
    map: Seq<Vec<Tile>>,
    before: Seq<Object>,
    after: Seq<Object>,
    id: int,
    dx: int,
    dy: int,
) -> bool {
    &&& rounding_exact(dx * dx + dy * dy) ==> after == step_result(map, before, id, unit_step(dx, dy), unit_step(dy, dx))
    &&& exists|sx: int, sy: int| toward_step(dx, dy, sx, sy) && after == #[trigger] step_result(map, before, id, sx, sy)
}

/// Whether a squared distance is small enough that rounding `d / sqrt(d² + other²)` in single
/// precision, as the step toward a target is computed, gives the step of `unit_step`: below 2^19.
/// The nearest that `3 d²` and `other²` come without being equal is one apart, which keeps the
/// exact quotient farther from one half than single precision errs in that range.
pub open spec fn rounding_exact(distance_squared: int) -> bool {
    distance_squared < 0x80000
}

/// Whether the object at `id` can head for `(target_x, target_y)` without a fault.
pub open spec fn heading_fits(
    map: Seq<Vec<Tile>>,
    objects: Seq<Object>,
    id: int,
    target_x: int,
    target_y: int,
) -> bool {
    let dx = target_x - objects[id].x;
    let dy = target_y - objects[id].y;
    &&& 0 <= id < objects.len()
    &&& i32::MIN <= dx <= i32::MAX
    &&& i32::MIN <= dy <= i32::MAX
    &&& dx * dx + dy * dy <= i32::MAX
    &&& step_fits(map, objects, id, unit_step(dx, dy), unit_step(dy, dx))
}

/// Steps the object at `id` one square toward `(target_x, target_y)`: the direction to the
/// target scaled to length one and rounded, so diagonal steps happen near the diagonals.
/// The rounding is decided exactly on integers (`unit_step`), which is what rounding the quotient
/// in single precision gives while the squared distance is below 2^19 (`rounding_exact`), far
/// beyond any distance on the map; beyond that bound only a step toward the target is stated.
pub fn move_towards(id: usize, target_x: i32, target_y: i32, map: &Grid, objects: &mut [Object])
    requires
        heading_fits(map@, old(objects)@, id as int, target_x as int, target_y as int),
    ensures
        headed(
            map@,
            old(objects)@,
            final(objects)@,
            id as int,
            target_x - old(objects)@[id as int].x,
            target_y - old(objects)@[id as int].y,
        ),
{
    let dx = target_x - objects[id].x;
    let dy = target_y - objects[id].y;
    proof {
        assert(0 <= dx * dx) by (nonlinear_arith);
        assert(0 <= dy * dy) by (nonlinear_arith);
    }
    let dx2: i32 = dx * dx;
    let dy2: i32 = dy * dy;
    let step_x: i32 = if dx != 0 && 3 * (dx2 as i64) >= dy2 as i64 {
        if dx > 0 {
            1
        } else {
            -1
        }
    } else {
        0
    };
    let step_y: i32 = if dy != 0 && 3 * (dy2 as i64) >= dx2 as i64 {
        if dy > 0 {
            1
        } else {
            -1
        }
    } else {
        0
    };
    move_by(id, step_x, step_y, map, objects);
    proof {
        lemma_unit_step_heads_for_target(dx as int, dy as int);
        lemma_unit_step_heads_for_target(dy as int, dx as int);
        assert(toward_step(dx as int, dy as int, step_x as int, step_y as int));
    }
}

/// The squared distance between two objects.
pub open spec fn distance_squared(a: Object, b: Object) -> int {
    (b.x - a.x) * (b.x - a.x) + (b.y - a.y) * (b.y - a.y)
}

/// Whether the object has a fighter with hit points left.
pub open spec fn has_hp(o: Object) -> bool {
    o.fighter matches Some(f) && f.hp > 0
}

/// Whether the enemy at `enemy_id` can take its turn without a fault; out of view it does
/// nothing, so only its index is asked for then.
pub open spec fn ai_turn_fits(map: Seq<Vec<Tile>>, objects: Seq<Object>, enemy_id: int, in_fov: bool) -> bool {
    let enemy = objects[enemy_id];
    let player = objects[0];
    &&& 0 <= enemy_id < objects.len()
    &&& in_fov ==> i32::MIN <= player.x - enemy.x <= i32::MAX
    &&& in_fov ==> i32::MIN <= player.y - enemy.y <= i32::MAX
    &&& in_fov ==> distance_squared(enemy, player) <= i32::MAX
    &&& in_fov && distance_squared(enemy, player) >= 4 ==> heading_fits(
        map,
        objects,
        enemy_id,
        player.x as int,
        player.y as int,
    )
    &&& in_fov && distance_squared(enemy, player) < 4 && has_hp(player) ==> {
        &&& enemy_id != 0
        &&& attack_fits(enemy, player)
    }
}

/// `after` and `log_after` are what the turn of the enemy at `enemy_id` makes of `before` and
/// `log_before`: when in view, it steps toward a player two or more squares away, and otherwise
/// attacks a player with hit points left.
pub open spec fn ai_took_turn(
    map: Seq<Vec<Tile>>,
    before: Seq<Object>,
    after: Seq<Object>,
    log_before: Seq<(Seq<char>, crate::colors::Color)>,
    log_after: Seq<(Seq<char>, crate::colors::Color)>,
    enemy_id: int,
    in_fov: bool,
) -> bool {
    let enemy = before[enemy_id];
    let player = before[0];
    let d2 = distance_squared(enemy, player);
    if in_fov && d2 >= 4 {
        &&& headed(map, before, after, enemy_id, player.x - enemy.x, player.y - enemy.y)
        &&& log_after == log_before
    } else if in_fov && has_hp(player) {
        attacked(before, after, enemy_id, 0, log_before, log_after)
    } else {
        &&& after == before
        &&& log_after == log_before
    }
}

/// An enemy's turn, when the player can see it: it walks toward the player while two or more
/// squares away, and otherwise attacks a player who still has hit points.
/// `in_fov` says whether the enemy stands in the player's field of view.
pub fn ai_take_turn(enemy_id: usize, in_fov: bool, game: &mut Game, objects: &mut [Object])
    requires
        ai_turn_fits(old(game).map@, old(objects)@, enemy_id as int, in_fov),
    ensures
        final(game).map == old(game).map,
        ai_took_turn(
            old(game).map@,
            old(objects)@,
            final(objects)@,
            old(game).messages@,
            final(game).messages@,
            enemy_id as int,
            in_fov,
        ),
{
    let (enemy_x, enemy_y) = objects[enemy_id].pos();
    if in_fov {
        let (player_x, player_y) = objects[PLAYER].pos();
        let dx = player_x - enemy_x;
        let dy = player_y - enemy_y;
        proof {
            assert(0 <= dx * dx) by (nonlinear_arith);
            assert(0 <= dy * dy) by (nonlinear_arith);
        }
        let distance_squared: i32 = dx * dx + dy * dy;
        if distance_squared >= 4 {
            move_towards(enemy_id, player_x, player_y, &game.map, objects);
        } else {
            let player_alive = match objects[PLAYER].fighter {
                Some(f) => f.hp > 0,
                None => false,
            };
            if player_alive {
                let ghost before = objects@;
                let (enemy, player) = mut_two(enemy_id, PLAYER, objects);
                enemy.attack(player, game);
                assert(objects@ =~= before.update(0, objects@[0]));
            }
        }
    }
}

/// What the player's input amounted to.
#[derive(Clone, Copy, Debug, PartialEq, Eq, Structural)]
pub enum PlayerAction {
    TookTurn,
    DidntTakeTurn,
    Exit,
}

/// The keys the game responds to; every other key is `Other`.
#[derive(Clone, Copy, Debug, PartialEq, Eq, Structural)]
pub enum KeyCode {
    Enter,
    Escape,
    Up,
    Down,
    Left,
    Right,
    Other,
}

/// A key press: the key and whether Alt was held.
#[derive(Clone, Copy, Debug, PartialEq, Eq, Structural)]
pub struct Key {
    pub code: KeyCode,
    pub alt: bool,
}

/// The step an arrow key asks for; the top left corner is `(0, 0)`.
pub open spec fn key_direction(code: KeyCode) -> Option<(int, int)> {
    match code {
        KeyCode::Up => Some((0, -1)),
        KeyCode::Down => Some((0, 1)),
        KeyCode::Left => Some((-1, 0)),
        KeyCode::Right => Some((1, 0)),
        _ => None,
    }
}

/// Whether the enemies act after the player's input: only when the player is alive and the
/// input took a turn.
pub fn enemies_act(action: PlayerAction, objects: &[Object]) -> (act: bool)
    requires
        objects@.len() >= 1,
    ensures
        act == (objects@[0].alive && action != PlayerAction::DidntTakeTurn),
{
    objects[PLAYER].alive && action != PlayerAction::DidntTakeTurn
}

/// `action`, the full-screen flag, `after` and `log_after` are what answering `key` makes of
/// the flag, `before` and `log_before` (see `handle_keys`).
pub open spec fn keys_handled(
    key: Key,
    fullscreen_before: bool,
    fullscreen_after: bool,
    map: Seq<Vec<Tile>>,
    before: Seq<Object>,
    after: Seq<Object>,
    log_before: Seq<(Seq<char>, crate::colors::Color)>,
    log_after: Seq<(Seq<char>, crate::colors::Color)>,
    action: PlayerAction,
) -> bool {
    if key.code == KeyCode::Enter && key.alt {
        &&& action == PlayerAction::DidntTakeTurn
        &&& fullscreen_after == !fullscreen_before
        &&& after == before
        &&& log_after == log_before
    } else {
        &&& fullscreen_after == fullscreen_before
        &&& if key.code == KeyCode::Escape {
            &&& action == PlayerAction::Exit
            &&& after == before
            &&& log_after == log_before
        } else {
            match key_direction(key.code) {
                Some(d) => if before[0].alive {
                    &&& action == PlayerAction::TookTurn
                    &&& player_acted(map, before, after, log_before, log_after, d.0, d.1)
                } else {
                    &&& action == PlayerAction::DidntTakeTurn
                    &&& after == before
                    &&& log_after == log_before
                },
                None => {
                    &&& action == PlayerAction::DidntTakeTurn
                    &&& after == before
                    &&& log_after == log_before
                },
            }
        }
    }
}

/// Answers one key press: Alt+Enter toggles full screen, Escape quits, and an arrow key
/// makes a living player move or attack in that direction, which takes a turn.
pub fn handle_keys(key: Key, fullscreen: &mut bool, game: &mut Game, objects: &mut [Object]) -> (action: PlayerAction)
    requires
        old(objects)@.len() >= 1,
        old(objects)@[0].alive && !(key.code == KeyCode::Enter && key.alt) ==> match key_direction(key.code) {
            Some(d) => player_action_fits(old(game).map@, old(objects)@, d.0, d.1),
            None => true,
        },
    ensures
        final(game).map == old(game).map,
        keys_handled(
            key,
            *old(fullscreen),
            *final(fullscreen),
            old(game).map@,
            old(objects)@,
            final(objects)@,
            old(game).messages@,
            final(game).messages@,
            action,
        ),
{
    let player_alive = objects[PLAYER].alive;
    match (key.code, key.alt, player_alive) {
        (KeyCode::Enter, true, _) => {
            *fullscreen = !*fullscreen;
            PlayerAction::DidntTakeTurn
        },
        (KeyCode::Escape, _, _) => PlayerAction::Exit,
        (KeyCode::Up, _, true) => {
            player_move_or_attack(0, -1, game, objects);
            PlayerAction::TookTurn
        },
        (KeyCode::Down, _, true) => {
            player_move_or_attack(0, 1, game, objects);
            PlayerAction::TookTurn
        },
        (KeyCode::Left, _, true) => {
            player_move_or_attack(-1, 0, game, objects);
            PlayerAction::TookTurn
        },
        (KeyCode::Right, _, true) => {
            player_move_or_attack(1, 0, game, objects);
            PlayerAction::TookTurn
        },
        _ => PlayerAction::DidntTakeTurn,
    }
}

/// A move never lands on another blocking object: when some other object that blocks stands
/// on the destination, the objects stay as they were.
pub proof fn lemma_step_never_onto_blocker(
    map: Seq<Vec<Tile>>,
    objects: Seq<Object>,
    id: int,
    dx: int,
    dy: int,
    j: int,
)
    requires
        0 <= id < objects.len(),
        0 <= j < objects.len(),
        j != id,
        objects[j].blocks,
        objects[j].x == objects[id].x + dx,
        objects[j].y == objects[id].y + dy,
    ensures
        step_result(map, objects, id, dx, dy) == objects,
{
    assert(objects[j].blocks && objects[j].x == objects[id].x + dx && objects[j].y == objects[id].y + dy);
}

/// A move onto an open tile where no blocking object stands takes the object there and leaves
/// every other object as it was.
pub proof fn lemma_step_onto_free_square(map: Seq<Vec<Tile>>, objects: Seq<Object>, id: int, dx: int, dy: int)
    requires
        0 <= id < objects.len(),
        i32::MIN <= objects[id].x + dx <= i32::MAX,
        i32::MIN <= objects[id].y + dy <= i32::MAX,
        !tile_at(map, objects[id].x + dx, objects[id].y + dy).blocked,
        forall|j: int|
            0 <= j < objects.len() && #[trigger] objects[j].blocks ==> !(objects[j].x == objects[id].x + dx
                && objects[j].y == objects[id].y + dy),
    ensures
        ({
            let after = step_result(map, objects, id, dx, dy);
            &&& after.len() == objects.len()
            &&& after[id].x == objects[id].x + dx
            &&& after[id].y == objects[id].y + dy
            &&& forall|j: int| 0 <= j < objects.len() && j != id ==> after[j] == objects[j]
        }),
{
}

/// Each component of the step toward an offset `(dx, dy)` is that component of the direction
/// `(dx, dy) / sqrt(dx² + dy²)` rounded to the nearest integer, halves away from zero: the sign
/// of the component when its share of the length is at least one half (`4 dx² >= dx² + dy²`),
/// and zero otherwise. While the squared distance is `rounding_exact`, a step toward a target is
/// exactly that one.
pub proof fn lemma_step_is_rounded_direction(
    map: Seq<Vec<Tile>>,
    before: Seq<Object>,
    after: Seq<Object>,
    id: int,
    dx: int,
    dy: int,
)
    requires
        headed(map, before, after, id, dx, dy),
        rounding_exact(dx * dx + dy * dy),
    ensures
        ({
            let sx = if 4 * (dx * dx) >= dx * dx + dy * dy {
                if dx > 0 {
                    1int
                } else if dx < 0 {
                    -1int
                } else {
                    0int
                }
            } else {
                0int
            };
            let sy = if 4 * (dy * dy) >= dx * dx + dy * dy {
                if dy > 0 {
                    1int
                } else if dy < 0 {
                    -1int
                } else {
                    0int
                }
            } else {
                0int
            };
            after == step_result(map, before, id, sx, sy)
        }),
{
    if dx == 0 {
        assert(dx * dx == 0) by (nonlinear_arith)
            requires
                dx == 0,
        ;
    }
    if dy == 0 {
        assert(dy * dy == 0) by (nonlinear_arith)
            requires
                dy == 0,
        ;
    }
}

/// An arrow key makes a living player take a turn and step one square its way (Up `(0, -1)`,
/// Down `(0, 1)`, Left `(-1, 0)`, Right `(1, 0)`) onto an open tile where nothing stands,
/// leaving the log as it was.
pub proof fn lemma_arrow_moves_player(
    key: Key,
    fullscreen_before: bool,
    fullscreen_after: bool,
    map: Seq<Vec<Tile>>,
    before: Seq<Object>,
    after: Seq<Object>,
    log_before: Seq<(Seq<char>, crate::colors::Color)>,
    log_after: Seq<(Seq<char>, crate::colors::Color)>,
    action: PlayerAction,
    dx: int,
    dy: int,
)
    requires
        keys_handled(key, fullscreen_before, fullscreen_after, map, before, after, log_before, log_after, action),
        before.len() >= 1,
        before[0].alive,
        (key.code == KeyCode::Up && dx == 0 && dy == -1) || (key.code == KeyCode::Down && dx == 0 && dy == 1)
            || (key.code == KeyCode::Left && dx == -1 && dy == 0) || (key.code == KeyCode::Right && dx == 1
            && dy == 0),
        i32::MIN <= before[0].x + dx <= i32::MAX,
        i32::MIN <= before[0].y + dy <= i32::MAX,
        !tile_at(map, before[0].x + dx, before[0].y + dy).blocked,
        forall|j: int|
            0 <= j < before.len() ==> !(#[trigger] before[j].x == before[0].x + dx && before[j].y == before[0].y
                + dy),
    ensures
        action == PlayerAction::TookTurn,
        fullscreen_after == fullscreen_before,
        after[0].x == before[0].x + dx,
        after[0].y == before[0].y + dy,
        log_after == log_before,
{
    let d = key_direction(key.code)->0;
    assert(d.0 == dx && d.1 == dy);
    let x = before[0].x + dx;
    let y = before[0].y + dy;
    assert(no_fighter_at(before, x, y));
    assert(!occupied(before, x, y));
}

} // verus!
