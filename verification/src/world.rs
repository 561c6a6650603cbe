use vstd::prelude::*;
use vstd::string::StringExecFns;
use crate::colors::{black, white};
use crate::dungeon::{MAX_ROOMS, RoomDraw, built_from, plan_drawn, plan_fits, MAP_HEIGHT, dungeon_tiles, interior, is_new_monster, make_map, map_shape};
use crate::game::{Game, Messages};
use crate::map::{Tile, in_map, same_shape, tile_at};
use crate::reach::all_open_reachable;
use crate::object::{DeathCallback, Fighter, Object, attack_fits, attack_outcome};
use crate::turns::{
    Key, PlayerAction, ai_take_turn, ai_took_turn, ai_turn_fits, attacked, blocked_at,
    distance_squared, enemies_act, fighter_at, first_fighter_at, handle_keys, has_hp,
    key_direction, keys_handled, no_fighter_at, player_acted, player_action_fits, step_fits,
    step_result, toward_step, unit_step,
};

verus! {

/// The fighter of the object at index `i` fits the game: power and defense are never
/// negative, and every fighter but the player's is an enemy with hit points left.
pub open spec fn fighter_fits(o: Object, i: int) -> bool {
    match o.fighter {
        Some(f) => {
            &&& f.power >= 0
            &&& f.defense >= 0
            &&& i != 0 ==> f.on_death == DeathCallback::Enemy && f.hp > 0
        },
        None => true,
    }
}

/// The state that the game keeps between turns: a walled map of the full size, the player
/// first and without a behaviour of its own, every object off the outer ring, every fighter fitting.
pub open spec fn world_ok(map: Seq<Vec<Tile>>, objects: Seq<Object>) -> bool {
    &&& map_shape(map)
    &&& forall|x: int, y: int| in_map(map, x, y) && !interior(x, y) ==> #[trigger] tile_at(map, x, y).blocked
    &&& objects.len() >= 1
    &&& objects[0].ai is None
    &&& forall|i: int| 0 <= i < objects.len() ==> interior(#[trigger] objects[i].x as int, objects[i].y as int)
    &&& forall|i: int| 0 <= i < objects.len() ==> fighter_fits(#[trigger] objects[i], i)
}

/// Whether `(dx, dy)` is one of the four steps of the arrow keys.
pub open spec fn arrow_step(dx: int, dy: int) -> bool {
    (dx == 0 && (dy == 1 || dy == -1)) || (dy == 0 && (dx == 1 || dx == -1))
}

/// Some fighter standing at `(x, y)` means a first one stands there.
pub proof fn lemma_first_fighter_exists(objects: Seq<Object>, x: int, y: int, j: int)
    requires
        0 <= j < objects.len(),
        fighter_at(objects[j], x, y),
    ensures
        exists|i: int| first_fighter_at(objects, x, y, i),
    decreases j,
{
    if exists|k: int| 0 <= k < j && fighter_at(#[trigger] objects[k], x, y) {
        let k = choose|k: int| 0 <= k < j && fighter_at(#[trigger] objects[k], x, y);
        lemma_first_fighter_exists(objects, x, y, k);
    } else {
        assert(first_fighter_at(objects, x, y, j));
    }
}

/// A step from a square off the outer ring stays on the map, and an unblocked destination
/// is off the outer ring too.
proof fn lemma_step_stays_inside(map: Seq<Vec<Tile>>, objects: Seq<Object>, id: int, dx: int, dy: int)
    requires
        world_ok(map, objects),
        0 <= id < objects.len(),
        -1 <= dx <= 1,
        -1 <= dy <= 1,
    ensures
        step_fits(map, objects, id, dx, dy),
        world_ok(map, step_result(map, objects, id, dx, dy)),
{
    let o = objects[id];
    assert(interior(o.x as int, o.y as int));
    let x = o.x + dx;
    let y = o.y + dy;
    assert(map[x]@.len() == MAP_HEIGHT);
    assert(in_map(map, x, y));
    let after = step_result(map, objects, id, dx, dy);
    if !blocked_at(map, objects, x, y) {
        assert(!tile_at(map, x, y).blocked);
        assert(interior(x, y));
        assert forall|i: int| 0 <= i < after.len() implies interior(#[trigger] after[i].x as int, after[i].y as int) by {
            if i != id {
                assert(after[i] == objects[i]);
            }
        }
        assert forall|i: int| 0 <= i < after.len() implies fighter_fits(#[trigger] after[i], i) by {
            if i != id {
                assert(after[i] == objects[i]);
            } else {
                assert(fighter_fits(objects[i], i));
            }
        }
    }
}

/// Damage dealt to a fitting fighter leaves its square and fit, and never gives the player
/// a behaviour.
proof fn lemma_hit_keeps_fit(
    attacker: Object,
    target: Object,
    after: Object,
    log_before: Seq<(Seq<char>, crate::colors::Color)>,
    log_after: Seq<(Seq<char>, crate::colors::Color)>,
    i: int,
)
    requires
        fighter_fits(target, i),
        attack_outcome(attacker, target, after, log_before, log_after),
        i != 0 ==> target.fighter is Some,
        i == 0 ==> has_hp(target),
        attacker.fighter matches Some(f) ==> f.power >= 0,
    ensures
        after.x == target.x,
        after.y == target.y,
        fighter_fits(after, i),
        target.ai is None ==> after.ai is None,
{
}

/// From a kept state, an arrow step of the player can be taken without a fault.
pub proof fn lemma_player_action_fits(map: Seq<Vec<Tile>>, objects: Seq<Object>, dx: int, dy: int)
    requires
        world_ok(map, objects),
        arrow_step(dx, dy),
    ensures
        player_action_fits(map, objects, dx, dy),
{
    let p = objects[0];
    assert(interior(p.x as int, p.y as int));
    let x = p.x + dx;
    let y = p.y + dy;
    assert(map[x]@.len() == MAP_HEIGHT);
    assert forall|i: int| first_fighter_at(objects, x, y, i) implies attack_fits(objects[0], objects[i]) by {
        assert(fighter_fits(objects[0], 0));
        assert(fighter_fits(objects[i], i));
    }
}

/// Every action of the player from a kept state keeps the state: the law that no object ever
/// leaves the walled inside of the map, and every fighter keeps fitting.
pub proof fn lemma_player_action_keeps_world(
    map: Seq<Vec<Tile>>,
    before: Seq<Object>,
    after: Seq<Object>,
    log_before: Seq<(Seq<char>, crate::colors::Color)>,
    log_after: Seq<(Seq<char>, crate::colors::Color)>,
    dx: int,
    dy: int,
)
    requires
        world_ok(map, before),
        arrow_step(dx, dy),
        player_acted(map, before, after, log_before, log_after, dx, dy),
    ensures
        world_ok(map, after),
        after.len() == before.len(),
{
    let x = before[0].x + dx;
    let y = before[0].y + dy;
    if no_fighter_at(before, x, y) {
        lemma_step_stays_inside(map, before, 0, dx, dy);
    } else {
        let j = choose|j: int| 0 <= j < before.len() && fighter_at(#[trigger] before[j], x, y);
        lemma_first_fighter_exists(before, x, y, j);
        let t = choose|t: int| first_fighter_at(before, x, y, t);
        assert(attacked(before, after, 0, t, log_before, log_after));
        assert(t != 0);
        assert(fighter_fits(before[t], t));
        assert(fighter_fits(before[0], 0));
        lemma_hit_keeps_fit(before[0], before[t], after[t], log_before, log_after, t);
        assert forall|i: int| 0 <= i < after.len() implies interior(#[trigger] after[i].x as int, after[i].y as int) by {
            if i != t {
                assert(after[i] == before[i]);
            }
            assert(interior(before[i].x as int, before[i].y as int));
        }
        assert forall|i: int| 0 <= i < after.len() implies fighter_fits(#[trigger] after[i], i) by {
            if i != t {
                assert(after[i] == before[i]);
            }
            assert(fighter_fits(before[i], i));
        }
    }
}

/// From a kept state, the turn of any object with a behaviour can be taken without a fault.
pub proof fn lemma_ai_turn_fits(map: Seq<Vec<Tile>>, objects: Seq<Object>, enemy_id: int, in_fov: bool)
    requires
        world_ok(map, objects),
        0 <= enemy_id < objects.len(),
        objects[enemy_id].ai is Some,
    ensures
        ai_turn_fits(map, objects, enemy_id, in_fov),
{
    let e = objects[enemy_id];
    let p = objects[0];
    assert(interior(e.x as int, e.y as int));
    assert(interior(p.x as int, p.y as int));
    let dx = p.x - e.x;
    let dy = p.y - e.y;
    assert(dx * dx <= 80 * 80) by (nonlinear_arith)
        requires
            -80 <= dx <= 80,
    ;
    assert(dy * dy <= 80 * 80) by (nonlinear_arith)
        requires
            -80 <= dy <= 80,
    ;
    if in_fov && distance_squared(e, p) >= 4 {
        lemma_step_stays_inside(map, objects, enemy_id, unit_step(dx, dy), unit_step(dy, dx));
    }
    assert(fighter_fits(e, enemy_id));
    assert(fighter_fits(p, 0));
}

/// Every enemy turn from a kept state keeps the state.
pub proof fn lemma_ai_turn_keeps_world(
    map: Seq<Vec<Tile>>,
    before: Seq<Object>,
    after: Seq<Object>,
    log_before: Seq<(Seq<char>, crate::colors::Color)>,
    log_after: Seq<(Seq<char>, crate::colors::Color)>,
    enemy_id: int,
    in_fov: bool,
)
    requires
        world_ok(map, before),
        0 <= enemy_id < before.len(),
        before[enemy_id].ai is Some,
        ai_took_turn(map, before, after, log_before, log_after, enemy_id, in_fov),
    ensures
        world_ok(map, after),
        after.len() == before.len(),
        forall|i: int|
            0 <= i < before.len() && i != enemy_id ==> #[trigger] after[i].x == before[i].x && after[i].y
                == before[i].y,
{
    let e = before[enemy_id];
    let p = before[0];
    let dx = p.x - e.x;
    let dy = p.y - e.y;
    if in_fov && distance_squared(e, p) >= 4 {
        let (sx, sy) = choose|sx: int, sy: int|
            toward_step(dx, dy, sx, sy) && after == #[trigger] step_result(map, before, enemy_id, sx, sy);
        lemma_step_stays_inside(map, before, enemy_id, sx, sy);
        assert forall|i: int| 0 <= i < before.len() && i != enemy_id implies #[trigger] after[i].x == before[i].x
            && after[i].y == before[i].y by {
            assert(after[i] == before[i]);
        }
    } else if in_fov && has_hp(p) {
        assert(fighter_fits(e, enemy_id));
        assert(fighter_fits(p, 0));
        lemma_hit_keeps_fit(e, p, after[0], log_before, log_after, 0);
        assert forall|i: int| 0 <= i < after.len() implies interior(#[trigger] after[i].x as int, after[i].y as int) by {
            if i != 0 {
                assert(after[i] == before[i]);
            }
            assert(interior(before[i].x as int, before[i].y as int));
        }
        assert forall|i: int| 0 <= i < after.len() implies fighter_fits(#[trigger] after[i], i) by {
            if i != 0 {
                assert(after[i] == before[i]);
            }
            assert(fighter_fits(before[i], i));
        }
    }
}

/// Step `k` of a round of enemy turns through `states` and `logs`: object `k` stands where it
/// stood at the start of the round, and takes its turn with the view `in_fov[k]` if it has a
/// behaviour, or else nothing changes.
#[verifier::opaque]
pub open spec fn round_step(
    map: Seq<Vec<Tile>>,
    in_fov: Seq<bool>,
    before: Seq<Object>,
    states: Seq<Seq<Object>>,
    logs: Seq<Seq<(Seq<char>, crate::colors::Color)>>,
    k: int,
) -> bool {
    &&& states[k][k].x == before[k].x
    &&& states[k][k].y == before[k].y
    &&& if states[k][k].ai is Some {
        ai_took_turn(map, states[k], states[k + 1], logs[k], logs[k + 1], k, in_fov[k])
    } else {
        states[k + 1] == states[k] && logs[k + 1] == logs[k]
    }
}

/// `after` and `log_after` are what one round of enemy turns makes of `before` and `log_before`,
/// through the states `states` and logs `logs`: each object in order, if it has a behaviour when
/// its turn comes, takes its turn with the view `in_fov[k]` (see `round_step`).
pub open spec fn enemy_round(
    map: Seq<Vec<Tile>>,
    in_fov: Seq<bool>,
    before: Seq<Object>,
    after: Seq<Object>,
    log_before: Seq<(Seq<char>, crate::colors::Color)>,
    log_after: Seq<(Seq<char>, crate::colors::Color)>,
    states: Seq<Seq<Object>>,
    logs: Seq<Seq<(Seq<char>, crate::colors::Color)>>,
) -> bool {
    let n = before.len();
    &&& states.len() == n + 1
    &&& logs.len() == n + 1
    &&& states[0] == before
    &&& logs[0] == log_before
    &&& states[n as int] == after
    &&& logs[n as int] == log_after
    &&& forall|k: int| 0 <= k < n ==> #[trigger] round_step(map, in_fov, before, states, logs, k)
}

/// Adding one more step to a round keeps the earlier steps.
proof fn lemma_round_extend(
    map: Seq<Vec<Tile>>,
    in_fov: Seq<bool>,
    before: Seq<Object>,
    states: Seq<Seq<Object>>,
    logs: Seq<Seq<(Seq<char>, crate::colors::Color)>>,
    next_state: Seq<Object>,
    next_log: Seq<(Seq<char>, crate::colors::Color)>,
    id: int,
)
    requires
        0 <= id,
        states.len() == id + 1,
        logs.len() == id + 1,
        forall|k: int| 0 <= k < id ==> #[trigger] round_step(map, in_fov, before, states, logs, k),
        states[id][id].x == before[id].x,
        states[id][id].y == before[id].y,
        if states[id][id].ai is Some {
            ai_took_turn(map, states[id], next_state, logs[id], next_log, id, in_fov[id])
        } else {
            next_state == states[id] && next_log == logs[id]
        },
    ensures
        forall|k: int|
            0 <= k < id + 1 ==> #[trigger] round_step(
                map,
                in_fov,
                before,
                states.push(next_state),
                logs.push(next_log),
                k,
            ),
{
    reveal(round_step);
    assert forall|k: int| 0 <= k < id + 1 implies #[trigger] round_step(
        map,
        in_fov,
        before,
        states.push(next_state),
        logs.push(next_log),
        k,
    ) by {
        if k < id {
            assert(round_step(map, in_fov, before, states, logs, k));
        }
    }
}

/// The enemies' half of a turn: every object with a behaviour, in order, takes its turn.
/// `in_fov[k]` says whether object `k` stands in the player's field of view; objects move only
/// on their own turn, so that is its view when its turn comes.
pub fn take_enemy_turns(in_fov: &Vec<bool>, game: &mut Game, objects: &mut Vec<Object>)
    requires
        world_ok(old(game).map@, old(objects)@),
        in_fov@.len() == old(objects)@.len(),
    ensures
        final(game).map == old(game).map,
        world_ok(final(game).map@, final(objects)@),
        final(objects)@.len() == old(objects)@.len(),
        exists|states: Seq<Seq<Object>>, logs: Seq<Seq<(Seq<char>, crate::colors::Color)>>|
            enemy_round(
                old(game).map@,
                in_fov@,
                old(objects)@,
                final(objects)@,
                old(game).messages@,
                final(game).messages@,
                states,
                logs,
            ),
{
    let ghost before = objects@;
    let ghost log_before = game.messages@;
    let ghost mut states: Seq<Seq<Object>> = seq![objects@];
    let ghost mut logs: Seq<Seq<(Seq<char>, crate::colors::Color)>> = seq![game.messages@];
    let mut id: usize = 0;
    while id < objects.len()
        invariant
            0 <= id <= objects@.len(),
            objects@.len() == before.len(),
            in_fov@.len() == before.len(),
            game.map == old(game).map,
            world_ok(game.map@, objects@),
            states.len() == id + 1,
            logs.len() == id + 1,
            states[0] == before,
            logs[0] == log_before,
            states[id as int] == objects@,
            logs[id as int] == game.messages@,
            forall|i: int|
                #![trigger objects@[i]]
                id <= i < before.len() ==> (objects@[i].x == before[i].x && objects@[i].y == before[i].y),
            forall|k: int| 0 <= k < id ==> #[trigger] round_step(game.map@, in_fov@, before, states, logs, k),
        decreases before.len() - id,
    {
        let ghost objects_before = objects@;
        let ghost log_at = game.messages@;
        if objects[id].ai.is_some() {
            proof {
                lemma_ai_turn_fits(game.map@, objects@, id as int, in_fov@[id as int]);
            }
            ai_take_turn(id, in_fov[id], game, objects.as_mut_slice());
            proof {
                lemma_ai_turn_keeps_world(
                    game.map@,
                    objects_before,
                    objects@,
                    log_at,
                    game.messages@,
                    id as int,
                    in_fov@[id as int],
                );
            }
        }
        assert forall|i: int| #![trigger objects@[i]] id < i < before.len() implies (objects@[i].x == before[i].x
            && objects@[i].y == before[i].y) by {
            assert(objects_before[i].x == before[i].x && objects_before[i].y == before[i].y);
            assert(objects@[i].x == objects_before[i].x && objects@[i].y == objects_before[i].y);
        }
        proof {
            lemma_round_extend(game.map@, in_fov@, before, states, logs, objects@, game.messages@, id as int);
            states = states.push(objects@);
            logs = logs.push(game.messages@);
        }
        id = id + 1;
    }
    assert(enemy_round(
        old(game).map@,
        in_fov@,
        before,
        objects@,
        log_before,
        game.messages@,
        states,
        logs,
    ));
}

/// From a kept state, any key can be handled without a fault (the requirement of `handle_keys`).
pub proof fn lemma_keys_fit(map: Seq<Vec<Tile>>, objects: Seq<Object>, key: Key)
    requires
        world_ok(map, objects),
    ensures
        objects.len() >= 1,
        match key_direction(key.code) {
            Some(d) => player_action_fits(map, objects, d.0, d.1),
            None => true,
        },
{
    match key_direction(key.code) {
        Some(d) => lemma_player_action_fits(map, objects, d.0, d.1),
        None => {},
    }
}

/// Shading tiles for drawing changes only whether they are explored, and so keeps the state.
pub proof fn lemma_shading_keeps_world(before: Seq<Vec<Tile>>, after: Seq<Vec<Tile>>, objects: Seq<Object>)
    requires
        world_ok(before, objects),
        same_shape(before, after),
        forall|i: int, j: int| in_map(before, i, j) ==> #[trigger] tile_at(after, i, j).blocked == tile_at(before, i, j).blocked,
    ensures
        world_ok(after, objects),
{
    assert forall|x: int| 0 <= x < after.len() implies #[trigger] after[x]@.len() == MAP_HEIGHT by {
        assert(before[x]@.len() == after[x]@.len());
    }
    assert forall|x: int, y: int| in_map(after, x, y) && !interior(x, y) implies #[trigger] tile_at(after, x, y).blocked by {
        assert(before[x]@.len() == after[x]@.len());
        assert(in_map(before, x, y));
        assert(tile_at(before, x, y).blocked);
    }
}

/// `after` and `log_after` are what the enemies' half of a turn makes of `before` and
/// `log_before` when `act` says they act (see `take_enemy_turns`), and `before` and `log_before`
/// themselves when they do not.
pub open spec fn enemies_answered(
    map: Seq<Vec<Tile>>,
    in_fov: Seq<bool>,
    before: Seq<Object>,
    after: Seq<Object>,
    log_before: Seq<(Seq<char>, crate::colors::Color)>,
    log_after: Seq<(Seq<char>, crate::colors::Color)>,
    act: bool,
) -> bool {
    if act {
        exists|states: Seq<Seq<Object>>, logs: Seq<Seq<(Seq<char>, crate::colors::Color)>>|
            enemy_round(map, in_fov, before, after, log_before, log_after, states, logs)
    } else {
        after == before && log_after == log_before
    }
}

/// One turn of the game: the key is answered (`handle_keys`); unless that quits, the enemies
/// take their turns (`take_enemy_turns`) when it took a turn of a living player. `in_fov[k]` says
/// whether object `k` stands in the player's field of view; the player's action moves no other
/// object, so the view from before the key holds when the enemies' turns come.
pub fn play_turn(
    key: Key,
    fullscreen: &mut bool,
    in_fov: &Vec<bool>,
    game: &mut Game,
    objects: &mut Vec<Object>,
) -> (action: PlayerAction)
    requires
        world_ok(old(game).map@, old(objects)@),
        in_fov@.len() == old(objects)@.len(),
    ensures
        final(game).map == old(game).map,
        world_ok(final(game).map@, final(objects)@),
        final(objects)@.len() == old(objects)@.len(),
        exists|mid: Seq<Object>, mid_log: Seq<(Seq<char>, crate::colors::Color)>|
            {
                &&& #[trigger] keys_handled(
                    key,
                    *old(fullscreen),
                    *final(fullscreen),
                    old(game).map@,
                    old(objects)@,
                    mid,
                    old(game).messages@,
                    mid_log,
                    action,
                )
                &&& enemies_answered(
                    old(game).map@,
                    in_fov@,
                    mid,
                    final(objects)@,
                    mid_log,
                    final(game).messages@,
                    action == PlayerAction::TookTurn && mid[0].alive,
                )
            },
{
    let ghost before = objects@;
    let ghost log_before = game.messages@;
    let ghost fullscreen_before = *fullscreen;
    proof {
        lemma_keys_fit(game.map@, objects@, key);
    }
    let action = handle_keys(key, fullscreen, game, objects.as_mut_slice());
    let ghost mid = objects@;
    let ghost mid_log = game.messages@;
    proof {
        if action == PlayerAction::TookTurn {
            let d = key_direction(key.code)->0;
            assert(arrow_step(d.0, d.1));
            lemma_player_action_keeps_world(game.map@, before, mid, log_before, mid_log, d.0, d.1);
        }
    }
    if action != PlayerAction::Exit && enemies_act(action, objects.as_slice()) {
        take_enemy_turns(in_fov, game, objects);
    }
    assert(keys_handled(key, fullscreen_before, *fullscreen, game.map@, before, mid, log_before, mid_log, action));
    action
}

/// The player as a new game starts: `B`, named Buck, with its fighter and no behaviour.
pub open spec fn is_new_player(o: Object) -> bool {
    &&& o.char == 'B'
    &&& o.color == black()
    &&& o.name@ == "Buck"@
    &&& o.blocks
    &&& o.alive
    &&& o.fighter == Some(
        Fighter { max_hp: 30, hp: 30, defense: 2, power: 5, on_death: DeathCallback::Player },
    )
    &&& o.ai is None
}

/// The greeting logged as a game starts.
pub open spec fn welcome_text() -> Seq<char> {
    "Explore the depths beneath the streets of New Mombasa."@
}

/// Starts a game: the player, a generated dungeon with its monsters, and a greeting in the log.
pub fn new_game() -> (started: (Game, Vec<Object>))
    ensures
        world_ok(started.0.map@, started.1@),
        dungeon_tiles(started.0.map@),
        !tile_at(started.0.map@, started.1@[0].x as int, started.1@[0].y as int).blocked,
        all_open_reachable(started.0.map@, (started.1@[0].x as int, started.1@[0].y as int)),
        is_new_player(started.1@[0]),
        forall|i: int| 1 <= i < started.1@.len() ==> is_new_monster(#[trigger] started.1@[i]),
        started.0.messages@ == seq![(welcome_text(), white())],
        exists|plan: Seq<RoomDraw>, before: Seq<Object>|
            {
                &&& before.len() == 1
                &&& is_new_player(before[0])
                &&& before[0].x == 0
                &&& before[0].y == 0
                &&& plan.len() == MAX_ROOMS
                &&& plan_fits(plan)
                &&& plan_drawn(plan)
                &&& #[trigger] built_from(plan, before, started.0.map@, started.1@)
            },
{
    let mut player = Object::new(0, 0, 'B', black(), "Buck", true);
    player.alive = true;
    player.fighter = Some(
        Fighter { max_hp: 30, hp: 30, defense: 2, power: 5, on_death: DeathCallback::Player },
    );
    let mut objects: Vec<Object> = Vec::new();
    objects.push(player);
    let ghost before = objects@;
    let map = make_map(&mut objects);
    let mut messages = Messages::new();
    messages.add(String::from_str("Explore the depths beneath the streets of New Mombasa."), white());
    let game = Game { map, messages };
    proof {
        let plan = choose|plan: Seq<RoomDraw>|
            {
                &&& plan.len() == MAX_ROOMS
                &&& plan_fits(plan)
                &&& plan_drawn(plan)
                &&& #[trigger] built_from(plan, before, game.map@, objects@)
            };
        assert(before.len() == 1);
        assert(before[0].x == 0);
        assert(before[0].y == 0);
        assert(is_new_player(before[0]));
        assert(plan.len() == MAX_ROOMS);
        assert(plan_fits(plan));
        assert(plan_drawn(plan));
        assert(built_from(plan, before, game.map@, objects@));
        assert forall|x: int, y: int| in_map(game.map@, x, y) && !interior(x, y) implies #[trigger] tile_at(
            game.map@,
            x,
            y,
        ).blocked by {
            assert(tile_at(game.map@, x, y) == crate::map::wall_tile() || tile_at(game.map@, x, y) == crate::map::floor_tile());
        }
        assert forall|i: int| 0 <= i < objects@.len() implies fighter_fits(#[trigger] objects@[i], i) by {
            if i >= 1 {
                assert(is_new_monster(objects@[i]));
            }
        }
    }
    (game, objects)
}

} // verus!
