use vstd::prelude::*;
use vstd::string::StringExecFns;
use crate::colors::{Color, dark_red, red, white, yellow};
use crate::game::Game;

verus! {

/// How a monster behaves on its turn.
#[derive(Clone, Copy, Debug, PartialEq, Eq, Structural)]
pub enum Ai {
    Basic,
}

/// What happens to a fighter whose hit points run out.
#[derive(Clone, Copy, Debug, PartialEq, Eq, Structural)]
pub enum DeathCallback {
    Player,
    Enemy,
}

/// Combat statistics.
#[derive(Clone, Copy, Debug, PartialEq, Eq, Structural)]
pub struct Fighter {
    pub max_hp: i32,
    pub hp: i32,
    pub defense: i32,
    pub power: i32,
    pub on_death: DeathCallback,
}

/// Anything on the map drawn as a single character: the player, monsters, remains.
#[derive(Debug)]
pub struct Object {
    pub x: i32,
    pub y: i32,
    pub char: char,
    pub color: Color,
    pub name: String,
    pub blocks: bool,
    pub alive: bool,
    pub fighter: Option<Fighter>,
    pub ai: Option<Ai>,
}

/// The digits of `n` in base ten, most significant first.
pub open spec fn decimal_digits(n: nat) -> Seq<char>
    decreases n,
{
    if n < 10 {
        seq![((n + 48) as u8) as char]
    } else {
        decimal_digits(n / 10) + seq![((n % 10 + 48) as u8) as char]
    }
}

/// `n` written in base ten, with a leading `-` when negative.
pub open spec fn decimal(n: int) -> Seq<char> {
    if n < 0 {
        seq!['-'] + decimal_digits((-n) as nat)
    } else {
        decimal_digits(n as nat)
    }
}

/// `n` written in base ten: std's `to_string` on an `i32`, which formats it with `Display`.
/// The contract claims the decimal digits, with a leading `-` for a negative number, as
/// std documents for integers.
#[verifier::external_body]
fn decimal_string(n: i32) -> (s: String)
    ensures
        s@ == decimal(n as int),
{
    n.to_string()
}

/// The fighter after taking `damage`: only a positive amount is subtracted.
pub open spec fn damaged(f: Option<Fighter>, damage: int) -> Option<Fighter> {
    match f {
        Some(g) => if damage > 0 {
            Some(Fighter { hp: (g.hp - damage) as i32, ..g })
        } else {
            Some(g)
        },
        None => None,
    }
}

/// The attacking power of an object, zero without a fighter.
pub open spec fn power_of(o: Object) -> int {
    match o.fighter {
        Some(f) => f.power as int,
        None => 0,
    }
}

/// The defense of an object, zero without a fighter.
pub open spec fn defense_of(o: Object) -> int {
    match o.fighter {
        Some(f) => f.defense as int,
        None => 0,
    }
}

/// The damage that `attacker` deals to `target`: its power less the target's defense.
pub open spec fn attack_damage(attacker: Object, target: Object) -> int {
    power_of(attacker) - defense_of(target)
}

/// The message logged when a hit lands.
pub open spec fn hit_message(attacker: Seq<char>, target: Seq<char>, damage: int) -> Seq<char> {
    attacker + " attacks "@ + target + " for "@ + decimal(damage) + " hit points."@
}

/// The message logged when an attack does nothing.
pub open spec fn miss_message(attacker: Seq<char>, target: Seq<char>) -> Seq<char> {
    attacker + " attacks "@ + target + " but it has no effect!"@
}

/// `after` and `log_after` are what the death callback `cb` makes of `before` and `log_before`.
pub open spec fn died(
    before: Object,
    after: Object,
    cb: DeathCallback,
    log_before: Seq<(Seq<char>, Color)>,
    log_after: Seq<(Seq<char>, Color)>,
) -> bool {
    match cb {
        DeathCallback::Player => {
            &&& after == Object { char: '%', color: dark_red(), ..before }
            &&& log_after == log_before.push(("You died."@, red()))
        },
        DeathCallback::Enemy => {
            &&& after.x == before.x
            &&& after.y == before.y
            &&& after.alive == before.alive
            &&& after.char == '%'
            &&& after.color == dark_red()
            &&& !after.blocks
            &&& after.fighter is None
            &&& after.ai is None
            &&& after.name@ == "Remains of "@ + before.name@
            &&& log_after == log_before.push((before.name@ + " is dead."@, yellow()))
        },
    }
}

/// `after` and `log_after` are what taking `damage` makes of `before` and `log_before`:
/// the hit points drop by a positive damage, and a fighter left with none dies by its callback.
pub open spec fn took_damage(
    before: Object,
    damage: int,
    after: Object,
    log_before: Seq<(Seq<char>, Color)>,
    log_after: Seq<(Seq<char>, Color)>,
) -> bool {
    let hit = Object { fighter: damaged(before.fighter, damage), ..before };
    match hit.fighter {
        Some(f) => if f.hp <= 0 {
            died(Object { alive: false, ..hit }, after, f.on_death, log_before, log_after)
        } else {
            after == hit && log_after == log_before
        },
        None => after == hit && log_after == log_before,
    }
}

/// Whether taking `damage` keeps the hit points within `i32`.
pub open spec fn damage_fits(o: Object, damage: int) -> bool {
    match o.fighter {
        Some(f) => damage > 0 ==> f.hp - damage >= i32::MIN,
        None => true,
    }
}

/// Whether the damage of `attacker` against `target` can be computed in `i32`,
/// and taking it keeps the target's hit points within `i32`.
pub open spec fn attack_fits(attacker: Object, target: Object) -> bool {
    &&& i32::MIN <= attack_damage(attacker, target) <= i32::MAX
    &&& damage_fits(target, attack_damage(attacker, target))
}

/// `target_after` and `log_after` are what an attack of `attacker` makes of `target` and `log_before`:
/// the attack is logged, and a positive damage is then taken by the target.
pub open spec fn attack_outcome(
    attacker: Object,
    target: Object,
    target_after: Object,
    log_before: Seq<(Seq<char>, Color)>,
    log_after: Seq<(Seq<char>, Color)>,
) -> bool {
    let damage = attack_damage(attacker, target);
    if damage > 0 {
        took_damage(
            target,
            damage,
            target_after,
            log_before.push((hit_message(attacker.name@, target.name@, damage), white())),
            log_after,
        )
    } else {
        &&& target_after == target
        &&& log_after == log_before.push((miss_message(attacker.name@, target.name@), white()))
    }
}

impl Object {
    /// A new object at `(x, y)`: not alive, no fighter, no behaviour.
    pub fn new(x: i32, y: i32, char: char, color: Color, name: &str, blocks: bool) -> (o: Object)
        ensures
            o.x == x,
            o.y == y,
            o.char == char,
            o.color == color,
            o.name@ == name@,
            o.blocks == blocks,
            !o.alive,
            o.fighter is None,
            o.ai is None,
    {
        Object {
            x: x,
            y: y,
            char: char,
            color: color,
            name: String::from_str(name),
            blocks: blocks,
            alive: false,
            fighter: None,
            ai: None,
        }
    }

    /// The position of the object.
    pub fn pos(&self) -> (p: (i32, i32))
        ensures
            p == (self.x, self.y),
    {
        (self.x, self.y)
    }

    /// Moves the object to `(x, y)`.
    pub fn set_pos(&mut self, x: i32, y: i32)
        ensures
            *final(self) == (Object { x: x, y: y, ..*old(self) }),
    {
        self.x = x;
        self.y = y;
    }

    /// Takes `damage`: a positive amount is subtracted from the hit points, and a fighter
    /// left with no hit points is marked dead and handed to its death callback.
    pub fn take_damage(&mut self, damage: i32, game: &mut Game)
        requires
            damage_fits(*old(self), damage as int),
        ensures
            took_damage(*old(self), damage as int, *final(self), old(game).messages@, final(game).messages@),
            final(game).map == old(game).map,
    {
        match self.fighter {
            Some(f) => {
                if damage > 0 {
                    self.fighter = Some(Fighter { hp: f.hp - damage, ..f });
                }
            },
            None => {},
        }
        match self.fighter {
            Some(f) => {
                if f.hp <= 0 {
                    self.alive = false;
                    f.on_death.callback(self, game);
                }
            },
            None => {},
        }
    }

    /// Attacks `target`: logs the attack and, when the attacker's power exceeds the
    /// target's defense, deals the difference as damage.
    pub fn attack(&mut self, target: &mut Object, game: &mut Game)
        requires
            attack_fits(*old(self), *old(target)),
        ensures
            *final(self) == *old(self),
            final(game).map == old(game).map,
            attack_outcome(
                *old(self),
                *old(target),
                *final(target),
                old(game).messages@,
                final(game).messages@,
            ),
    {
        let power: i32 = match self.fighter {
            Some(f) => f.power,
            None => 0,
        };
        let defense: i32 = match target.fighter {
            Some(f) => f.defense,
            None => 0,
        };
        let damage = power - defense;
        let mut text = self.name.clone();
        text.append(" attacks ");
        text.append(target.name.as_str());
        if damage > 0 {
            text.append(" for ");
            let amount = decimal_string(damage);
            text.append(amount.as_str());
            text.append(" hit points.");
            game.messages.add(text, white());
            target.take_damage(damage, game);
        } else {
            text.append(" but it has no effect!");
            game.messages.add(text, white());
        }
    }
}

impl DeathCallback {
    /// Runs the death handler this callback names on `object`.
    pub fn callback(self, object: &mut Object, game: &mut Game)
        ensures
            died(*old(object), *final(object), self, old(game).messages@, final(game).messages@),
            final(game).map == old(game).map,
    {
        match self {
            DeathCallback::Player => player_death(object, game),
            DeathCallback::Enemy => enemy_death(object, game),
        }
    }
}

/// The player's death: logs it and leaves a red corpse in its place.
pub fn player_death(player: &mut Object, game: &mut Game)
    ensures
        died(
            *old(player),
            *final(player),
            DeathCallback::Player,
            old(game).messages@,
            final(game).messages@,
        ),
        final(game).map == old(game).map,
{
    game.messages.add(String::from_str("You died."), red());
    player.char = '%';
    player.color = dark_red();
}

/// A monster's death: logs it and turns it into harmless, passable remains.
pub fn enemy_death(enemy: &mut Object, game: &mut Game)
    ensures
        died(
            *old(enemy),
            *final(enemy),
            DeathCallback::Enemy,
            old(game).messages@,
            final(game).messages@,
        ),
        final(game).map == old(game).map,
{
    let mut text = enemy.name.clone();
    text.append(" is dead.");
    game.messages.add(text, yellow());
    enemy.char = '%';
    enemy.color = dark_red();
    enemy.blocks = false;
    enemy.fighter = None;
    enemy.ai = None;
    let mut remains = String::from_str("Remains of ");
    remains.append(enemy.name.as_str());
    enemy.name = remains;
}

} // verus!
