use vstd::prelude::*;
use vstd::string::StringExecFns;
use crate::colors::Color;
use crate::map::{Grid, Tile, in_map, same_shape, tile_at};
use crate::object::Object;

verus! {

/// A wall out of view, once explored.
#[verifier::allow_in_spec]
pub fn color_dark_wall() -> Color
    returns
        (Color { r: 40, g: 40, b: 40 }),
{
    Color { r: 40, g: 40, b: 40 }
}

/// Floor out of view, once explored.
#[verifier::allow_in_spec]
pub fn color_dark_ground() -> Color
    returns
        (Color { r: 60, g: 60, b: 60 }),
{
    Color { r: 60, g: 60, b: 60 }
}

/// A wall in view.
#[verifier::allow_in_spec]
pub fn color_light_wall() -> Color
    returns
        (Color { r: 164, g: 168, b: 132 }),
{
    Color { r: 164, g: 168, b: 132 }
}

/// Floor in view.
#[verifier::allow_in_spec]
pub fn color_light_ground() -> Color
    returns
        (Color { r: 202, g: 206, b: 162 }),
{
    Color { r: 202, g: 206, b: 162 }
}

/// The background colour of a tile: light when in view, dark when not, walls apart from floor.
pub open spec fn tile_color(visible: bool, wall: bool) -> Color {
    if visible {
        if wall { color_light_wall() } else { color_light_ground() }
    } else {
        if wall { color_dark_wall() } else { color_dark_ground() }
    }
}

/// Shades one tile of the map for drawing: a tile in view becomes explored, and an explored
/// tile is drawn in its colour; an unexplored one is not drawn (`None`).
pub fn shade_tile(map: &mut Grid, x: i32, y: i32, visible: bool) -> (shade: Option<Color>)
    requires
        in_map(old(map)@, x as int, y as int),
    ensures
        ({
            let before = tile_at(old(map)@, x as int, y as int);
            let explored = before.explored || visible;
            &&& same_shape(old(map)@, final(map)@)
            &&& forall|i: int, j: int|
                in_map(old(map)@, i, j) ==> #[trigger] tile_at(final(map)@, i, j) == if i == x && j == y {
                    Tile { explored, ..before }
                } else {
                    tile_at(old(map)@, i, j)
                }
            &&& shade == if explored {
                Some(tile_color(visible, before.block_sight))
            } else {
                None::<Color>
            }
        }),
{
    let tile = map[x as usize][y as usize];
    let wall = tile.block_sight;
    let color = match (visible, wall) {
        (false, true) => color_dark_wall(),
        (false, false) => color_dark_ground(),
        (true, true) => color_light_wall(),
        (true, false) => color_light_ground(),
    };
    let explored = tile.explored || visible;
    map[x as usize][y as usize] = Tile { explored, ..tile };
    if explored {
        Some(color)
    } else {
        None
    }
}

/// The indices, in order, of the first `n` objects that are in view and block (or not) as asked.
pub open spec fn in_view_blocking(objects: Seq<Object>, visible: Seq<bool>, blocks: bool, n: nat) -> Seq<usize>
    decreases n,
{
    if n == 0 {
        Seq::empty()
    } else {
        let earlier = in_view_blocking(objects, visible, blocks, (n - 1) as nat);
        if visible[n - 1] && objects[n - 1].blocks == blocks {
            earlier.push((n - 1) as usize)
        } else {
            earlier
        }
    }
}

/// The order in which objects in view are drawn: those that do not block first, so that
/// blocking ones are drawn over remains; each group keeps the objects' order.
pub fn draw_order(objects: &[Object], visible: &Vec<bool>) -> (order: Vec<usize>)
    requires
        visible@.len() == objects@.len(),
    ensures
        order@ == in_view_blocking(objects@, visible@, false, objects@.len() as nat) + in_view_blocking(
            objects@,
            visible@,
            true,
            objects@.len() as nat,
        ),
{
    let mut passable: Vec<usize> = Vec::new();
    let mut blocking: Vec<usize> = Vec::new();
    let mut i: usize = 0;
    while i < objects.len()
        invariant
            i <= objects@.len(),
            visible@.len() == objects@.len(),
            passable@ == in_view_blocking(objects@, visible@, false, i as nat),
            blocking@ == in_view_blocking(objects@, visible@, true, i as nat),
        decreases objects@.len() - i,
    {
        if visible[i] {
            if objects[i].blocks {
                blocking.push(i);
            } else {
                passable.push(i);
            }
        }
        i = i + 1;
    }
    let mut j: usize = 0;
    let ghost first = passable@;
    while j < blocking.len()
        invariant
            j <= blocking@.len(),
            passable@ == first + blocking@.subrange(0, j as int),
        decreases blocking@.len() - j,
    {
        passable.push(blocking[j]);
        j = j + 1;
        assert(passable@ =~= first + blocking@.subrange(0, j as int));
    }
    assert(blocking@.subrange(0, blocking@.len() as int) =~= blocking@);
    passable
}

/// The names of the first `n` objects standing at `(x, y)`, in order.
pub open spec fn names_at(objects: Seq<Object>, x: int, y: int, n: nat) -> Seq<Seq<char>>
    decreases n,
{
    if n == 0 {
        Seq::empty()
    } else {
        let earlier = names_at(objects, x, y, (n - 1) as nat);
        if objects[n - 1].x == x && objects[n - 1].y == y {
            earlier.push(objects[n - 1].name@)
        } else {
            earlier
        }
    }
}

/// The texts of `parts` one after another, with `separator` between each two.
pub open spec fn joined(parts: Seq<Seq<char>>, separator: Seq<char>) -> Seq<char>
    decreases parts.len(),
{
    if parts.len() == 0 {
        Seq::empty()
    } else if parts.len() == 1 {
        parts[0]
    } else {
        joined(parts.drop_last(), separator) + separator + parts.last()
    }
}

/// The names of the objects under the mouse at `(x, y)`, separated by commas; nothing when that
/// square is out of the player's view. `in_fov` says whether `(x, y)` is in view.
pub fn get_names_under_mouse(x: i32, y: i32, in_fov: bool, objects: &[Object]) -> (names: String)
    ensures
        names@ == if in_fov {
            joined(names_at(objects@, x as int, y as int, objects@.len() as nat), ", "@)
        } else {
            Seq::<char>::empty()
        },
{
    let mut names = String::new();
    if !in_fov {
        return names;
    }
    let mut i: usize = 0;
    let mut any = false;
    while i < objects.len()
        invariant
            i <= objects@.len(),
            names@ == joined(names_at(objects@, x as int, y as int, i as nat), ", "@),
            any == (names_at(objects@, x as int, y as int, i as nat).len() > 0),
        decreases objects@.len() - i,
    {
        if objects[i].x == x && objects[i].y == y {
            let ghost parts = names_at(objects@, x as int, y as int, i as nat);
            if any {
                names.append(", ");
            }
            any = true;
            names.append(objects[i].name.as_str());
            proof {
                let more = parts.push(objects@[i as int].name@);
                assert(more.drop_last() =~= parts);
                if parts.len() == 0 {
                    assert(names@ =~= joined(more, ", "@));
                }
            }
        }
        i = i + 1;
    }
    names
}

/// The row at which the message panel prints a message of `height` rows when the newer messages
/// below it begin at row `bottom`; `None` when it would begin above the panel's top, where the
/// listing of older messages stops.
pub fn message_row(bottom: i32, height: i32) -> (row: Option<i32>)
    requires
        i32::MIN <= bottom - height <= i32::MAX,
    ensures
        row == (if bottom - height >= 0 {
            Some((bottom - height) as i32)
        } else {
            None
        }),
{
    let row = bottom - height;
    if row < 0 {
        None
    } else {
        Some(row)
    }
}

/// Every name listed for a square is the name of an object standing on that very square, and a
/// square where no object stands lists nothing.
pub proof fn lemma_names_stand_on_the_square(objects: Seq<Object>, x: int, y: int, n: nat)
    requires
        n <= objects.len(),
    ensures
        forall|k: int|
            #![trigger names_at(objects, x, y, n)[k]]
            0 <= k < names_at(objects, x, y, n).len() ==> exists|i: int|
                0 <= i < n && objects[i].x == x && objects[i].y == y && #[trigger] objects[i].name@
                    == names_at(objects, x, y, n)[k],
        (forall|i: int| 0 <= i < n ==> !(#[trigger] objects[i].x == x && objects[i].y == y)) ==> {
            &&& names_at(objects, x, y, n).len() == 0
            &&& joined(names_at(objects, x, y, n), ", "@) == Seq::<char>::empty()
        },
    decreases n,
{
    if n > 0 {
        lemma_names_stand_on_the_square(objects, x, y, (n - 1) as nat);
        let earlier = names_at(objects, x, y, (n - 1) as nat);
        let names = names_at(objects, x, y, n);
        assert forall|k: int| #![trigger names[k]] 0 <= k < names.len() implies exists|i: int|
            0 <= i < n && objects[i].x == x && objects[i].y == y && #[trigger] objects[i].name@ == names[k] by {
            if k < earlier.len() {
                assert(names[k] == earlier[k]);
                let i = choose|i: int|
                    0 <= i < n - 1 && objects[i].x == x && objects[i].y == y && #[trigger] objects[i].name@
                        == earlier[k];
                assert(objects[i].name@ == names[k]);
            } else {
                assert(objects[n - 1].name@ == names[k]);
            }
        }
        if forall|i: int| 0 <= i < n ==> !(#[trigger] objects[i].x == x && objects[i].y == y) {
            assert(!(objects[n - 1].x == x && objects[n - 1].y == y));
        }
    }
}

/// The objects listed for drawing in a group are exactly the ones in view that block (or not)
/// as asked, each once and in the objects' order.
pub proof fn lemma_drawn_in_view_once(objects: Seq<Object>, visible: Seq<bool>, blocks: bool, n: nat)
    requires
        n <= objects.len(),
        visible.len() == objects.len(),
        objects.len() <= usize::MAX,
    ensures
        forall|k: int|
            0 <= k < in_view_blocking(objects, visible, blocks, n).len() ==> {
                let i = #[trigger] in_view_blocking(objects, visible, blocks, n)[k] as int;
                &&& 0 <= i < n
                &&& visible[i]
                &&& objects[i].blocks == blocks
            },
        forall|k1: int, k2: int|
            0 <= k1 < k2 < in_view_blocking(objects, visible, blocks, n).len() ==> #[trigger] in_view_blocking(
                objects,
                visible,
                blocks,
                n,
            )[k1] < #[trigger] in_view_blocking(objects, visible, blocks, n)[k2],
        forall|i: int|
            0 <= i < n && #[trigger] visible[i] && objects[i].blocks == blocks ==> in_view_blocking(
                objects,
                visible,
                blocks,
                n,
            ).contains(i as usize),
    decreases n,
{
    if n > 0 {
        let m = (n - 1) as nat;
        lemma_drawn_in_view_once(objects, visible, blocks, m);
        let earlier = in_view_blocking(objects, visible, blocks, m);
        let listed = in_view_blocking(objects, visible, blocks, n);
        assert forall|i: int| 0 <= i < n && #[trigger] visible[i] && objects[i].blocks == blocks implies listed.contains(
            i as usize,
        ) by {
            if i < m {
                let k = choose|k: int| 0 <= k < earlier.len() && earlier[k] == i as usize;
                assert(listed[k] == earlier[k]);
            } else {
                assert(listed[listed.len() - 1] == i as usize);
            }
        }
        assert forall|k1: int, k2: int| 0 <= k1 < k2 < listed.len() implies #[trigger] listed[k1] < #[trigger] listed[k2] by {
            if k2 < earlier.len() {
                assert(listed[k1] == earlier[k1] && listed[k2] == earlier[k2]);
            } else {
                assert(listed[k1] == earlier[k1]);
                assert(listed[k2] == m as usize);
                let e = earlier[k1] as int;
                assert(0 <= e < m);
            }
        }
        assert forall|k: int| 0 <= k < listed.len() implies {
            let i = #[trigger] listed[k] as int;
            &&& 0 <= i < n
            &&& visible[i]
            &&& objects[i].blocks == blocks
        } by {
            if k < earlier.len() {
                assert(listed[k] == earlier[k]);
            } else {
                assert(listed[k] == m as usize);
            }
        }
    }
}

} // verus!
