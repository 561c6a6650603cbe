use vstd::prelude::*;
use crate::rect::Rect;

verus! {

/// One cell of the dungeon.
#[derive(Clone, Copy, Debug)]
pub struct Tile {
    pub blocked: bool,
    pub explored: bool,
    pub block_sight: bool,
}

/// The dungeon, indexed `map[x][y]`.
pub type Grid = Vec<Vec<Tile>>;

/// An open floor tile, not yet explored.
pub open spec fn floor_tile() -> Tile {
    Tile { blocked: false, explored: false, block_sight: false }
}

/// A solid wall tile, not yet explored.
pub open spec fn wall_tile() -> Tile {
    Tile { blocked: true, explored: false, block_sight: true }
}

/// Whether `(x, y)` indexes a tile of `map`.
pub open spec fn in_map(map: Seq<Vec<Tile>>, x: int, y: int) -> bool {
    0 <= x < map.len() && 0 <= y < map[x]@.len()
}

/// The tile at `(x, y)`.
pub open spec fn tile_at(map: Seq<Vec<Tile>>, x: int, y: int) -> Tile {
    map[x]@[y]
}

/// Both maps have the same columns, each of the same height.
pub open spec fn same_shape(a: Seq<Vec<Tile>>, b: Seq<Vec<Tile>>) -> bool {
    &&& a.len() == b.len()
    &&& forall|x: int| 0 <= x < a.len() ==> #[trigger] a[x]@.len() == b[x]@.len()
}

/// Whether `(x, y)` lies strictly inside the room, where its floor is carved.
pub open spec fn in_room_floor(room: Rect, x: int, y: int) -> bool {
    room.x1 < x < room.x2 && room.y1 < y < room.y2
}

/// `after` is `before` with every tile for which `carve` holds replaced by floor.
pub open spec fn carved(before: Seq<Vec<Tile>>, after: Seq<Vec<Tile>>, carve: spec_fn(int, int) -> bool) -> bool {
    &&& same_shape(before, after)
    &&& forall|x: int, y: int|
        in_map(before, x, y) ==> #[trigger] tile_at(after, x, y) == if carve(x, y) {
            floor_tile()
        } else {
            tile_at(before, x, y)
        }
}

impl Tile {
    /// An open floor tile.
    pub fn empty() -> (t: Tile)
        ensures
            t == floor_tile(),
    {
        Tile { blocked: false, explored: false, block_sight: false }
    }

    /// A solid wall tile.
    pub fn wall() -> (t: Tile)
        ensures
            t == wall_tile(),
    {
        Tile { blocked: true, explored: false, block_sight: true }
    }
}

/// Sets the tile at `(x, y)` to floor.
fn set_floor(map: &mut Grid, x: i32, y: i32)
    requires
        in_map(old(map)@, x as int, y as int),
    ensures
        carved(old(map)@, final(map)@, |i: int, j: int| i == x && j == y),
{
    map[x as usize][y as usize] = Tile::empty();
    assert(carved(old(map)@, map@, |i: int, j: int| i == x && j == y));
}

/// Carving twice is carving the union of both regions.
proof fn lemma_carved_then(
    a: Seq<Vec<Tile>>,
    b: Seq<Vec<Tile>>,
    c: Seq<Vec<Tile>>,
    p: spec_fn(int, int) -> bool,
    q: spec_fn(int, int) -> bool,
)
    requires
        carved(a, b, p),
        carved(b, c, q),
    ensures
        carved(a, c, |i: int, j: int| p(i, j) || q(i, j)),
{
    assert forall|x: int, y: int| in_map(a, x, y) implies #[trigger] tile_at(c, x, y) == if p(x, y) || q(x, y) {
        floor_tile()
    } else {
        tile_at(a, x, y)
    } by {
        assert(a[x]@.len() == b[x]@.len());
        assert(in_map(b, x, y));
        assert(tile_at(c, x, y) == if q(x, y) { floor_tile() } else { tile_at(b, x, y) });
        assert(tile_at(b, x, y) == if p(x, y) { floor_tile() } else { tile_at(a, x, y) });
    }
}

/// Carving a region is the same as carving any region that agrees with it on the map.
proof fn lemma_carved_same_region(
    a: Seq<Vec<Tile>>,
    b: Seq<Vec<Tile>>,
    p: spec_fn(int, int) -> bool,
    q: spec_fn(int, int) -> bool,
)
    requires
        carved(a, b, p),
        forall|x: int, y: int| in_map(a, x, y) ==> p(x, y) == q(x, y),
    ensures
        carved(a, b, q),
{
    assert forall|x: int, y: int| in_map(a, x, y) implies #[trigger] tile_at(b, x, y) == if q(x, y) {
        floor_tile()
    } else {
        tile_at(a, x, y)
    } by {
        assert(tile_at(b, x, y) == if p(x, y) { floor_tile() } else { tile_at(a, x, y) });
    }
}

/// The smaller of two integers.
pub open spec fn min_int(a: int, b: int) -> int {
    if a <= b { a } else { b }
}

/// The larger of two integers.
pub open spec fn max_int(a: int, b: int) -> int {
    if a >= b { a } else { b }
}

/// Carves the floor of `room` (every tile strictly inside its corners) out of the map.
pub fn create_room(room: Rect, map: &mut Grid)
    requires
        room.x1 < i32::MAX,
        room.x1 + 1 < room.x2 ==> room.y1 < i32::MAX,
        forall|x: int, y: int| in_room_floor(room, x, y) ==> in_map(old(map)@, x, y),
    ensures
        carved(old(map)@, final(map)@, |x: int, y: int| in_room_floor(room, x, y)),
{
    let ghost before = map@;
    let mut x: i32 = room.x1 + 1;
    while x < room.x2
        invariant
            room.x1 < x,
            x <= room.x2 || x == room.x1 + 1,
            room.x1 + 1 < room.x2 ==> room.y1 < i32::MAX,
            forall|i: int, j: int| in_room_floor(room, i, j) ==> in_map(before, i, j),
            carved(before, map@, |i: int, j: int| room.x1 < i < x && room.y1 < j < room.y2),
        decreases room.x2 - x,
    {
        let mut y: i32 = room.y1 + 1;
        while y < room.y2
            invariant
                room.x1 < x < room.x2,
                room.y1 < y,
                y <= room.y2 || y == room.y1 + 1,
                forall|i: int, j: int| in_room_floor(room, i, j) ==> in_map(before, i, j),
                carved(
                    before,
                    map@,
                    |i: int, j: int|
                        (room.x1 < i < x && room.y1 < j < room.y2) || (i == x && room.y1 < j < y),
                ),
            decreases room.y2 - y,
        {
            let ghost mid = map@;
            let ghost p = |i: int, j: int|
                (room.x1 < i < x && room.y1 < j < room.y2) || (i == x && room.y1 < j < y);
            assert(in_room_floor(room, x as int, y as int));
            assert(in_map(before, x as int, y as int));
            assert(before[x as int]@.len() == mid[x as int]@.len());
            set_floor(map, x, y);
            proof {
                lemma_carved_then(before, mid, map@, p, |i: int, j: int| i == x && j == y);
                lemma_carved_same_region(
                    before,
                    map@,
                    |i: int, j: int| p(i, j) || (i == x && j == y),
                    |i: int, j: int|
                        (room.x1 < i < x && room.y1 < j < room.y2) || (i == x && room.y1 < j < y + 1),
                );
            }
            y = y + 1;
        }
        assert(carved(before, map@, |i: int, j: int| room.x1 < i < x + 1 && room.y1 < j < room.y2));
        x = x + 1;
    }
    assert(carved(before, map@, |i: int, j: int| in_room_floor(room, i, j)));
}

/// Carves a vertical tunnel in column `x`, from row `y1` to row `y2` inclusive, in either order.
pub fn create_v_tunnel(y1: i32, y2: i32, x: i32, map: &mut Grid)
    requires
        max_int(y1 as int, y2 as int) < i32::MAX,
        forall|y: int|
            min_int(y1 as int, y2 as int) <= y <= max_int(y1 as int, y2 as int) ==> in_map(
                old(map)@,
                x as int,
                y,
            ),
    ensures
        carved(
            old(map)@,
            final(map)@,
            |i: int, j: int| i == x && min_int(y1 as int, y2 as int) <= j <= max_int(y1 as int, y2 as int),
        ),
{
    let ghost before = map@;
    let lo: i32 = if y1 <= y2 { y1 } else { y2 };
    let hi: i32 = if y1 >= y2 { y1 } else { y2 };
    let mut y: i32 = lo;
    while y < hi + 1
        invariant
            lo == min_int(y1 as int, y2 as int),
            hi == max_int(y1 as int, y2 as int),
            hi < i32::MAX,
            lo <= y <= hi + 1,
            forall|j: int| lo <= j <= hi ==> in_map(before, x as int, j),
            carved(before, map@, |i: int, j: int| i == x && lo <= j < y),
        decreases hi + 1 - y,
    {
        let ghost mid = map@;
        assert(in_map(before, x as int, y as int));
        assert(before[x as int]@.len() == mid[x as int]@.len());
        set_floor(map, x, y);
        proof {
            let p = |i: int, j: int| i == x && lo <= j < y;
            lemma_carved_then(before, mid, map@, p, |i: int, j: int| i == x && j == y);
            lemma_carved_same_region(
                before,
                map@,
                |i: int, j: int| p(i, j) || (i == x && j == y),
                |i: int, j: int| i == x && lo <= j < y + 1,
            );
        }
        y = y + 1;
    }
    assert(carved(before, map@, |i: int, j: int| i == x && lo <= j <= hi));
}

/// Carves a horizontal tunnel in row `y`, from column `x1` to column `x2` inclusive, in either order.
pub fn create_h_tunnel(x1: i32, x2: i32, y: i32, map: &mut Grid)
    requires
        max_int(x1 as int, x2 as int) < i32::MAX,
        forall|x: int|
            min_int(x1 as int, x2 as int) <= x <= max_int(x1 as int, x2 as int) ==> in_map(
                old(map)@,
                x,
                y as int,
            ),
    ensures
        carved(
            old(map)@,
            final(map)@,
            |i: int, j: int| j == y && min_int(x1 as int, x2 as int) <= i <= max_int(x1 as int, x2 as int),
        ),
{
    let ghost before = map@;
    let lo: i32 = if x1 <= x2 { x1 } else { x2 };
    let hi: i32 = if x1 >= x2 { x1 } else { x2 };
    let mut x: i32 = lo;
    while x < hi + 1
        invariant
            lo == min_int(x1 as int, x2 as int),
            hi == max_int(x1 as int, x2 as int),
            hi < i32::MAX,
            lo <= x <= hi + 1,
            forall|i: int| lo <= i <= hi ==> in_map(before, i, y as int),
            carved(before, map@, |i: int, j: int| j == y && lo <= i < x),
        decreases hi + 1 - x,
    {
        let ghost mid = map@;
        assert(in_map(before, x as int, y as int));
        assert(before[x as int]@.len() == mid[x as int]@.len());
        set_floor(map, x, y);
        proof {
            let p = |i: int, j: int| j == y && lo <= i < x;
            lemma_carved_then(before, mid, map@, p, |i: int, j: int| i == x && j == y);
            lemma_carved_same_region(
                before,
                map@,
                |i: int, j: int| p(i, j) || (i == x && j == y),
                |i: int, j: int| j == y && lo <= i < x + 1,
            );
        }
        x = x + 1;
    }
    assert(carved(before, map@, |i: int, j: int| j == y && lo <= i <= hi));
}

/// A vertical tunnel carves the same tiles whichever of its ends comes first.
pub proof fn lemma_v_tunnel_symmetric(y1: int, y2: int, x: int, i: int, j: int)
    ensures
        (i == x && min_int(y1, y2) <= j <= max_int(y1, y2)) == (i == x && min_int(y2, y1) <= j <= max_int(y2, y1)),
{
}

/// A horizontal tunnel carves the same tiles whichever of its ends comes first.
pub proof fn lemma_h_tunnel_symmetric(x1: int, x2: int, y: int, i: int, j: int)
    ensures
        (j == y && min_int(x1, x2) <= i <= max_int(x1, x2)) == (j == y && min_int(x2, x1) <= i <= max_int(x2, x1)),
{
}

} // verus!
