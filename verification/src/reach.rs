use vstd::prelude::*;
use crate::map::{Tile, carved, floor_tile, in_map, in_room_floor, same_shape, tile_at, wall_tile};
use crate::rect::Rect;

verus! {

/// Whether `p` is an open (unblocked) tile of the map.
pub open spec fn open_at(map: Seq<Vec<Tile>>, p: (int, int)) -> bool {
    in_map(map, p.0, p.1) && !tile_at(map, p.0, p.1).blocked
}

/// Whether `a` and `b` are orthogonal neighbours: one arrow-key step apart.
pub open spec fn adjacent(a: (int, int), b: (int, int)) -> bool {
    ||| a.0 == b.0 && (a.1 - b.1 == 1 || b.1 - a.1 == 1)
    ||| a.1 == b.1 && (a.0 - b.0 == 1 || b.0 - a.0 == 1)
}

/// Whether `path` is a walk over open tiles by orthogonal steps.
pub open spec fn walk(map: Seq<Vec<Tile>>, path: Seq<(int, int)>) -> bool {
    &&& path.len() >= 1
    &&& forall|i: int| 0 <= i < path.len() ==> open_at(map, #[trigger] path[i])
    &&& forall|i: int| 0 <= i < path.len() - 1 ==> adjacent(#[trigger] path[i], path[i + 1])
}

/// Whether `b` can be reached from `a` by orthogonal steps over open tiles.
pub open spec fn reachable(map: Seq<Vec<Tile>>, a: (int, int), b: (int, int)) -> bool {
    exists|path: Seq<(int, int)>| walk(map, path) && path[0] == a && path.last() == b
}

/// Whether every open tile of the map can be reached from `from`.
pub open spec fn all_open_reachable(map: Seq<Vec<Tile>>, from: (int, int)) -> bool {
    forall|x: int, y: int| #[trigger] open_at(map, (x, y)) ==> reachable(map, from, (x, y))
}

/// Whether `q` lies on the straight segment from `a` to `b`, which share a row or a column.
pub open spec fn on_segment(a: (int, int), b: (int, int), q: (int, int)) -> bool {
    if a.1 == b.1 {
        q.1 == a.1 && (a.0 <= q.0 <= b.0 || b.0 <= q.0 <= a.0)
    } else {
        q.0 == a.0 && (a.1 <= q.1 <= b.1 || b.1 <= q.1 <= a.1)
    }
}

/// The tiles of the straight segment from `a` to `b`, in order.
pub open spec fn segment_path(a: (int, int), b: (int, int)) -> Seq<(int, int)> {
    if a.1 == b.1 {
        if a.0 <= b.0 {
            Seq::new((b.0 - a.0 + 1) as nat, |i: int| (a.0 + i, a.1))
        } else {
            Seq::new((a.0 - b.0 + 1) as nat, |i: int| (a.0 - i, a.1))
        }
    } else {
        if a.1 <= b.1 {
            Seq::new((b.1 - a.1 + 1) as nat, |i: int| (a.0, a.1 + i))
        } else {
            Seq::new((a.1 - b.1 + 1) as nat, |i: int| (a.0, a.1 - i))
        }
    }
}

/// Open tiles stay open when the map only gains floor.
pub open spec fn keeps_open(before: Seq<Vec<Tile>>, after: Seq<Vec<Tile>>) -> bool {
    forall|p: (int, int)| open_at(before, p) ==> #[trigger] open_at(after, p)
}

/// A segment whose tiles are all open is a walk from one end to the other.
proof fn lemma_segment_walk(map: Seq<Vec<Tile>>, a: (int, int), b: (int, int))
    requires
        a.0 == b.0 || a.1 == b.1,
        forall|q: (int, int)| on_segment(a, b, q) ==> open_at(map, q),
    ensures
        reachable(map, a, b),
{
    let path = segment_path(a, b);
    assert forall|i: int| 0 <= i < path.len() implies open_at(map, #[trigger] path[i]) by {
        assert(on_segment(a, b, path[i]));
    }
    assert(walk(map, path));
    assert(path[0] == a);
    assert(path.last() == b);
}

/// Reachability composes.
proof fn lemma_reach_trans(map: Seq<Vec<Tile>>, a: (int, int), b: (int, int), c: (int, int))
    requires
        reachable(map, a, b),
        reachable(map, b, c),
    ensures
        reachable(map, a, c),
{
    let p = choose|path: Seq<(int, int)>| walk(map, path) && path[0] == a && path.last() == b;
    let q = choose|path: Seq<(int, int)>| walk(map, path) && path[0] == b && path.last() == c;
    let r = p + q.subrange(1, q.len() as int);
    assert forall|i: int| 0 <= i < r.len() implies open_at(map, #[trigger] r[i]) by {
        if i < p.len() {
            assert(r[i] == p[i]);
        } else {
            assert(r[i] == q[i - p.len() + 1]);
        }
    }
    assert forall|i: int| 0 <= i < r.len() - 1 implies adjacent(#[trigger] r[i], r[i + 1]) by {
        if i < p.len() - 1 {
            assert(r[i] == p[i] && r[i + 1] == p[i + 1]);
        } else if i == p.len() - 1 {
            assert(r[i] == b && q[0] == b);
            assert(r[i + 1] == q[1]);
        } else {
            assert(r[i] == q[i - p.len() + 1]);
            assert(r[i + 1] == q[i - p.len() + 2]);
        }
    }
    assert(walk(map, r));
    if q.len() == 1 {
        assert(r =~= p);
    } else {
        assert(r.last() == q.last());
    }
}

/// Reachability survives carving: a walk over open tiles stays one when the map only gains floor.
proof fn lemma_reach_grows(before: Seq<Vec<Tile>>, after: Seq<Vec<Tile>>, a: (int, int), b: (int, int))
    requires
        reachable(before, a, b),
        keeps_open(before, after),
    ensures
        reachable(after, a, b),
{
    let p = choose|path: Seq<(int, int)>| walk(before, path) && path[0] == a && path.last() == b;
    assert forall|i: int| 0 <= i < p.len() implies open_at(after, #[trigger] p[i]) by {
        assert(open_at(before, p[i]));
    }
    assert(walk(after, p));
}

/// Any two floor tiles of an open room reach each other through the room.
proof fn lemma_room_reach(map: Seq<Vec<Tile>>, room: Rect, c: (int, int), t: (int, int))
    requires
        forall|x: int, y: int| in_room_floor(room, x, y) ==> open_at(map, (x, y)),
        in_room_floor(room, c.0, c.1),
        in_room_floor(room, t.0, t.1),
    ensures
        reachable(map, c, t),
{
    let k = (t.0, c.1);
    assert forall|q: (int, int)| on_segment(c, k, q) implies open_at(map, q) by {
        assert(in_room_floor(room, q.0, q.1));
    }
    lemma_segment_walk(map, c, k);
    assert forall|q: (int, int)| on_segment(k, t, q) implies open_at(map, q) by {
        assert(in_room_floor(room, q.0, q.1));
    }
    lemma_segment_walk(map, k, t);
    lemma_reach_trans(map, c, k, t);
}

/// Carving keeps every open tile open.
proof fn lemma_carving_keeps_open(before: Seq<Vec<Tile>>, after: Seq<Vec<Tile>>, p: spec_fn(int, int) -> bool)
    requires
        carved(before, after, p),
        forall|x: int, y: int| in_map(before, x, y) ==> #[trigger] tile_at(before, x, y) == wall_tile() || tile_at(
            before,
            x,
            y,
        ) == floor_tile(),
    ensures
        keeps_open(before, after),
        forall|x: int, y: int| in_map(before, x, y) && p(x, y) ==> open_at(after, (x, y)),
{
    assert forall|q: (int, int)| open_at(before, q) implies #[trigger] open_at(after, q) by {
        assert(before[q.0]@.len() == after[q.0]@.len());
        assert(tile_at(before, q.0, q.1) == floor_tile());
    }
    assert forall|x: int, y: int| in_map(before, x, y) && p(x, y) implies open_at(after, (x, y)) by {
        assert(before[x]@.len() == after[x]@.len());
    }
}

/// After the first room is carved out of solid rock, every open tile is reachable from the
/// room's centre.
pub proof fn lemma_first_room_connected(
    before: Seq<Vec<Tile>>,
    after: Seq<Vec<Tile>>,
    room: Rect,
    centre: (int, int),
)
    requires
        forall|x: int, y: int| in_map(before, x, y) ==> #[trigger] tile_at(before, x, y) == wall_tile(),
        carved(before, after, |x: int, y: int| in_room_floor(room, x, y)),
        forall|x: int, y: int| in_room_floor(room, x, y) ==> in_map(before, x, y),
        in_room_floor(room, centre.0, centre.1),
    ensures
        all_open_reachable(after, centre),
{
    assert forall|x: int, y: int| in_room_floor(room, x, y) implies open_at(after, (x, y)) by {
        assert(in_map(before, x, y));
        assert(before[x]@.len() == after[x]@.len());
    }
    assert forall|x: int, y: int| #[trigger] open_at(after, (x, y)) implies reachable(after, centre, (x, y)) by {
        assert(before[x]@.len() == after[x]@.len());
        assert(in_map(before, x, y));
        assert(tile_at(before, x, y) == wall_tile());
        assert(in_room_floor(room, x, y));
        lemma_room_reach(after, room, centre, (x, y));
    }
}

/// Walls and floor are the only tiles.
pub open spec fn walls_and_floor(map: Seq<Vec<Tile>>) -> bool {
    forall|x: int, y: int| in_map(map, x, y) ==> #[trigger] tile_at(map, x, y) == wall_tile() || tile_at(map, x, y)
        == floor_tile()
}

/// Carving keeps the map made of walls and floor, of the same shape, and every open tile open;
/// a tile open after carving was open before or carved.
proof fn lemma_carving_step(before: Seq<Vec<Tile>>, after: Seq<Vec<Tile>>, p: spec_fn(int, int) -> bool)
    requires
        walls_and_floor(before),
        carved(before, after, p),
    ensures
        walls_and_floor(after),
        same_shape(before, after),
        keeps_open(before, after),
        forall|x: int, y: int| in_map(before, x, y) && p(x, y) ==> open_at(after, (x, y)),
        forall|q: (int, int)| #[trigger] in_map(after, q.0, q.1) <==> in_map(before, q.0, q.1),
        forall|q: (int, int)| open_at(after, q) ==> open_at(before, q) || p(q.0, q.1),
{
    lemma_carving_keeps_open(before, after, p);
    assert forall|q: (int, int)| #[trigger] in_map(after, q.0, q.1) <==> in_map(before, q.0, q.1) by {
        if 0 <= q.0 < before.len() {
            assert(before[q.0]@.len() == after[q.0]@.len());
        }
    }
    assert forall|x: int, y: int| in_map(after, x, y) implies #[trigger] tile_at(after, x, y) == wall_tile()
        || tile_at(after, x, y) == floor_tile() by {
        assert(before[x]@.len() == after[x]@.len());
        assert(in_map(before, x, y));
    }
    assert forall|q: (int, int)| open_at(after, q) implies open_at(before, q) || p(q.0, q.1) by {
        assert(before[q.0]@.len() == after[q.0]@.len());
        assert(in_map(before, q.0, q.1));
    }
}

/// Keeping open tiles open composes.
proof fn lemma_keeps_open_trans(a: Seq<Vec<Tile>>, b: Seq<Vec<Tile>>, c: Seq<Vec<Tile>>)
    requires
        keeps_open(a, b),
        keeps_open(b, c),
    ensures
        keeps_open(a, c),
{
    assert forall|p: (int, int)| open_at(a, p) implies #[trigger] open_at(c, p) by {
        assert(open_at(b, p));
    }
}

/// Along an open segment from a reachable end, every tile of the segment is reachable.
proof fn lemma_leg_reach(map: Seq<Vec<Tile>>, start: (int, int), a: (int, int), b: (int, int), t: (int, int))
    requires
        reachable(map, start, a),
        a.0 == b.0 || a.1 == b.1,
        forall|q: (int, int)| on_segment(a, b, q) ==> open_at(map, q),
        on_segment(a, b, t),
    ensures
        reachable(map, start, t),
{
    assert(a.0 == t.0 || a.1 == t.1);
    assert forall|q: (int, int)| on_segment(a, t, q) implies open_at(map, q) by {
        assert(on_segment(a, b, q));
    }
    lemma_segment_walk(map, a, t);
    lemma_reach_trans(map, start, a, t);
}

/// After a room is carved and joined to an already reachable square `from` by an L-shaped
/// tunnel through the corner `corner` to the room's centre, every open tile stays reachable from
/// `start`.
pub proof fn lemma_joined_room_connected(
    m0: Seq<Vec<Tile>>,
    m1: Seq<Vec<Tile>>,
    m2: Seq<Vec<Tile>>,
    m3: Seq<Vec<Tile>>,
    room: Rect,
    start: (int, int),
    from: (int, int),
    corner: (int, int),
    centre: (int, int),
    first_leg: spec_fn(int, int) -> bool,
    second_leg: spec_fn(int, int) -> bool,
)
    requires
        forall|x: int, y: int| in_map(m0, x, y) ==> #[trigger] tile_at(m0, x, y) == wall_tile() || tile_at(m0, x, y)
            == floor_tile(),
        all_open_reachable(m0, start),
        open_at(m0, from),
        carved(m0, m1, |x: int, y: int| in_room_floor(room, x, y)),
        carved(m1, m2, first_leg),
        carved(m2, m3, second_leg),
        forall|x: int, y: int| first_leg(x, y) == on_segment(from, corner, (x, y)),
        forall|x: int, y: int| second_leg(x, y) == on_segment(corner, centre, (x, y)),
        from.0 == corner.0 || from.1 == corner.1,
        corner.0 == centre.0 || corner.1 == centre.1,
        forall|x: int, y: int| in_room_floor(room, x, y) ==> in_map(m0, x, y),
        forall|q: (int, int)| on_segment(from, corner, q) ==> in_map(m0, q.0, q.1),
        forall|q: (int, int)| on_segment(corner, centre, q) ==> in_map(m0, q.0, q.1),
        in_room_floor(room, centre.0, centre.1),
    ensures
        all_open_reachable(m3, start),
{
    let room_floor = |x: int, y: int| in_room_floor(room, x, y);
    assert(walls_and_floor(m0));
    lemma_carving_step(m0, m1, room_floor);
    lemma_carving_step(m1, m2, first_leg);
    lemma_carving_step(m2, m3, second_leg);
    lemma_keeps_open_trans(m0, m1, m2);
    lemma_keeps_open_trans(m0, m2, m3);
    lemma_keeps_open_trans(m1, m2, m3);
    assert forall|q: (int, int)| on_segment(from, corner, q) implies open_at(m3, q) by {
        assert(in_map(m1, q.0, q.1));
        assert(open_at(m2, q));
    }
    assert forall|q: (int, int)| on_segment(corner, centre, q) implies open_at(m3, q) by {
        assert(in_map(m2, q.0, q.1));
    }
    assert forall|x: int, y: int| in_room_floor(room, x, y) implies open_at(m3, (x, y)) by {
        assert(open_at(m1, (x, y)));
    }
    lemma_reach_grows(m0, m3, start, from);
    lemma_leg_reach(m3, start, from, corner, corner);
    lemma_leg_reach(m3, start, corner, centre, centre);
    assert forall|x: int, y: int| #[trigger] open_at(m3, (x, y)) implies reachable(m3, start, (x, y)) by {
        let t = (x, y);
        if open_at(m0, t) {
            lemma_reach_grows(m0, m3, start, t);
        } else if in_room_floor(room, x, y) {
            lemma_room_reach(m3, room, centre, t);
            lemma_reach_trans(m3, start, centre, t);
        } else if first_leg(x, y) {
            lemma_leg_reach(m3, start, from, corner, t);
        } else {
            if open_at(m2, t) {
                assert(open_at(m1, t) || first_leg(x, y));
                assert(open_at(m0, t) || room_floor(x, y));
            }
            assert(second_leg(x, y));
            lemma_leg_reach(m3, start, corner, centre, t);
        }
    }
}

} // verus!
