//! Grid coordinates and candidate paths.

use crate::bitset::Bitset;
use crate::connectivity::{
    adjacent, comes_after, connected, is_connectable, is_contiguous, is_first_occurrence,
    is_walk, lemma_connected_reflexive, lemma_connected_step, lies_on_edge, reaches_edge,
};
use smallvec::SmallVec;
use vstd::prelude::*;

verus! {

/// A grid coordinate: column `x`, row `y`.
#[derive(Copy, Clone, Debug, PartialEq, Eq, Structural)]
pub struct Point {
    pub x: u8,
    pub y: u8,
}

impl Point {
    /// The point in column `x` of row `y`.
    pub fn new(x: u8, y: u8) -> (p: Point)
        ensures
            p == (Point { x, y }),
    {
        Point { x, y }
    }

    /// The point one column to the left, if there is one.
    pub fn left(&self) -> (r: Option<Point>)
        ensures
            self.x == 0 ==> r is None,
            self.x > 0 ==> r == Some(Point { x: (self.x - 1) as u8, y: self.y }),
    {
        if self.x == 0 {
            None
        } else {
            Some(Point { x: self.x - 1, y: self.y })
        }
    }

    /// The point one column to the right, if there is one.
    pub fn right(&self) -> (r: Option<Point>)
        ensures
            self.x == u8::MAX ==> r is None,
            self.x < u8::MAX ==> r == Some(Point { x: (self.x + 1) as u8, y: self.y }),
    {
        if self.x == u8::MAX {
            None
        } else {
            Some(Point { x: self.x + 1, y: self.y })
        }
    }

    /// The point one row up, if there is one.
    pub fn above(&self) -> (r: Option<Point>)
        ensures
            self.y == 0 ==> r is None,
            self.y > 0 ==> r == Some(Point { x: self.x, y: (self.y - 1) as u8 }),
    {
        if self.y == 0 {
            None
        } else {
            Some(Point { x: self.x, y: self.y - 1 })
        }
    }

    /// The point one row down, if there is one.
    pub fn below(&self) -> (r: Option<Point>)
        ensures
            self.y == u8::MAX ==> r is None,
            self.y < u8::MAX ==> r == Some(Point { x: self.x, y: (self.y + 1) as u8 }),
    {
        if self.y == u8::MAX {
            None
        } else {
            Some(Point { x: self.x, y: self.y + 1 })
        }
    }

    /// Whether `self` borders the region into which a path that ends at
    /// `edge_root` may still grow.
    pub fn on_edge(&self, edge_root: &Point) -> (r: bool)
        ensures
            r == lies_on_edge(*self, *edge_root),
    {
        (self.y == edge_root.y && self.x <= edge_root.x) || (self.y < edge_root.y && edge_root.y
            - self.y == 1 && self.x > edge_root.x)
    }

    /// Whether `self` comes strictly after `other` in row-major order.
    pub fn is_beyond(&self, other: &Point) -> (r: bool)
        ensures
            r == comes_after(*self, *other),
    {
        self.y > other.y || (self.y == other.y && self.x > other.x)
    }
}

/// The storage of a candidate path: a `smallvec::SmallVec` that keeps up to
/// eight points inline. The verifier does not look inside it; what it holds
/// is named by `points_of`, and the functions below say, without proof, what
/// the methods of `SmallVec` do to that.
#[verifier::external_body]
pub struct PointBuf(SmallVec<[Point; 8]>);

/// The points that a buffer holds, in the order of their positions.
pub uninterp spec fn points_of(buf: PointBuf) -> Seq<Point>;

/// Calls `SmallVec::with_capacity`. Taken on trust: the new vector holds no
/// element. At most eight are asked for, which the inline storage provides
/// without an allocation.
#[verifier::external_body]
fn buf_with_capacity(n: usize) -> (buf: PointBuf)
    requires
        n <= 8,
    ensures
        points_of(buf) == Seq::<Point>::empty(),
{
    PointBuf(SmallVec::with_capacity(n))
}

/// Calls `SmallVec::push`. Taken on trust: the vector then holds what it
/// held, followed by `p`.
#[verifier::external_body]
fn buf_push(buf: &mut PointBuf, p: Point)
    ensures
        points_of(*final(buf)) == points_of(*old(buf)).push(p),
{
    buf.0.push(p)
}

/// Calls `SmallVec::len`. Taken on trust: the result is the number of
/// elements held.
#[verifier::external_body]
fn buf_len(buf: &PointBuf) -> (n: usize)
    ensures
        n == points_of(*buf).len(),
{
    buf.0.len()
}

/// Indexes a `SmallVec` by position (its `Index` impl). Taken on trust: for a
/// position below the length, the result is the element at that position.
#[verifier::external_body]
fn buf_get(buf: &PointBuf, index: usize) -> (p: Point)
    requires
        index < points_of(*buf).len(),
    ensures
        p == points_of(*buf)[index as int],
{
    buf.0[index]
}

/// Calls `SmallVec::from_slice`. Taken on trust: the new vector holds the
/// elements of the slice, in their order.
#[verifier::external_body]
fn buf_from_slice(points: &[Point]) -> (buf: PointBuf)
    ensures
        points_of(buf) == points@,
{
    PointBuf(SmallVec::from_slice(points))
}

/// Calls `SmallVec::clone`. Taken on trust: the copy holds the same elements
/// in the same order.
#[verifier::external_body]
fn buf_clone(buf: &PointBuf) -> (copy: PointBuf)
    ensures
        points_of(copy) == points_of(*buf),
{
    PointBuf(buf.0.clone())
}

/// The longest path that a `PointSet` is meant to hold: the length of the
/// longest word.
pub const MAX_WORD_LEN: usize = 8;

/// An ordered sequence of grid cells: the letters of a word under
/// construction.
pub struct PointSet(PointBuf);

/// How many of the eight slots of `v` are still `false`.
#[verifier::opaque]
spec fn unvisited(v: Bitset) -> nat {
    let count = |k: int| if v.bit(k) { 0nat } else { 1nat };
    count(0) + count(1) + count(2) + count(3) + count(4) + count(5) + count(6) + count(7)
}

/// Every slot that is `true` in `a` is `true` in `b`.
#[verifier::opaque]
spec fn grows(a: Bitset, b: Bitset) -> bool {
    forall|k: int| #![trigger a.bit(k)] #![trigger b.bit(k)] a.bit(k) ==> b.bit(k)
}

/// Of every cell adjacent to the cell at position `k`, the first occurrence
/// is marked in `v`.
spec fn closed_at(cells: Seq<Point>, v: Bitset, k: int) -> bool {
    forall|m: int|
        0 <= m < cells.len() && #[trigger] adjacent(cells[k], cells[m]) && is_first_occurrence(
            cells,
            m,
        ) ==> v.bit(m)
}

/// Of the cell `p`, if it occurs in `cells`, the first occurrence is marked.
spec fn marked_point(cells: Seq<Point>, v: Bitset, p: Point) -> bool {
    forall|m: int|
        0 <= m < cells.len() && #[trigger] cells[m] == p && is_first_occurrence(cells, m)
            ==> v.bit(m)
}

/// Position `b` holds the first occurrence of a cell that is adjacent to the
/// cell at position `a`: the flood goes from `a` to `b`.
spec fn steps_to(cells: Seq<Point>, a: int, b: int) -> bool {
    &&& 0 <= a < cells.len()
    &&& 0 <= b < cells.len()
    &&& adjacent(cells[a], cells[b])
    &&& is_first_occurrence(cells, b)
}

/// `route` is a way for the flood through positions that `v` has not
/// marked: each position of it steps to the next.
spec fn is_route(cells: Seq<Point>, v: Bitset, route: Seq<int>) -> bool {
    &&& route.len() > 0
    &&& forall|s: int|
        0 <= s < route.len() ==> 0 <= #[trigger] route[s] < cells.len() && !v.bit(route[s])
    &&& forall|s: int| 0 <= s < route.len() - 1 ==> steps_to(cells, #[trigger] route[s], route[s + 1])
}

/// The flood from position `from` reaches position `to` through positions
/// that `v` has not marked.
spec fn floods(cells: Seq<Point>, v: Bitset, from: int, to: int) -> bool {
    exists|route: Seq<int>| #[trigger]
        is_route(cells, v, route) && route.first() == from && route.last() == to
}

/// What marking from position `index` does to a marking: it marks, besides
/// what was marked, exactly the positions that the flood from `index`
/// reaches through positions unmarked before. A marking that holds `index`
/// already stays as it is.
#[verifier::opaque]
spec fn marks_from(cells: Seq<Point>, index: int, before: Bitset, after: Bitset) -> bool {
    forall|k: int| #[trigger] after.bit(k) == (before.bit(k) || floods(cells, before, index, k))
}

/// What follows of a marking from position `index`: the position is marked,
/// nothing is unmarked, and every position newly marked holds a cell that is
/// connected to the cell at `index` (its first occurrence, but for `index`
/// itself) and whose neighbours are marked too.
#[verifier::opaque]
spec fn marks_closed(cells: Seq<Point>, index: int, before: Bitset, after: Bitset) -> bool {
    &&& after.bit(index)
    &&& grows(before, after)
    &&& forall|k: int|
        0 <= k < cells.len() && after.bit(k) && !before.bit(k) ==> {
            &&& k == index || is_first_occurrence(cells, k)
            &&& connected(cells, cells[index], cells[k])
            &&& closed_at(cells, after, k)
        }
}

/// What a flood from position `index` has reached so far. `before` is the
/// marking that the flood met, `start` the same with `index` marked: every
/// position marked since is one that the flood reaches through positions
/// unmarked in `before`, and the neighbours of its cell are marked too; and
/// the cells of `done` are marked.
#[verifier::opaque]
spec fn flooded(
    cells: Seq<Point>,
    index: int,
    before: Bitset,
    start: Bitset,
    v: Bitset,
    done: Set<Point>,
) -> bool {
    &&& grows(before, start)
    &&& grows(start, v)
    &&& forall|k: int|
        #[trigger] v.bit(k) && !start.bit(k) ==> {
            &&& 0 <= k < cells.len()
            &&& floods(cells, before, index, k)
            &&& closed_at(cells, v, k)
        }
    &&& forall|p: Point| done.contains(p) ==> marked_point(cells, v, p)
}

/// A route leads through the cells of a walk.
proof fn lemma_route_connects(cells: Seq<Point>, v: Bitset, route: Seq<int>)
    requires
        is_route(cells, v, route),
    ensures
        connected(cells, cells[route.first()], cells[route.last()]),
{
    let walk = Seq::new(route.len(), |s: int| cells[route[s]]);
    assert forall|s: int| 0 <= s < walk.len() - 1 implies adjacent(#[trigger] walk[s], walk[s + 1]) by {
        assert(steps_to(cells, route[s], route[s + 1]));
    }
    assert forall|s: int| 0 <= s < walk.len() implies cells.contains(#[trigger] walk[s]) by {
        assert(0 <= route[s] < cells.len());
    }
    assert(is_walk(cells, walk));
    assert(walk.first() == cells[route.first()] && walk.last() == cells[route.last()]);
}

/// A marking that holds the start of a route, and with each newly marked
/// position the neighbours of its cell, holds the whole route.
proof fn lemma_route_marked(cells: Seq<Point>, before: Bitset, v: Bitset, route: Seq<int>, s: int)
    requires
        is_route(cells, before, route),
        v.bit(route[0]),
        forall|k: int| 0 <= k < cells.len() && v.bit(k) && !before.bit(k) ==> closed_at(cells, v, k),
        0 <= s < route.len(),
    ensures
        v.bit(route[s]),
    decreases s,
{
    if s > 0 {
        lemma_route_marked(cells, before, v, route, s - 1);
        assert(steps_to(cells, route[s - 1], route[s]));
        assert(closed_at(cells, v, route[s - 1]));
    }
}

/// A route that is free of one marking is free of every marking below it.
proof fn lemma_route_under(cells: Seq<Point>, low: Bitset, high: Bitset, route: Seq<int>)
    requires
        grows(low, high),
        is_route(cells, high, route),
    ensures
        is_route(cells, low, route),
{
    reveal(grows);
}

/// What follows of the exact marking.
proof fn lemma_marks_closed(cells: Seq<Point>, index: int, before: Bitset, after: Bitset)
    requires
        0 <= index < cells.len(),
        marks_from(cells, index, before, after),
    ensures
        marks_closed(cells, index, before, after),
{
    reveal(marks_from);
    reveal(marks_closed);
    reveal(grows);
    if !before.bit(index) {
        let alone = seq![index];
        assert(is_route(cells, before, alone) && alone.first() == index && alone.last() == index);
        assert(floods(cells, before, index, index));
    }
    assert(after.bit(index));
    assert forall|k: int| 0 <= k < cells.len() && after.bit(k) && !before.bit(k) implies {
        &&& k == index || is_first_occurrence(cells, k)
        &&& connected(cells, cells[index], cells[k])
        &&& closed_at(cells, after, k)
    } by {
        assert(floods(cells, before, index, k));
        let route = choose|route: Seq<int>| #[trigger]
            is_route(cells, before, route) && route.first() == index && route.last() == k;
        lemma_route_connects(cells, before, route);
        if route.len() > 1 {
            assert(steps_to(cells, route[route.len() - 2], route[route.len() - 1]));
        }
        assert forall|m: int|
            0 <= m < cells.len() && #[trigger] adjacent(cells[k], cells[m]) && is_first_occurrence(
                cells,
                m,
            ) implies after.bit(m) by {
            if !before.bit(m) {
                let longer = route.push(m);
                assert forall|s: int| 0 <= s < longer.len() - 1 implies steps_to(
                    cells,
                    #[trigger] longer[s],
                    longer[s + 1],
                ) by {
                    if s < route.len() - 1 {
                        assert(steps_to(cells, route[s], route[s + 1]));
                    }
                }
                assert(is_route(cells, before, longer) && longer.first() == index && longer.last()
                    == m);
                assert(floods(cells, before, index, m));
            }
        }
    }
}

/// The first position at which a cell occurs.
proof fn lemma_first_occurrence(cells: Seq<Point>, i: int) -> (m: int)
    requires
        0 <= i < cells.len(),
    ensures
        0 <= m <= i,
        cells[m] == cells[i],
        is_first_occurrence(cells, m),
    decreases i,
{
    if exists|j: int| 0 <= j < i && cells[j] == cells[i] {
        let j = choose|j: int| 0 <= j < i && cells[j] == cells[i];
        lemma_first_occurrence(cells, j)
    } else {
        i
    }
}

/// A marking that is closed under adjacency holds, of every cell on a walk
/// that starts at a marked position, some occurrence; past the start of the
/// walk it holds the first occurrence.
proof fn lemma_closed_marking_follows_walk(
    cells: Seq<Point>,
    v: Bitset,
    start: int,
    walk: Seq<Point>,
    t: int,
) -> (k: int)
    requires
        0 <= start < cells.len(),
        v.bit(start),
        forall|k: int| 0 <= k < cells.len() && v.bit(k) ==> closed_at(cells, v, k),
        is_walk(cells, walk),
        walk[0] == cells[start],
        0 <= t < walk.len(),
    ensures
        0 <= k < cells.len(),
        v.bit(k),
        cells[k] == walk[t],
        t > 0 ==> is_first_occurrence(cells, k),
    decreases t,
{
    if t == 0 {
        start
    } else {
        let prev = lemma_closed_marking_follows_walk(cells, v, start, walk, t - 1);
        assert(cells.contains(walk[t]));
        let some = choose|i: int| 0 <= i < cells.len() && cells[i] == walk[t];
        let m = lemma_first_occurrence(cells, some);
        assert(adjacent(walk[t - 1], walk[t]));
        assert(closed_at(cells, v, prev));
        assert(adjacent(cells[prev], cells[m]));
        m
    }
}

/// A flood begins with the marking of its own position, which leaves fewer
/// positions unmarked.
proof fn lemma_flood_begin(cells: Seq<Point>, index: int, before: Bitset, start: Bitset)
    requires
        0 <= index < cells.len() <= 8,
        !before.bit(index),
        forall|i: int| start.bit(i) == (i == index || before.bit(i)),
    ensures
        flooded(cells, index, before, start, start, Set::empty()),
        unvisited(start) < unvisited(before),
{
    reveal(flooded);
    reveal(grows);
    reveal(unvisited);
}

/// While a flood goes on, fewer positions are unmarked than before it began.
proof fn lemma_flood_measure(
    cells: Seq<Point>,
    index: int,
    before: Bitset,
    start: Bitset,
    v: Bitset,
    done: Set<Point>,
)
    requires
        flooded(cells, index, before, start, v, done),
        unvisited(start) < unvisited(before),
    ensures
        unvisited(v) < unvisited(before),
{
    assert(grows(start, v)) by {
        reveal(flooded);
    }
    lemma_unvisited_shrinks(start, v);
}

/// A marking that grows leaves no more positions unmarked.
proof fn lemma_unvisited_shrinks(a: Bitset, b: Bitset)
    requires
        grows(a, b),
    ensures
        unvisited(b) <= unvisited(a),
{
    reveal(grows);
    reveal(unvisited);
}

/// A flood from a neighbour of the cell at `index` extends the flood from
/// `index`.
proof fn lemma_flood_neighbor(
    cells: Seq<Point>,
    index: int,
    n_index: int,
    before: Bitset,
    start: Bitset,
    v: Bitset,
    w: Bitset,
    done: Set<Point>,
)
    requires
        0 <= index < cells.len(),
        0 <= n_index < cells.len(),
        !before.bit(index),
        adjacent(cells[index], cells[n_index]),
        is_first_occurrence(cells, n_index),
        flooded(cells, index, before, start, v, done),
        marks_from(cells, n_index, v, w),
    ensures
        flooded(cells, index, before, start, w, done.insert(cells[n_index])),
{
    lemma_marks_closed(cells, n_index, v, w);
    reveal(flooded);
    reveal(marks_closed);
    assert(grows(before, v) && grows(start, w)) by {
        reveal(grows);
    }
    assert forall|k: int| #[trigger] w.bit(k) && !start.bit(k) implies {
        &&& 0 <= k < cells.len()
        &&& floods(cells, before, index, k)
        &&& closed_at(cells, w, k)
    } by {
        if v.bit(k) {
            assert(closed_at(cells, v, k));
            assert(closed_at(cells, w, k)) by {
                reveal(grows);
            }
        } else {
            assert(floods(cells, v, n_index, k)) by {
                reveal(marks_from);
            }
            let route = choose|route: Seq<int>| #[trigger]
                is_route(cells, v, route) && route.first() == n_index && route.last() == k;
            lemma_route_under(cells, before, v, route);
            let longer = seq![index] + route;
            assert forall|s: int| 0 <= s < longer.len() - 1 implies steps_to(
                cells,
                #[trigger] longer[s],
                longer[s + 1],
            ) by {
                if s > 0 {
                    assert(steps_to(cells, route[s - 1], route[s]));
                }
            }
            assert forall|s: int| 0 <= s < longer.len() implies 0 <= #[trigger] longer[s]
                < cells.len() && !before.bit(longer[s]) by {
                if s > 0 {
                    assert(0 <= route[s - 1] < cells.len() && !before.bit(route[s - 1]));
                }
            }
            assert(is_route(cells, before, longer) && longer.first() == index && longer.last()
                == k);
        }
    }
    assert forall|p: Point| done.insert(cells[n_index]).contains(p) implies marked_point(
        cells,
        w,
        p,
    ) by {
        reveal(grows);
        if done.contains(p) {
            assert(marked_point(cells, v, p));
        }
    }
}

/// A cell that the path does not hold needs no marking.
proof fn lemma_flood_absent(
    cells: Seq<Point>,
    index: int,
    p: Point,
    before: Bitset,
    start: Bitset,
    v: Bitset,
    done: Set<Point>,
)
    requires
        !cells.contains(p),
        flooded(cells, index, before, start, v, done),
    ensures
        flooded(cells, index, before, start, v, done.insert(p)),
{
    reveal(flooded);
}

/// Once the four neighbours of the cell at `index` have been flooded, the
/// flood from `index` is complete.
proof fn lemma_flood_done(
    cells: Seq<Point>,
    index: int,
    before: Bitset,
    start: Bitset,
    v: Bitset,
    done: Set<Point>,
    above: Option<Point>,
    below: Option<Point>,
    left: Option<Point>,
    right: Option<Point>,
)
    requires
        0 <= index < cells.len(),
        !before.bit(index),
        forall|i: int| start.bit(i) == (i == index || before.bit(i)),
        flooded(cells, index, before, start, v, done),
        cells[index].y > 0 ==> above == Some(
            Point { x: cells[index].x, y: (cells[index].y - 1) as u8 },
        ),
        cells[index].y < u8::MAX ==> below == Some(
            Point { x: cells[index].x, y: (cells[index].y + 1) as u8 },
        ),
        cells[index].x > 0 ==> left == Some(
            Point { x: (cells[index].x - 1) as u8, y: cells[index].y },
        ),
        cells[index].x < u8::MAX ==> right == Some(
            Point { x: (cells[index].x + 1) as u8, y: cells[index].y },
        ),
        above matches Some(q) ==> done.contains(q),
        below matches Some(q) ==> done.contains(q),
        left matches Some(q) ==> done.contains(q),
        right matches Some(q) ==> done.contains(q),
    ensures
        marks_from(cells, index, before, v),
{
    reveal(flooded);
    assert(start.bit(index));
    assert(v.bit(index)) by {
        reveal(grows);
    }
    assert forall|m: int|
        0 <= m < cells.len() && #[trigger] adjacent(cells[index], cells[m]) && is_first_occurrence(
            cells,
            m,
        ) implies v.bit(m) by {
        let q = cells[m];
        assert(above == Some(q) || below == Some(q) || left == Some(q) || right == Some(q));
        assert(done.contains(q));
        assert(marked_point(cells, v, q));
    }
    assert(closed_at(cells, v, index));
    let alone = seq![index];
    assert(is_route(cells, before, alone) && alone.first() == index && alone.last() == index);
    assert forall|k: int| #[trigger] v.bit(k) == (before.bit(k) || floods(cells, before, index, k)) by {
        if before.bit(k) {
            assert(v.bit(k)) by {
                reveal(grows);
            }
        } else if floods(cells, before, index, k) {
            let route = choose|route: Seq<int>| #[trigger]
                is_route(cells, before, route) && route.first() == index && route.last() == k;
            lemma_route_marked(cells, before, v, route, route.len() - 1);
        } else if v.bit(k) {
            assert(k != index);
            assert(!start.bit(k));
        }
    }
    assert(marks_from(cells, index, before, v)) by {
        reveal(marks_from);
    }
}

/// A marking that holds the position already is left as it is.
proof fn lemma_marked_already(cells: Seq<Point>, index: int, v: Bitset)
    requires
        v.bit(index),
    ensures
        marks_from(cells, index, v, v),
{
    reveal(marks_from);
    assert forall|k: int| !floods(cells, v, index, k) by {
        if floods(cells, v, index, k) {
            let route = choose|route: Seq<int>| #[trigger]
                is_route(cells, v, route) && route.first() == index && route.last() == k;
            assert(!v.bit(route[0]));
        }
    }
}

/// The flood from some position on the edge, among the first `upto`
/// positions, reaches position `k` through positions that `v` has not marked.
spec fn edge_floods(cells: Seq<Point>, v: Bitset, upto: int, k: int) -> bool {
    exists|j: int|
        0 <= j < upto && j < cells.len() && lies_on_edge(#[trigger] cells[j], cells.last())
            && floods(cells, v, j, k)
}

/// What marking from the edge does to a marking: it marks, besides what was
/// marked, exactly the positions that the flood from a position on the edge
/// reaches through positions unmarked before.
#[verifier::opaque]
spec fn marks_from_edge(cells: Seq<Point>, before: Bitset, after: Bitset) -> bool {
    forall|k: int|
        #[trigger] after.bit(k) == (before.bit(k) || edge_floods(
            cells,
            before,
            cells.len() as int,
            k,
        ))
}

/// What marking from the edge has done to a marking by the time the
/// positions before `upto` have been looked at.
#[verifier::opaque]
spec fn edge_marked(cells: Seq<Point>, before: Bitset, after: Bitset, upto: int) -> bool {
    &&& grows(before, after)
    &&& forall|k: int|
        0 <= k < upto && k < cells.len() && lies_on_edge(#[trigger] cells[k], cells.last())
            ==> after.bit(k)
    &&& forall|k: int|
        0 <= k < cells.len() && after.bit(k) && !before.bit(k) ==> {
            &&& lies_on_edge(cells[k], cells.last()) || is_first_occurrence(cells, k)
            &&& reaches_edge(cells, cells[k])
            &&& closed_at(cells, after, k)
        }
}

/// Every position marked since `before` is one that the flood from a
/// position on the edge, among the first `upto`, reaches through positions
/// unmarked in `before`.
#[verifier::opaque]
spec fn edge_filled(cells: Seq<Point>, before: Bitset, after: Bitset, upto: int) -> bool {
    forall|k: int|
        #[trigger] after.bit(k) && !before.bit(k) ==> 0 <= k < cells.len() && edge_floods(
            cells,
            before,
            upto,
            k,
        )
}

/// Before any position has been looked at, nothing has been marked.
proof fn lemma_edge_begin(cells: Seq<Point>, v: Bitset)
    ensures
        edge_marked(cells, v, v, 0),
        edge_filled(cells, v, v, 0),
{
    reveal(edge_marked);
    reveal(edge_filled);
    reveal(grows);
}

/// What looking at position `i` adds to the marking from the edge.
proof fn lemma_edge_step(cells: Seq<Point>, before: Bitset, v: Bitset, w: Bitset, i: int)
    requires
        0 <= i < cells.len(),
        edge_marked(cells, before, v, i),
        if !v.bit(i) && lies_on_edge(cells[i], cells.last()) {
            marks_from(cells, i, v, w)
        } else {
            w == v
        },
    ensures
        edge_marked(cells, before, w, i + 1),
{
    if !v.bit(i) && lies_on_edge(cells[i], cells.last()) {
        lemma_marks_closed(cells, i, v, w);
    }
    reveal(edge_marked);
    reveal(grows);
    reveal(marks_closed);
    assert forall|k: int| 0 <= k < cells.len() && w.bit(k) && !before.bit(k) implies {
        &&& lies_on_edge(cells[k], cells.last()) || is_first_occurrence(cells, k)
        &&& reaches_edge(cells, cells[k])
        &&& closed_at(cells, w, k)
    } by {
        if v.bit(k) {
            assert(closed_at(cells, v, k));
        } else {
            assert(lies_on_edge(cells[i], cells.last()));
            assert(connected(cells, cells[i], cells[k]));
        }
    }
}

/// What looking at position `i` adds to what the floods from the edge have
/// reached.
proof fn lemma_edge_fill_step(cells: Seq<Point>, before: Bitset, v: Bitset, w: Bitset, i: int)
    requires
        0 <= i < cells.len(),
        grows(before, v),
        edge_filled(cells, before, v, i),
        if !v.bit(i) && lies_on_edge(cells[i], cells.last()) {
            marks_from(cells, i, v, w)
        } else {
            w == v
        },
    ensures
        edge_filled(cells, before, w, i + 1),
{
    reveal(edge_filled);
    assert forall|k: int| #[trigger] w.bit(k) && !before.bit(k) implies 0 <= k < cells.len()
        && edge_floods(cells, before, i + 1, k) by {
        if v.bit(k) {
            assert(edge_floods(cells, before, i, k));
            let j = choose|j: int|
                0 <= j < i && j < cells.len() && lies_on_edge(#[trigger] cells[j], cells.last())
                    && floods(cells, before, j, k);
            assert(lies_on_edge(cells[j], cells.last()) && floods(cells, before, j, k));
        } else {
            assert(floods(cells, v, i, k)) by {
                reveal(marks_from);
            }
            let route = choose|route: Seq<int>| #[trigger]
                is_route(cells, v, route) && route.first() == i && route.last() == k;
            lemma_route_under(cells, before, v, route);
            assert(0 <= route[route.len() - 1] < cells.len());
            assert(lies_on_edge(cells[i], cells.last()) && floods(cells, before, i, k));
        }
    }
}

/// Once every position has been looked at, the marking from the edge is
/// exactly what the floods from the edge reach.
proof fn lemma_edge_exact(cells: Seq<Point>, before: Bitset, after: Bitset)
    requires
        edge_marked(cells, before, after, cells.len() as int),
        edge_filled(cells, before, after, cells.len() as int),
    ensures
        marks_from_edge(cells, before, after),
{
    reveal(edge_marked);
    reveal(edge_filled);
    assert forall|k: int|
        #[trigger] after.bit(k) == (before.bit(k) || edge_floods(
            cells,
            before,
            cells.len() as int,
            k,
        )) by {
        if before.bit(k) {
            assert(after.bit(k)) by {
                reveal(grows);
            }
        } else if edge_floods(cells, before, cells.len() as int, k) {
            let j = choose|j: int|
                0 <= j < cells.len() && j < cells.len() && lies_on_edge(
                    #[trigger] cells[j],
                    cells.last(),
                ) && floods(cells, before, j, k);
            let route = choose|route: Seq<int>| #[trigger]
                is_route(cells, before, route) && route.first() == j && route.last() == k;
            lemma_route_marked(cells, before, after, route, route.len() - 1);
        }
    }
    assert(marks_from_edge(cells, before, after)) by {
        reveal(marks_from_edge);
    }
}

impl Clone for PointSet {
    fn clone(&self) -> (copy: Self)
        ensures
            copy@ == self@,
    {
        PointSet(buf_clone(&self.0))
    }
}

impl PointSet {
    /// The cells of the path, in the order in which they were added.
    pub closed spec fn view(&self) -> Seq<Point> {
        points_of(self.0)
    }

    /// The path holds at least one cell and at most `MAX_WORD_LEN`.
    pub open spec fn wf(&self) -> bool {
        1 <= self@.len() <= MAX_WORD_LEN
    }

    /// The path that consists of `root` alone.
    pub fn new(root: Point) -> (r: PointSet)
        ensures
            r@ == seq![root],
            r.wf(),
    {
        let mut points = buf_with_capacity(MAX_WORD_LEN);
        buf_push(&mut points, root);
        PointSet(points)
    }

    /// The path that holds the cells of `points`, in their order.
    pub fn from(points: &[Point]) -> (r: PointSet)
        ensures
            r@ == points@,
    {
        PointSet(buf_from_slice(points))
    }

    /// Appends `point` to the path.
    pub fn push(&mut self, point: Point)
        ensures
            final(self)@ == old(self)@.push(point),
    {
        buf_push(&mut self.0, point)
    }

    /// The number of cells.
    pub fn length(&self) -> (n: usize)
        ensures
            n == self@.len(),
    {
        buf_len(&self.0)
    }

    /// The cell at position `index`.
    pub fn get(&self, index: usize) -> (p: Point)
        requires
            index < self@.len(),
        ensures
            p == self@[index as int],
    {
        buf_get(&self.0, index)
    }

    /// The cells as a vector.
    pub fn to_vec(&self) -> (cells: Vec<Point>)
        ensures
            cells@ == self@,
    {
        let n = self.length();
        let mut cells: Vec<Point> = Vec::new();
        let mut i: usize = 0;
        while i < n
            invariant
                n == self@.len(),
                i <= n,
                cells@ == self@.subrange(0, i as int),
            decreases n - i,
        {
            cells.push(self.get(i));
            i += 1;
            assert(cells@ == self@.subrange(0, i as int));
        }
        assert(cells@ == self@);
        cells
    }

    /// A bitset in which the slots of the path's positions are `false` and
    /// the slots past its end are `true`.
    fn make_bitset(&self) -> (fresh: Bitset)
        requires
            self@.len() <= MAX_WORD_LEN,
        ensures
            forall|i: int| 0 <= i < 8 ==> fresh.bit(i) == (i >= self@.len()),
    {
        Bitset::first_n(self.length())
    }

    /// The first position that holds `point`.
    fn index_of(&self, point: Point) -> (r: Option<usize>)
        ensures
            match r {
                Some(i) => i < self@.len() && self@[i as int] == point && is_first_occurrence(
                    self@,
                    i as int,
                ),
                None => !self@.contains(point),
            },
    {
        let n = self.length();
        let mut i: usize = 0;
        while i < n
            invariant
                n == self@.len(),
                i <= n,
                forall|j: int| 0 <= j < i ==> self@[j] != point,
            decreases n - i,
        {
            if self.get(i) == point {
                return Some(i);
            }
            i += 1;
        }
        None
    }

    /// Marks position `index` and, of every cell that a walk through the
    /// path's cells reaches from there, the first occurrence.
    fn mark_index(&self, index: usize, visited: &mut Bitset)
        requires
            self@.len() <= MAX_WORD_LEN,
            index < self@.len(),
        ensures
            marks_from(self@, index as int, *old(visited), *final(visited)),
        decreases unvisited(*old(visited)),
    {
        let ghost cells = self@;
        if !visited.get(index) {
            visited.set(index, true);
            let point = self.get(index);
            let ghost start = *visited;
            let ghost mut done = Set::<Point>::empty();
            proof {
                lemma_flood_begin(cells, index as int, *old(visited), start);
            }

            let above = point.above();
            if let Some(neighbor) = above {
                if let Some(n_index) = self.index_of(neighbor) {
                    let ghost before = *visited;
                    proof {
                        lemma_flood_measure(cells, index as int, *old(visited), start, before, done);
                    }
                    self.mark_index(n_index, visited);
                    proof {
                        lemma_flood_neighbor(
                            cells,
                            index as int,
                            n_index as int,
                            *old(visited),
                            start,
                            before,
                            *visited,
                            done,
                        );
                    }
                } else {
                    proof {
                        lemma_flood_absent(
                            cells,
                            index as int,
                            neighbor,
                            *old(visited),
                            start,
                            *visited,
                            done,
                        );
                    }
                }
                proof {
                    done = done.insert(neighbor);
                }
            }
            let below = point.below();
            if let Some(neighbor) = below {
                if let Some(n_index) = self.index_of(neighbor) {
                    let ghost before = *visited;
                    proof {
                        lemma_flood_measure(cells, index as int, *old(visited), start, before, done);
                    }
                    self.mark_index(n_index, visited);
                    proof {
                        lemma_flood_neighbor(
                            cells,
                            index as int,
                            n_index as int,
                            *old(visited),
                            start,
                            before,
                            *visited,
                            done,
                        );
                    }
                } else {
                    proof {
                        lemma_flood_absent(
                            cells,
                            index as int,
                            neighbor,
                            *old(visited),
                            start,
                            *visited,
                            done,
                        );
                    }
                }
                proof {
                    done = done.insert(neighbor);
                }
            }
            let left = point.left();
            if let Some(neighbor) = left {
                if let Some(n_index) = self.index_of(neighbor) {
                    let ghost before = *visited;
                    proof {
                        lemma_flood_measure(cells, index as int, *old(visited), start, before, done);
                    }
                    self.mark_index(n_index, visited);
                    proof {
                        lemma_flood_neighbor(
                            cells,
                            index as int,
                            n_index as int,
                            *old(visited),
                            start,
                            before,
                            *visited,
                            done,
                        );
                    }
                } else {
                    proof {
                        lemma_flood_absent(
                            cells,
                            index as int,
                            neighbor,
                            *old(visited),
                            start,
                            *visited,
                            done,
                        );
                    }
                }
                proof {
                    done = done.insert(neighbor);
                }
            }
            let right = point.right();
            if let Some(neighbor) = right {
                if let Some(n_index) = self.index_of(neighbor) {
                    let ghost before = *visited;
                    proof {
                        lemma_flood_measure(cells, index as int, *old(visited), start, before, done);
                    }
                    self.mark_index(n_index, visited);
                    proof {
                        lemma_flood_neighbor(
                            cells,
                            index as int,
                            n_index as int,
                            *old(visited),
                            start,
                            before,
                            *visited,
                            done,
                        );
                    }
                } else {
                    proof {
                        lemma_flood_absent(
                            cells,
                            index as int,
                            neighbor,
                            *old(visited),
                            start,
                            *visited,
                            done,
                        );
                    }
                }
                proof {
                    done = done.insert(neighbor);
                }
            }
            proof {
                lemma_flood_done(
                    cells,
                    index as int,
                    *old(visited),
                    start,
                    *visited,
                    done,
                    above,
                    below,
                    left,
                    right,
                );
            }
        } else {
            proof {
                lemma_marked_already(cells, index as int, *visited);
            }
        }
    }

    /// Marks the first cell and all that is connected to it.
    fn mark_first(&self, visited: &mut Bitset)
        requires
            self.wf(),
        ensures
            marks_from(self@, 0, *old(visited), *final(visited)),
    {
        self.mark_index(0, visited)
    }

    /// The cell that was added last.
    pub fn last_point(&self) -> (p: Point)
        requires
            self@.len() > 0,
        ensures
            p == self@.last(),
    {
        self.get(self.length() - 1)
    }

    /// Marks every cell on the edge below the last cell, and all that is
    /// connected to one of them:
    /// ```text
    /// . . s x x x x x
    /// x x x
    /// ```
    fn mark_edge(&self, visited: &mut Bitset)
        requires
            self.wf(),
        ensures
            marks_from_edge(self@, *old(visited), *final(visited)),
            edge_marked(self@, *old(visited), *final(visited), self@.len() as int),
    {
        let last_point = self.last_point();
        let n = self.length();
        let mut i: usize = 0;
        proof {
            lemma_edge_begin(self@, *visited);
        }
        while i < n
            invariant
                self.wf(),
                n == self@.len(),
                i <= n,
                last_point == self@.last(),
                edge_marked(self@, *old(visited), *visited, i as int),
                edge_filled(self@, *old(visited), *visited, i as int),
            decreases n - i,
        {
            let ghost before = *visited;
            if !visited.get(i) && self.get(i).on_edge(&last_point) {
                self.mark_index(i, visited);
            }
            proof {
                assert(grows(*old(visited), before)) by {
                    reveal(edge_marked);
                }
                lemma_edge_step(self@, *old(visited), before, *visited, i as int);
                lemma_edge_fill_step(self@, *old(visited), before, *visited, i as int);
            }
            i += 1;
        }
        proof {
            lemma_edge_exact(self@, *old(visited), *visited);
        }
    }

    /// Whether the cells are pairwise distinct and form one region connected
    /// by horizontal and vertical adjacency.
    pub fn contiguous(&self) -> (r: bool)
        requires
            self.wf(),
        ensures
            r == is_contiguous(self@),
    {
        let mut visited = self.make_bitset();
        let ghost fresh = visited;
        self.mark_first(&mut visited);
        proof {
            self.lemma_full_iff_contiguous(fresh, visited);
        }
        visited.is_full()
    }

    /// A marking from the first cell is full exactly if the path is
    /// contiguous.
    proof fn lemma_full_iff_contiguous(&self, fresh: Bitset, visited: Bitset)
        requires
            self.wf(),
            forall|i: int| 0 <= i < 8 ==> fresh.bit(i) == (i >= self@.len()),
            marks_from(self@, 0, fresh, visited),
        ensures
            (forall|i: int| 0 <= i < 8 ==> visited.bit(i)) == is_contiguous(self@),
    {
        lemma_marks_closed(self@, 0, fresh, visited);
        reveal(is_contiguous);
        reveal(marks_closed);
        reveal(grows);
        let cells = self@;
        if forall|i: int| 0 <= i < 8 ==> visited.bit(i) {
            assert forall|i: int, j: int|
                0 <= i < cells.len() && 0 <= j < cells.len() && i != j implies cells[i]
                != cells[j] by {
                assert(visited.bit(i) && !fresh.bit(i));
                assert(visited.bit(j) && !fresh.bit(j));
            }
            assert forall|i: int| 0 <= i < cells.len() implies connected(
                cells,
                cells[0],
                #[trigger] cells[i],
            ) by {
                assert(visited.bit(i) && !fresh.bit(i));
            }
        }
        if is_contiguous(cells) {
            assert forall|i: int| 0 <= i < 8 implies visited.bit(i) by {
                if i < cells.len() {
                    let walk = choose|walk: Seq<Point>| #[trigger]
                        is_walk(cells, walk) && walk.first() == cells[0] && walk.last()
                            == cells[i];
                    let k = lemma_closed_marking_follows_walk(
                        cells,
                        visited,
                        0,
                        walk,
                        walk.len() - 1,
                    );
                    assert(k == i);
                } else {
                    assert(fresh.bit(i));
                }
            }
        }
    }

    /// Whether the path can still grow into a contiguous one.
    ///
    /// A path grows rightward in its last row and into the rows below, so a
    /// cell that no walk connects to the lower edge of the path
    /// can never be joined to the rest. When this returns
    /// `false`, no continuation of the path is contiguous; when it returns
    /// `true`, one may be.
    ///
    /// Key: `.` free, `s` on the path, `x` where the path may still grow.
    /// ```text
    /// . . s . . . s .
    /// s s s s x x x x    may still connect
    /// x x x x
    ///
    /// . s . . . s . .
    /// . s s . . . . .    cannot connect
    /// . . s x x x x x
    /// x x x
    /// ```
    pub fn connectable(&self) -> (r: bool)
        requires
            self.wf(),
        ensures
            r == is_connectable(self@),
    {
        let mut visited = self.make_bitset();
        let ghost fresh = visited;

        self.mark_edge(&mut visited);
        proof {
            self.lemma_edge_marking(fresh, visited);
        }

        if visited.get(0) {
            visited.is_full()
        } else if visited != self.make_bitset() {
            false
        } else {
            proof {
                fresh.lemma_ext_equal(visited);
                assert(visited.bit(self@.len() - 1));
                assert(false);
            }
            self.mark_first(&mut visited);
            visited.is_full()
        }
    }

    /// A marking from the edge is full exactly if the path is connectable.
    proof fn lemma_edge_marking(&self, fresh: Bitset, visited: Bitset)
        requires
            self.wf(),
            forall|i: int| 0 <= i < 8 ==> fresh.bit(i) == (i >= self@.len()),
            edge_marked(self@, fresh, visited, self@.len() as int),
        ensures
            (forall|i: int| 0 <= i < 8 ==> visited.bit(i)) == is_connectable(self@),
            visited.bit(self@.len() - 1),
    {
        reveal(is_connectable);
        let cells = self@;
        lemma_edge_holds(cells, fresh, visited, cells.len() - 1);
        if forall|i: int| 0 <= i < 8 ==> visited.bit(i) {
            assert forall|i: int| 0 <= i < cells.len() implies reaches_edge(
                cells,
                #[trigger] cells[i],
            ) && (is_first_occurrence(cells, i) || lies_on_edge(cells[i], cells.last())) by {
                lemma_edge_holds(cells, fresh, visited, i);
            }
        }
        if is_connectable(cells) {
            assert forall|i: int| 0 <= i < 8 implies visited.bit(i) by {
                lemma_edge_holds(cells, fresh, visited, i);
            }
        }
    }
}

/// Which positions a marking from the edge holds: those past the end of the
/// path, and those of the cells that reach the edge, but for cells that occur
/// again away from the edge.
proof fn lemma_edge_holds(cells: Seq<Point>, fresh: Bitset, visited: Bitset, i: int)
    requires
        0 < cells.len() <= 8,
        0 <= i < 8,
        forall|k: int| 0 <= k < 8 ==> fresh.bit(k) == (k >= cells.len()),
        edge_marked(cells, fresh, visited, cells.len() as int),
    ensures
        i >= cells.len() ==> visited.bit(i),
        i < cells.len() ==> visited.bit(i) == (reaches_edge(cells, cells[i]) && (
        is_first_occurrence(cells, i) || lies_on_edge(cells[i], cells.last()))),
        i == cells.len() - 1 ==> visited.bit(i),
{
    reveal(edge_marked);
    assert(grows(fresh, visited));
    assert(fresh.bit(i) ==> visited.bit(i)) by {
        reveal(grows);
    }
    if i < cells.len() {
        if lies_on_edge(cells[i], cells.last()) {
            assert(cells.contains(cells[i]));
            lemma_connected_reflexive(cells, cells[i]);
        } else if reaches_edge(cells, cells[i]) && is_first_occurrence(cells, i) {
            let j = choose|j: int|
                0 <= j < cells.len() && lies_on_edge(#[trigger] cells[j], cells.last())
                    && connected(cells, cells[j], cells[i]);
            let walk = choose|walk: Seq<Point>| #[trigger]
                is_walk(cells, walk) && walk.first() == cells[j] && walk.last() == cells[i];
            let k = lemma_closed_marking_follows_walk(cells, visited, j, walk, walk.len() - 1);
            assert(k == i);
        }
    }
}

} // verus!
