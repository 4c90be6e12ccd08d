//! What it means for a set of grid cells to hang together: walks between
//! rook-adjacent cells, the growth rule for candidate paths, and the two
//! predicates that the search relies on, with the laws that relate them.

use crate::point::Point;
use vstd::prelude::*;

verus! {

/// `a` and `b` share a side.
pub open spec fn adjacent(a: Point, b: Point) -> bool {
    ||| a.y == b.y && (a.x + 1 == b.x || b.x + 1 == a.x)
    ||| a.x == b.x && (a.y + 1 == b.y || b.y + 1 == a.y)
}

/// `b` comes strictly after `a` in row-major order.
pub open spec fn comes_after(b: Point, a: Point) -> bool {
    b.y > a.y || (b.y == a.y && b.x > a.x)
}

/// `p` borders the region into which a path ending at `last` may still grow:
/// it lies in the last row at or left of `last`, or in the row above it and
/// right of `last`.
pub open spec fn lies_on_edge(p: Point, last: Point) -> bool {
    ||| p.y == last.y && p.x <= last.x
    ||| p.y + 1 == last.y && p.x > last.x
}

/// The growth rule: after `a`, a path continues rightward in the same row or
/// in the next row at or left of `a`'s column.
pub open spec fn grows_to(a: Point, b: Point) -> bool {
    ||| b.y == a.y && b.x > a.x
    ||| b.y == a.y + 1 && b.x <= a.x
}

/// Every step of `path` obeys the growth rule.
pub open spec fn is_growth_path(path: Seq<Point>) -> bool {
    forall|i: int| 0 <= i < path.len() - 1 ==> grows_to(#[trigger] path[i], path[i + 1])
}

/// `walk` is a non-empty sequence of cells of `cells` in which each cell is
/// adjacent to the next.
pub open spec fn is_walk(cells: Seq<Point>, walk: Seq<Point>) -> bool {
    &&& walk.len() > 0
    &&& forall|k: int| 0 <= k < walk.len() ==> cells.contains(#[trigger] walk[k])
    &&& forall|k: int| 0 <= k < walk.len() - 1 ==> adjacent(#[trigger] walk[k], walk[k + 1])
}

/// Some walk through `cells` leads from `a` to `b`.
pub open spec fn connected(cells: Seq<Point>, a: Point, b: Point) -> bool {
    exists|walk: Seq<Point>| #[trigger]
        is_walk(cells, walk) && walk.first() == a && walk.last() == b
}

/// No earlier position of `cells` holds the cell at position `k`.
pub open spec fn is_first_occurrence(cells: Seq<Point>, k: int) -> bool {
    forall|j: int| 0 <= j < k ==> cells[j] != cells[k]
}

/// The cells are pairwise distinct and each can be reached from the first by
/// a walk that stays within them.
#[verifier::opaque]
pub open spec fn is_contiguous(cells: Seq<Point>) -> bool {
    &&& cells.no_duplicates()
    &&& forall|i: int| 0 <= i < cells.len() ==> connected(cells, cells[0], #[trigger] cells[i])
}

/// Some cell on the edge is connected to `p`.
pub open spec fn reaches_edge(cells: Seq<Point>, p: Point) -> bool {
    exists|j: int|
        0 <= j < cells.len() && lies_on_edge(#[trigger] cells[j], cells.last()) && connected(
            cells,
            cells[j],
            p,
        )
}

/// Every cell is connected to a cell on the edge, and a cell that occurs
/// twice lies on the edge itself.
#[verifier::opaque]
pub open spec fn is_connectable(cells: Seq<Point>) -> bool {
    &&& forall|i: int| 0 <= i < cells.len() ==> reaches_edge(cells, #[trigger] cells[i])
    &&& forall|i: int|
        0 <= i < cells.len() ==> is_first_occurrence(cells, i) || lies_on_edge(
            #[trigger] cells[i],
            cells.last(),
        )
}

/// A cell of `cells` is connected to itself.
pub proof fn lemma_connected_reflexive(cells: Seq<Point>, a: Point)
    requires
        cells.contains(a),
    ensures
        connected(cells, a, a),
{
    let walk = seq![a];
    assert(is_walk(cells, walk));
    assert(walk.first() == a && walk.last() == a);
}

/// A walk read backwards is a walk.
pub proof fn lemma_connected_symmetric(cells: Seq<Point>, a: Point, b: Point)
    requires
        connected(cells, a, b),
    ensures
        connected(cells, b, a),
{
    let walk = choose|walk: Seq<Point>| #[trigger]
        is_walk(cells, walk) && walk.first() == a && walk.last() == b;
    let back = walk.reverse();
    assert forall|k: int| 0 <= k < back.len() - 1 implies adjacent(#[trigger] back[k], back[k + 1]) by {
        let m = walk.len() - 2 - k;
        assert(adjacent(walk[m], walk[m + 1]));
    }
    assert(is_walk(cells, back));
    assert(back.first() == b && back.last() == a);
}

/// Two walks that meet end to start make one walk.
pub proof fn lemma_connected_transitive(cells: Seq<Point>, a: Point, b: Point, c: Point)
    requires
        connected(cells, a, b),
        connected(cells, b, c),
    ensures
        connected(cells, a, c),
{
    let first = choose|walk: Seq<Point>| #[trigger]
        is_walk(cells, walk) && walk.first() == a && walk.last() == b;
    let second = choose|walk: Seq<Point>| #[trigger]
        is_walk(cells, walk) && walk.first() == b && walk.last() == c;
    let joined = first + second.drop_first();
    assert forall|k: int| 0 <= k < joined.len() - 1 implies adjacent(
        #[trigger] joined[k],
        joined[k + 1],
    ) by {
        if k < first.len() - 1 {
            assert(adjacent(first[k], first[k + 1]));
        } else {
            let m = k - (first.len() - 1);
            assert(adjacent(second[m], second[m + 1]));
        }
    }
    assert forall|k: int| 0 <= k < joined.len() implies cells.contains(#[trigger] joined[k]) by {
        if k < first.len() {
            assert(cells.contains(first[k]));
        } else {
            assert(cells.contains(second[k - first.len() + 1]));
        }
    }
    assert(is_walk(cells, joined));
    assert(joined.first() == a && joined.last() == c);
}

/// One step to an adjacent cell, followed by a walk, is a walk.
pub proof fn lemma_connected_step(cells: Seq<Point>, a: Point, b: Point, c: Point)
    requires
        cells.contains(a),
        adjacent(a, b),
        connected(cells, b, c),
    ensures
        connected(cells, a, c),
{
    let rest = choose|walk: Seq<Point>| #[trigger]
        is_walk(cells, walk) && walk.first() == b && walk.last() == c;
    let step = seq![a, b];
    assert(cells.contains(rest[0]));
    assert(is_walk(cells, step));
    assert(step.first() == a && step.last() == b);
    lemma_connected_transitive(cells, a, b, c);
}

/// Whether two cells are connected depends only on which cells there are.
pub proof fn lemma_connected_same_cells(
    cells: Seq<Point>,
    other: Seq<Point>,
    a: Point,
    b: Point,
)
    requires
        forall|p: Point| cells.contains(p) ==> other.contains(p),
        connected(cells, a, b),
    ensures
        connected(other, a, b),
{
    let walk = choose|walk: Seq<Point>| #[trigger]
        is_walk(cells, walk) && walk.first() == a && walk.last() == b;
    assert(is_walk(other, walk));
}

/// A sequence that holds the cells of a contiguous sequence, each as often,
/// is contiguous.
proof fn lemma_contiguous_reordered(cells: Seq<Point>, other: Seq<Point>)
    requires
        cells.to_multiset() == other.to_multiset(),
        is_contiguous(cells),
    ensures
        is_contiguous(other),
{
    reveal(is_contiguous);
    assert forall|p: Point| cells.contains(p) == other.contains(p) by {
        vstd::seq_lib::to_multiset_contains(cells, p);
        vstd::seq_lib::to_multiset_contains(other, p);
    }
    cells.lemma_multiset_has_no_duplicates();
    other.lemma_multiset_has_no_duplicates_conv();
    assert forall|i: int| 0 <= i < other.len() implies connected(
        other,
        other[0],
        #[trigger] other[i],
    ) by {
        assert(other.contains(other[0]));
        assert(other.contains(other[i]));
        let from = choose|k: int| 0 <= k < cells.len() && cells[k] == other[0];
        let to = choose|k: int| 0 <= k < cells.len() && cells[k] == other[i];
        assert(connected(cells, cells[0], cells[from]));
        assert(connected(cells, cells[0], cells[to]));
        lemma_connected_symmetric(cells, cells[0], other[0]);
        lemma_connected_transitive(cells, other[0], cells[0], other[i]);
        lemma_connected_same_cells(cells, other, other[0], other[i]);
    }
}

/// Contiguity is a property of the set of cells: reordering a path does not
/// change whether it is contiguous.
pub proof fn lemma_contiguous_ignores_order(cells: Seq<Point>, other: Seq<Point>)
    requires
        cells.to_multiset() == other.to_multiset(),
    ensures
        is_contiguous(cells) == is_contiguous(other),
{
    if is_contiguous(cells) {
        lemma_contiguous_reordered(cells, other);
    }
    if is_contiguous(other) {
        lemma_contiguous_reordered(other, cells);
    }
}

/// The growth rule only moves forward in row-major order.
pub proof fn lemma_growth_path_ascends(path: Seq<Point>, i: int, j: int)
    requires
        is_growth_path(path),
        0 <= i < j < path.len(),
    ensures
        comes_after(path[j], path[i]),
    decreases j - i,
{
    assert(grows_to(path[j - 1], path[j]));
    if i < j - 1 {
        lemma_growth_path_ascends(path, i, j - 1);
    }
}

/// A path that obeys the growth rule visits no cell twice.
pub proof fn lemma_growth_path_distinct(path: Seq<Point>)
    requires
        is_growth_path(path),
    ensures
        path.no_duplicates(),
{
    assert forall|i: int, j: int| 0 <= i < path.len() && 0 <= j < path.len() && i != j implies path[i]
        != path[j] by {
        if i < j {
            lemma_growth_path_ascends(path, i, j);
        } else {
            lemma_growth_path_ascends(path, j, i);
        }
    }
}

/// The position at which a walk that starts within `path` and ends outside
/// of it takes its last step within `path`.
proof fn lemma_walk_leaves(path: Seq<Point>, walk: Seq<Point>, t: int) -> (e: int)
    requires
        0 <= t < walk.len(),
        forall|k: int| 0 <= k <= t ==> path.contains(#[trigger] walk[k]),
        !path.contains(walk.last()),
    ensures
        t <= e < walk.len() - 1,
        forall|k: int| 0 <= k <= e ==> path.contains(#[trigger] walk[k]),
        !path.contains(walk[e + 1]),
    decreases walk.len() - t,
{
    assert(path.contains(walk[t]));
    if path.contains(walk[t + 1]) {
        lemma_walk_leaves(path, walk, t + 1)
    } else {
        t
    }
}

/// The pruning test never rejects a path that can still become a word: if a
/// path built under the growth rule has a continuation under that rule
/// which is contiguous (the path itself counts), the path is connectable.
pub proof fn lemma_connectable_keeps_contiguous(path: Seq<Point>, rest: Seq<Point>)
    requires
        path.len() > 0,
        is_growth_path(path + rest),
        is_contiguous(path + rest),
    ensures
        is_connectable(path),
{
    reveal(is_contiguous);
    reveal(is_connectable);
    let whole = path + rest;
    let last = path.last();
    let n = path.len() as int;
    assert(whole[n - 1] == last);
    assert forall|p: Point| path.contains(p) implies whole.contains(p) by {
        let k = choose|k: int| 0 <= k < path.len() && path[k] == p;
        assert(whole[k] == p);
    }
    assert forall|i: int| 0 <= i < path.len() implies reaches_edge(path, #[trigger] path[i]) && (
    is_first_occurrence(path, i) || lies_on_edge(path[i], path.last())) by {
        assert(whole[i] == path[i]);
        assert forall|j: int| 0 <= j < i implies path[j] != path[i] by {
            lemma_growth_path_ascends(whole, j, i);
        }
        assert(connected(whole, whole[0], whole[i]));
        lemma_connected_symmetric(whole, whole[0], whole[i]);
        if rest.len() == 0 {
            assert(whole =~= path);
            assert(connected(whole, whole[0], whole[n - 1]));
            lemma_connected_transitive(whole, path[i], whole[0], last);
            lemma_connected_symmetric(path, path[i], last);
            assert(lies_on_edge(path[n - 1], path.last()));
        } else {
            let next = whole[n];
            assert(connected(whole, whole[0], whole[n]));
            lemma_connected_transitive(whole, path[i], whole[0], next);
            let walk = choose|walk: Seq<Point>| #[trigger]
                is_walk(whole, walk) && walk.first() == path[i] && walk.last() == next;
            assert(!path.contains(next)) by {
                if path.contains(next) {
                    let k = choose|k: int| 0 <= k < path.len() && path[k] == next;
                    assert(whole[k] == next);
                    lemma_growth_path_ascends(whole, k, n);
                }
            }
            assert(path.contains(walk[0]));
            let e = lemma_walk_leaves(path, walk, 0);
            let inside = walk[e];
            let outside = walk[e + 1];
            assert(path.contains(inside));
            let j = choose|j: int| 0 <= j < path.len() && path[j] == inside;
            assert(whole[j] == inside);
            assert(whole.contains(outside));
            let m = choose|m: int| 0 <= m < whole.len() && whole[m] == outside;
            assert(m >= n) by {
                if m < n {
                    assert(path[m] == outside);
                }
            }
            lemma_growth_path_ascends(whole, n - 1, m);
            if j < n - 1 {
                lemma_growth_path_ascends(whole, j, n - 1);
            }
            assert(adjacent(walk[e], walk[e + 1]));
            assert(lies_on_edge(inside, last));
            let stay = walk.subrange(0, e + 1);
            assert forall|k: int| 0 <= k < stay.len() - 1 implies adjacent(
                #[trigger] stay[k],
                stay[k + 1],
            ) by {
                assert(adjacent(walk[k], walk[k + 1]));
            }
            assert forall|k: int| 0 <= k < stay.len() implies path.contains(#[trigger] stay[k]) by {
                assert(path.contains(walk[k]));
            }
            assert(is_walk(path, stay));
            assert(stay.first() == path[i] && stay.last() == inside);
            lemma_connected_symmetric(path, path[i], inside);
            assert(lies_on_edge(path[j], path.last()) && connected(path, path[j], path[i]));
        }
    }
}

} // verus!
