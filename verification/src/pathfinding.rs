//! Breadth-first search over the walkable cells of a level, used by the
//! chasing wall to route itself towards the player.

use vstd::prelude::*;
use std::collections::VecDeque;
use crate::map::{GameMap, MapModel, cell_idx, lemma_cell_idx_bounds, lemma_cell_idx_injective};

verus! {

/// The two cells share a side.
pub open spec fn adjacent(a: (i32, i32), b: (i32, i32)) -> bool {
    let dx = b.0 - a.0;
    let dy = b.1 - a.1;
    (dx == 0 && (dy == 1 || dy == -1)) || (dy == 0 && (dx == 1 || dx == -1))
}

/// Step `i` of `path` enters a walkable cell next to the previous one
/// (the previous one of the first step is `start`).
pub open spec fn walk_step(m: MapModel, start: (i32, i32), path: Seq<(i32, i32)>, i: int) -> bool {
    let prev = if i == 0 {
        start
    } else {
        path[i - 1]
    };
    m.walkable(path[i].0 as int, path[i].1 as int) && adjacent(prev, path[i])
}

/// `path` leads from `start` (excluded) through walkable cells, one side at a time.
pub open spec fn is_walk(m: MapModel, start: (i32, i32), path: Seq<(i32, i32)>) -> bool {
    forall|i: int| 0 <= i < path.len() ==> #[trigger] walk_step(m, start, path, i)
}

/// `path` is a non-empty walk from `start` that ends on `goal`.
pub open spec fn walk_to(
    m: MapModel,
    start: (i32, i32),
    goal: (i32, i32),
    path: Seq<(i32, i32)>,
) -> bool {
    &&& path.len() > 0
    &&& path.last() == goal
    &&& is_walk(m, start, path)
}

pub open spec fn reachable(m: MapModel, start: (i32, i32), goal: (i32, i32)) -> bool {
    exists|path: Seq<(i32, i32)>| walk_to(m, start, goal, path)
}

/// Flat index of an in-grid cell, `None` outside the grid.
pub fn cell_index(map: &GameMap, x: i32, y: i32) -> (index: Option<usize>)
    ensures
        match index {
            Some(i) => map@.in_bounds(x as int, y as int) && i == cell_idx(
                map@.width,
                x as int,
                y as int,
            ) && i < map@.tiles.len(),
            None => !map@.in_bounds(x as int, y as int),
        },
{
    let width = map.width();
    let height = map.height();
    if x < 0 || y < 0 || x >= width as i32 || y >= height as i32 {
        return None;
    }
    proof {
        lemma_cell_idx_bounds(width as int, height as int, x as int, y as int);
    }
    Some(y as usize * width + x as usize)
}

// ----- search state -------------------------------------------------------

/// Bookkeeping of the search that only the proof needs: the distance of
/// each discovered cell, the cells whose neighbours were all examined, the
/// distance of the cell being expanded, and the discovered indices.
struct Search {
    dist: Seq<int>,
    done: Set<(i32, i32)>,
    front: int,
    seen: Set<int>,
}

spec fn discovered(m: MapModel, came_from: Seq<Option<(i32, i32)>>, c: (i32, i32)) -> bool {
    m.in_bounds(c.0 as int, c.1 as int) && came_from[cell_idx(m.width, c.0 as int, c.1 as int)] is Some
}

spec fn dist_of(m: MapModel, dist: Seq<int>, c: (i32, i32)) -> int {
    dist[cell_idx(m.width, c.0 as int, c.1 as int)]
}

spec fn parent_of(m: MapModel, came_from: Seq<Option<(i32, i32)>>, c: (i32, i32)) -> (i32, i32) {
    came_from[cell_idx(m.width, c.0 as int, c.1 as int)]->0
}

/// Every walkable neighbour of `c` was discovered at most one step further.
#[verifier::opaque]
spec fn closed(m: MapModel, came_from: Seq<Option<(i32, i32)>>, dist: Seq<int>, c: (i32, i32)) -> bool {
    forall|n: (i32, i32)|
        #[trigger] adjacent(c, n) && m.walkable(n.0 as int, n.1 as int) ==> discovered(m, came_from, n)
            && dist_of(m, dist, n) <= dist_of(m, dist, c) + 1
}

/// The recorded predecessor of a discovered cell is a discovered neighbour one step closer.
#[verifier::opaque]
spec fn parent_ok(
    m: MapModel,
    came_from: Seq<Option<(i32, i32)>>,
    dist: Seq<int>,
    start: (i32, i32),
    c: (i32, i32),
) -> bool {
    if c == start {
        parent_of(m, came_from, c) == start && dist_of(m, dist, c) == 0
    } else {
        let p = parent_of(m, came_from, c);
        &&& discovered(m, came_from, p)
        &&& adjacent(p, c)
        &&& m.walkable(c.0 as int, c.1 as int)
        &&& dist_of(m, dist, c) == dist_of(m, dist, p) + 1
    }
}

#[verifier::opaque]
spec fn search_inv(m: MapModel, came_from: Seq<Option<(i32, i32)>>, s: Search, start: (i32, i32)) -> bool {
    &&& came_from.len() == m.width * m.height
    &&& s.dist.len() == m.width * m.height
    &&& discovered(m, came_from, start)
    &&& s.front >= 0
    &&& forall|c: (i32, i32)| #[trigger]
        discovered(m, came_from, c) ==> parent_ok(m, came_from, s.dist, start, c) && 0 <= dist_of(
            m,
            s.dist,
            c,
        ) <= s.front + 1
    &&& forall|c: (i32, i32)| #[trigger]
        s.done.contains(c) ==> discovered(m, came_from, c) && closed(m, came_from, s.dist, c)
            && dist_of(m, s.dist, c) <= s.front
}

#[verifier::opaque]
spec fn seen_inv(m: MapModel, came_from: Seq<Option<(i32, i32)>>, s: Search) -> bool {
    &&& s.seen.finite()
    &&& forall|i: int| #[trigger]
        s.seen.contains(i) <==> (0 <= i < m.width * m.height && came_from[i] is Some)
}

#[verifier::opaque]
spec fn queue_inv(m: MapModel, came_from: Seq<Option<(i32, i32)>>, s: Search, queue: Seq<(i32, i32)>) -> bool {
    &&& forall|i: int|
        0 <= i < queue.len() ==> discovered(m, came_from, #[trigger] queue[i]) && s.front <= dist_of(
            m,
            s.dist,
            queue[i],
        )
    &&& forall|i: int, j: int|
        0 <= i <= j < queue.len() ==> dist_of(m, s.dist, #[trigger] queue[i]) <= dist_of(
            m,
            s.dist,
            #[trigger] queue[j],
        )
}

/// Every discovered cell is closed, waiting in the queue, or being expanded.
#[verifier::opaque]
spec fn coverage(
    m: MapModel,
    came_from: Seq<Option<(i32, i32)>>,
    s: Search,
    queue: Seq<(i32, i32)>,
    pending: Seq<(i32, i32)>,
) -> bool {
    forall|c: (i32, i32)| #[trigger]
        discovered(m, came_from, c) ==> s.done.contains(c) || queue.contains(c) || pending.contains(c)
}

/// The first `k` neighbours of `current` were examined.
#[verifier::opaque]
spec fn handled(m: MapModel, came_from: Seq<Option<(i32, i32)>>, s: Search, current: (i32, i32), k: int) -> bool {
    forall|nb: (i32, i32)|
        #[trigger] adjacent(current, nb) && neighbor_index(current, nb) < k && m.walkable(
            nb.0 as int,
            nb.1 as int,
        ) ==> discovered(m, came_from, nb) && dist_of(m, s.dist, nb) <= s.front + 1
}

spec fn expanding(
    m: MapModel,
    came_from: Seq<Option<(i32, i32)>>,
    s: Search,
    queue: Seq<(i32, i32)>,
    start: (i32, i32),
    current: (i32, i32),
) -> bool {
    &&& came_from.len() == m.width * m.height
    &&& search_inv(m, came_from, s, start)
    &&& seen_inv(m, came_from, s)
    &&& queue_inv(m, came_from, s, queue)
    &&& coverage(m, came_from, s, queue, seq![current])
    &&& discovered(m, came_from, current)
    &&& dist_of(m, s.dist, current) == s.front
}

spec fn waiting(
    m: MapModel,
    came_from: Seq<Option<(i32, i32)>>,
    s: Search,
    queue: Seq<(i32, i32)>,
    start: (i32, i32),
) -> bool {
    &&& came_from.len() == m.width * m.height
    &&& search_inv(m, came_from, s, start)
    &&& seen_inv(m, came_from, s)
    &&& queue_inv(m, came_from, s, queue)
    &&& coverage(m, came_from, s, queue, seq![])
}

proof fn lemma_seen_bound(m: MapModel, came_from: Seq<Option<(i32, i32)>>, s: Search)
    requires
        seen_inv(m, came_from, s),
        m.width >= 0,
        m.height >= 0,
    ensures
        s.seen.len() <= m.width * m.height,
{
    reveal(seen_inv);
    let n = m.width * m.height;
    assert(m.width * m.height >= 0) by (nonlinear_arith)
        requires
            m.width >= 0,
            m.height >= 0,
    ;
    vstd::set_lib::lemma_int_range(0, n);
    assert(s.seen.subset_of(vstd::set_lib::set_int_range(0, n)));
    vstd::set_lib::lemma_len_subset(s.seen, vstd::set_lib::set_int_range(0, n));
}

/// Discovering `next` from `current` keeps the search invariants.
proof fn lemma_discover(
    m: MapModel,
    cf: Seq<Option<(i32, i32)>>,
    s: Search,
    queue: Seq<(i32, i32)>,
    start: (i32, i32),
    current: (i32, i32),
    next: (i32, i32),
    k: int,
) -> (s2: Search)
    requires
        expanding(m, cf, s, queue, start, current),
        handled(m, cf, s, current, k),
        m.in_bounds(next.0 as int, next.1 as int),
        cf[cell_idx(m.width, next.0 as int, next.1 as int)] is None,
        m.walkable(next.0 as int, next.1 as int),
        adjacent(current, next),
        neighbor_index(current, next) == k,
    ensures
        ({
            let cf2 = cf.update(cell_idx(m.width, next.0 as int, next.1 as int), Some(current));
            let q2 = queue.push(next);
            &&& expanding(m, cf2, s2, q2, start, current)
            &&& handled(m, cf2, s2, current, k + 1)
            &&& s2.seen.len() == s.seen.len() + 1
            &&& s2.front == s.front
        }),
{
    reveal(search_inv);
    reveal(seen_inv);
    reveal(queue_inv);
    reveal(coverage);
    reveal(handled);
    reveal(closed);
    reveal(parent_ok);
    let ni = cell_idx(m.width, next.0 as int, next.1 as int);
    lemma_cell_idx_bounds(m.width, m.height, next.0 as int, next.1 as int);
    let cf2 = cf.update(ni, Some(current));
    let q2 = queue.push(next);
    let s2 = Search {
        dist: s.dist.update(ni, s.front + 1),
        seen: s.seen.insert(ni),
        ..s
    };
    assert forall|c: (i32, i32)| m.in_bounds(c.0 as int, c.1 as int) && c != next implies cf2[cell_idx(
        m.width,
        c.0 as int,
        c.1 as int,
    )] == cf[cell_idx(m.width, c.0 as int, c.1 as int)] && s2.dist[cell_idx(
        m.width,
        c.0 as int,
        c.1 as int,
    )] == s.dist[cell_idx(m.width, c.0 as int, c.1 as int)] by {
        let ci = cell_idx(m.width, c.0 as int, c.1 as int);
        lemma_cell_idx_bounds(m.width, m.height, c.0 as int, c.1 as int);
        if ci == ni {
            lemma_cell_idx_injective(m.width, c.0 as int, c.1 as int, next.0 as int, next.1 as int);
            assert(c.0 == next.0 && c.1 == next.1);
            assert(false);
        }
        assert(ci != ni);
        assert(0 <= ci < cf.len());
        assert(cf2[ci] == cf[ci]);
        assert(s2.dist[ci] == s.dist[ci]);
    }
    assert(!discovered(m, cf, next));
    assert forall|c: (i32, i32)| #[trigger] discovered(m, cf, c) implies discovered(m, cf2, c) && dist_of(
        m,
        s2.dist,
        c,
    ) == dist_of(m, s.dist, c) && parent_of(m, cf2, c) == parent_of(m, cf, c) by {}
    assert forall|c: (i32, i32)| #[trigger] discovered(m, cf2, c) implies parent_ok(
        m,
        cf2,
        s2.dist,
        start,
        c,
    ) && 0 <= dist_of(m, s2.dist, c) <= s2.front + 1 by {
        if c != next {
            assert(discovered(m, cf, c));
        }
    }
    assert forall|c: (i32, i32)| #[trigger] s2.done.contains(c) implies discovered(m, cf2, c) && closed(
        m,
        cf2,
        s2.dist,
        c,
    ) && dist_of(m, s2.dist, c) <= s2.front by {
        assert(closed(m, cf, s.dist, c));
        assert forall|nb: (i32, i32)| #[trigger]
            adjacent(c, nb) && m.walkable(nb.0 as int, nb.1 as int) implies discovered(m, cf2, nb)
            && dist_of(m, s2.dist, nb) <= dist_of(m, s2.dist, c) + 1 by {
            assert(discovered(m, cf, nb));
        }
    }
    assert forall|i: int| #[trigger] s2.seen.contains(i) <==> (0 <= i < m.width * m.height
        && cf2[i] is Some) by {}
    assert forall|i: int|
        0 <= i < q2.len() implies discovered(m, cf2, #[trigger] q2[i]) && s2.front <= dist_of(
        m,
        s2.dist,
        q2[i],
    ) by {
        if i < queue.len() {
            assert(q2[i] == queue[i]);
        }
    }
    assert forall|i: int, j: int|
        0 <= i <= j < q2.len() implies dist_of(m, s2.dist, #[trigger] q2[i]) <= dist_of(
        m,
        s2.dist,
        #[trigger] q2[j],
    ) by {
        if i < queue.len() {
            assert(q2[i] == queue[i]);
        }
        if j < queue.len() {
            assert(q2[j] == queue[j]);
        }
    }
    assert forall|c: (i32, i32)| #[trigger] discovered(m, cf2, c) implies s2.done.contains(c)
        || q2.contains(c) || seq![current].contains(c) by {
        if c == next {
            assert(q2[q2.len() - 1] == next);
        } else {
            assert(discovered(m, cf, c));
            if queue.contains(c) {
                let j = choose|j: int| 0 <= j < queue.len() && queue[j] == c;
                assert(q2[j] == c);
            }
        }
    }
    assert forall|nb: (i32, i32)| #[trigger]
        adjacent(current, nb) && neighbor_index(current, nb) < k + 1 && m.walkable(
            nb.0 as int,
            nb.1 as int,
        ) implies discovered(m, cf2, nb) && dist_of(m, s2.dist, nb) <= s2.front + 1 by {
        if nb != next {
            if neighbor_index(current, nb) == k {
                assert(nb.0 == next.0 && nb.1 == next.1);
            }
            assert(discovered(m, cf, nb));
        }
    }
    assert(!s.seen.contains(ni));
    s2
}

/// Popping the head of the queue starts its expansion.
proof fn lemma_pop(
    m: MapModel,
    cf: Seq<Option<(i32, i32)>>,
    s: Search,
    queue: Seq<(i32, i32)>,
    start: (i32, i32),
) -> (s2: Search)
    requires
        waiting(m, cf, s, queue, start),
        queue.len() > 0,
    ensures
        expanding(m, cf, s2, queue.subrange(1, queue.len() as int), start, queue[0]),
        handled(m, cf, s2, queue[0], 0),
        s2.seen == s.seen,
        forall|c: (i32, i32)| #[trigger]
            discovered(m, cf, c) && dist_of(m, s2.dist, c) < dist_of(m, s2.dist, queue[0])
                ==> s2.done.contains(c),
{
    reveal(search_inv);
    reveal(seen_inv);
    reveal(queue_inv);
    reveal(coverage);
    reveal(handled);
    let c0 = queue[0];
    let s2 = Search { front: dist_of(m, s.dist, c0), ..s };
    let q2 = queue.subrange(1, queue.len() as int);
    assert(discovered(m, cf, c0));
    assert forall|i: int| 0 <= i < q2.len() implies discovered(m, cf, #[trigger] q2[i]) && s2.front
        <= dist_of(m, s2.dist, q2[i]) by {
        assert(q2[i] == queue[i + 1]);
        assert(dist_of(m, s.dist, queue[0]) <= dist_of(m, s.dist, queue[i + 1]));
    }
    assert forall|i: int, j: int| 0 <= i <= j < q2.len() implies dist_of(
        m,
        s2.dist,
        #[trigger] q2[i],
    ) <= dist_of(m, s2.dist, #[trigger] q2[j]) by {
        assert(q2[i] == queue[i + 1]);
        assert(q2[j] == queue[j + 1]);
    }
    assert forall|c: (i32, i32)| #[trigger] discovered(m, cf, c) implies s2.done.contains(c)
        || q2.contains(c) || seq![c0].contains(c) by {
        if queue.contains(c) && !s2.done.contains(c) {
            let j = choose|j: int| 0 <= j < queue.len() && queue[j] == c;
            if j > 0 {
                assert(q2[j - 1] == c);
            } else {
                assert(seq![c0][0] == c);
            }
        }
    }
    assert forall|c: (i32, i32)| #[trigger] discovered(m, cf, c) implies parent_ok(
        m,
        cf,
        s2.dist,
        start,
        c,
    ) && 0 <= dist_of(m, s2.dist, c) <= s2.front + 1 by {
        if !s.done.contains(c) && dist_of(m, s.dist, c) > s2.front + 1 {
            let j = choose|j: int| 0 <= j < queue.len() && queue[j] == c;
            assert(dist_of(m, s.dist, queue[j]) <= dist_of(m, s.dist, queue[0]) + 1) by {
                assert(s.front <= dist_of(m, s.dist, queue[0]));
            }
        }
    }
    assert forall|c: (i32, i32)| #[trigger]
        discovered(m, cf, c) && dist_of(m, s2.dist, c) < dist_of(m, s2.dist, queue[0]) implies s2.done.contains(c) by {
        if !s.done.contains(c) {
            let j = choose|j: int| 0 <= j < queue.len() && queue[j] == c;
            assert(dist_of(m, s.dist, queue[0]) <= dist_of(m, s.dist, queue[j]));
        }
    }
    s2
}

/// Once all neighbours are examined, the expanded cell is closed.
proof fn lemma_close(
    m: MapModel,
    cf: Seq<Option<(i32, i32)>>,
    s: Search,
    queue: Seq<(i32, i32)>,
    start: (i32, i32),
    current: (i32, i32),
) -> (s2: Search)
    requires
        expanding(m, cf, s, queue, start, current),
        handled(m, cf, s, current, 4),
    ensures
        waiting(m, cf, s2, queue, start),
        s2.seen == s.seen,
{
    reveal(search_inv);
    reveal(seen_inv);
    reveal(queue_inv);
    reveal(coverage);
    reveal(handled);
    reveal(closed);
    let s2 = Search { done: s.done.insert(current), ..s };
    assert forall|nb: (i32, i32)| #[trigger]
        adjacent(current, nb) && m.walkable(nb.0 as int, nb.1 as int) implies discovered(m, cf, nb)
        && dist_of(m, s.dist, nb) <= dist_of(m, s.dist, current) + 1 by {
        assert(neighbor_index(current, nb) < 4);
    }
    assert(closed(m, cf, s.dist, current));
    assert forall|c: (i32, i32)| #[trigger] discovered(m, cf, c) implies s2.done.contains(c)
        || queue.contains(c) || seq![].contains(c) by {
        if seq![current].contains(c) {
            assert(c == current);
        }
    }
    s2
}

/// When no cell below `bound` is open, any walk of length at most `bound`
/// stays on discovered cells, each no further than its place along the walk.
proof fn lemma_walk_discovered(
    m: MapModel,
    came_from: Seq<Option<(i32, i32)>>,
    s: Search,
    start: (i32, i32),
    bound: int,
    path: Seq<(i32, i32)>,
    k: int,
)
    requires
        search_inv(m, came_from, s, start),
        forall|c: (i32, i32)| #[trigger]
            discovered(m, came_from, c) && dist_of(m, s.dist, c) < bound ==> s.done.contains(c),
        is_walk(m, start, path),
        0 <= k < path.len(),
        k < bound,
    ensures
        discovered(m, came_from, path[k]),
        dist_of(m, s.dist, path[k]) <= k + 1,
    decreases k,
{
    reveal(search_inv);
    reveal(closed);
    reveal(parent_ok);
    let prev = if k == 0 {
        start
    } else {
        path[k - 1]
    };
    if k > 0 {
        lemma_walk_discovered(m, came_from, s, start, bound, path, k - 1);
    }
    assert(walk_step(m, start, path, k));
    assert(discovered(m, came_from, prev));
    assert(s.done.contains(prev));
    assert(closed(m, came_from, s.dist, prev));
    assert(adjacent(prev, path[k]));
}


/// What the search records about a discovered cell.
proof fn lemma_parent(
    m: MapModel,
    came_from: Seq<Option<(i32, i32)>>,
    s: Search,
    start: (i32, i32),
    c: (i32, i32),
)
    requires
        search_inv(m, came_from, s, start),
        discovered(m, came_from, c),
    ensures
        discovered(m, came_from, start),
        0 <= dist_of(m, s.dist, c),
        c == start ==> parent_of(m, came_from, c) == start && dist_of(m, s.dist, c) == 0,
        c != start ==> discovered(m, came_from, parent_of(m, came_from, c)) && adjacent(
            parent_of(m, came_from, c),
            c,
        ) && m.walkable(c.0 as int, c.1 as int) && dist_of(m, s.dist, c) == dist_of(
            m,
            s.dist,
            parent_of(m, came_from, c),
        ) + 1,
{
    reveal(search_inv);
    reveal(parent_ok);
}

/// The search starts with only `start` discovered and queued.
proof fn lemma_init(
    m: MapModel,
    came_from: Seq<Option<(i32, i32)>>,
    start: (i32, i32),
    start_index: int,
) -> (s: Search)
    requires
        m.in_bounds(start.0 as int, start.1 as int),
        start_index == cell_idx(m.width, start.0 as int, start.1 as int),
        came_from.len() == m.width * m.height,
        came_from[start_index] == Some(start),
        forall|i: int| 0 <= i < came_from.len() && i != start_index ==> came_from[i] is None,
    ensures
        waiting(m, came_from, s, seq![start], start),
        s.seen.len() == 1,
{
    reveal(search_inv);
    reveal(seen_inv);
    reveal(queue_inv);
    reveal(coverage);
    reveal(closed);
    reveal(parent_ok);
    lemma_cell_idx_bounds(m.width, m.height, start.0 as int, start.1 as int);
    let s = Search {
        dist: Seq::new(came_from.len(), |i: int| 0int),
        done: Set::empty(),
        front: 0,
        seen: Set::empty().insert(start_index),
    };
    assert forall|c: (i32, i32)| #[trigger] discovered(m, came_from, c) implies c == start by {
        lemma_cell_idx_bounds(m.width, m.height, c.0 as int, c.1 as int);
        if cell_idx(m.width, c.0 as int, c.1 as int) == start_index {
            lemma_cell_idx_injective(m.width, c.0 as int, c.1 as int, start.0 as int, start.1 as int);
        }
    }
    assert(seq![start].contains(start)) by {
        assert(seq![start][0] == start);
    }
    assert forall|i: int| #[trigger] s.seen.contains(i) <==> (0 <= i < m.width * m.height
        && came_from[i] is Some) by {}
    s
}

/// Once the queue runs empty every discovered cell is closed.
proof fn lemma_exhausted(
    m: MapModel,
    came_from: Seq<Option<(i32, i32)>>,
    s: Search,
    start: (i32, i32),
)
    requires
        waiting(m, came_from, s, seq![], start),
    ensures
        forall|c: (i32, i32)| #[trigger] discovered(m, came_from, c) ==> s.done.contains(c),
{
    reveal(coverage);
}
/// Position of `n` among the neighbours of `c` in search order (right,
/// left, down, up); 4 when `n` is not a neighbour.
spec fn neighbor_index(c: (i32, i32), n: (i32, i32)) -> int {
    if n.0 == c.0 + 1 && n.1 == c.1 {
        0
    } else if n.0 == c.0 - 1 && n.1 == c.1 {
        1
    } else if n.0 == c.0 && n.1 == c.1 + 1 {
        2
    } else if n.0 == c.0 && n.1 == c.1 - 1 {
        3
    } else {
        4
    }
}

/// Reverses a sequence of cells in place.
fn reverse_cells(v: &mut Vec<(i32, i32)>)
    ensures
        final(v)@ == old(v)@.reverse(),
{
    let n = v.len();
    let mut i: usize = 0;
    while i < n / 2
        invariant
            n == old(v)@.len(),
            v@.len() == n,
            i <= n / 2,
            forall|j: int| 0 <= j < i ==> v@[j] == old(v)@[n - 1 - j],
            forall|j: int| 0 <= j < i ==> v@[n - 1 - j] == old(v)@[j],
            forall|j: int| i <= j < n - i ==> v@[j] == old(v)@[j],
        decreases n / 2 - i,
    {
        let a = v[i];
        let b = v[n - 1 - i];
        v.set(i, b);
        v.set(n - 1 - i, a);
        i += 1;
    }
    assert(v@ =~= old(v)@.reverse());
}



/// A neighbour that is outside the grid, already discovered or blocked
/// needs no work.
proof fn lemma_skip(
    m: MapModel,
    cf: Seq<Option<(i32, i32)>>,
    s: Search,
    queue: Seq<(i32, i32)>,
    start: (i32, i32),
    current: (i32, i32),
    next: (i32, i32),
    k: int,
)
    requires
        expanding(m, cf, s, queue, start, current),
        handled(m, cf, s, current, k),
        neighbor_index(current, next) == k,
        0 <= k < 4,
        !m.in_bounds(next.0 as int, next.1 as int) || discovered(m, cf, next) || !m.walkable(
            next.0 as int,
            next.1 as int,
        ),
    ensures
        handled(m, cf, s, current, k + 1),
{
    reveal(handled);
    reveal(search_inv);
    assert forall|nb: (i32, i32)| #[trigger]
        adjacent(current, nb) && neighbor_index(current, nb) < k + 1 && m.walkable(
            nb.0 as int,
            nb.1 as int,
        ) implies discovered(m, cf, nb) && dist_of(m, s.dist, nb) <= s.front + 1 by {
        if neighbor_index(current, nb) == k {
            assert(nb.0 == next.0 && nb.1 == next.1);
        }
    }
}

/// Examines the four neighbours of `current`, discovering each walkable one
/// that was not discovered yet.
fn expand(
    map: &GameMap,
    came_from: &mut Vec<Option<(i32, i32)>>,
    queue: &mut VecDeque<(i32, i32)>,
    start: (i32, i32),
    current: (i32, i32),
    Ghost(s): Ghost<Search>,
) -> (s2: Ghost<Search>)
    requires
        expanding(map@, old(came_from)@, s, old(queue)@, start, current),
        handled(map@, old(came_from)@, s, current, 0),
    ensures
        waiting(map@, final(came_from)@, s2@, final(queue)@, start),
        final(queue)@.len() - old(queue)@.len() == s2@.seen.len() - s.seen.len(),
        final(queue)@.len() >= old(queue)@.len(),
{
    let ghost m = map@;
    let _ = map.width();
    let _ = map.height();
    let x = current.0;
    let y = current.1;
    let ghost mut st = s;
    let mut k: usize = 0;
    while k < 4
        invariant
            m == map@,
            m.width <= i32::MAX,
            m.height <= i32::MAX,
            current == (x, y),
            k <= 4,
            expanding(m, came_from@, st, queue@, start, current),
            handled(m, came_from@, st, current, k as int),
            queue@.len() - old(queue)@.len() == st.seen.len() - s.seen.len(),
            queue@.len() >= old(queue)@.len(),
            m.tiles.len() == m.width * m.height,
        decreases 4 - k,
    {
        let nx = if k == 0 {
            x + 1
        } else if k == 1 {
            x - 1
        } else {
            x
        };
        let ny = if k == 2 {
            y + 1
        } else if k == 3 {
            y - 1
        } else {
            y
        };
        let next = (nx, ny);
        assert(neighbor_index(current, next) == k);
        match cell_index(map, nx, ny) {
            None => {
                proof {
                    lemma_skip(m, came_from@, st, queue@, start, current, next, k as int);
                }
            },
            Some(next_index) => {
                if came_from[next_index].is_none() && map.is_walkable_cell(nx, ny) {
                    let ghost st2 = lemma_discover(
                        m,
                        came_from@,
                        st,
                        queue@,
                        start,
                        current,
                        next,
                        k as int,
                    );
                    came_from.set(next_index, Some(current));
                    queue.push_back(next);
                    proof {
                        st = st2;
                    }
                } else {
                    proof {
                        lemma_skip(m, came_from@, st, queue@, start, current, next, k as int);
                    }
                }
            },
        }
        k += 1;
    }
    let ghost s2 = lemma_close(m, came_from@, st, queue@, start, current);
    Ghost(s2)
}

/// Follows the recorded predecessors back from `goal` to `start`.
fn trace_back(
    map: &GameMap,
    came_from: &Vec<Option<(i32, i32)>>,
    start: (i32, i32),
    goal: (i32, i32),
    Ghost(s): Ghost<Search>,
) -> (path: Vec<(i32, i32)>)
    requires
        search_inv(map@, came_from@, s, start),
        came_from@.len() == map@.width * map@.height,
        discovered(map@, came_from@, goal),
        goal != start,
    ensures
        walk_to(map@, start, goal, path@),
        path@.len() == dist_of(map@, s.dist, goal),
{
    let ghost m = map@;
    let ghost d0 = dist_of(m, s.dist, goal);
    let _ = map.width();
    let mut path: Vec<(i32, i32)> = Vec::new();
    let mut current = goal;
    while !(current.0 == start.0 && current.1 == start.1)
        invariant
            m == map@,
            search_inv(m, came_from@, s, start),
            came_from@.len() == m.width * m.height,
            m.tiles.len() == m.width * m.height,
            discovered(m, came_from@, current),
            dist_of(m, s.dist, current) == d0 - path@.len(),
            path@.len() > 0 ==> path@[0] == goal,
            path@.len() == 0 ==> current == goal,
            forall|k: int|
                0 <= k < path@.len() ==> discovered(m, came_from@, #[trigger] path@[k]) && path@[k]
                    != start && parent_of(m, came_from@, path@[k]) == (if k + 1 < path@.len() {
                    path@[k + 1]
                } else {
                    current
                }),
        decreases dist_of(m, s.dist, current),
    {
        proof {
            lemma_parent(m, came_from@, s, start, current);
        }
        path.push(current);
        let index = match cell_index(map, current.0, current.1) {
            Some(i) => i,
            None => {
                return path;
            },
        };
        current = match came_from[index] {
            Some(p) => p,
            None => {
                return path;
            },
        };
        proof {
            lemma_parent(m, came_from@, s, start, current);
        }
    }
    assert(path@.len() == d0) by {
        lemma_parent(m, came_from@, s, start, start);
    }
    let ghost forward = path@;
    reverse_cells(&mut path);
    proof {
        assert forall|i: int| 0 <= i < path@.len() implies #[trigger] walk_step(
            m,
            start,
            path@,
            i,
        ) by {
            let j = d0 - 1 - i;
            assert(path@[i] == forward[j]);
            lemma_parent(m, came_from@, s, start, forward[j]);
            if i > 0 {
                assert(path@[i - 1] == forward[j + 1]);
            }
        }
        assert(path@.last() == forward[0]);
    }
    path
}

/// Shortest route from `start` (excluded) to `goal` (included) through
/// side-adjacent walkable cells, found by breadth-first search. The route is
/// empty when `start` equals `goal`, when `start` lies outside the grid, or
/// when `goal` cannot be reached.
pub fn find_path(map: &GameMap, start: (i32, i32), goal: (i32, i32)) -> (path: Vec<(i32, i32)>)
    ensures
        path@.len() == 0 <==> (start == goal || !map@.in_bounds(start.0 as int, start.1 as int)
            || !reachable(map@, start, goal)),
        path@.len() > 0 ==> walk_to(map@, start, goal, path@),
        forall|q: Seq<(i32, i32)>| walk_to(map@, start, goal, q) ==> path@.len() <= q.len(),
{
    let ghost m = map@;
    if start.0 == goal.0 && start.1 == goal.1 {
        return Vec::new();
    }
    if !map.is_walkable_cell(goal.0, goal.1) {
        proof {
            assert forall|q: Seq<(i32, i32)>| !walk_to(m, start, goal, q) by {
                if walk_to(m, start, goal, q) {
                    assert(walk_step(m, start, q, q.len() - 1));
                }
            }
        }
        return Vec::new();
    }
    let width = map.width();
    let height = map.height();
    let start_index = match cell_index(map, start.0, start.1) {
        Some(i) => i,
        None => {
            return Vec::new();
        },
    };
    let goal_index = match cell_index(map, goal.0, goal.1) {
        Some(i) => i,
        None => {
            return Vec::new();
        },
    };
    let ghost n: int = width * height;
    let mut queue: VecDeque<(i32, i32)> = VecDeque::new();
    queue.push_back(start);
    let mut came_from: Vec<Option<(i32, i32)>> = vec![None; width * height];
    came_from.set(start_index, Some(start));
    assert forall|i: int| 0 <= i < came_from@.len() && i != start_index implies came_from@[i] is None by {}
    assert(queue@ == seq![start]);
    let ghost mut st = lemma_init(m, came_from@, start, start_index as int);
    loop
        invariant_except_break
            waiting(m, came_from@, st, queue@, start),
        invariant
            m == map@,
            n == m.width * m.height,
            0 < m.width <= i32::MAX,
            0 < m.height <= i32::MAX,
            came_from@.len() == n,
            m.in_bounds(goal.0 as int, goal.1 as int),
            goal_index == cell_idx(m.width, goal.0 as int, goal.1 as int),
            goal != start,
        ensures
            search_inv(m, came_from@, st, start),
            (discovered(m, came_from@, goal) && forall|c: (i32, i32)| #[trigger]
                discovered(m, came_from@, c) && dist_of(m, st.dist, c) < dist_of(m, st.dist, goal)
                    ==> st.done.contains(c)) || (forall|c: (i32, i32)| #[trigger]
                discovered(m, came_from@, c) ==> st.done.contains(c)),
        decreases 2 * (n - st.seen.len()) + queue@.len(),
    {
        proof {
            lemma_seen_bound(m, came_from@, st);
        }
        let ghost measure = 2 * (n - st.seen.len()) + queue@.len();
        let ghost waiting_queue = queue@;
        let current = match queue.pop_front() {
            Some(c) => c,
            None => {
                proof {
                    assert(queue@ == Seq::<(i32, i32)>::empty());
                    lemma_exhausted(m, came_from@, st, start);
                }
                break;
            },
        };
        proof {
            st = lemma_pop(m, came_from@, st, waiting_queue, start);
        }
        if current.0 == goal.0 && current.1 == goal.1 {
            break;
        }
        let Ghost(next_st) = expand(map, &mut came_from, &mut queue, start, current, Ghost(st));
        proof {
            st = next_st;
            lemma_seen_bound(m, came_from@, st);
        }
    }
    if came_from[goal_index].is_none() {
        proof {
            assert forall|q: Seq<(i32, i32)>| !walk_to(m, start, goal, q) by {
                if walk_to(m, start, goal, q) {
                    lemma_walk_discovered(m, came_from@, st, start, q.len() as int, q, q.len() - 1);
                }
            }
        }
        return Vec::new();
    }
    let ghost d0 = dist_of(m, st.dist, goal);
    proof {
        assert forall|q: Seq<(i32, i32)>| walk_to(m, start, goal, q) implies d0 <= q.len() by {
            if forall|c: (i32, i32)| #[trigger] discovered(m, came_from@, c) ==> st.done.contains(c) {
                lemma_walk_discovered(m, came_from@, st, start, q.len() as int, q, q.len() - 1);
            } else if q.len() < d0 {
                lemma_walk_discovered(m, came_from@, st, start, d0, q, q.len() - 1);
            }
        }
    }
    trace_back(map, &came_from, start, goal, Ghost(st))
}

} // verus!
