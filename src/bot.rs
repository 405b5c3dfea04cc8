//! The computer opponent: it plays the mouse against a human wall builder,
//! on a board of its own, and steers by a breadth-first search towards the border.
use vstd::prelude::*;
use vstd::set_lib::{lemma_int_range, lemma_len_subset, set_int_range};

use crate::protocol::{lose_sentinel, win_sentinel, ASCII_I, ASCII_L, ASCII_O, ASCII_W};
use crate::board::{
    border_distance, cell, check_any_left_move, distance_to_border, has_legal_move, in_range, is_border,
    is_border_cell, is_mouse_step, is_neighbor, neighbor, neighbor_at, open_cell, set_cell, Grid, Position,
    EMPTY, MOUSE, WALL,
};

verus! {

/// Some neighbour of `(r, c)` is an empty border cell: the mouse escapes in one step.
pub open spec fn has_escape_step(g: Grid, r: int, c: int) -> bool {
    exists|k: int|
        0 <= k < 6 && open_cell(g, #[trigger] neighbor(r, c, k)) && is_border(
            neighbor(r, c, k).0,
            neighbor(r, c, k).1,
        )
}

pub open spec fn cell_index(r: int, c: int) -> int {
    r * 11 + c
}

proof fn lemma_neighbor_not_self(r: int, c: int, k: int)
    requires
        0 <= k < 6,
    ensures
        neighbor(r, c, k) != (r, c),
{
}

proof fn lemma_neighbors_distinct(r: int, c: int, j: int, k: int)
    requires
        0 <= j < k < 6,
    ensures
        neighbor(r, c, j) != neighbor(r, c, k),
{
}

/// `b` is one step of the mouse from `a`: a neighbour, on the board and empty.
pub open spec fn connected(g: Grid, a: (int, int), b: (int, int)) -> bool {
    is_neighbor(a.0, a.1, b.0, b.1) && open_cell(g, b)
}

/// A walk of the mouse from `s`, one step between each two cells.
pub open spec fn is_walk_from(g: Grid, s: (int, int), w: Seq<(int, int)>) -> bool {
    &&& w.len() >= 1
    &&& w[0] == s
    &&& forall|i: int| 0 <= i < w.len() - 1 ==> connected(g, #[trigger] w[i], w[i + 1])
}

/// A walk from `s` of at least one step that ends on the border.
pub open spec fn escape_walk(g: Grid, s: (int, int), w: Seq<(int, int)>) -> bool {
    &&& is_walk_from(g, s, w)
    &&& w.len() >= 2
    &&& is_border(w.last().0, w.last().1)
}

/// The mouse at `s` can reach the border.
pub open spec fn can_escape(g: Grid, s: (int, int)) -> bool {
    exists|w: Seq<(int, int)>| #[trigger] escape_walk(g, s, w)
}

/// `p` is the first step of an escape walk from `s` that no escape walk is shorter than.
pub open spec fn starts_shortest_escape(g: Grid, s: (int, int), p: (int, int)) -> bool {
    exists|w: Seq<(int, int)>|
        #[trigger] escape_walk(g, s, w) && w[1] == p && forall|v: Seq<(int, int)>|
            #[trigger] escape_walk(g, s, v) ==> w.len() <= v.len()
}

/// `p` is the first step of a walk from `s` to a cell that lies no farther
/// from the border than any other cell the mouse can walk to.
pub open spec fn starts_nearest_reach(g: Grid, s: (int, int), p: (int, int)) -> bool {
    exists|w: Seq<(int, int)>|
        #[trigger] is_walk_from(g, s, w) && w.len() >= 2 && w[1] == p && forall|v: Seq<(int, int)>|
            #[trigger] is_walk_from(g, s, v) && v.len() >= 2 ==> border_distance(w.last().0, w.last().1)
                <= border_distance(v.last().0, v.last().1)
}

/// `b` holds the first hop and the border distance of entry `bi`, the entry
/// nearest the border among the first `upto`.
spec fn best_ok(q: Seq<(usize, usize, usize, usize)>, b: (usize, usize, usize), bi: int, upto: int) -> bool {
    &&& 0 <= bi < upto <= q.len()
    &&& b.0 == q[bi].2
    &&& b.1 == q[bi].3
    &&& b.2 == border_distance(q[bi].0 as int, q[bi].1 as int)
    &&& forall|i: int| 0 <= i < upto ==> border_distance((#[trigger] q[i]).0 as int, q[i].1 as int) >= b.2
}

proof fn lemma_best_push(
    q: Seq<(usize, usize, usize, usize)>,
    e: (usize, usize, usize, usize),
    b: (usize, usize, usize),
    bi: int,
    upto: int,
)
    requires
        best_ok(q, b, bi, upto),
    ensures
        best_ok(q.push(e), b, bi, upto),
{
    assert forall|i: int| 0 <= i < upto implies border_distance(
        (#[trigger] q.push(e)[i]).0 as int,
        q.push(e)[i].1 as int,
    ) >= b.2 by {
        assert(q.push(e)[i] == q[i]);
    }
    assert(q.push(e)[bi] == q[bi]);
}

spec fn qpos(q: Seq<(usize, usize, usize, usize)>, i: int) -> (int, int) {
    (q[i].0 as int, q[i].1 as int)
}

spec fn seen_at(v: [[bool; 11]; 11], p: (int, int)) -> bool {
    v[p.0][p.1]
}

/// `after` is `before` with the cell `p` marked.
spec fn marked(before: [[bool; 11]; 11], after: [[bool; 11]; 11], p: (int, int)) -> bool {
    forall|i: int, j: int|
        0 <= i <= 10 && 0 <= j <= 10 ==> #[trigger] after[i][j] == if i == p.0 && j == p.1 {
            true
        } else {
            before[i][j]
        }
}

/// Every visited cell but the start sits in the queue where `slot` says, and
/// every queue entry is visited.
spec fn slots_ok(
    sp: (int, int),
    visited: [[bool; 11]; 11],
    q: Seq<(usize, usize, usize, usize)>,
    slot: Seq<int>,
) -> bool {
    &&& slot.len() == 121
    &&& forall|r: int, c: int|
        in_range(r, c) && #[trigger] visited[r][c] && (r, c) != sp ==> 0 <= slot[cell_index(r, c)]
            < q.len() && qpos(q, slot[cell_index(r, c)]) == (r, c)
    &&& forall|i: int| 0 <= i < q.len() ==> #[trigger] seen_at(visited, qpos(q, i))
}

/// Each queue entry is reached by a walk from the start as long as its depth,
/// which begins with the entry's first hop.
spec fn walks_ok(
    g: Grid,
    sp: (int, int),
    q: Seq<(usize, usize, usize, usize)>,
    dep: Seq<int>,
    walks: Seq<Seq<(int, int)>>,
) -> bool {
    &&& dep.len() == q.len()
    &&& walks.len() == q.len()
    &&& forall|i: int| 0 <= i < q.len() ==> #[trigger] entry_ok(g, sp, q[i], dep[i], walks[i])
}

spec fn entry_ok(
    g: Grid,
    sp: (int, int),
    e: (usize, usize, usize, usize),
    d: int,
    w: Seq<(int, int)>,
) -> bool {
    &&& 1 <= d
    &&& w.len() == d + 1
    &&& is_walk_from(g, sp, w)
    &&& w.last() == (e.0 as int, e.1 as int)
    &&& w[1] == (e.2 as int, e.3 as int)
    &&& in_range(e.0 as int, e.1 as int)
}

/// Depths never fall along the queue, and none waiting exceeds the next one by more than one.
spec fn depths_ok(dep: Seq<int>, head: int) -> bool {
    &&& forall|i: int, j: int| 0 <= i < j < dep.len() ==> dep[i] <= dep[j]
    &&& head < dep.len() ==> forall|j: int| head <= j < dep.len() ==> #[trigger] dep[j] <= dep[head] + 1
}

/// The open neighbours of `p` among the first `kmax` are visited, at depth at most `bound`.
spec fn closed_at(
    g: Grid,
    visited: [[bool; 11]; 11],
    dep: Seq<int>,
    slot: Seq<int>,
    p: (int, int),
    kmax: int,
    bound: int,
) -> bool {
    forall|k: int|
        0 <= k < kmax && open_cell(g, #[trigger] neighbor(p.0, p.1, k)) ==> seen_at(
            visited,
            neighbor(p.0, p.1, k),
        ) && dep[slot[cell_index(neighbor(p.0, p.1, k).0, neighbor(p.0, p.1, k).1)]] <= bound
}

/// The entries before `head` have had all their open neighbours visited.
spec fn popped_closed(
    g: Grid,
    visited: [[bool; 11]; 11],
    q: Seq<(usize, usize, usize, usize)>,
    dep: Seq<int>,
    slot: Seq<int>,
    head: int,
) -> bool {
    forall|i: int|
        0 <= i < head ==> #[trigger] closed_at(g, visited, dep, slot, qpos(q, i), 6, dep[i] + 1)
}

proof fn lemma_push_entry(
    g: Grid,
    sp: (int, int),
    q: Seq<(usize, usize, usize, usize)>,
    visited: [[bool; 11]; 11],
    dep: Seq<int>,
    slot: Seq<int>,
    walks: Seq<Seq<(int, int)>>,
    v2: [[bool; 11]; 11],
    e: (usize, usize, usize, usize),
    d: int,
    w: Seq<(int, int)>,
)
    requires
        slots_ok(sp, visited, q, slot),
        walks_ok(g, sp, q, dep, walks),
        in_range(e.0 as int, e.1 as int),
        !visited[e.0 as int][e.1 as int],
        (e.0 as int, e.1 as int) != sp,
        marked(visited, v2, (e.0 as int, e.1 as int)),
        entry_ok(g, sp, e, d, w),
    ensures
        slots_ok(sp, v2, q.push(e), slot.update(cell_index(e.0 as int, e.1 as int), q.len() as int)),
        walks_ok(g, sp, q.push(e), dep.push(d), walks.push(w)),
{
    let q2 = q.push(e);
    let s2 = slot.update(cell_index(e.0 as int, e.1 as int), q.len() as int);
    assert forall|i: int| 0 <= i < q2.len() implies #[trigger] seen_at(v2, qpos(q2, i)) by {
        if i < q.len() {
            assert(q2[i] == q[i]);
            assert(seen_at(visited, qpos(q, i)));
            assert(entry_ok(g, sp, q[i], dep[i], walks[i]));
        }
    }
    assert forall|r: int, c: int|
        in_range(r, c) && #[trigger] v2[r][c] && (r, c) != sp implies 0 <= s2[cell_index(r, c)]
            < q2.len() && qpos(q2, s2[cell_index(r, c)]) == (r, c) by {
        if (r, c) != (e.0 as int, e.1 as int) {
            assert(visited[r][c]);
            assert(cell_index(r, c) != cell_index(e.0 as int, e.1 as int));
            assert(q2[slot[cell_index(r, c)]] == q[slot[cell_index(r, c)]]);
        }
    }
    assert forall|i: int| 0 <= i < q2.len() implies #[trigger] entry_ok(
        g,
        sp,
        q2[i],
        dep.push(d)[i],
        walks.push(w)[i],
    ) by {
        if i < q.len() {
            assert(entry_ok(g, sp, q[i], dep[i], walks[i]));
        }
    }
}

proof fn lemma_closed_at_push(
    g: Grid,
    sp: (int, int),
    q: Seq<(usize, usize, usize, usize)>,
    visited: [[bool; 11]; 11],
    dep: Seq<int>,
    slot: Seq<int>,
    v2: [[bool; 11]; 11],
    e: (usize, usize, usize, usize),
    d: int,
    p: (int, int),
    kmax: int,
    bound: int,
)
    requires
        cell(g, sp.0, sp.1) != EMPTY,
        slots_ok(sp, visited, q, slot),
        dep.len() == q.len(),
        in_range(e.0 as int, e.1 as int),
        !visited[e.0 as int][e.1 as int],
        marked(visited, v2, (e.0 as int, e.1 as int)),
        closed_at(g, visited, dep, slot, p, kmax, bound),
    ensures
        closed_at(
            g,
            v2,
            dep.push(d),
            slot.update(cell_index(e.0 as int, e.1 as int), q.len() as int),
            p,
            kmax,
            bound,
        ),
{
    let s2 = slot.update(cell_index(e.0 as int, e.1 as int), q.len() as int);
    assert forall|k: int|
        0 <= k < kmax && open_cell(g, #[trigger] neighbor(p.0, p.1, k)) implies seen_at(
        v2,
        neighbor(p.0, p.1, k),
    ) && dep.push(d)[s2[cell_index(neighbor(p.0, p.1, k).0, neighbor(p.0, p.1, k).1)]]
        <= bound by {
        let n = neighbor(p.0, p.1, k);
        assert(visited[n.0][n.1]);
        assert(n != sp);
        assert(n != (e.0 as int, e.1 as int));
        assert(cell_index(n.0, n.1) != cell_index(e.0 as int, e.1 as int));
        assert(slot[cell_index(n.0, n.1)] < q.len());
    }
}

/// Along any walk from the start, the `j`-th cell is visited at depth at most
/// `j`, while `j` stays within the depth of every entry still waiting.
proof fn lemma_walk_reached(
    g: Grid,
    sp: (int, int),
    w: Seq<(int, int)>,
    j: int,
    q: Seq<(usize, usize, usize, usize)>,
    dep: Seq<int>,
    slot: Seq<int>,
    visited: [[bool; 11]; 11],
    head: int,
    limit: int,
)
    requires
        in_range(sp.0, sp.1),
        cell(g, sp.0, sp.1) != EMPTY,
        is_walk_from(g, sp, w),
        0 < j < w.len(),
        j <= limit,
        0 <= head <= q.len(),
        dep.len() == q.len(),
        forall|i: int| head <= i < q.len() ==> #[trigger] dep[i] >= limit,
        slots_ok(sp, visited, q, slot),
        closed_at(g, visited, dep, slot, sp, 6, 1),
        popped_closed(g, visited, q, dep, slot, head),
    ensures
        0 <= slot[cell_index(w[j].0, w[j].1)] < q.len(),
        qpos(q, slot[cell_index(w[j].0, w[j].1)]) == w[j],
        dep[slot[cell_index(w[j].0, w[j].1)]] <= j,
    decreases j,
{
    let a = w[j - 1];
    let b = w[j];
    assert(connected(g, w[j - 1], w[j - 1 + 1]));
    let k = choose|k: int| 0 <= k < 6 && #[trigger] neighbor(a.0, a.1, k) == (b.0, b.1);
    assert(b != sp);
    if j == 1 {
        assert(open_cell(g, neighbor(sp.0, sp.1, k)));
        assert(visited[b.0][b.1]);
    } else {
        lemma_walk_reached(g, sp, w, j - 1, q, dep, slot, visited, head, limit);
        let i = slot[cell_index(a.0, a.1)];
        assert(i < head);
        assert(closed_at(g, visited, dep, slot, qpos(q, i), 6, dep[i] + 1));
        assert(neighbor(a.0, a.1, k) == b);
        assert(visited[b.0][b.1]);
    }
}

/// No escape walk from the start has `limit` cells or fewer: its end would
/// have been visited, and taken from the queue, before `head`.
proof fn lemma_no_short_escape(
    g: Grid,
    sp: (int, int),
    q: Seq<(usize, usize, usize, usize)>,
    dep: Seq<int>,
    slot: Seq<int>,
    visited: [[bool; 11]; 11],
    head: int,
    limit: int,
)
    requires
        in_range(sp.0, sp.1),
        cell(g, sp.0, sp.1) != EMPTY,
        0 <= head <= q.len(),
        dep.len() == q.len(),
        forall|i: int| head <= i < q.len() ==> #[trigger] dep[i] >= limit,
        forall|i: int| 0 <= i < head ==> !is_border((#[trigger] q[i]).0 as int, q[i].1 as int),
        slots_ok(sp, visited, q, slot),
        closed_at(g, visited, dep, slot, sp, 6, 1),
        popped_closed(g, visited, q, dep, slot, head),
    ensures
        forall|v: Seq<(int, int)>| #[trigger] escape_walk(g, sp, v) ==> v.len() > limit,
{
    assert forall|v: Seq<(int, int)>| #[trigger] escape_walk(g, sp, v) implies v.len() > limit by {
        if v.len() <= limit {
            let m = v.len() - 1;
            lemma_walk_reached(g, sp, v, m, q, dep, slot, visited, head, limit);
            let i = slot[cell_index(v[m].0, v[m].1)];
            assert(!is_border(q[i].0 as int, q[i].1 as int));
        }
    }
}

proof fn lemma_walk_push(g: Grid, sp: (int, int), w: Seq<(int, int)>, p: (int, int))
    requires
        is_walk_from(g, sp, w),
        connected(g, w.last(), p),
    ensures
        is_walk_from(g, sp, w.push(p)),
{
    let w2 = w.push(p);
    assert forall|i: int| 0 <= i < w2.len() - 1 implies connected(g, #[trigger] w2[i], w2[i + 1]) by {
        if i < w.len() - 1 {
            assert(w2[i] == w[i]);
            assert(w2[i + 1] == w[i + 1]);
        }
    }
}

proof fn lemma_depths_push(dep: Seq<int>, h: int, d: int)
    requires
        depths_ok(dep, h),
        0 <= h < dep.len(),
        d == dep[h] + 1,
    ensures
        depths_ok(dep.push(d), h),
{
    let d2 = dep.push(d);
    assert forall|i: int, j: int| 0 <= i < j < d2.len() implies d2[i] <= d2[j] by {
        if j == dep.len() {
            if i < h {
                assert(dep[i] <= dep[h]);
            } else {
                assert(dep[i] <= dep[h] + 1);
            }
        }
    }
    assert forall|j: int| h <= j < d2.len() implies #[trigger] d2[j] <= d2[h] + 1 by {
        if j < dep.len() {
            assert(dep[j] <= dep[h] + 1);
        }
    }
}

/// One entry pushed while the entry at `h` is expanded keeps every property
/// of the search.
proof fn lemma_expand_push(
    g: Grid,
    sp: (int, int),
    q: Seq<(usize, usize, usize, usize)>,
    visited: [[bool; 11]; 11],
    v2: [[bool; 11]; 11],
    dep: Seq<int>,
    slot: Seq<int>,
    walks: Seq<Seq<(int, int)>>,
    e: (usize, usize, usize, usize),
    h: int,
    k: int,
    b: (usize, usize, usize),
    bi: int,
)
    requires
        in_range(sp.0, sp.1),
        cell(g, sp.0, sp.1) != EMPTY,
        0 <= h < q.len(),
        0 <= k < 6,
        slots_ok(sp, visited, q, slot),
        walks_ok(g, sp, q, dep, walks),
        depths_ok(dep, h),
        closed_at(g, visited, dep, slot, sp, 6, 1),
        popped_closed(g, visited, q, dep, slot, h),
        closed_at(g, visited, dep, slot, qpos(q, h), k, dep[h] + 1),
        (e.0 as int, e.1 as int) == neighbor(q[h].0 as int, q[h].1 as int, k),
        open_cell(g, (e.0 as int, e.1 as int)),
        !visited[e.0 as int][e.1 as int],
        e.2 == q[h].2,
        e.3 == q[h].3,
        marked(visited, v2, (e.0 as int, e.1 as int)),
        best_ok(q, b, bi, h + 1),
    ensures
        ({
            let q2 = q.push(e);
            let dep2 = dep.push(dep[h] + 1);
            let slot2 = slot.update(cell_index(e.0 as int, e.1 as int), q.len() as int);
            let walks2 = walks.push(walks[h].push((e.0 as int, e.1 as int)));
            &&& slots_ok(sp, v2, q2, slot2)
            &&& walks_ok(g, sp, q2, dep2, walks2)
            &&& depths_ok(dep2, h)
            &&& closed_at(g, v2, dep2, slot2, sp, 6, 1)
            &&& popped_closed(g, v2, q2, dep2, slot2, h)
            &&& closed_at(g, v2, dep2, slot2, qpos(q2, h), k + 1, dep2[h] + 1)
            &&& best_ok(q2, b, bi, h + 1)
            &&& q2[h] == q[h]
        }),
{
    let np = (e.0 as int, e.1 as int);
    let nd = dep[h] + 1;
    let w = walks[h].push(np);
    let q2 = q.push(e);
    let s2 = slot.update(cell_index(e.0 as int, e.1 as int), q.len() as int);
    let dep2 = dep.push(nd);
    assert(np != sp);
    assert(entry_ok(g, sp, q[h], dep[h], walks[h]));
    assert(connected(g, walks[h].last(), np));
    lemma_walk_push(g, sp, walks[h], np);
    assert(w[1] == walks[h][1]);
    assert(entry_ok(g, sp, e, nd, w));
    lemma_push_entry(g, sp, q, visited, dep, slot, walks, v2, e, nd, w);
    lemma_depths_push(dep, h, nd);
    lemma_best_push(q, e, b, bi, h + 1);
    lemma_closed_at_push(g, sp, q, visited, dep, slot, v2, e, nd, sp, 6, 1);
    lemma_closed_at_push(g, sp, q, visited, dep, slot, v2, e, nd, qpos(q, h), k, nd);
    assert(q2[h] == q[h]);
    assert(dep2[h] == dep[h]);
    assert(s2[cell_index(np.0, np.1)] == q.len());
    assert(dep2[q.len() as int] == nd);
    assert forall|i: int| 0 <= i < h implies #[trigger] closed_at(
        g,
        v2,
        dep2,
        s2,
        qpos(q2, i),
        6,
        dep2[i] + 1,
    ) by {
        assert(closed_at(g, visited, dep, slot, qpos(q, i), 6, dep[i] + 1));
        lemma_closed_at_push(g, sp, q, visited, dep, slot, v2, e, nd, qpos(q, i), 6, dep[i] + 1);
        assert(q2[i] == q[i]);
    }
}

fn mark_visited(v: &mut [[bool; 11]; 11], r: usize, c: usize)
    requires
        r <= 10,
        c <= 10,
    ensures
        marked(*old(v), *final(v), (r as int, c as int)),
{
    v[r][c] = true;
}

/// The next step of the mouse at `(start_x, start_y)`: the first hop of a shortest
/// path through empty cells to a border cell; where no border cell can be
/// reached, the first hop towards the reachable cell nearest the border.
/// `None` only when the mouse cannot move at all.
pub fn find_shortest_path_to_border(board: &Grid, start_x: usize, start_y: usize) -> (res: Option<
    (usize, usize),
>)
    requires
        start_x <= 10,
        start_y <= 10,
        cell(*board, start_x as int, start_y as int) != EMPTY,
    ensures
        match res {
            Some(p) => is_mouse_step(*board, start_x as int, start_y as int, p.0 as int, p.1 as int),
            None => !has_legal_move(*board, start_x as int, start_y as int),
        },
        can_escape(*board, (start_x as int, start_y as int)) ==> (match res {
            Some(p) => starts_shortest_escape(
                *board,
                (start_x as int, start_y as int),
                (p.0 as int, p.1 as int),
            ),
            None => false,
        }),
        has_escape_step(*board, start_x as int, start_y as int) ==> (match res {
            Some(p) => is_border(p.0 as int, p.1 as int),
            None => false,
        }),
        !can_escape(*board, (start_x as int, start_y as int)) ==> (match res {
            Some(p) => starts_nearest_reach(
                *board,
                (start_x as int, start_y as int),
                (p.0 as int, p.1 as int),
            ),
            None => true,
        }),
{
    let sx = start_x;
    let sy = start_y;
    let ghost g = *board;
    let ghost sp = (sx as int, sy as int);
    // (row, col, first hop row, first hop col)
    let mut queue: Vec<(usize, usize, usize, usize)> = Vec::new();
    let mut visited: [[bool; 11]; 11] = [[false; 11]; 11];
    let ghost unmarked = visited;
    mark_visited(&mut visited, sx, sy);
    let ghost mut seen: Set<int> = Set::empty().insert(cell_index(sx as int, sy as int));
    let ghost mut dep: Seq<int> = Seq::empty();
    let ghost mut walks: Seq<Seq<(int, int)>> = Seq::empty();
    let ghost mut slot: Seq<int> = Seq::new(121, |i: int| -1);
    proof {
        assert forall|r: int, c: int| in_range(r, c) implies (#[trigger] visited[r][c]
            <==> seen.contains(cell_index(r, c))) by {
            if (r, c) != sp {
                assert(!unmarked[r][c]);
                assert(cell_index(r, c) != cell_index(sp.0, sp.1));
            }
        }
    }

    // The open neighbours of the start are the first hops.
    let mut k: usize = 0;
    while k < 6
        invariant
            k <= 6,
            sx == start_x,
            sy == start_y,
            sx <= 10,
            sy <= 10,
            g == *board,
            sp == (sx as int, sy as int),
            cell(g, sp.0, sp.1) != EMPTY,
            queue.len() <= k,
            seen.finite(),
            seen.len() == queue.len() + 1,
            seen.subset_of(set_int_range(0, 121)),
            forall|r: int, c: int|
                in_range(r, c) ==> (#[trigger] visited[r][c] <==> seen.contains(cell_index(r, c))),
            forall|r: int, c: int|
                in_range(r, c) && #[trigger] visited[r][c] ==> ((r == sx && c == sy) || exists|
                    j: int,
                | 0 <= j < k && #[trigger] neighbor(sx as int, sy as int, j) == (r, c)),
            slots_ok(sp, visited, queue@, slot),
            walks_ok(g, sp, queue@, dep, walks),
            forall|i: int| 0 <= i < queue.len() ==> #[trigger] dep[i] == 1,
            closed_at(g, visited, dep, slot, sp, k as int, 1),
        decreases 6 - k,
    {
        match neighbor_at(sx, sy, k) {
            Some(p) => {
                let (nx, ny) = p;
                proof {
                    if visited[nx as int][ny as int] {
                        lemma_neighbor_not_self(sx as int, sy as int, k as int);
                        let j = choose|j: int|
                            0 <= j < k && #[trigger] neighbor(sx as int, sy as int, j) == (
                                nx as int,
                                ny as int,
                            );
                        lemma_neighbors_distinct(sx as int, sy as int, j, k as int);
                    }
                }
                if !visited[nx][ny] && board[nx][ny] == EMPTY {
                    proof {
                        let ns = seen.insert(cell_index(nx as int, ny as int));
                        lemma_int_range(0, 121);
                        lemma_len_subset(ns, set_int_range(0, 121));
                    }
                    let ghost before = visited;
                    let ghost np = (nx as int, ny as int);
                    let ghost e = (nx, ny, nx, ny);
                    let ghost w = seq![sp, np];
                    mark_visited(&mut visited, nx, ny);
                    proof {
                        assert(neighbor(sx as int, sy as int, k as int) == np);
                        assert(connected(g, w[0], w[1]));
                        assert(is_walk_from(g, sp, w));
                        assert(entry_ok(g, sp, e, 1, w));
                        lemma_push_entry(g, sp, queue@, before, dep, slot, walks, visited, e, 1, w);
                        lemma_closed_at_push(g, sp, queue@, before, dep, slot, visited, e, 1, sp, k as int, 1);
                        slot = slot.update(cell_index(nx as int, ny as int), queue.len() as int);
                        dep = dep.push(1);
                        walks = walks.push(w);
                        seen = seen.insert(cell_index(nx as int, ny as int));
                        assert forall|r: int, c: int| in_range(r, c) implies (#[trigger] visited[r][c]
                            <==> seen.contains(cell_index(r, c))) by {
                            if (r, c) != np {
                                assert(cell_index(r, c) != cell_index(np.0, np.1));
                            }
                        }
                    }
                    queue.push((nx, ny, nx, ny));
                } else {
                    proof {
                        if open_cell(g, neighbor(sx as int, sy as int, k as int)) {
                            assert(visited[nx as int][ny as int]);
                        }
                    }
                }
            },
            None => {},
        }
        k += 1;
    }

    // best reached cell off the border: (first hop row, first hop col, distance)
    let mut best: Option<(usize, usize, usize)> = None;
    let ghost mut bi: int = 0;
    let mut head: usize = 0;
    while head < queue.len()
        invariant
            sx == start_x,
            sy == start_y,
            sx <= 10,
            sy <= 10,
            g == *board,
            sp == (sx as int, sy as int),
            cell(g, sp.0, sp.1) != EMPTY,
            head <= queue.len(),
            queue.len() <= 120,
            seen.finite(),
            seen.len() == queue.len() + 1,
            seen.subset_of(set_int_range(0, 121)),
            forall|r: int, c: int|
                in_range(r, c) ==> (#[trigger] visited[r][c] <==> seen.contains(cell_index(r, c))),
            slots_ok(sp, visited, queue@, slot),
            walks_ok(g, sp, queue@, dep, walks),
            depths_ok(dep, head as int),
            closed_at(g, visited, dep, slot, sp, 6, 1),
            popped_closed(g, visited, queue@, dep, slot, head as int),
            forall|i: int| 0 <= i < head ==> !is_border((#[trigger] queue[i]).0 as int, queue[i].1 as int),
            head > 0 ==> best.is_some(),
            best.is_some() ==> best_ok(queue@, best.unwrap(), bi, head as int),
        decreases 120 - head,
    {
        let (x, y, fx, fy) = queue[head];
        let ghost h = head as int;
        proof {
            assert(queue@[h] == (x, y, fx, fy));
            assert(entry_ok(g, sp, queue@[h], dep[h], walks[h]));
            assert(connected(g, walks[h][0], walks[h][0int + 1]));
            assert(is_mouse_step(g, sp.0, sp.1, fx as int, fy as int));
        }
        if is_border_cell(x, y) {
            proof {
                let w = walks[h];
                assert(escape_walk(g, sp, w));
                assert forall|i: int| h <= i < queue.len() implies #[trigger] dep[i] >= dep[h] by {
                    if i > h {
                        assert(dep[h] <= dep[i]);
                    }
                }
                lemma_no_short_escape(g, sp, queue@, dep, slot, visited, h, dep[h]);
                assert(starts_shortest_escape(g, sp, (fx as int, fy as int)));
                if has_escape_step(g, sp.0, sp.1) {
                    let k0 = choose|k0: int|
                        0 <= k0 < 6 && open_cell(g, #[trigger] neighbor(sp.0, sp.1, k0))
                            && is_border(neighbor(sp.0, sp.1, k0).0, neighbor(sp.0, sp.1, k0).1);
                    let v = seq![sp, neighbor(sp.0, sp.1, k0)];
                    assert(connected(g, v[0], v[1]));
                    assert(escape_walk(g, sp, v));
                    assert(w.last() == w[1]);
                }
            }
            return Some((fx, fy));
        }
        let d = distance_to_border(x, y);
        let ghost old_best = best;
        match best {
            Some(b) => {
                if d < b.2 {
                    best = Some((fx, fy, d));
                    proof {
                        bi = h;
                    }
                }
            },
            None => {
                best = Some((fx, fy, d));
                proof {
                    bi = h;
                }
            },
        }
        proof {
            assert(d == border_distance(x as int, y as int));
            assert(best_ok(queue@, best.unwrap(), bi, h + 1)) by {
                assert forall|i: int| 0 <= i < h + 1 implies border_distance(
                    (#[trigger] queue@[i]).0 as int,
                    queue@[i].1 as int,
                ) >= best.unwrap().2 by {
                    if i < h {
                        assert(border_distance(queue@[i].0 as int, queue@[i].1 as int) >= old_best.unwrap().2);
                    }
                }
            }
        }
        let mut k: usize = 0;
        while k < 6
            invariant
                k <= 6,
                sx == start_x,
                sy == start_y,
                sx <= 10,
                sy <= 10,
                x <= 10,
                y <= 10,
                h == head,
                head < queue.len(),
                queue@[h] == (x, y, fx, fy),
                g == *board,
                sp == (sx as int, sy as int),
                cell(g, sp.0, sp.1) != EMPTY,
                !is_border(x as int, y as int),
                queue.len() <= 120,
                seen.finite(),
                seen.len() == queue.len() + 1,
                seen.subset_of(set_int_range(0, 121)),
                forall|r: int, c: int|
                    in_range(r, c) ==> (#[trigger] visited[r][c] <==> seen.contains(
                        cell_index(r, c),
                    )),
                slots_ok(sp, visited, queue@, slot),
                walks_ok(g, sp, queue@, dep, walks),
                depths_ok(dep, h),
                closed_at(g, visited, dep, slot, sp, 6, 1),
                popped_closed(g, visited, queue@, dep, slot, h),
                closed_at(g, visited, dep, slot, (x as int, y as int), k as int, dep[h] + 1),
                forall|i: int| 0 <= i < head ==> !is_border((#[trigger] queue[i]).0 as int, queue[i].1 as int),
                best.is_some(),
                best_ok(queue@, best.unwrap(), bi, h + 1),
            decreases 6 - k,
        {
            match neighbor_at(x, y, k) {
                Some(p) => {
                    let (nx, ny) = p;
                    if !visited[nx][ny] && board[nx][ny] == EMPTY {
                        proof {
                            let ns = seen.insert(cell_index(nx as int, ny as int));
                            lemma_int_range(0, 121);
                            lemma_len_subset(ns, set_int_range(0, 121));
                        }
                        let ghost before = visited;
                        let ghost np = (nx as int, ny as int);
                        let ghost e = (nx, ny, fx, fy);
                        let ghost nd = dep[h] + 1;
                        let ghost w = walks[h].push(np);
                        mark_visited(&mut visited, nx, ny);
                        proof {
                            assert(neighbor(x as int, y as int, k as int) == np);
                            lemma_expand_push(
                                g,
                                sp,
                                queue@,
                                before,
                                visited,
                                dep,
                                slot,
                                walks,
                                e,
                                h,
                                k as int,
                                best.unwrap(),
                                bi,
                            );
                            let s2 = slot.update(cell_index(nx as int, ny as int), queue.len() as int);
                            slot = s2;
                            dep = dep.push(nd);
                            walks = walks.push(w);
                            seen = seen.insert(cell_index(nx as int, ny as int));
                            assert forall|r: int, c: int| in_range(r, c) implies (#[trigger] visited[r][c]
                                <==> seen.contains(cell_index(r, c))) by {
                                if (r, c) != np {
                                    assert(cell_index(r, c) != cell_index(np.0, np.1));
                                }
                            }
                        }
                        queue.push((nx, ny, fx, fy));
                        proof {
                            assert(queue@ == queue@.drop_last().push(e));
                        }
                    } else {
                        proof {
                            if open_cell(g, neighbor(x as int, y as int, k as int)) {
                                assert(visited[nx as int][ny as int]);
                                let i = slot[cell_index(nx as int, ny as int)];
                                if i < h {
                                    assert(dep[i] <= dep[h]);
                                } else {
                                    assert(dep[i] <= dep[h] + 1);
                                }
                            }
                        }
                    }
                },
                None => {},
            }
            k += 1;
        }
        proof {
            assert forall|i: int| 0 <= i < h + 1 implies #[trigger] closed_at(
                g,
                visited,
                dep,
                slot,
                qpos(queue@, i),
                6,
                dep[i] + 1,
            ) by {
                if i == h {
                    assert(qpos(queue@, i) == (x as int, y as int));
                }
            }
            if h + 1 < dep.len() {
                assert forall|j: int| h + 1 <= j < dep.len() implies #[trigger] dep[j] <= dep[h + 1]
                    + 1 by {
                    assert(dep[j] <= dep[h] + 1);
                    assert(dep[h] <= dep[h + 1]);
                }
            }
        }
        head += 1;
    }
    proof {
        assert forall|v: Seq<(int, int)>| !#[trigger] escape_walk(g, sp, v) by {
            if escape_walk(g, sp, v) {
                lemma_no_short_escape(g, sp, queue@, dep, slot, visited, head as int, v.len() as int);
            }
        }
        if has_escape_step(g, sp.0, sp.1) {
            let k0 = choose|k0: int|
                0 <= k0 < 6 && open_cell(g, #[trigger] neighbor(sp.0, sp.1, k0)) && is_border(
                    neighbor(sp.0, sp.1, k0).0,
                    neighbor(sp.0, sp.1, k0).1,
                );
            let v = seq![sp, neighbor(sp.0, sp.1, k0)];
            assert(connected(g, v[0], v[1]));
            assert(escape_walk(g, sp, v));
        }
    }

    match best {
        Some(b) => {
            proof {
                let w = walks[bi];
                assert(entry_ok(g, sp, queue@[bi], dep[bi], walks[bi]));
                assert forall|v: Seq<(int, int)>|
                    #[trigger] is_walk_from(g, sp, v) && v.len() >= 2 implies border_distance(
                    w.last().0,
                    w.last().1,
                ) <= border_distance(v.last().0, v.last().1) by {
                    let m = v.len() - 1;
                    lemma_walk_reached(g, sp, v, m, queue@, dep, slot, visited, head as int, m);
                    let i = slot[cell_index(v[m].0, v[m].1)];
                    assert(border_distance(queue[i].0 as int, queue[i].1 as int) >= b.2);
                }
                assert(is_walk_from(g, sp, w));
            }
            return Some((b.0, b.1));
        },
        None => {},
    }
    proof {
        assert forall|k: int| 0 <= k < 6 implies !#[trigger] open_cell(g, neighbor(sp.0, sp.1, k)) by {
            if open_cell(g, neighbor(sp.0, sp.1, k)) {
                let n = neighbor(sp.0, sp.1, k);
                assert(visited[n.0][n.1]);
            }
        }
    }

    let mut k: usize = 0;
    while k < 6
        invariant
            k <= 6,
            sx == start_x,
            sy == start_y,
            sx <= 10,
            sy <= 10,
            !has_escape_step(*board, sx as int, sy as int),
            !can_escape(*board, (sx as int, sy as int)),
            !has_legal_move(*board, sx as int, sy as int),
            forall|j: int|
                0 <= j < k ==> !#[trigger] open_cell(*board, neighbor(sx as int, sy as int, j)),
        decreases 6 - k,
    {
        match neighbor_at(sx, sy, k) {
            Some(p) => {
                if board[p.0][p.1] == EMPTY {
                    assert(neighbor(sx as int, sy as int, k as int) == (p.0 as int, p.1 as int));
                    assert(open_cell(*board, (p.0 as int, p.1 as int)));
                    return Some(p);
                }
            },
            None => {},
        }
        k += 1;
    }
    None
}

/// When the mouse stands one step from the border, the first step of every
/// shortest escape lands on the border; so the computer's mouse steps out at
/// once, and announces its loss.
pub proof fn one_step_escape_is_taken(g: Grid, r: int, c: int, p: (int, int))
    requires
        has_escape_step(g, r, c),
        starts_shortest_escape(g, (r, c), p),
    ensures
        is_border(p.0, p.1),
{
    let w = choose|w: Seq<(int, int)>|
        #[trigger] escape_walk(g, (r, c), w) && w[1] == p && forall|v: Seq<(int, int)>|
            #[trigger] escape_walk(g, (r, c), v) ==> w.len() <= v.len();
    let k0 = choose|k0: int|
        0 <= k0 < 6 && open_cell(g, #[trigger] neighbor(r, c, k0)) && is_border(
            neighbor(r, c, k0).0,
            neighbor(r, c, k0).1,
        );
    let v = seq![(r, c), neighbor(r, c, k0)];
    assert(connected(g, v[0], v[1]));
    assert(escape_walk(g, (r, c), v));
    assert(w.last() == w[1]);
}

/// What the computer does on its turn.
pub enum BotAction {
    /// The mouse cannot move: the wall builder has won; announced as `"wi"`.
    Trapped,
    /// The mouse stepped onto this border cell and escaped; announced as `"lo"`.
    Escaped(usize, usize),
    /// The mouse stepped onto this cell; sent as two bytes `(row, col)`.
    Moved(usize, usize),
}

/// What became of the two bytes the human sent on their turn.
pub enum WallReply {
    /// A wall now stands on the cell.
    Placed,
    /// The human announced a win (`"wi"`); the game is over.
    ClientWon,
    /// The bytes name no cell that can take a wall; the game is over.
    Rejected,
}

impl BotAction {
    /// The two bytes sent to the human for this action.
    pub fn message(&self) -> (m: [u8; 2])
        requires
            match *self {
                BotAction::Escaped(r, c) => r <= 10 && c <= 10,
                BotAction::Moved(r, c) => r <= 10 && c <= 10,
                BotAction::Trapped => true,
            },
        ensures
            m@ == match *self {
                BotAction::Trapped => win_sentinel(),
                BotAction::Escaped(_, _) => lose_sentinel(),
                BotAction::Moved(r, c) => seq![r as u8, c as u8],
            },
    {
        let m: [u8; 2] = match self {
            BotAction::Trapped => [ASCII_W, ASCII_I],
            BotAction::Escaped(_, _) => [ASCII_L, ASCII_O],
            BotAction::Moved(r, c) => [*r as u8, *c as u8],
        };
        assert(m@ =~= seq![m[0], m[1]]);
        m
    }
}

/// `walls` names the cell `(r, c)`.
pub open spec fn lists_cell(walls: Seq<(u8, u8)>, r: int, c: int) -> bool {
    exists|i: int| 0 <= i < walls.len() && walls[i].0 == r && walls[i].1 == c
}

/// The board after the mouse steps from `from` to `to`.
pub open spec fn moved_board(g: Grid, from: (int, int), to: (int, int), r: int, c: int) -> u8 {
    if r == to.0 && c == to.1 {
        MOUSE
    } else if r == from.0 && c == from.1 {
        EMPTY
    } else {
        cell(g, r, c)
    }
}

/// The computer's side of a game: its own board and where its mouse stands.
pub struct BotGame {
    pub board: Grid,
    pub mouse: Position,
}

impl BotGame {
    /// The mouse stands on the board, and on the one cell that holds `MOUSE`.
    pub open spec fn wf(&self) -> bool {
        &&& self.mouse.x <= 10
        &&& self.mouse.y <= 10
        &&& forall|r: int, c: int|
            in_range(r, c) ==> (#[trigger] cell(self.board, r, c) == MOUSE <==> (r == self.mouse.x
                && c == self.mouse.y))
    }

    /// The board at the start of a game: the mouse on its spawn cell, the
    /// given walls, every other cell empty.
    pub fn new(mouse: (u8, u8), walls: &Vec<(u8, u8)>) -> (g: BotGame)
        requires
            mouse.0 <= 10,
            mouse.1 <= 10,
            forall|i: int|
                0 <= i < walls.len() ==> (#[trigger] walls[i]).0 <= 10 && walls[i].1 <= 10
                    && walls[i] != mouse,
        ensures
            g.wf(),
            g.mouse.x == mouse.0,
            g.mouse.y == mouse.1,
            forall|r: int, c: int|
                in_range(r, c) ==> #[trigger] cell(g.board, r, c) == if r == mouse.0 && c
                    == mouse.1 {
                    MOUSE
                } else if lists_cell(walls@, r, c) {
                    WALL
                } else {
                    EMPTY
                },
    {
        let mut board: Grid = [[EMPTY; 11]; 11];
        set_cell(&mut board, mouse.0 as usize, mouse.1 as usize, MOUSE);
        let mut i: usize = 0;
        while i < walls.len()
            invariant
                i <= walls.len(),
                mouse.0 <= 10,
                mouse.1 <= 10,
                forall|j: int|
                    0 <= j < walls.len() ==> (#[trigger] walls[j]).0 <= 10 && walls[j].1 <= 10
                        && walls[j] != mouse,
                forall|r: int, c: int|
                    in_range(r, c) ==> #[trigger] cell(board, r, c) == if r == mouse.0 && c
                        == mouse.1 {
                        MOUSE
                    } else if lists_cell(walls@.take(i as int), r, c) {
                        WALL
                    } else {
                        EMPTY
                    },
            decreases walls.len() - i,
        {
            let w = walls[i];
            let ghost before = board;
            set_cell(&mut board, w.0 as usize, w.1 as usize, WALL);
            proof {
                assert forall|r: int, c: int| in_range(r, c) implies #[trigger] cell(board, r, c)
                    == if r == mouse.0 && c == mouse.1 {
                    MOUSE
                } else if lists_cell(walls@.take(i + 1), r, c) {
                    WALL
                } else {
                    EMPTY
                } by {
                    let pre = walls@.take(i as int);
                    let nxt = walls@.take(i + 1);
                    assert(nxt[i as int] == w);
                    if lists_cell(pre, r, c) {
                        let j = choose|j: int|
                            0 <= j < pre.len() && (#[trigger] pre[j]).0 == r && pre[j].1 == c;
                        assert(nxt[j] == pre[j]);
                    }
                    if lists_cell(nxt, r, c) && !(r == w.0 && c == w.1) {
                        let j = choose|j: int|
                            0 <= j < nxt.len() && (#[trigger] nxt[j]).0 == r && nxt[j].1 == c;
                        assert(pre[j] == nxt[j]);
                    }
                }
            }
            i += 1;
        }
        assert(walls@.take(walls.len() as int) =~= walls@);
        BotGame { board, mouse: Position::new(mouse.0 as usize, mouse.1 as usize) }
    }

    /// The computer's turn. A mouse with nowhere to go is trapped and the board
    /// stays as it is; otherwise the mouse takes the step that the search
    /// chooses, and escapes where that step lands on the border.
    pub fn next_move(&mut self) -> (a: BotAction)
        requires
            old(self).wf(),
        ensures
            final(self).wf(),
            !has_legal_move(old(self).board, old(self).mouse.x as int, old(self).mouse.y as int)
                ==> a == BotAction::Trapped && *final(self) == *old(self),
            has_legal_move(old(self).board, old(self).mouse.x as int, old(self).mouse.y as int)
                ==> match a {
                BotAction::Trapped => false,
                BotAction::Escaped(r, c) => is_border(r as int, c as int) && Self::stepped(
                    *old(self),
                    *final(self),
                    r,
                    c,
                ),
                BotAction::Moved(r, c) => !is_border(r as int, c as int) && Self::stepped(
                    *old(self),
                    *final(self),
                    r,
                    c,
                ),
            },
            has_escape_step(old(self).board, old(self).mouse.x as int, old(self).mouse.y as int)
                ==> a matches BotAction::Escaped(_, _),
            can_escape(old(self).board, (old(self).mouse.x as int, old(self).mouse.y as int))
                ==> starts_shortest_escape(
                old(self).board,
                (old(self).mouse.x as int, old(self).mouse.y as int),
                (final(self).mouse.x as int, final(self).mouse.y as int),
            ),
            has_legal_move(old(self).board, old(self).mouse.x as int, old(self).mouse.y as int)
                && !can_escape(old(self).board, (old(self).mouse.x as int, old(self).mouse.y as int))
                ==> starts_nearest_reach(
                old(self).board,
                (old(self).mouse.x as int, old(self).mouse.y as int),
                (final(self).mouse.x as int, final(self).mouse.y as int),
            ),
    {
        if !check_any_left_move(&self.board, &self.mouse) {
            return BotAction::Trapped;
        }
        match find_shortest_path_to_border(&self.board, self.mouse.x, self.mouse.y) {
            Some(p) => {
                let (r, c) = p;
                let ghost before = *self;
                set_cell(&mut self.board, self.mouse.x, self.mouse.y, EMPTY);
                set_cell(&mut self.board, r, c, MOUSE);
                self.mouse = Position::new(r, c);
                assert(open_cell(before.board, (r as int, c as int)));
                if is_border_cell(r, c) {
                    BotAction::Escaped(r, c)
                } else {
                    BotAction::Moved(r, c)
                }
            },
            None => BotAction::Trapped,
        }
    }

    /// `after` is `before` with the mouse stepped onto `(r, c)`, a legal step.
    pub open spec fn stepped(before: BotGame, after: BotGame, r: usize, c: usize) -> bool {
        &&& is_mouse_step(before.board, before.mouse.x as int, before.mouse.y as int, r as int, c as int)
        &&& after.mouse.x == r
        &&& after.mouse.y == c
        &&& forall|i: int, j: int|
            in_range(i, j) ==> #[trigger] cell(after.board, i, j) == moved_board(
                before.board,
                (before.mouse.x as int, before.mouse.y as int),
                (r as int, c as int),
                i,
                j,
            )
    }

    /// The human's turn: `"wi"` ends the game; other bytes `(row, col)` put a
    /// wall on that cell, unless it is off the board or holds the mouse.
    pub fn receive_wall(&mut self, msg: [u8; 2]) -> (reply: WallReply)
        requires
            old(self).wf(),
        ensures
            final(self).wf(),
            final(self).mouse == old(self).mouse,
            msg@ == win_sentinel() ==> reply == WallReply::ClientWon && *final(self) == *old(self),
            msg@ != win_sentinel() && in_range(msg[0] as int, msg[1] as int) && !(msg[0]
                == old(self).mouse.x && msg[1] == old(self).mouse.y) ==> reply == WallReply::Placed
                && forall|i: int, j: int|
                in_range(i, j) ==> #[trigger] cell(final(self).board, i, j) == if i == msg[0] && j
                    == msg[1] {
                    WALL
                } else {
                    cell(old(self).board, i, j)
                },
            msg@ != win_sentinel() && !(in_range(msg[0] as int, msg[1] as int) && !(msg[0]
                == old(self).mouse.x && msg[1] == old(self).mouse.y)) ==> reply == WallReply::Rejected
                && *final(self) == *old(self),
    {
        if msg[0] == ASCII_W && msg[1] == ASCII_I {
            assert(msg@ =~= win_sentinel());
            return WallReply::ClientWon;
        }
        proof {
            if msg@ == win_sentinel() {
                assert(msg@[0] == 119u8);
            }
        }
        let r = msg[0] as usize;
        let c = msg[1] as usize;
        if r <= 10 && c <= 10 && !(r == self.mouse.x && c == self.mouse.y) {
            set_cell(&mut self.board, r, c, WALL);
            WallReply::Placed
        } else {
            WallReply::Rejected
        }
    }
}

} // verus!
