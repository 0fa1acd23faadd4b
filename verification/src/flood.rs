//! Bucket fill: replace the 4-connected region of equal tiles around a cell.
use std::collections::VecDeque;
use vstd::prelude::*;

use crate::grid::{idx, in_grid, lemma_idx_bounds, lemma_idx_injective};

verus! {

/// Two cells share an edge.
pub open spec fn adjacent(p: (int, int), q: (int, int)) -> bool {
    ||| p.0 == q.0 && (p.1 == q.1 + 1 || q.1 == p.1 + 1)
    ||| p.1 == q.1 && (p.0 == q.0 + 1 || q.0 == p.0 + 1)
}

/// The tile stored at a cell.
pub open spec fn tile_at(tiles: Seq<i32>, w: int, p: (int, int)) -> i32 {
    tiles[idx(w, p.0, p.1)]
}

/// The cell has a position in `tiles`.
pub open spec fn stored(tiles: Seq<i32>, w: int, p: (int, int)) -> bool {
    idx(w, p.0, p.1) < tiles.len()
}

/// `path` walks from cell to edge-adjacent cell inside the grid, over stored cells that
/// all hold `value`.
pub open spec fn is_walk(tiles: Seq<i32>, w: int, h: int, value: i32, path: Seq<(int, int)>) -> bool {
    &&& path.len() > 0
    &&& forall|i: int|
        0 <= i < path.len() ==> in_grid(w, h, #[trigger] path[i].0, path[i].1) && stored(
            tiles,
            w,
            path[i],
        ) && tile_at(tiles, w, path[i]) == value
    &&& forall|i: int| 0 <= i < path.len() - 1 ==> adjacent(#[trigger] path[i], path[i + 1])
}

/// `p` belongs to the region of `start`: the cells reachable from `start` through
/// edge-adjacent cells that hold the same tile as `start`.
pub open spec fn in_region(tiles: Seq<i32>, w: int, h: int, start: (int, int), p: (int, int)) -> bool {
    exists|path: Seq<(int, int)>|
        #[trigger] is_walk(tiles, w, h, tile_at(tiles, w, start), path) && path[0] == start
            && path.last() == p
}

/// The grid after a bucket fill from `start` with `replacement`: the region of `start`
/// holds `replacement`, every other cell keeps its tile.
pub open spec fn filled_cell(
    tiles: Seq<i32>,
    w: int,
    h: int,
    start: (int, int),
    replacement: i32,
    p: (int, int),
) -> i32 {
    if in_region(tiles, w, h, start, p) {
        replacement
    } else {
        tile_at(tiles, w, p)
    }
}

/// A bucket fill from `start` reads only stored cells: the start cell, and every cell of
/// the grid next to a cell of its region.
pub open spec fn fill_stays_stored(tiles: Seq<i32>, w: int, h: int, start: (int, int)) -> bool {
    &&& stored(tiles, w, start)
    &&& forall|p: (int, int), n: (int, int)|
        in_grid(w, h, n.0, n.1) && #[trigger] in_region(tiles, w, h, start, p) && #[trigger] adjacent(
            p,
            n,
        ) ==> stored(tiles, w, n)
}

/// A grid whose cells are all stored lets every bucket fill from one of its cells stay
/// on stored cells.
pub proof fn lemma_full_grid_stays_stored(tiles: Seq<i32>, w: int, h: int, start: (int, int))
    requires
        w * h <= tiles.len(),
        in_grid(w, h, start.0, start.1),
    ensures
        fill_stays_stored(tiles, w, h, start),
{
    lemma_idx_bounds(w, h, start.0, start.1);
    assert forall|p: (int, int), n: (int, int)|
        in_grid(w, h, n.0, n.1) && #[trigger] in_region(tiles, w, h, start, p) && #[trigger] adjacent(
            p,
            n,
        ) implies stored(tiles, w, n) by {
        lemma_idx_bounds(w, h, n.0, n.1);
    }
}

/// A stored cell whose tile differs between the grid before the fill `orig` and the
/// current one `cur`.
spec fn changed(cur: Seq<i32>, orig: Seq<i32>, w: int, p: (int, int)) -> bool {
    stored(orig, w, p) && tile_at(cur, w, p) != tile_at(orig, w, p)
}

/// The number of positions below `n` that hold `v`.
spec fn count_value(s: Seq<i32>, v: i32, n: int) -> nat
    decreases n,
{
    if n <= 0 {
        0
    } else if s[n - 1] == v {
        count_value(s, v, n - 1) + 1
    } else {
        count_value(s, v, n - 1)
    }
}

proof fn lemma_count_update(s: Seq<i32>, v: i32, n: int, j: int, x: i32)
    requires
        0 <= j < n <= s.len(),
        s[j] == v,
        x != v,
    ensures
        count_value(s.update(j, x), v, n) + 1 == count_value(s, v, n),
    decreases n,
{
    if n - 1 > j {
        lemma_count_update(s, v, n - 1, j, x);
    } else {
        lemma_count_same(s, s.update(j, x), v, j);
    }
}

proof fn lemma_count_same(s: Seq<i32>, t: Seq<i32>, v: i32, n: int)
    requires
        0 <= n <= s.len(),
        n <= t.len(),
        forall|i: int| 0 <= i < n ==> s[i] == t[i],
    ensures
        count_value(s, v, n) == count_value(t, v, n),
    decreases n,
{
    if n > 0 {
        lemma_count_same(s, t, v, n - 1);
    }
}

/// Every cell of a walk that starts at a changed cell is changed, when the changed
/// cells are closed under stepping to adjacent cells holding `value`.
proof fn lemma_walk_changed(
    cur: Seq<i32>,
    orig: Seq<i32>,
    w: int,
    h: int,
    value: i32,
    path: Seq<(int, int)>,
    k: int,
)
    requires
        is_walk(orig, w, h, value, path),
        0 <= k < path.len(),
        changed(cur, orig, w, path[0]),
        forall|f: (int, int), n: (int, int)|
            in_grid(w, h, f.0, f.1) && in_grid(w, h, n.0, n.1) && #[trigger] changed(cur, orig, w, f)
                && #[trigger] adjacent(f, n) && tile_at(orig, w, n) == value ==> changed(
                cur,
                orig,
                w,
                n,
            ),
    ensures
        changed(cur, orig, w, path[k]),
    decreases k,
{
    if k > 0 {
        lemma_walk_changed(cur, orig, w, h, value, path, k - 1);
        assert(adjacent(path[k - 1], path[k - 1 + 1]));
        assert(in_grid(w, h, path[k].0, path[k].1));
        assert(in_grid(w, h, path[k - 1].0, path[k - 1].1));
    }
}

/// Extending a walk of the region by an adjacent cell of the same tile stays in the region.
proof fn lemma_region_step(
    tiles: Seq<i32>,
    w: int,
    h: int,
    start: (int, int),
    f: (int, int),
    p: (int, int),
)
    requires
        in_region(tiles, w, h, start, f),
        adjacent(f, p),
        in_grid(w, h, p.0, p.1),
        stored(tiles, w, p),
        tile_at(tiles, w, p) == tile_at(tiles, w, start),
    ensures
        in_region(tiles, w, h, start, p),
{
    let value = tile_at(tiles, w, start);
    let path = choose|path: Seq<(int, int)>|
        #[trigger] is_walk(tiles, w, h, value, path) && path[0] == start && path.last() == f;
    let ext = path.push(p);
    assert forall|i: int| 0 <= i < ext.len() implies in_grid(w, h, #[trigger] ext[i].0, ext[i].1)
        && stored(tiles, w, ext[i]) && tile_at(tiles, w, ext[i]) == value by {
        if i < path.len() {
            assert(ext[i] == path[i]);
        }
    }
    assert forall|i: int| 0 <= i < ext.len() - 1 implies adjacent(#[trigger] ext[i], ext[i + 1]) by {
        if i < path.len() - 1 {
            assert(ext[i] == path[i]);
            assert(ext[i + 1] == path[i + 1]);
        } else {
            assert(ext[i] == path.last());
        }
    }
    assert(is_walk(tiles, w, h, value, ext));
    assert(ext[0] == start);
    assert(ext.last() == p);
}

/// The start cell lies in its own region.
proof fn lemma_region_start(tiles: Seq<i32>, w: int, h: int, start: (int, int))
    requires
        in_grid(w, h, start.0, start.1),
        stored(tiles, w, start),
    ensures
        in_region(tiles, w, h, start, start),
{
    let path = seq![start];
    assert(is_walk(tiles, w, h, tile_at(tiles, w, start), path));
    assert(path.last() == start);
}

/// The queue entry names a cell of the grid, and is the start cell or a neighbour
/// of a cell already changed.
spec fn queue_entry_ok(
    cur: Seq<i32>,
    orig: Seq<i32>,
    w: int,
    h: int,
    start: (int, int),
    q: (usize, usize),
) -> bool {
    &&& in_grid(w, h, q.0 as int, q.1 as int)
    &&& ((q.0 as int, q.1 as int) == start || exists|f: (int, int)|
        in_grid(w, h, f.0, f.1) && #[trigger] changed(cur, orig, w, f) && adjacent(
            f,
            (q.0 as int, q.1 as int),
        ))
}

/// A queue holds a cell.
spec fn queued(q: Seq<(usize, usize)>, p: (int, int)) -> bool {
    exists|k: int| 0 <= k < q.len() && (q[k].0 as int, q[k].1 as int) == p
}

/// The neighbours of (`x`, `y`) inside a `w` x `h` grid, in the order the fill queues them.
spec fn neighbour_list(w: usize, h: usize, x: usize, y: usize) -> Seq<(usize, usize)> {
    let left = if x > 0 {
        seq![((x - 1) as usize, y)]
    } else {
        Seq::empty()
    };
    let right = if x + 1 < w {
        seq![((x + 1) as usize, y)]
    } else {
        Seq::empty()
    };
    let up = if y > 0 {
        seq![(x, (y - 1) as usize)]
    } else {
        Seq::empty()
    };
    let down = if y + 1 < h {
        seq![(x, (y + 1) as usize)]
    } else {
        Seq::empty()
    };
    left + right + up + down
}

proof fn lemma_neighbour_list(w: usize, h: usize, x: usize, y: usize)
    requires
        x < w,
        y < h,
    ensures
        forall|k: int|
            0 <= k < neighbour_list(w, h, x, y).len() ==> in_grid(
                w as int,
                h as int,
                (#[trigger] neighbour_list(w, h, x, y)[k]).0 as int,
                neighbour_list(w, h, x, y)[k].1 as int,
            ) && adjacent(
                (x as int, y as int),
                (neighbour_list(w, h, x, y)[k].0 as int, neighbour_list(w, h, x, y)[k].1 as int),
            ),
        forall|c: (int, int)|
            in_grid(w as int, h as int, c.0, c.1) && adjacent((x as int, y as int), c) ==> queued(
                neighbour_list(w, h, x, y),
                c,
            ),
{
    let l = neighbour_list(w, h, x, y);
    let nl: int = if x > 0 {
        1
    } else {
        0
    };
    let nr: int = if x + 1 < w {
        1
    } else {
        0
    };
    let nu: int = if y > 0 {
        1
    } else {
        0
    };
    assert forall|c: (int, int)|
        in_grid(w as int, h as int, c.0, c.1) && adjacent((x as int, y as int), c) implies queued(
        l,
        c,
    ) by {
        let k = if c.0 == x - 1 {
            0
        } else if c.0 == x + 1 {
            nl
        } else if c.1 == y - 1 {
            nl + nr
        } else {
            nl + nr + nu
        };
        assert((l[k].0 as int, l[k].1 as int) == c);
    }
}

/// What holds before each step of the fill: `cur` is the grid so far, `q` the queue.
#[verifier::opaque]
spec fn fill_inv(
    cur: Seq<i32>,
    orig: Seq<i32>,
    q: Seq<(usize, usize)>,
    w: int,
    h: int,
    start: (int, int),
    target: i32,
    replacement: i32,
) -> bool {
    &&& cur.len() == orig.len()
    &&& 0 <= w * h
    &&& in_grid(w, h, start.0, start.1)
    &&& fill_stays_stored(orig, w, h, start)
    &&& tile_at(orig, w, start) == target
    &&& target != replacement
    &&& forall|i: int| w * h <= i < orig.len() ==> #[trigger] cur[i] == orig[i]
    // a changed cell belongs to the region and holds the replacement
    &&& forall|p: (int, int)|
        in_grid(w, h, p.0, p.1) && #[trigger] changed(cur, orig, w, p) ==> in_region(
            orig,
            w,
            h,
            start,
            p,
        ) && tile_at(cur, w, p) == replacement && tile_at(orig, w, p) == target
    &&& forall|k: int| 0 <= k < q.len() ==> queue_entry_ok(cur, orig, w, h, start, #[trigger] q[k])
    // an unchanged neighbour of a changed cell that holds the target waits in the queue
    &&& forall|f: (int, int), p: (int, int)|
        in_grid(w, h, f.0, f.1) && in_grid(w, h, p.0, p.1) && #[trigger] changed(cur, orig, w, f)
            && #[trigger] adjacent(f, p) && tile_at(orig, w, p) == target && !changed(cur, orig, w, p)
            ==> queued(q, p)
    &&& changed(cur, orig, w, start) || queued(q, start)
}

proof fn lemma_fill_init(orig: Seq<i32>, w: int, h: int, start: (int, int), replacement: i32)
    requires
        0 <= w * h,
        in_grid(w, h, start.0, start.1),
        fill_stays_stored(orig, w, h, start),
        tile_at(orig, w, start) != replacement,
        start.0 <= usize::MAX,
        start.1 <= usize::MAX,
    ensures
        fill_inv(
            orig,
            orig,
            seq![(start.0 as usize, start.1 as usize)],
            w,
            h,
            start,
            tile_at(orig, w, start),
            replacement,
        ),
{
    reveal(fill_inv);
    let q = seq![(start.0 as usize, start.1 as usize)];
    assert((q[0].0 as int, q[0].1 as int) == start);
    assert(queued(q, start));
}

/// The first queued cell lies in the grid and is stored.
proof fn lemma_queue_head_stored(
    cur: Seq<i32>,
    orig: Seq<i32>,
    q: Seq<(usize, usize)>,
    w: int,
    h: int,
    start: (int, int),
    target: i32,
    replacement: i32,
)
    requires
        fill_inv(cur, orig, q, w, h, start, target, replacement),
        q.len() > 0,
    ensures
        in_grid(w, h, q[0].0 as int, q[0].1 as int),
        stored(orig, w, (q[0].0 as int, q[0].1 as int)),
        cur.len() == orig.len(),
{
    reveal(fill_inv);
    let p = (q[0].0 as int, q[0].1 as int);
    assert(queue_entry_ok(cur, orig, w, h, start, q[0]));
    if p != start {
        let f = choose|f: (int, int)|
            in_grid(w, h, f.0, f.1) && #[trigger] changed(cur, orig, w, f) && adjacent(f, p);
        assert(in_region(orig, w, h, start, f));
    }
}

/// The first queued cell holds the target: it joins the changed cells and its
/// neighbours are queued.
proof fn lemma_fill_step(
    cur: Seq<i32>,
    orig: Seq<i32>,
    q: Seq<(usize, usize)>,
    w: usize,
    h: usize,
    start: (int, int),
    target: i32,
    replacement: i32,
)
    requires
        fill_inv(cur, orig, q, w as int, h as int, start, target, replacement),
        q.len() > 0,
        tile_at(cur, w as int, (q[0].0 as int, q[0].1 as int)) == target,
    ensures
        in_grid(w as int, h as int, q[0].0 as int, q[0].1 as int),
        fill_inv(
            cur.update(idx(w as int, q[0].0 as int, q[0].1 as int), replacement),
            orig,
            q.drop_first() + neighbour_list(w, h, q[0].0, q[0].1),
            w as int,
            h as int,
            start,
            target,
            replacement,
        ),
        count_value(
            cur.update(idx(w as int, q[0].0 as int, q[0].1 as int), replacement),
            target,
            cur.len() as int,
        ) < count_value(cur, target, cur.len() as int),
{
    reveal(fill_inv);
    let wi = w as int;
    let hi = h as int;
    let (x, y) = q[0];
    let p = (x as int, y as int);
    lemma_queue_head_stored(cur, orig, q, wi, hi, start, target, replacement);
    lemma_idx_bounds(wi, hi, p.0, p.1);
    let i = idx(wi, p.0, p.1);
    let cur2 = cur.update(i, replacement);
    let nb = neighbour_list(w, h, x, y);
    let qn = q.drop_first() + nb;
    lemma_neighbour_list(w, h, x, y);
    // the cell was unchanged and belongs to the region
    assert(!changed(cur, orig, wi, p));
    if p == start {
        lemma_region_start(orig, wi, hi, start);
    } else {
        let f = choose|f: (int, int)|
            in_grid(wi, hi, f.0, f.1) && #[trigger] changed(cur, orig, wi, f) && adjacent(f, p);
        lemma_region_step(orig, wi, hi, start, f, p);
    }
    lemma_count_update(cur, target, cur.len() as int, i, replacement);
    assert forall|c: (int, int)|
        in_grid(wi, hi, c.0, c.1) && stored(orig, wi, c) && c != p implies tile_at(cur2, wi, c)
        == tile_at(cur, wi, c) by {
        lemma_idx_bounds(wi, hi, c.0, c.1);
        if idx(wi, c.0, c.1) == i {
            lemma_idx_injective(wi, c.0, c.1, p.0, p.1);
        }
    }
    assert forall|c: (int, int)|
        in_grid(wi, hi, c.0, c.1) && #[trigger] changed(cur, orig, wi, c) implies changed(
        cur2,
        orig,
        wi,
        c,
    ) by {
        if c != p {
            assert(tile_at(cur2, wi, c) == tile_at(cur, wi, c));
        }
    }
    assert(changed(cur2, orig, wi, p));
    assert forall|c: (int, int)|
        in_grid(wi, hi, c.0, c.1) && #[trigger] changed(cur2, orig, wi, c) implies in_region(
        orig,
        wi,
        hi,
        start,
        c,
    ) && tile_at(cur2, wi, c) == replacement && tile_at(orig, wi, c) == target by {
        if c != p {
            assert(tile_at(cur2, wi, c) == tile_at(cur, wi, c));
            assert(changed(cur, orig, wi, c));
        } else {
            assert(tile_at(cur2, wi, p) == replacement);
            assert(tile_at(orig, wi, p) == tile_at(cur, wi, p));
        }
    }
    assert forall|k: int| 0 <= k < qn.len() implies queue_entry_ok(
        cur2,
        orig,
        wi,
        hi,
        start,
        #[trigger] qn[k],
    ) by {
        if k < q.len() - 1 {
            assert(qn[k] == q[k + 1]);
            assert(queue_entry_ok(cur, orig, wi, hi, start, q[k + 1]));
            let e = (qn[k].0 as int, qn[k].1 as int);
            if e != start {
                let f = choose|f: (int, int)|
                    in_grid(wi, hi, f.0, f.1) && #[trigger] changed(cur, orig, wi, f) && adjacent(
                        f,
                        e,
                    );
                assert(changed(cur2, orig, wi, f));
            }
        } else {
            assert(qn[k] == nb[k - (q.len() - 1)]);
            assert(adjacent(p, (qn[k].0 as int, qn[k].1 as int)));
        }
    }
    assert forall|f: (int, int), c: (int, int)|
        in_grid(wi, hi, f.0, f.1) && in_grid(wi, hi, c.0, c.1) && #[trigger] changed(
            cur2,
            orig,
            wi,
            f,
        ) && #[trigger] adjacent(f, c) && tile_at(orig, wi, c) == target && !changed(
            cur2,
            orig,
            wi,
            c,
        ) implies queued(qn, c) by {
        if f == p {
            let k = choose|k: int| 0 <= k < nb.len() && (nb[k].0 as int, nb[k].1 as int) == c;
            assert(qn[k + (q.len() - 1)] == nb[k]);
        } else {
            assert(tile_at(cur2, wi, f) == tile_at(cur, wi, f));
            assert(changed(cur, orig, wi, f));
            assert(in_region(orig, wi, hi, start, f));
            assert(stored(orig, wi, c));
            assert(c != p);
            assert(tile_at(cur2, wi, c) == tile_at(cur, wi, c));
            assert(queued(q, c));
            let k = choose|k: int| 0 <= k < q.len() && (q[k].0 as int, q[k].1 as int) == c;
            assert(k != 0);
            assert(qn[k - 1] == q[k]);
        }
    }
    if !changed(cur2, orig, wi, start) {
        assert(start != p);
        assert(tile_at(cur2, wi, start) == tile_at(cur, wi, start));
        let k = choose|k: int| 0 <= k < q.len() && (q[k].0 as int, q[k].1 as int) == start;
        assert(k != 0);
        assert(qn[k - 1] == q[k]);
    }
}

/// The first queued cell no longer holds the target: it is dropped.
proof fn lemma_skip_step(
    cur: Seq<i32>,
    orig: Seq<i32>,
    q: Seq<(usize, usize)>,
    w: int,
    h: int,
    start: (int, int),
    target: i32,
    replacement: i32,
)
    requires
        fill_inv(cur, orig, q, w, h, start, target, replacement),
        q.len() > 0,
        tile_at(cur, w, (q[0].0 as int, q[0].1 as int)) != target,
    ensures
        fill_inv(cur, orig, q.drop_first(), w, h, start, target, replacement),
{
    reveal(fill_inv);
    let qn = q.drop_first();
    let p = (q[0].0 as int, q[0].1 as int);
    assert(queue_entry_ok(cur, orig, w, h, start, q[0]));
    assert forall|k: int| 0 <= k < qn.len() implies queue_entry_ok(
        cur,
        orig,
        w,
        h,
        start,
        #[trigger] qn[k],
    ) by {
        assert(qn[k] == q[k + 1]);
    }
    assert forall|f: (int, int), c: (int, int)|
        in_grid(w, h, f.0, f.1) && in_grid(w, h, c.0, c.1) && #[trigger] changed(cur, orig, w, f)
            && #[trigger] adjacent(f, c) && tile_at(orig, w, c) == target && !changed(cur, orig, w, c)
            implies queued(qn, c) by {
        let k = choose|k: int| 0 <= k < q.len() && (q[k].0 as int, q[k].1 as int) == c;
        assert(k != 0);
        assert(qn[k - 1] == q[k]);
    }
    if !changed(cur, orig, w, start) {
        let k = choose|k: int| 0 <= k < q.len() && (q[k].0 as int, q[k].1 as int) == start;
        assert(k != 0);
        assert(qn[k - 1] == q[k]);
    }
}

/// With the queue empty, the changed cells are exactly the region of the start cell.
proof fn lemma_fill_done(
    cur: Seq<i32>,
    orig: Seq<i32>,
    q: Seq<(usize, usize)>,
    w: int,
    h: int,
    start: (int, int),
    target: i32,
    replacement: i32,
)
    requires
        fill_inv(cur, orig, q, w, h, start, target, replacement),
        q.len() == 0,
    ensures
        cur.len() == orig.len(),
        forall|x: int, y: int|
            in_grid(w, h, x, y) && stored(orig, w, (x, y)) ==> #[trigger] tile_at(cur, w, (x, y))
                == filled_cell(orig, w, h, start, replacement, (x, y)),
        forall|i: int| w * h <= i < orig.len() ==> #[trigger] cur[i] == orig[i],
{
    reveal(fill_inv);
    assert(changed(cur, orig, w, start)) by {
        if !changed(cur, orig, w, start) {
            assert(queued(q, start));
        }
    }
    assert forall|f: (int, int), n: (int, int)|
        in_grid(w, h, f.0, f.1) && in_grid(w, h, n.0, n.1) && #[trigger] changed(cur, orig, w, f)
            && #[trigger] adjacent(f, n) && tile_at(orig, w, n) == target implies changed(
        cur,
        orig,
        w,
        n,
    ) by {
        if !changed(cur, orig, w, n) {
            assert(queued(q, n));
        }
    }
    assert forall|x: int, y: int| in_grid(w, h, x, y) && stored(orig, w, (x, y)) implies #[trigger] tile_at(
        cur,
        w,
        (x, y),
    ) == filled_cell(orig, w, h, start, replacement, (x, y)) by {
        let p = (x, y);
        if in_region(orig, w, h, start, p) {
            let path = choose|path: Seq<(int, int)>|
                #[trigger] is_walk(orig, w, h, tile_at(orig, w, start), path) && path[0] == start
                    && path.last() == p;
            lemma_walk_changed(cur, orig, w, h, target, path, path.len() - 1);
            assert(path[path.len() - 1] == p);
            assert(changed(cur, orig, w, p));
        } else {
            if changed(cur, orig, w, p) {
                assert(in_region(orig, w, h, start, p));
            }
        }
    }
}

/// Replaces the region of the cell (`start_x`, `start_y`) of a `width` x `height` grid,
/// stored row by row in `tiles`, with `replacement`. Cells outside the region, and the
/// positions past the grid, keep their tiles. The fill must stay on stored cells.
pub fn flood_fill_cells(
    tiles: &mut Vec<i32>,
    width: usize,
    height: usize,
    start_x: usize,
    start_y: usize,
    replacement: i32,
)
    requires
        start_x < width,
        start_y < height,
        fill_stays_stored(old(tiles)@, width as int, height as int, (start_x as int, start_y as int)),
    ensures
        final(tiles).len() == old(tiles).len(),
        forall|x: int, y: int|
            in_grid(width as int, height as int, x, y) && stored(old(tiles)@, width as int, (x, y))
                ==> #[trigger] tile_at(
                final(tiles)@,
                width as int,
                (x, y),
            ) == filled_cell(
                old(tiles)@,
                width as int,
                height as int,
                (start_x as int, start_y as int),
                replacement,
                (x, y),
            ),
        forall|i: int| width * height <= i < old(tiles).len() ==> #[trigger] final(tiles)@[i] == old(
            tiles,
        )@[i],
{
    let ghost orig = tiles@;
    let ghost w = width as int;
    let ghost h = height as int;
    let ghost start = (start_x as int, start_y as int);
    proof {
        lemma_idx_bounds(w, h, start.0, start.1);
        assert(start_y * width + start_x < tiles.len());
    }
    let target = tiles[start_y * width + start_x];
    if target == replacement {
        proof {
            assert forall|x: int, y: int|
                in_grid(w, h, x, y) && stored(orig, w, (x, y)) implies #[trigger] tile_at(
                tiles@,
                w,
                (x, y),
            ) == filled_cell(orig, w, h, start, replacement, (x, y)) by {
                if in_region(orig, w, h, start, (x, y)) {
                    let path = choose|path: Seq<(int, int)>|
                        #[trigger] is_walk(orig, w, h, target, path) && path[0] == start
                            && path.last() == (x, y);
                    assert(path[path.len() - 1] == (x, y));
                }
            }
        }
        return ;
    }
    let mut queue: VecDeque<(usize, usize)> = VecDeque::new();
    queue.push_back((start_x, start_y));
    proof {
        lemma_fill_init(orig, w, h, start, replacement);
        assert(queue@ == seq![(start_x, start_y)]);
    }
    while queue.len() > 0
        invariant
            w == width,
            h == height,
            fill_inv(tiles@, orig, queue@, w, h, start, target, replacement),
        decreases count_value(tiles@, target, tiles@.len() as int), queue@.len(),
    {
        let ghost cur = tiles@;
        let ghost q = queue@;
        let (x, y) = queue.pop_front().unwrap();
        proof {
            lemma_queue_head_stored(cur, orig, q, w, h, start, target, replacement);
            assert(y * width + x < tiles.len());
        }
        let i = y * width + x;
        if tiles[i] == target {
            proof {
                lemma_fill_step(cur, orig, q, width, height, start, target, replacement);
            }
            tiles.set(i, replacement);
            if x > 0 {
                queue.push_back((x - 1, y));
            }
            if x + 1 < width {
                queue.push_back((x + 1, y));
            }
            if y > 0 {
                queue.push_back((x, y - 1));
            }
            if y + 1 < height {
                queue.push_back((x, y + 1));
            }
            assert(queue@ =~= q.drop_first() + neighbour_list(width, height, x, y));
        } else {
            proof {
                lemma_skip_step(cur, orig, q, w, h, start, target, replacement);
            }
        }
    }
    proof {
        lemma_fill_done(tiles@, orig, queue@, w, h, start, target, replacement);
    }
}

/// The start cell of a bucket fill takes the replacement.
pub proof fn lemma_fill_start_replaced(
    tiles: Seq<i32>,
    w: int,
    h: int,
    start: (int, int),
    replacement: i32,
)
    requires
        in_grid(w, h, start.0, start.1),
        stored(tiles, w, start),
    ensures
        filled_cell(tiles, w, h, start, replacement, start) == replacement,
{
    lemma_region_start(tiles, w, h, start);
}

/// A bucket fill changes only cells that held the tile of the start cell, and all of
/// them lie in its region.
pub proof fn lemma_fill_changes_only_region(
    tiles: Seq<i32>,
    w: int,
    h: int,
    start: (int, int),
    replacement: i32,
    p: (int, int),
)
    requires
        filled_cell(tiles, w, h, start, replacement, p) != tile_at(tiles, w, p),
    ensures
        in_region(tiles, w, h, start, p),
        tile_at(tiles, w, p) == tile_at(tiles, w, start),
{
    let path = choose|path: Seq<(int, int)>|
        #[trigger] is_walk(tiles, w, h, tile_at(tiles, w, start), path) && path[0] == start
            && path.last() == p;
    assert(path[path.len() - 1] == p);
}

/// After a bucket fill the start cell holds the replacement, so a second fill from the
/// same cell with the same tile finds nothing to do.
pub proof fn lemma_refill_finds_replacement(
    before: Seq<i32>,
    after: Seq<i32>,
    w: int,
    h: int,
    start: (int, int),
    replacement: i32,
)
    requires
        in_grid(w, h, start.0, start.1),
        stored(before, w, start),
        forall|x: int, y: int|
            in_grid(w, h, x, y) && stored(before, w, (x, y)) ==> #[trigger] tile_at(after, w, (x, y)) == filled_cell(
                before,
                w,
                h,
                start,
                replacement,
                (x, y),
            ),
    ensures
        tile_at(after, w, start) == replacement,
{
    lemma_region_start(before, w, h, start);
    assert(tile_at(after, w, (start.0, start.1)) == filled_cell(
        before,
        w,
        h,
        start,
        replacement,
        (start.0, start.1),
    ));
}

} // verus!
