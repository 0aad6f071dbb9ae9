//! The distance oracle: a uniform-cost search over the raw grid from the
//! start cell. For every intersection it records a distance from start and
//! the move string of the return leg, in forward order.

use vstd::prelude::*;

use crate::grid::{cost, grid_wf, gview, in_grid, is_road, lemma_row_len, Cell};
use crate::moves::{lemma_reverse_push, lemma_walk_cons, lemma_walk_end_road, lemma_walk_unsnoc, step_pos, walk_end, walk_enter_cost, walk_leave_cost, walk_ok};

verus! {

/// Addition that stops at `u64::MAX` instead of wrapping.
pub fn sat_add(a: u64, b: u64) -> (r: u64)
    ensures
        r as int == if a + b <= u64::MAX { a + b } else { u64::MAX as int },
{
    if a <= u64::MAX - b {
        a + b
    } else {
        u64::MAX
    }
}

/// A square table of side `n`.
pub open spec fn table_wf<T>(t: Seq<Vec<T>>, n: int) -> bool {
    t.len() == n && forall|y: int| 0 <= y < n ==> (#[trigger] t[y])@.len() == n
}

/// How many entries of a row of flags are set.
pub open spec fn row_trues(r: Seq<bool>) -> nat
    decreases r.len(),
{
    if r.len() == 0 {
        0
    } else {
        row_trues(r.drop_last()) + if r.last() {
            1nat
        } else {
            0nat
        }
    }
}

/// How many flags of a whole table are set.
pub open spec fn tbl_trues(t: Seq<Vec<bool>>) -> nat
    decreases t.len(),
{
    if t.len() == 0 {
        0
    } else {
        tbl_trues(t.drop_last()) + row_trues(t.last()@)
    }
}

pub proof fn lemma_row_trues_le(r: Seq<bool>)
    ensures
        row_trues(r) <= r.len(),
    decreases r.len(),
{
    if r.len() > 0 {
        lemma_row_trues_le(r.drop_last());
    }
}

pub proof fn lemma_row_trues_full(r: Seq<bool>)
    requires
        row_trues(r) == r.len(),
    ensures
        forall|j: int| 0 <= j < r.len() ==> #[trigger] r[j],
    decreases r.len(),
{
    if r.len() > 0 {
        lemma_row_trues_le(r.drop_last());
        lemma_row_trues_full(r.drop_last());
        assert(forall|j: int| 0 <= j < r.len() - 1 ==> #[trigger] r[j] == r.drop_last()[j]);
        assert(r[r.len() - 1] == r.last());
    }
}

pub proof fn lemma_row_trues_update(r1: Seq<bool>, r2: Seq<bool>, j: int)
    requires
        r1.len() == r2.len(),
        0 <= j < r1.len(),
        !r1[j],
        r2[j],
        forall|k: int| 0 <= k < r1.len() && k != j ==> #[trigger] r2[k] == r1[k],
    ensures
        row_trues(r2) == row_trues(r1) + 1,
    decreases r1.len(),
{
    if j == r1.len() - 1 {
        assert(r1.drop_last() =~= r2.drop_last());
    } else {
        lemma_row_trues_update(r1.drop_last(), r2.drop_last(), j);
        assert(r2.last() == r1.last());
    }
}

pub proof fn lemma_row_trues_zero(r: Seq<bool>)
    requires
        forall|j: int| 0 <= j < r.len() ==> !(#[trigger] r[j]),
    ensures
        row_trues(r) == 0,
    decreases r.len(),
{
    if r.len() > 0 {
        lemma_row_trues_zero(r.drop_last());
        assert(!r[r.len() - 1]);
    }
}

pub proof fn lemma_tbl_trues_zero(t: Seq<Vec<bool>>)
    requires
        forall|q: int, j: int|
            0 <= q < t.len() && 0 <= j < t[q]@.len() ==> !(#[trigger] t[q]@[j]),
    ensures
        tbl_trues(t) == 0,
    decreases t.len(),
{
    if t.len() > 0 {
        lemma_tbl_trues_zero(t.drop_last());
        lemma_row_trues_zero(t.last()@);
    }
}

pub proof fn lemma_tbl_trues_congruent(a: Seq<Vec<bool>>, b: Seq<Vec<bool>>)
    requires
        a.len() == b.len(),
        forall|q: int| 0 <= q < a.len() ==> (#[trigger] a[q])@ == b[q]@,
    ensures
        tbl_trues(a) == tbl_trues(b),
    decreases a.len(),
{
    if a.len() > 0 {
        lemma_tbl_trues_congruent(a.drop_last(), b.drop_last());
        assert(a.last()@ == b.last()@);
    }
}

pub proof fn lemma_tbl_trues_le(t: Seq<Vec<bool>>, n: int)
    requires
        forall|q: int| 0 <= q < t.len() ==> (#[trigger] t[q])@.len() == n,
        n >= 0,
    ensures
        tbl_trues(t) <= t.len() * n,
    decreases t.len(),
{
    if t.len() > 0 {
        lemma_tbl_trues_le(t.drop_last(), n);
        lemma_row_trues_le(t.last()@);
        assert((t.len() - 1) * n + n == t.len() * n) by (nonlinear_arith);
    }
}

pub proof fn lemma_tbl_trues_full(t: Seq<Vec<bool>>, n: int)
    requires
        forall|q: int| 0 <= q < t.len() ==> (#[trigger] t[q])@.len() == n,
        n >= 0,
        tbl_trues(t) == t.len() * n,
    ensures
        forall|q: int, j: int| 0 <= q < t.len() && 0 <= j < n ==> #[trigger] t[q]@[j],
    decreases t.len(),
{
    if t.len() > 0 {
        lemma_tbl_trues_le(t.drop_last(), n);
        lemma_row_trues_le(t.last()@);
        assert((t.len() - 1) * n + n == t.len() * n) by (nonlinear_arith);
        assert(tbl_trues(t.drop_last()) == (t.len() - 1) * n);
        assert(row_trues(t.last()@) == n);
        lemma_tbl_trues_full(t.drop_last(), n);
        lemma_row_trues_full(t.last()@);
        assert forall|q: int, j: int| 0 <= q < t.len() && 0 <= j < n implies #[trigger] t[q]@[j] by {
            if q < t.len() - 1 {
                assert(t[q] == t.drop_last()[q]);
            } else {
                assert(t[q]@ == t.last()@);
            }
        }
    }
}

pub proof fn lemma_tbl_trues_update(t1: Seq<Vec<bool>>, t2: Seq<Vec<bool>>, cy: int, cx: int)
    requires
        t1.len() == t2.len(),
        0 <= cy < t1.len(),
        0 <= cx < t1[cy]@.len(),
        t1[cy]@.len() == t2[cy]@.len(),
        !t1[cy]@[cx],
        t2[cy]@[cx],
        forall|k: int| 0 <= k < t1[cy]@.len() && k != cx ==> #[trigger] t2[cy]@[k] == t1[cy]@[k],
        forall|q: int| 0 <= q < t1.len() && q != cy ==> (#[trigger] t2[q])@ == t1[q]@,
    ensures
        tbl_trues(t2) == tbl_trues(t1) + 1,
    decreases t1.len(),
{
    if cy == t1.len() - 1 {
        lemma_tbl_trues_congruent(t1.drop_last(), t2.drop_last());
        lemma_row_trues_update(t1.last()@, t2.last()@, cx);
    } else {
        lemma_tbl_trues_update(t1.drop_last(), t2.drop_last(), cy, cx);
        assert(t2.last()@ == t1.last()@);
    }
}

/// Two grid cells adjacent along a row or a column.
pub open spec fn adj(ax: int, ay: int, bx: int, by: int) -> bool {
    (ax == bx && (ay + 1 == by || by + 1 == ay)) || (ay == by && (ax + 1 == bx || bx + 1 == ax))
}

/// Every road neighbor of a settled cell is labelled within one step of it.
pub open spec fn frontier_inv(
    map: Seq<Seq<Cell>>,
    best: Seq<Vec<u64>>,
    settled: Seq<Vec<bool>>,
) -> bool {
    forall|ax: int, ay: int, bx: int, by: int|
        in_grid(map, ax, ay) && in_grid(map, bx, by) && (#[trigger] settled[ay]@[ax]) && is_road(
            map,
            bx,
            by,
        ) && adj(ax, ay, bx, by) ==> ((#[trigger] best[by]@[bx]) as int) <= best[ay]@[ax] + cost(
            map[by][bx],
        )
}

/// Settled labels never exceed unsettled ones.
pub open spec fn order_inv(
    map: Seq<Seq<Cell>>,
    best: Seq<Vec<u64>>,
    settled: Seq<Vec<bool>>,
) -> bool {
    forall|ax: int, ay: int, bx: int, by: int|
        in_grid(map, ax, ay) && in_grid(map, bx, by) && (#[trigger] settled[ay]@[ax]) && !(
        #[trigger] settled[by]@[bx]) ==> best[ay]@[ax] <= best[by]@[bx]
}

/// Every settled cell carries a finite label.
pub open spec fn settled_labeled(
    map: Seq<Seq<Cell>>,
    best: Seq<Vec<u64>>,
    settled: Seq<Vec<bool>>,
) -> bool {
    forall|cx: int, cy: int|
        in_grid(map, cx, cy) && (#[trigger] settled[cy]@[cx]) ==> best[cy]@[cx] < u64::MAX
}

/// Every finitely labelled cell is settled.
pub open spec fn labeled_settled(
    map: Seq<Seq<Cell>>,
    best: Seq<Vec<u64>>,
    settled: Seq<Vec<bool>>,
) -> bool {
    forall|cx: int, cy: int|
        in_grid(map, cx, cy) && (#[trigger] best[cy]@[cx]) < u64::MAX ==> settled[cy]@[cx]
}

/// The finished search is closed under one-step relaxation: no road
/// neighbor of a finitely labelled cell can be improved through it.
pub open spec fn closed_inv(map: Seq<Seq<Cell>>, best: Seq<Vec<u64>>) -> bool {
    forall|ax: int, ay: int, bx: int, by: int|
        in_grid(map, ax, ay) && in_grid(map, bx, by) && (#[trigger] best[ay]@[ax]) < u64::MAX
            && is_road(map, bx, by) && adj(ax, ay, bx, by) ==> ((#[trigger] best[by]@[bx]) as int)
            <= best[ay]@[ax] + cost(map[by][bx])
}

/// In a closed search state whose start cell is labelled zero, no walk
/// from the start can undercut a cell's label: the labels are minimal.
pub proof fn lemma_closed_walk_bound(
    map: Seq<Seq<Cell>>,
    best: Seq<Vec<u64>>,
    sx: int,
    sy: int,
    w: Seq<u8>,
)
    requires
        grid_wf(map),
        table_wf(best, map.len() as int),
        0 <= sx < map.len(),
        0 <= sy < map.len(),
        is_road(map, sx, sy),
        best[sy]@[sx] == 0,
        closed_inv(map, best),
        walk_ok(map, (sx, sy), w),
        walk_enter_cost(map, (sx, sy), w) < u64::MAX,
    ensures
        (best[walk_end((sx, sy), w).1]@[walk_end((sx, sy), w).0] as int) <= walk_enter_cost(
            map,
            (sx, sy),
            w,
        ),
    decreases w.len(),
{
    let p = ((sx, sy));
    if w.len() > 0 {
        lemma_walk_unsnoc(map, p, w);
        let e = walk_end(p, w);
        let e2 = walk_end(p, w.drop_last());
        assert(cost(map[e.1][e.0]) >= 0);
        assert(walk_enter_cost(map, p, w.drop_last()) <= walk_enter_cost(map, p, w));
        lemma_closed_walk_bound(map, best, sx, sy, w.drop_last());
        lemma_walk_end_road(map, p, w.drop_last());
        let c = w.last();
        if c == 85 || c == 68 || c == 76 || c == 82 {
            assert(adj(e2.0, e2.1, e.0, e.1));
            assert((best[e.1]@[e.0] as int) <= best[e2.1]@[e2.0] + cost(map[e.1][e.0]));
        } else {
            assert(e == e2);
        }
    }
}

/// What a labelled cell of the search guarantees: it is a road cell, and
/// the reverse of its stored move string walks over roads from the cell
/// back to the start, paying exactly the recorded distance.
pub open spec fn cell_sound(
    map: Seq<Seq<Cell>>,
    cx: int,
    cy: int,
    d: u64,
    s: Seq<u8>,
    sx: int,
    sy: int,
) -> bool {
    &&& is_road(map, cx, cy)
    &&& walk_ok(map, (cx, cy), s.reverse())
    &&& walk_end((cx, cy), s.reverse()) == ((sx, sy))
    &&& walk_leave_cost(map, (cx, cy), s.reverse()) == d
}

/// The search invariant: every cell labelled with a finite distance is
/// sound.
pub open spec fn oracle_inv(
    map: Seq<Seq<Cell>>,
    best: Seq<Vec<u64>>,
    moves: Seq<Vec<Vec<u8>>>,
    sx: int,
    sy: int,
) -> bool {
    forall|cx: int, cy: int|
        0 <= cx < map.len() && 0 <= cy < map.len() && (#[trigger] best[cy]@[cx]) < u64::MAX
            ==> cell_sound(map, cx, cy, best[cy]@[cx], moves[cy]@[cx]@, sx, sy)
}

/// What the oracle records per intersection: either a sound return walk
/// with its exact cost, or the default pair of distance zero and an empty
/// move string for a cell the search never reached.
pub open spec fn oracle_entry_ok(
    map: Seq<Seq<Cell>>,
    p: (usize, usize),
    d: u64,
    s: Seq<u8>,
    sx: int,
    sy: int,
) -> bool {
    ||| {
        &&& walk_ok(map, (p.0 as int, p.1 as int), s)
        &&& walk_end((p.0 as int, p.1 as int), s) == ((sx, sy))
        &&& walk_leave_cost(map, (p.0 as int, p.1 as int), s) == d
    }
    ||| (d == 0 && s.len() == 0)
}

/// The oracle's minimality guarantee for one intersection: whenever any
/// road walk of representable cost leads from the start cell to it, the
/// sound-walk reading of the recorded pair holds and the recorded distance
/// is no larger than that walk's cost.
pub open spec fn oracle_min_ok(
    map: Seq<Seq<Cell>>,
    p: (usize, usize),
    d: u64,
    s: Seq<u8>,
    sx: int,
    sy: int,
) -> bool {
    forall|w: Seq<u8>|
        walk_ok(map, (sx, sy), w) && walk_end((sx, sy), w) == ((p.0 as int, p.1 as int)) && (
        #[trigger] walk_enter_cost(map, (sx, sy), w)) < u64::MAX ==> {
            &&& walk_ok(map, (p.0 as int, p.1 as int), s)
            &&& walk_end((p.0 as int, p.1 as int), s) == ((sx, sy))
            &&& walk_leave_cost(map, (p.0 as int, p.1 as int), s) == d
            &&& d as int <= walk_enter_cost(map, (sx, sy), w)
        }
}

pub(crate) fn fill_row<T: Copy>(n: usize, v: T) -> (r: Vec<T>)
    ensures
        r@.len() == n,
        forall|q: int| 0 <= q < n ==> #[trigger] r@[q] == v,
{
    let mut r: Vec<T> = Vec::new();
    let mut i: usize = 0;
    while i < n
        invariant
            i <= n,
            r@.len() == i,
            forall|q: int| 0 <= q < i ==> #[trigger] r@[q] == v,
        decreases n - i,
    {
        r.push(v);
        i += 1;
    }
    r
}

fn fill_table<T: Copy>(n: usize, v: T) -> (r: Vec<Vec<T>>)
    ensures
        table_wf(r@, n as int),
        forall|qy: int, qx: int| 0 <= qy < n && 0 <= qx < n ==> #[trigger] r@[qy]@[qx] == v,
{
    let mut r: Vec<Vec<T>> = Vec::new();
    let mut i: usize = 0;
    while i < n
        invariant
            i <= n,
            r@.len() == i,
            forall|q: int| 0 <= q < i ==> (#[trigger] r@[q])@.len() == n,
            forall|qy: int, qx: int| 0 <= qy < i && 0 <= qx < n ==> #[trigger] r@[qy]@[qx] == v,
        decreases n - i,
    {
        let row = fill_row(n, v);
        r.push(row);
        i += 1;
    }
    r
}

fn fill_moves_table(n: usize) -> (r: Vec<Vec<Vec<u8>>>)
    ensures
        table_wf(r@, n as int),
{
    let mut r: Vec<Vec<Vec<u8>>> = Vec::new();
    let mut i: usize = 0;
    while i < n
        invariant
            i <= n,
            r@.len() == i,
            forall|q: int| 0 <= q < i ==> (#[trigger] r@[q])@.len() == n,
        decreases n - i,
    {
        let mut row: Vec<Vec<u8>> = Vec::new();
        let mut j: usize = 0;
        while j < n
            invariant
                j <= n,
                row@.len() == j,
            decreases n - j,
        {
            row.push(Vec::new());
            j += 1;
        }
        r.push(row);
        i += 1;
    }
    r
}

pub(crate) fn copy_row<T: Copy>(v: &Vec<T>) -> (r: Vec<T>)
    ensures
        r@ == v@,
{
    let mut r: Vec<T> = Vec::new();
    let mut i: usize = 0;
    while i < v.len()
        invariant
            i <= v@.len(),
            r@ == v@.subrange(0, i as int),
        decreases v@.len() - i,
    {
        r.push(v[i]);
        proof {
            assert(r@ =~= v@.subrange(0, i + 1));
        }
        i += 1;
    }
    proof {
        assert(r@ =~= v@);
    }
    r
}

/// Relaxes the edge from the settled cell `(cx, cy)` into its neighbor
/// `(nx, ny)`; `ch` is the move that leads from the neighbor back to
/// `(cx, cy)`.
fn relax(
    map: &Vec<Vec<Cell>>,
    best: &mut Vec<Vec<u64>>,
    moves: &mut Vec<Vec<Vec<u8>>>,
    settled: &Vec<Vec<bool>>,
    cx: usize,
    cy: usize,
    nx: usize,
    ny: usize,
    ch: u8,
    sx: usize,
    sy: usize,
)
    requires
        grid_wf(gview(map@)),
        table_wf(old(best)@, map@.len() as int),
        table_wf(old(moves)@, map@.len() as int),
        table_wf(settled@, map@.len() as int),
        cx < map@.len(),
        cy < map@.len(),
        nx < map@.len(),
        ny < map@.len(),
        old(best)@[cy as int]@[cx as int] < u64::MAX,
        oracle_inv(gview(map@), old(best)@, old(moves)@, sx as int, sy as int),
        step_pos((nx as int, ny as int), ch) == ((cx as int, cy as int)),
    ensures
        table_wf(final(best)@, map@.len() as int),
        table_wf(final(moves)@, map@.len() as int),
        oracle_inv(gview(map@), final(best)@, final(moves)@, sx as int, sy as int),
        forall|qy: int, qx: int|
            0 <= qy < map@.len() && 0 <= qx < map@.len() && !(qy == ny && qx == nx) ==> (
            #[trigger] final(best)@[qy]@[qx]) == old(best)@[qy]@[qx] && final(moves)@[qy]@[qx]
                == old(moves)@[qy]@[qx],
        settled@[ny as int]@[nx as int] ==> final(best)@[ny as int]@[nx as int] == old(best)@[ny as int]@[nx as int] && final(moves)@[ny as int]@[nx as int] == old(moves)@[ny as int]@[nx as int],
        final(best)@[ny as int]@[nx as int] <= old(best)@[ny as int]@[nx as int],
        is_road(gview(map@), nx as int, ny as int) && !settled@[ny as int]@[nx as int] ==> (final(best)@[ny as int]@[nx as int] as int) <= old(best)@[cy as int]@[cx as int] + cost(
            gview(map@)[ny as int][nx as int],
        ),
        final(best)@[ny as int]@[nx as int] == old(best)@[ny as int]@[nx as int] || final(best)@[ny as int]@[nx as int] >= old(best)@[cy as int]@[cx as int],
{
    let ghost gm = gview(map@);
    proof {
        lemma_row_len(map@, ny as int);
        assert(gm[ny as int] == map@[ny as int]@);
    }
    if let Cell::Road(w) = map[ny][nx] {
        let cur = best[cy][cx];
        let cand = sat_add(cur, w as u64);
        if !settled[ny][nx] && cand < best[ny][nx] {
            let mut s = copy_row(&moves[cy][cx]);
            s.push(ch);
            let ghost old_rev = old(moves)@[cy as int]@[cx as int]@.reverse();
            best[ny][nx] = cand;
            moves[ny][nx] = s;
            proof {
                assert(gm[ny as int] == map@[ny as int]@);
                assert(is_road(gm, nx as int, ny as int));
                lemma_reverse_push(old(moves)@[cy as int]@[cx as int]@, ch);
                lemma_walk_cons(gm, (nx as int, ny as int), ch, old_rev);
                assert(cell_sound(
                    gm,
                    nx as int,
                    ny as int,
                    cand,
                    final(moves)@[ny as int]@[nx as int]@,
                    sx as int,
                    sy as int,
                ));
            }
        }
    }
}

/// Picks an unsettled cell with the least finite label, if any.
fn pick_min(best: &Vec<Vec<u64>>, settled: &Vec<Vec<bool>>, n: usize) -> (r: Option<
    (usize, usize),
>)
    requires
        table_wf(best@, n as int),
        table_wf(settled@, n as int),
    ensures
        match r {
            Some(p) => p.0 < n && p.1 < n && !settled@[p.1 as int]@[p.0 as int]
                && best@[p.1 as int]@[p.0 as int] < u64::MAX && (forall|qx: int, qy: int|
                0 <= qx < n && 0 <= qy < n && !settled@[qy]@[qx] ==> (#[trigger] best@[qy]@[qx])
                    >= best@[p.1 as int]@[p.0 as int]),
            None => forall|qx: int, qy: int|
                0 <= qx < n && 0 <= qy < n ==> settled@[qy]@[qx] || (#[trigger] best@[qy]@[qx])
                    == u64::MAX,
        },
{
    let mut bd: u64 = u64::MAX;
    let mut bx: usize = 0;
    let mut by: usize = 0;
    let mut found = false;
    let mut y: usize = 0;
    while y < n
        invariant
            table_wf(best@, n as int),
            table_wf(settled@, n as int),
            y <= n,
            found ==> bx < n && by < n && !settled@[by as int]@[bx as int]
                && best@[by as int]@[bx as int] == bd && bd < u64::MAX,
            !found ==> bd == u64::MAX,
            forall|qx: int, qy: int|
                0 <= qx < n && 0 <= qy < y && !settled@[qy]@[qx] ==> (#[trigger] best@[qy]@[qx])
                    >= bd,
        decreases n - y,
    {
        let mut x: usize = 0;
        while x < n
            invariant
                table_wf(best@, n as int),
                table_wf(settled@, n as int),
                y < n,
                x <= n,
                found ==> bx < n && by < n && !settled@[by as int]@[bx as int]
                    && best@[by as int]@[bx as int] == bd && bd < u64::MAX,
                !found ==> bd == u64::MAX,
                forall|qx: int, qy: int|
                    0 <= qx < n && 0 <= qy < y && !settled@[qy]@[qx] ==> (
                    #[trigger] best@[qy]@[qx]) >= bd,
                forall|qx: int|
                    0 <= qx < x && !settled@[y as int]@[qx] ==> (#[trigger] best@[y as int]@[qx])
                        >= bd,
            decreases n - x,
        {
            if !settled[y][x] && best[y][x] < bd {
                bd = best[y][x];
                bx = x;
                by = y;
                found = true;
            }
            x += 1;
        }
        y += 1;
    }
    if found {
        Some((bx, by))
    } else {
        None
    }
}

/// Runs the uniform-cost search from the start cell and records, for each
/// intersection, its distance from start and the return-leg move string,
/// in forward order. An intersection the search never reaches keeps the
/// default pair: distance zero and an empty string.
#[verifier::rlimit(100)]
pub fn calc_dist_to_start(
    map: &Vec<Vec<Cell>>,
    position: &Vec<(usize, usize)>,
    start: (usize, usize),
) -> (r: (Vec<u64>, Vec<Vec<u8>>))
    requires
        grid_wf(gview(map@)),
        map@.len() <= 1_000_000_000,
        start.0 < map@.len(),
        start.1 < map@.len(),
        is_road(gview(map@), start.0 as int, start.1 as int),
    ensures
        r.0@.len() == position@.len(),
        r.1@.len() == position@.len(),
        forall|i: int|
            0 <= i < position@.len() ==> oracle_entry_ok(
                gview(map@),
                position@[i],
                r.0@[i],
                (#[trigger] r.1@[i])@,
                start.0 as int,
                start.1 as int,
            ),
        forall|i: int|
            0 <= i < position@.len() ==> oracle_min_ok(
                gview(map@),
                position@[i],
                r.0@[i],
                (#[trigger] r.1@[i])@,
                start.0 as int,
                start.1 as int,
            ),
{
    let ghost gm = gview(map@);
    let n = map.len();
    let (sx, sy) = start;
    let mut best: Vec<Vec<u64>> = fill_table(n, u64::MAX);
    let mut moves: Vec<Vec<Vec<u8>>> = fill_moves_table(n);
    let mut settled: Vec<Vec<bool>> = fill_table(n, false);
    best[sy][sx] = 0;
    moves[sy][sx] = Vec::new();
    proof {
        assert(oracle_inv(gm, best@, moves@, sx as int, sy as int));
    }

    let limit: u64 = {
        proof {
            assert((n as int) * (n as int) <= 1_000_000_000_000_000_000int) by (nonlinear_arith)
                requires
                    n as int <= 1_000_000_000,
                    0 <= n as int,
            ;
        }
        (n as u64) * (n as u64)
    };
    let mut rounds: u64 = 0;
    proof {
        lemma_tbl_trues_zero(settled@);
    }
    loop
        invariant
            gm == gview(map@),
            n == map@.len(),
            n <= 1_000_000_000,
            grid_wf(gm),
            sx < n,
            sy < n,
            is_road(gm, sx as int, sy as int),
            limit as int == (n as int) * (n as int),
            table_wf(best@, n as int),
            table_wf(moves@, n as int),
            table_wf(settled@, n as int),
            oracle_inv(gm, best@, moves@, sx as int, sy as int),
            best@[sy as int]@[sx as int] == 0,
            settled_labeled(gm, best@, settled@),
            frontier_inv(gm, best@, settled@),
            order_inv(gm, best@, settled@),
            tbl_trues(settled@) == rounds,
            rounds <= limit,
        ensures
            table_wf(best@, n as int),
            table_wf(moves@, n as int),
            oracle_inv(gm, best@, moves@, sx as int, sy as int),
            best@[sy as int]@[sx as int] == 0,
            closed_inv(gm, best@),
        decreases limit - rounds,
    {
        if rounds >= limit {
            proof {
                assert(tbl_trues(settled@) == (n as int) * (n as int));
                lemma_tbl_trues_full(settled@, n as int);
                assert forall|ax: int, ay: int, bx: int, by: int|
                    in_grid(gm, ax, ay) && in_grid(gm, bx, by) && (#[trigger] best@[ay]@[ax])
                        < u64::MAX && is_road(gm, bx, by) && adj(ax, ay, bx, by) implies ((
                #[trigger] best@[by]@[bx]) as int) <= best@[ay]@[ax] + cost(gm[by][bx]) by {
                    assert(settled@[ay]@[ax]);
                }
            }
            break ;
        }
        match pick_min(&best, &settled, n) {
            None => {
                proof {
                    assert forall|ax: int, ay: int, bx: int, by: int|
                        in_grid(gm, ax, ay) && in_grid(gm, bx, by) && (#[trigger] best@[ay]@[ax])
                            < u64::MAX && is_road(gm, bx, by) && adj(ax, ay, bx, by) implies ((
                    #[trigger] best@[by]@[bx]) as int) <= best@[ay]@[ax] + cost(gm[by][bx]) by {
                        assert(settled@[ay]@[ax]);
                    }
                }
                break ;
            },
            Some((cx, cy)) => {
                let ghost bd = best@[cy as int]@[cx as int];
                let ghost settled0 = settled@;
                settled[cy][cx] = true;
                proof {
                    lemma_tbl_trues_update(settled0, settled@, cy as int, cx as int);
                    lemma_tbl_trues_le(settled@, n as int);
                }
                let ghost best0 = best@;
                if cx > 0 {
                    relax(map, &mut best, &mut moves, &settled, cx, cy, cx - 1, cy, 82, sx, sy);
                }
                if cx + 1 < n {
                    relax(map, &mut best, &mut moves, &settled, cx, cy, cx + 1, cy, 76, sx, sy);
                }
                if cy > 0 {
                    relax(map, &mut best, &mut moves, &settled, cx, cy, cx, cy - 1, 68, sx, sy);
                }
                if cy + 1 < n {
                    relax(map, &mut best, &mut moves, &settled, cx, cy, cx, cy + 1, 85, sx, sy);
                }
                proof {
                    assert(best@[cy as int]@[cx as int] == bd);
                    assert(best@[sy as int]@[sx as int] <= best0[sy as int]@[sx as int]);
                    assert forall|qx: int, qy: int|
                        0 <= qx < n && 0 <= qy < n implies (#[trigger] best@[qy]@[qx]) == best0[qy]@[qx] || (best@[qy]@[qx] <= best0[qy]@[qx] && best@[qy]@[qx] >= bd && adj(
                        cx as int,
                        cy as int,
                        qx,
                        qy,
                    ) && !settled@[qy]@[qx] && is_road(gm, qx, qy) && (best@[qy]@[qx] as int) <= bd
                        + cost(gm[qy][qx])) by {}
                    assert(settled_labeled(gm, best@, settled@));
                    assert forall|ax: int, ay: int, bx: int, by: int|
                        in_grid(gm, ax, ay) && in_grid(gm, bx, by) && (#[trigger] settled@[ay]@[ax])
                            && !(#[trigger] settled@[by]@[bx]) implies best@[ay]@[ax]
                        <= best@[by]@[bx] by {
                        assert(settled0[ay]@[ax] || (ax == cx && ay == cy));
                        assert(!settled0[by]@[bx]);
                        assert(best@[ay]@[ax] == best0[ay]@[ax]);
                        assert(best0[by]@[bx] >= bd);
                    }
                    assert forall|ax: int, ay: int, bx: int, by: int|
                        in_grid(gm, ax, ay) && in_grid(gm, bx, by) && (#[trigger] settled@[ay]@[ax])
                            && is_road(gm, bx, by) && adj(ax, ay, bx, by) implies ((
                    #[trigger] best@[by]@[bx]) as int) <= best@[ay]@[ax] + cost(gm[by][bx]) by {
                        if ax == cx && ay == cy && !settled0[ay]@[ax] {
                            if settled@[by]@[bx] {
                                assert(settled0[by]@[bx]);
                                assert(best@[by]@[bx] == best0[by]@[bx]);
                                assert(best0[by]@[bx] <= bd);
                            } else {
                                assert((best@[by]@[bx] as int) <= bd + cost(gm[by][bx]));
                            }
                        } else {
                            assert(settled0[ay]@[ax]);
                            assert(best@[ay]@[ax] == best0[ay]@[ax]);
                            assert((best0[by]@[bx] as int) <= best0[ay]@[ax] + cost(gm[by][bx]));
                        }
                    }
                }
                rounds = rounds + 1;
            },
        }
    }

    let mut dist: Vec<u64> = Vec::new();
    let mut path: Vec<Vec<u8>> = Vec::new();
    let mut i: usize = 0;
    while i < position.len()
        invariant
            gm == gview(map@),
            n == map@.len(),
            grid_wf(gm),
            sx < n,
            sy < n,
            is_road(gm, sx as int, sy as int),
            table_wf(best@, n as int),
            table_wf(moves@, n as int),
            oracle_inv(gm, best@, moves@, sx as int, sy as int),
            closed_inv(gm, best@),
            best@[sy as int]@[sx as int] == 0,
            i <= position@.len(),
            dist@.len() == i,
            path@.len() == i,
            forall|j: int|
                0 <= j < i ==> oracle_entry_ok(
                    gm,
                    position@[j],
                    dist@[j],
                    (#[trigger] path@[j])@,
                    sx as int,
                    sy as int,
                ),
            forall|j: int|
                0 <= j < i ==> oracle_min_ok(
                    gm,
                    position@[j],
                    dist@[j],
                    (#[trigger] path@[j])@,
                    sx as int,
                    sy as int,
                ),
        decreases position@.len() - i,
    {
        let p = position[i];
        if p.0 < n && p.1 < n && best[p.1][p.0] < u64::MAX {
            let s = &moves[p.1][p.0];
            let mut out: Vec<u8> = Vec::new();
            let mut k = s.len();
            while k > 0
                invariant
                    k <= s@.len(),
                    out@.len() == s@.len() - k,
                    forall|j: int|
                        0 <= j < out@.len() ==> #[trigger] out@[j] == s@[s@.len() - 1 - j],
                decreases k,
            {
                k -= 1;
                out.push(s[k]);
            }
            let d = best[p.1][p.0];
            proof {
                assert(out@ =~= s@.reverse());
                assert(cell_sound(gm, p.0 as int, p.1 as int, d, s@, sx as int, sy as int));
                assert forall|w: Seq<u8>|
                    walk_ok(gm, (sx as int, sy as int), w) && walk_end((sx as int, sy as int), w)
                        == ((p.0 as int, p.1 as int)) && (#[trigger] walk_enter_cost(
                        gm,
                        (sx as int, sy as int),
                        w,
                    )) < u64::MAX implies {
                    &&& walk_ok(gm, (p.0 as int, p.1 as int), out@)
                    &&& walk_end((p.0 as int, p.1 as int), out@) == ((sx as int, sy as int))
                    &&& walk_leave_cost(gm, (p.0 as int, p.1 as int), out@) == d
                    &&& d as int <= walk_enter_cost(gm, (sx as int, sy as int), w)
                } by {
                    lemma_closed_walk_bound(gm, best@, sx as int, sy as int, w);
                }
                assert(oracle_min_ok(gm, position@[i as int], d, out@, sx as int, sy as int));
            }
            dist.push(d);
            path.push(out);
        } else {
            proof {
                assert forall|w: Seq<u8>|
                    walk_ok(gm, (sx as int, sy as int), w) && walk_end((sx as int, sy as int), w)
                        == ((p.0 as int, p.1 as int)) && (#[trigger] walk_enter_cost(
                        gm,
                        (sx as int, sy as int),
                        w,
                    )) < u64::MAX implies {
                    &&& walk_ok(gm, (p.0 as int, p.1 as int), Seq::<u8>::empty())
                    &&& walk_end((p.0 as int, p.1 as int), Seq::<u8>::empty()) == ((
                        sx as int,
                        sy as int,
                    ))
                    &&& walk_leave_cost(gm, (p.0 as int, p.1 as int), Seq::<u8>::empty()) == 0
                    &&& 0int <= walk_enter_cost(gm, (sx as int, sy as int), w)
                } by {
                    lemma_walk_end_road(gm, (sx as int, sy as int), w);
                    assert(in_grid(gm, p.0 as int, p.1 as int));
                    lemma_closed_walk_bound(gm, best@, sx as int, sy as int, w);
                    assert(false);
                }
                assert(oracle_min_ok(
                    gm,
                    position@[i as int],
                    0,
                    Seq::<u8>::empty(),
                    sx as int,
                    sy as int,
                ));
            }
            dist.push(0);
            path.push(Vec::new());
        }
        i += 1;
    }
    (dist, path)
}

} // verus!
