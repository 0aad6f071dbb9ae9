//! Intersection classification and the straight-line visibility graph:
//! for each intersection, the ordered lists of other intersections reachable
//! by uninterrupted horizontal or vertical road travel, with cumulative cost.

use vstd::prelude::*;

use crate::grid::{cell_flag, cost, flag_spec, grid_wf, gview, is_road, lemma_row_len, Cell};
use crate::watch::WatchedCount;

verus! {

/// The index of the first occurrence of `p` in `pos`, if any.
pub open spec fn find_pos_spec(pos: Seq<(usize, usize)>, p: (usize, usize)) -> Option<int>
    decreases pos.len(),
{
    if pos.len() == 0 {
        None
    } else if pos[0] == p {
        Some(0)
    } else {
        match find_pos_spec(pos.drop_first(), p) {
            Some(i) => Some(i + 1),
            None => None,
        }
    }
}

pub proof fn lemma_find_pos_char(pos: Seq<(usize, usize)>, p: (usize, usize))
    ensures
        match find_pos_spec(pos, p) {
            Some(i) => 0 <= i < pos.len() && pos[i] == p && forall|j: int|
                0 <= j < i ==> #[trigger] pos[j] != p,
            None => forall|j: int| 0 <= j < pos.len() ==> #[trigger] pos[j] != p,
        },
    decreases pos.len(),
{
    if pos.len() == 0 {
    } else if pos[0] == p {
    } else {
        lemma_find_pos_char(pos.drop_first(), p);
        assert(forall|j: int| 1 <= j < pos.len() ==> #[trigger] pos[j] == pos.drop_first()[j - 1]);
    }
}

/// Finds the first index of `(x, y)` in `pos`, scanning forward.
pub fn find_index(pos: &Vec<(usize, usize)>, x: usize, y: usize) -> (r: Option<usize>)
    ensures
        match r {
            Some(i) => i < pos@.len() && find_pos_spec(pos@, (x, y)) == Some(i as int),
            None => find_pos_spec(pos@, (x, y)) is None,
        },
{
    let mut i: usize = 0;
    while i < pos.len()
        invariant
            i <= pos@.len(),
            forall|j: int| 0 <= j < i ==> #[trigger] pos@[j] != (x, y),
        decreases pos@.len() - i,
    {
        let p = pos[i];
        if p.0 == x && p.1 == y {
            proof {
                lemma_find_pos_char(pos@, (x, y));
            }
            return Some(i);
        }
        i += 1;
    }
    proof {
        lemma_find_pos_char(pos@, (x, y));
    }
    None
}

/// No block among the cells `(a, y)` ..= `(b, y)`.
pub open spec fn row_open(map: Seq<Seq<Cell>>, y: int, a: int, b: int) -> bool {
    forall|k: int| a <= k <= b ==> !(#[trigger] map[y][k] is Block)
}

/// No block among the cells `(x, a)` ..= `(x, b)`.
pub open spec fn col_open(map: Seq<Seq<Cell>>, x: int, a: int, b: int) -> bool {
    forall|k: int| a <= k <= b ==> !(#[trigger] map[k][x] is Block)
}

/// Total travel cost of the cells `(a, y)` ..= `(b, y)`.
pub open spec fn row_cost(map: Seq<Seq<Cell>>, y: int, a: int, b: int) -> int
    decreases b - a + 1,
{
    if b < a {
        0
    } else {
        row_cost(map, y, a, b - 1) + cost(map[y][b])
    }
}

/// Total travel cost of the cells `(x, a)` ..= `(x, b)`.
pub open spec fn col_cost(map: Seq<Seq<Cell>>, x: int, a: int, b: int) -> int
    decreases b - a + 1,
{
    if b < a {
        0
    } else {
        col_cost(map, x, a, b - 1) + cost(map[b][x])
    }
}

pub proof fn lemma_row_cost_front(map: Seq<Seq<Cell>>, y: int, a: int, b: int)
    requires
        a <= b,
    ensures
        row_cost(map, y, a, b) == cost(map[y][a]) + row_cost(map, y, a + 1, b),
    decreases b - a,
{
    if a < b {
        lemma_row_cost_front(map, y, a, b - 1);
        assert(row_cost(map, y, a, b) == row_cost(map, y, a, b - 1) + cost(map[y][b]));
        assert(row_cost(map, y, a + 1, b) == row_cost(map, y, a + 1, b - 1) + cost(map[y][b]));
    } else {
        assert(row_cost(map, y, a, b) == row_cost(map, y, a, b - 1) + cost(map[y][b]));
        assert(row_cost(map, y, a, b - 1) == 0);
        assert(row_cost(map, y, a + 1, b) == 0);
    }
}

pub proof fn lemma_col_cost_front(map: Seq<Seq<Cell>>, x: int, a: int, b: int)
    requires
        a <= b,
    ensures
        col_cost(map, x, a, b) == cost(map[a][x]) + col_cost(map, x, a + 1, b),
    decreases b - a,
{
    if a < b {
        lemma_col_cost_front(map, x, a, b - 1);
        assert(col_cost(map, x, a, b) == col_cost(map, x, a, b - 1) + cost(map[b][x]));
        assert(col_cost(map, x, a + 1, b) == col_cost(map, x, a + 1, b - 1) + cost(map[b][x]));
    } else {
        assert(col_cost(map, x, a, b) == col_cost(map, x, a, b - 1) + cost(map[b][x]));
        assert(col_cost(map, x, a, b - 1) == 0);
        assert(col_cost(map, x, a + 1, b) == 0);
    }
}

/// The view entry contributed by the cell `(b, y)` when scanned over the
/// open segment `(a, y)` ..= `(b, y)`: present exactly when the segment is
/// unobstructed and the cell is a classified intersection.
pub open spec fn hentry(
    map: Seq<Seq<Cell>>,
    pos: Seq<(usize, usize)>,
    y: int,
    a: int,
    b: int,
) -> Seq<(usize, u64)> {
    if row_open(map, y, a, b) {
        match find_pos_spec(pos, (b as usize, y as usize)) {
            Some(i) => seq![(i as usize, row_cost(map, y, a, b) as u64)],
            None => Seq::empty(),
        }
    } else {
        Seq::empty()
    }
}

/// As `hentry`, but for leftward scans: the candidate cell is the left end
/// `(a, y)` of the segment.
pub open spec fn hentry_left(
    map: Seq<Seq<Cell>>,
    pos: Seq<(usize, usize)>,
    y: int,
    a: int,
    b: int,
) -> Seq<(usize, u64)> {
    if row_open(map, y, a, b) {
        match find_pos_spec(pos, (a as usize, y as usize)) {
            Some(i) => seq![(i as usize, row_cost(map, y, a, b) as u64)],
            None => Seq::empty(),
        }
    } else {
        Seq::empty()
    }
}

pub open spec fn ventry(
    map: Seq<Seq<Cell>>,
    pos: Seq<(usize, usize)>,
    x: int,
    a: int,
    b: int,
) -> Seq<(usize, u64)> {
    if col_open(map, x, a, b) {
        match find_pos_spec(pos, (x as usize, b as usize)) {
            Some(i) => seq![(i as usize, col_cost(map, x, a, b) as u64)],
            None => Seq::empty(),
        }
    } else {
        Seq::empty()
    }
}

/// As `ventry`, but for upward scans: the candidate cell is the upper end
/// `(x, a)` of the segment.
pub open spec fn ventry_up(
    map: Seq<Seq<Cell>>,
    pos: Seq<(usize, usize)>,
    x: int,
    a: int,
    b: int,
) -> Seq<(usize, u64)> {
    if col_open(map, x, a, b) {
        match find_pos_spec(pos, (x as usize, a as usize)) {
            Some(i) => seq![(i as usize, col_cost(map, x, a, b) as u64)],
            None => Seq::empty(),
        }
    } else {
        Seq::empty()
    }
}

/// Entries found scanning right from `(x, y)` over the cells `x+1` ..= `e`.
pub open spec fn hscan_right(
    map: Seq<Seq<Cell>>,
    pos: Seq<(usize, usize)>,
    x: int,
    y: int,
    e: int,
) -> Seq<(usize, u64)>
    decreases e - x,
{
    if e <= x {
        Seq::empty()
    } else {
        hscan_right(map, pos, x, y, e - 1) + hentry(map, pos, y, x + 1, e)
    }
}

/// Entries found scanning left from `(x, y)` over the cells `x-1` down to `e`.
pub open spec fn hscan_left(
    map: Seq<Seq<Cell>>,
    pos: Seq<(usize, usize)>,
    x: int,
    y: int,
    e: int,
) -> Seq<(usize, u64)>
    decreases x - e,
{
    if e >= x {
        Seq::empty()
    } else {
        hscan_left(map, pos, x, y, e + 1) + hentry_left(map, pos, y, e, x - 1)
    }
}

/// Entries found scanning down from `(x, y)` over the cells `y+1` ..= `e`.
pub open spec fn vscan_down(
    map: Seq<Seq<Cell>>,
    pos: Seq<(usize, usize)>,
    x: int,
    y: int,
    e: int,
) -> Seq<(usize, u64)>
    decreases e - y,
{
    if e <= y {
        Seq::empty()
    } else {
        vscan_down(map, pos, x, y, e - 1) + ventry(map, pos, x, y + 1, e)
    }
}

/// Entries found scanning up from `(x, y)` over the cells `y-1` down to `e`.
pub open spec fn vscan_up(
    map: Seq<Seq<Cell>>,
    pos: Seq<(usize, usize)>,
    x: int,
    y: int,
    e: int,
) -> Seq<(usize, u64)>
    decreases y - e,
{
    if e >= y {
        Seq::empty()
    } else {
        vscan_up(map, pos, x, y, e + 1) + ventry_up(map, pos, x, e, y - 1)
    }
}

/// The full horizontal view of `(x, y)`: the rightward scan, then the
/// leftward one.
pub open spec fn hview(map: Seq<Seq<Cell>>, pos: Seq<(usize, usize)>, x: int, y: int) -> Seq<
    (usize, u64),
> {
    hscan_right(map, pos, x, y, map.len() - 1) + hscan_left(map, pos, x, y, 0)
}

/// The full vertical view of `(x, y)`: the downward scan, then the upward one.
pub open spec fn vview(map: Seq<Seq<Cell>>, pos: Seq<(usize, usize)>, x: int, y: int) -> Seq<
    (usize, u64),
> {
    vscan_down(map, pos, x, y, map.len() - 1) + vscan_up(map, pos, x, y, 0)
}

/// A block at `(xb, y)` ends the rightward scan: no entry beyond it.
pub proof fn lemma_hscan_right_blocked(
    map: Seq<Seq<Cell>>,
    pos: Seq<(usize, usize)>,
    x: int,
    y: int,
    xb: int,
    e: int,
)
    requires
        x < xb <= e,
        map[y][xb] is Block,
    ensures
        hscan_right(map, pos, x, y, e) == hscan_right(map, pos, x, y, xb - 1),
    decreases e - xb,
{
    assert(!row_open(map, y, x + 1, e));
    if e > xb {
        lemma_hscan_right_blocked(map, pos, x, y, xb, e - 1);
    }
}

pub proof fn lemma_hscan_left_blocked(
    map: Seq<Seq<Cell>>,
    pos: Seq<(usize, usize)>,
    x: int,
    y: int,
    xb: int,
    e: int,
)
    requires
        e <= xb < x,
        map[y][xb] is Block,
    ensures
        hscan_left(map, pos, x, y, e) == hscan_left(map, pos, x, y, xb + 1),
    decreases xb - e,
{
    assert(!row_open(map, y, e, x - 1));
    if e < xb {
        lemma_hscan_left_blocked(map, pos, x, y, xb, e + 1);
    }
}

pub proof fn lemma_vscan_down_blocked(
    map: Seq<Seq<Cell>>,
    pos: Seq<(usize, usize)>,
    x: int,
    y: int,
    yb: int,
    e: int,
)
    requires
        y < yb <= e,
        map[yb][x] is Block,
    ensures
        vscan_down(map, pos, x, y, e) == vscan_down(map, pos, x, y, yb - 1),
    decreases e - yb,
{
    assert(!col_open(map, x, y + 1, e));
    if e > yb {
        lemma_vscan_down_blocked(map, pos, x, y, yb, e - 1);
    }
}

pub proof fn lemma_vscan_up_blocked(
    map: Seq<Seq<Cell>>,
    pos: Seq<(usize, usize)>,
    x: int,
    y: int,
    yb: int,
    e: int,
)
    requires
        e <= yb < y,
        map[yb][x] is Block,
    ensures
        vscan_up(map, pos, x, y, e) == vscan_up(map, pos, x, y, yb + 1),
    decreases yb - e,
{
    assert(!col_open(map, x, e, y - 1));
    if e < yb {
        lemma_vscan_up_blocked(map, pos, x, y, yb, e + 1);
    }
}

/// Builds the horizontal and vertical view lists of the road cell `(x, y)`:
/// scans right then left, down then up, accumulating the travel cost cell by
/// cell and recording every classified intersection the scan lands on.
pub fn make_view(
    map: &Vec<Vec<Cell>>,
    position: &Vec<(usize, usize)>,
    x: usize,
    y: usize,
) -> (r: (Vec<(usize, u64)>, Vec<(usize, u64)>))
    requires
        grid_wf(gview(map@)),
        map@.len() <= 1_000_000_000,
        is_road(gview(map@), x as int, y as int),
    ensures
        r.0@ == hview(gview(map@), position@, x as int, y as int),
        r.1@ == vview(gview(map@), position@, x as int, y as int),
{
    let ghost gm = gview(map@);
    let n = map.len();
    proof {
        assert(forall|j: int| 0 <= j < map@.len() ==> #[trigger] gm[j] == map@[j]@);
    }
    let mut horizontal: Vec<(usize, u64)> = Vec::new();
    let mut d: u64 = 0;
    let mut cx = x + 1;
    while cx < n
        invariant
            gm == gview(map@),
            n == map@.len(),
            n <= 1_000_000_000,
            grid_wf(gm),
            forall|j: int| 0 <= j < map@.len() ==> #[trigger] gm[j] == map@[j]@,
            x < n,
            y < n,
            x < cx <= n,
            row_open(gm, y as int, x + 1, cx - 1),
            d == row_cost(gm, y as int, x + 1, cx - 1),
            d <= 255 * (cx - 1 - x),
            horizontal@ == hscan_right(gm, position@, x as int, y as int, cx - 1),
        ensures
            horizontal@ == hscan_right(gm, position@, x as int, y as int, n - 1),
        decreases n - cx,
    {
        proof {
            lemma_row_len(map@, y as int);
        }
        match map[y][cx] {
            Cell::Road(w) => {
                d = d + w as u64;
                if let Some(i) = find_index(position, cx, y) {
                    horizontal.push((i, d));
                }
                proof {
                    assert(row_open(gm, y as int, x + 1, cx as int));
                    assert(d == row_cost(gm, y as int, x + 1, cx as int));
                }
                cx += 1;
            },
            Cell::Block => {
                proof {
                    lemma_hscan_right_blocked(gm, position@, x as int, y as int, cx as int, n - 1);
                }
                break ;
            },
        }
    }
    let mut d: u64 = 0;
    let mut cx = x;
    while cx > 0
        invariant
            gm == gview(map@),
            n == map@.len(),
            n <= 1_000_000_000,
            grid_wf(gm),
            forall|j: int| 0 <= j < map@.len() ==> #[trigger] gm[j] == map@[j]@,
            x < n,
            y < n,
            cx <= x,
            row_open(gm, y as int, cx as int, x - 1),
            d == row_cost(gm, y as int, cx as int, x - 1),
            d <= 255 * (x - cx),
            horizontal@ == hscan_right(gm, position@, x as int, y as int, n - 1) + hscan_left(
                gm,
                position@,
                x as int,
                y as int,
                cx as int,
            ),
        ensures
            horizontal@ == hscan_right(gm, position@, x as int, y as int, n - 1) + hscan_left(
                gm,
                position@,
                x as int,
                y as int,
                0,
            ),
        decreases cx,
    {
        proof {
            lemma_row_len(map@, y as int);
        }
        let nx = cx - 1;
        match map[y][nx] {
            Cell::Road(w) => {
                d = d + w as u64;
                proof {
                    lemma_row_cost_front(gm, y as int, nx as int, x - 1);
                }
                proof {
                    assert(row_open(gm, y as int, nx as int, x - 1));
                    assert(d == row_cost(gm, y as int, nx as int, x - 1));
                }
                let ghost he = hentry_left(gm, position@, y as int, nx as int, x - 1);
                match find_index(position, nx, y) {
                    Some(i) => {
                        horizontal.push((i, d));
                        proof {
                            assert(he =~= seq![(i, d)]);
                        }
                    },
                    None => {
                        proof {
                            assert(he =~= Seq::<(usize, u64)>::empty());
                        }
                    },
                }
                proof {
                    assert(hscan_left(gm, position@, x as int, y as int, nx as int) == hscan_left(
                        gm,
                        position@,
                        x as int,
                        y as int,
                        cx as int,
                    ) + he);
                    assert(horizontal@ =~= hscan_right(gm, position@, x as int, y as int, n - 1)
                        + hscan_left(gm, position@, x as int, y as int, nx as int));
                }
                cx = nx;
            },
            Cell::Block => {
                proof {
                    lemma_hscan_left_blocked(gm, position@, x as int, y as int, nx as int, 0);
                }
                break ;
            },
        }
    }

    let mut vertical: Vec<(usize, u64)> = Vec::new();
    let mut d: u64 = 0;
    let mut cy = y + 1;
    while cy < n
        invariant
            gm == gview(map@),
            n == map@.len(),
            n <= 1_000_000_000,
            grid_wf(gm),
            forall|j: int| 0 <= j < map@.len() ==> #[trigger] gm[j] == map@[j]@,
            x < n,
            y < n,
            y < cy <= n,
            col_open(gm, x as int, y + 1, cy - 1),
            d == col_cost(gm, x as int, y + 1, cy - 1),
            d <= 255 * (cy - 1 - y),
            vertical@ == vscan_down(gm, position@, x as int, y as int, cy - 1),
        ensures
            vertical@ == vscan_down(gm, position@, x as int, y as int, n - 1),
        decreases n - cy,
    {
        proof {
            lemma_row_len(map@, cy as int);
        }
        match map[cy][x] {
            Cell::Road(w) => {
                d = d + w as u64;
                if let Some(i) = find_index(position, x, cy) {
                    vertical.push((i, d));
                }
                proof {
                    assert(col_open(gm, x as int, y + 1, cy as int));
                    assert(d == col_cost(gm, x as int, y + 1, cy as int));
                }
                cy += 1;
            },
            Cell::Block => {
                proof {
                    lemma_vscan_down_blocked(gm, position@, x as int, y as int, cy as int, n - 1);
                }
                break ;
            },
        }
    }
    let mut d: u64 = 0;
    let mut cy = y;
    while cy > 0
        invariant
            gm == gview(map@),
            n == map@.len(),
            n <= 1_000_000_000,
            grid_wf(gm),
            forall|j: int| 0 <= j < map@.len() ==> #[trigger] gm[j] == map@[j]@,
            x < n,
            y < n,
            cy <= y,
            col_open(gm, x as int, cy as int, y - 1),
            d == col_cost(gm, x as int, cy as int, y - 1),
            d <= 255 * (y - cy),
            vertical@ == vscan_down(gm, position@, x as int, y as int, n - 1) + vscan_up(
                gm,
                position@,
                x as int,
                y as int,
                cy as int,
            ),
        ensures
            vertical@ == vscan_down(gm, position@, x as int, y as int, n - 1) + vscan_up(
                gm,
                position@,
                x as int,
                y as int,
                0,
            ),
        decreases cy,
    {
        proof {
            lemma_row_len(map@, (cy - 1) as int);
        }
        let ny = cy - 1;
        match map[ny][x] {
            Cell::Road(w) => {
                d = d + w as u64;
                proof {
                    lemma_col_cost_front(gm, x as int, ny as int, y - 1);
                }
                proof {
                    assert(col_open(gm, x as int, ny as int, y - 1));
                    assert(d == col_cost(gm, x as int, ny as int, y - 1));
                }
                let ghost ve = ventry_up(gm, position@, x as int, ny as int, y - 1);
                match find_index(position, x, ny) {
                    Some(i) => {
                        vertical.push((i, d));
                        proof {
                            assert(ve =~= seq![(i, d)]);
                        }
                    },
                    None => {
                        proof {
                            assert(ve =~= Seq::<(usize, u64)>::empty());
                        }
                    },
                }
                proof {
                    assert(vscan_up(gm, position@, x as int, y as int, ny as int) == vscan_up(
                        gm,
                        position@,
                        x as int,
                        y as int,
                        cy as int,
                    ) + ve);
                    assert(vertical@ =~= vscan_down(gm, position@, x as int, y as int, n - 1)
                        + vscan_up(gm, position@, x as int, y as int, ny as int));
                }
                cy = ny;
            },
            Cell::Block => {
                proof {
                    lemma_vscan_up_blocked(gm, position@, x as int, y as int, ny as int, 0);
                }
                break ;
            },
        }
    }
    (horizontal, vertical)
}

/// Openness flags of a corner: exactly two perpendicular open sides.
pub open spec fn flag_corner(f: u8) -> bool {
    f == 5 || f == 9 || f == 6 || f == 10
}

/// Openness flags of a T-junction missing one vertical side: left and right
/// open, one of up or down open.
pub open spec fn flag_t1(f: u8) -> bool {
    f == 7 || f == 11
}

/// Openness flags of a T-junction missing one horizontal side.
pub open spec fn flag_t2(f: u8) -> bool {
    f == 13 || f == 14
}

pub open spec fn flag_is_isect(f: u8) -> bool {
    flag_corner(f) || flag_t1(f) || flag_t2(f) || f == 15
}

/// A classified intersection: a road cell whose openness flag names one of
/// the four intersection shapes.
pub open spec fn is_isect(map: Seq<Seq<Cell>>, x: int, y: int) -> bool {
    is_road(map, x, y) && flag_is_isect(flag_spec(map, x, y))
}

/// The watch counters an intersection starts with, decided by its flag.
pub open spec fn initial_watch(f: u8) -> WatchedCount {
    if flag_corner(f) {
        WatchedCount::Corner(0)
    } else if flag_t1(f) {
        WatchedCount::T1 { h: 0 }
    } else if flag_t2(f) {
        WatchedCount::T2 { v: 0 }
    } else {
        WatchedCount::J { h: 0, v: 0 }
    }
}

/// The intersections of row `y` among the cells `0` ..< `xe`, in scan order.
pub open spec fn row_positions(map: Seq<Seq<Cell>>, y: int, xe: int) -> Seq<(usize, usize)>
    decreases xe,
{
    if xe <= 0 {
        Seq::empty()
    } else {
        row_positions(map, y, xe - 1) + if is_isect(map, xe - 1, y) {
            seq![((xe - 1) as usize, y as usize)]
        } else {
            Seq::empty()
        }
    }
}

/// The intersections of the rows `0` ..< `ye`, in row-major scan order.
pub open spec fn grid_rows(map: Seq<Seq<Cell>>, ye: int) -> Seq<(usize, usize)>
    decreases ye,
{
    if ye <= 0 {
        Seq::empty()
    } else {
        grid_rows(map, ye - 1) + row_positions(map, ye - 1, map.len() as int)
    }
}

/// All intersections of the grid, in row-major scan order.
pub open spec fn grid_positions(map: Seq<Seq<Cell>>) -> Seq<(usize, usize)> {
    grid_rows(map, map.len() as int)
}

pub proof fn lemma_row_positions_isect(map: Seq<Seq<Cell>>, y: int, xe: int)
    requires
        0 <= y <= usize::MAX,
        xe <= usize::MAX + 1,
    ensures
        forall|k: int|
            0 <= k < row_positions(map, y, xe).len() ==> {
                let e = #[trigger] row_positions(map, y, xe)[k];
                is_isect(map, e.0 as int, e.1 as int)
            },
    decreases xe,
{
    if xe > 0 {
        lemma_row_positions_isect(map, y, xe - 1);
        let s = row_positions(map, y, xe);
        let sp = row_positions(map, y, xe - 1);
        assert forall|k: int| 0 <= k < s.len() implies {
            let e = #[trigger] s[k];
            is_isect(map, e.0 as int, e.1 as int)
        } by {
            if k < sp.len() {
                assert(s[k] == sp[k]);
            } else {
                assert(is_isect(map, xe - 1, y));
                assert(s[k] == (((xe - 1) as usize, y as usize)));
            }
        }
    }
}

pub proof fn lemma_grid_rows_isect(map: Seq<Seq<Cell>>, ye: int)
    requires
        ye <= usize::MAX + 1,
        map.len() <= usize::MAX,
    ensures
        forall|k: int|
            0 <= k < grid_rows(map, ye).len() ==> {
                let e = #[trigger] grid_rows(map, ye)[k];
                is_isect(map, e.0 as int, e.1 as int)
            },
    decreases ye,
{
    if ye > 0 {
        lemma_grid_rows_isect(map, ye - 1);
        lemma_row_positions_isect(map, ye - 1, map.len() as int);
        let s = grid_rows(map, ye);
        let sp = grid_rows(map, ye - 1);
        let sr = row_positions(map, ye - 1, map.len() as int);
        assert forall|k: int| 0 <= k < s.len() implies {
            let e = #[trigger] s[k];
            is_isect(map, e.0 as int, e.1 as int)
        } by {
            if k < sp.len() {
                assert(s[k] == sp[k]);
            } else {
                assert(s[k] == sr[k - sp.len()]);
            }
        }
    }
}

pub proof fn lemma_hscan_right_bounds(
    map: Seq<Seq<Cell>>,
    pos: Seq<(usize, usize)>,
    x: int,
    y: int,
    e: int,
)
    ensures
        forall|k: int|
            0 <= k < hscan_right(map, pos, x, y, e).len() ==> (#[trigger] hscan_right(
                map,
                pos,
                x,
                y,
                e,
            )[k]).0 < pos.len(),
    decreases e - x,
{
    if e > x {
        lemma_hscan_right_bounds(map, pos, x, y, e - 1);
        lemma_find_pos_char(pos, (e as usize, y as usize));
        let s = hscan_right(map, pos, x, y, e);
        let sp = hscan_right(map, pos, x, y, e - 1);
        assert forall|k: int| 0 <= k < s.len() implies (#[trigger] s[k]).0 < pos.len() by {
            if k < sp.len() {
                assert(s[k] == sp[k]);
            } else {
                assert(s[k] == hentry(map, pos, y, x + 1, e)[k - sp.len()]);
            }
        }
    }
}

pub proof fn lemma_hscan_left_bounds(
    map: Seq<Seq<Cell>>,
    pos: Seq<(usize, usize)>,
    x: int,
    y: int,
    e: int,
)
    ensures
        forall|k: int|
            0 <= k < hscan_left(map, pos, x, y, e).len() ==> (#[trigger] hscan_left(
                map,
                pos,
                x,
                y,
                e,
            )[k]).0 < pos.len(),
    decreases x - e,
{
    if e < x {
        lemma_hscan_left_bounds(map, pos, x, y, e + 1);
        lemma_find_pos_char(pos, (e as usize, y as usize));
        let s = hscan_left(map, pos, x, y, e);
        let sp = hscan_left(map, pos, x, y, e + 1);
        assert forall|k: int| 0 <= k < s.len() implies (#[trigger] s[k]).0 < pos.len() by {
            if k < sp.len() {
                assert(s[k] == sp[k]);
            } else {
                assert(s[k] == hentry_left(map, pos, y, e, x - 1)[k - sp.len()]);
            }
        }
    }
}

pub proof fn lemma_vscan_down_bounds(
    map: Seq<Seq<Cell>>,
    pos: Seq<(usize, usize)>,
    x: int,
    y: int,
    e: int,
)
    ensures
        forall|k: int|
            0 <= k < vscan_down(map, pos, x, y, e).len() ==> (#[trigger] vscan_down(
                map,
                pos,
                x,
                y,
                e,
            )[k]).0 < pos.len(),
    decreases e - y,
{
    if e > y {
        lemma_vscan_down_bounds(map, pos, x, y, e - 1);
        lemma_find_pos_char(pos, (x as usize, e as usize));
        let s = vscan_down(map, pos, x, y, e);
        let sp = vscan_down(map, pos, x, y, e - 1);
        assert forall|k: int| 0 <= k < s.len() implies (#[trigger] s[k]).0 < pos.len() by {
            if k < sp.len() {
                assert(s[k] == sp[k]);
            } else {
                assert(s[k] == ventry(map, pos, x, y + 1, e)[k - sp.len()]);
            }
        }
    }
}

pub proof fn lemma_vscan_up_bounds(
    map: Seq<Seq<Cell>>,
    pos: Seq<(usize, usize)>,
    x: int,
    y: int,
    e: int,
)
    ensures
        forall|k: int|
            0 <= k < vscan_up(map, pos, x, y, e).len() ==> (#[trigger] vscan_up(
                map,
                pos,
                x,
                y,
                e,
            )[k]).0 < pos.len(),
    decreases y - e,
{
    if e < y {
        lemma_vscan_up_bounds(map, pos, x, y, e + 1);
        lemma_find_pos_char(pos, (x as usize, e as usize));
        let s = vscan_up(map, pos, x, y, e);
        let sp = vscan_up(map, pos, x, y, e + 1);
        assert forall|k: int| 0 <= k < s.len() implies (#[trigger] s[k]).0 < pos.len() by {
            if k < sp.len() {
                assert(s[k] == sp[k]);
            } else {
                assert(s[k] == ventry_up(map, pos, x, e, y - 1)[k - sp.len()]);
            }
        }
    }
}

pub proof fn lemma_hscan_right_cells(
    map: Seq<Seq<Cell>>,
    pos: Seq<(usize, usize)>,
    x: int,
    y: int,
    e: int,
)
    requires
        0 <= y <= usize::MAX,
        0 <= x,
        e <= usize::MAX,
        pos.len() <= usize::MAX,
    ensures
        forall|k: int|
            0 <= k < hscan_right(map, pos, x, y, e).len() ==> {
                let i = (#[trigger] hscan_right(map, pos, x, y, e)[k]).0 as int;
                0 <= i < pos.len() && pos[i].1 == y && x < pos[i].0 <= e
            },
        forall|k1: int, k2: int|
            0 <= k1 < k2 < hscan_right(map, pos, x, y, e).len() ==> (pos[(
            #[trigger] hscan_right(map, pos, x, y, e)[k1]).0 as int].0 as int) < (pos[(
            #[trigger] hscan_right(map, pos, x, y, e)[k2]).0 as int].0 as int),
    decreases e - x,
{
    if e > x {
        lemma_hscan_right_cells(map, pos, x, y, e - 1);
        lemma_find_pos_char(pos, (e as usize, y as usize));
        let s = hscan_right(map, pos, x, y, e);
        let sp = hscan_right(map, pos, x, y, e - 1);
        let he = hentry(map, pos, y, x + 1, e);
        if row_open(map, y, x + 1, e) {
            match find_pos_spec(pos, (e as usize, y as usize)) {
                Some(ii) => {
                    assert(he[0] == ((ii as usize, row_cost(map, y, x + 1, e) as u64)));
                    assert(pos[ii] == ((e as usize, y as usize)));
                },
                None => {},
            }
        }
        assert forall|k: int| 0 <= k < s.len() implies {
            let i = (#[trigger] s[k]).0 as int;
            0 <= i < pos.len() && pos[i].1 == y && x < pos[i].0 <= e
        } by {
            if k < sp.len() {
                assert(s[k] == sp[k]);
            } else {
                assert(s[k] == he[k - sp.len()]);
            }
        }
        assert forall|k1: int, k2: int| 0 <= k1 < k2 < s.len() implies (pos[(
            #[trigger] s[k1]).0 as int].0 as int) < (pos[(#[trigger] s[k2]).0 as int].0
            as int) by {
            if k1 < sp.len() {
                assert(s[k1] == sp[k1]);
            } else {
                assert(s[k1] == he[k1 - sp.len()]);
            }
            if k2 < sp.len() {
                assert(s[k2] == sp[k2]);
            } else {
                assert(s[k2] == he[k2 - sp.len()]);
            }
        }
    }
}

pub proof fn lemma_hscan_left_cells(
    map: Seq<Seq<Cell>>,
    pos: Seq<(usize, usize)>,
    x: int,
    y: int,
    e: int,
)
    requires
        0 <= y <= usize::MAX,
        0 <= e,
        x <= usize::MAX,
        pos.len() <= usize::MAX,
    ensures
        forall|k: int|
            0 <= k < hscan_left(map, pos, x, y, e).len() ==> {
                let i = (#[trigger] hscan_left(map, pos, x, y, e)[k]).0 as int;
                0 <= i < pos.len() && pos[i].1 == y && e <= pos[i].0 < x
            },
        forall|k1: int, k2: int|
            0 <= k1 < k2 < hscan_left(map, pos, x, y, e).len() ==> (pos[(
            #[trigger] hscan_left(map, pos, x, y, e)[k1]).0 as int].0 as int) > (pos[(
            #[trigger] hscan_left(map, pos, x, y, e)[k2]).0 as int].0 as int),
    decreases x - e,
{
    if e < x {
        lemma_hscan_left_cells(map, pos, x, y, e + 1);
        lemma_find_pos_char(pos, (e as usize, y as usize));
        let s = hscan_left(map, pos, x, y, e);
        let sp = hscan_left(map, pos, x, y, e + 1);
        let he = hentry_left(map, pos, y, e, x - 1);
        if row_open(map, y, e, x - 1) {
            match find_pos_spec(pos, (e as usize, y as usize)) {
                Some(ii) => {
                    assert(he[0] == ((ii as usize, row_cost(map, y, e, x - 1) as u64)));
                    assert(pos[ii] == ((e as usize, y as usize)));
                },
                None => {},
            }
        }
        assert forall|k: int| 0 <= k < s.len() implies {
            let i = (#[trigger] s[k]).0 as int;
            0 <= i < pos.len() && pos[i].1 == y && e <= pos[i].0 < x
        } by {
            if k < sp.len() {
                assert(s[k] == sp[k]);
            } else {
                assert(s[k] == he[k - sp.len()]);
            }
        }
        assert forall|k1: int, k2: int| 0 <= k1 < k2 < s.len() implies (pos[(
            #[trigger] s[k1]).0 as int].0 as int) > (pos[(#[trigger] s[k2]).0 as int].0
            as int) by {
            if k1 < sp.len() {
                assert(s[k1] == sp[k1]);
            } else {
                assert(s[k1] == he[k1 - sp.len()]);
            }
            if k2 < sp.len() {
                assert(s[k2] == sp[k2]);
            } else {
                assert(s[k2] == he[k2 - sp.len()]);
            }
        }
    }
}

pub proof fn lemma_vscan_down_cells(
    map: Seq<Seq<Cell>>,
    pos: Seq<(usize, usize)>,
    x: int,
    y: int,
    e: int,
)
    requires
        0 <= x <= usize::MAX,
        0 <= y,
        e <= usize::MAX,
        pos.len() <= usize::MAX,
    ensures
        forall|k: int|
            0 <= k < vscan_down(map, pos, x, y, e).len() ==> {
                let i = (#[trigger] vscan_down(map, pos, x, y, e)[k]).0 as int;
                0 <= i < pos.len() && pos[i].0 == x && y < pos[i].1 <= e
            },
        forall|k1: int, k2: int|
            0 <= k1 < k2 < vscan_down(map, pos, x, y, e).len() ==> (pos[(
            #[trigger] vscan_down(map, pos, x, y, e)[k1]).0 as int].1 as int) < (pos[(
            #[trigger] vscan_down(map, pos, x, y, e)[k2]).0 as int].1 as int),
    decreases e - y,
{
    if e > y {
        lemma_vscan_down_cells(map, pos, x, y, e - 1);
        lemma_find_pos_char(pos, (x as usize, e as usize));
        let s = vscan_down(map, pos, x, y, e);
        let sp = vscan_down(map, pos, x, y, e - 1);
        let ve = ventry(map, pos, x, y + 1, e);
        if col_open(map, x, y + 1, e) {
            match find_pos_spec(pos, (x as usize, e as usize)) {
                Some(ii) => {
                    assert(ve[0] == ((ii as usize, col_cost(map, x, y + 1, e) as u64)));
                    assert(pos[ii] == ((x as usize, e as usize)));
                },
                None => {},
            }
        }
        assert forall|k: int| 0 <= k < s.len() implies {
            let i = (#[trigger] s[k]).0 as int;
            0 <= i < pos.len() && pos[i].0 == x && y < pos[i].1 <= e
        } by {
            if k < sp.len() {
                assert(s[k] == sp[k]);
            } else {
                assert(s[k] == ve[k - sp.len()]);
            }
        }
        assert forall|k1: int, k2: int| 0 <= k1 < k2 < s.len() implies (pos[(
            #[trigger] s[k1]).0 as int].1 as int) < (pos[(#[trigger] s[k2]).0 as int].1
            as int) by {
            if k1 < sp.len() {
                assert(s[k1] == sp[k1]);
            } else {
                assert(s[k1] == ve[k1 - sp.len()]);
            }
            if k2 < sp.len() {
                assert(s[k2] == sp[k2]);
            } else {
                assert(s[k2] == ve[k2 - sp.len()]);
            }
        }
    }
}

pub proof fn lemma_vscan_up_cells(
    map: Seq<Seq<Cell>>,
    pos: Seq<(usize, usize)>,
    x: int,
    y: int,
    e: int,
)
    requires
        0 <= x <= usize::MAX,
        0 <= e,
        y <= usize::MAX,
        pos.len() <= usize::MAX,
    ensures
        forall|k: int|
            0 <= k < vscan_up(map, pos, x, y, e).len() ==> {
                let i = (#[trigger] vscan_up(map, pos, x, y, e)[k]).0 as int;
                0 <= i < pos.len() && pos[i].0 == x && e <= pos[i].1 < y
            },
        forall|k1: int, k2: int|
            0 <= k1 < k2 < vscan_up(map, pos, x, y, e).len() ==> (pos[(
            #[trigger] vscan_up(map, pos, x, y, e)[k1]).0 as int].1 as int) > (pos[(
            #[trigger] vscan_up(map, pos, x, y, e)[k2]).0 as int].1 as int),
    decreases y - e,
{
    if e < y {
        lemma_vscan_up_cells(map, pos, x, y, e + 1);
        lemma_find_pos_char(pos, (x as usize, e as usize));
        let s = vscan_up(map, pos, x, y, e);
        let sp = vscan_up(map, pos, x, y, e + 1);
        let ve = ventry_up(map, pos, x, e, y - 1);
        if col_open(map, x, e, y - 1) {
            match find_pos_spec(pos, (x as usize, e as usize)) {
                Some(ii) => {
                    assert(ve[0] == ((ii as usize, col_cost(map, x, e, y - 1) as u64)));
                    assert(pos[ii] == ((x as usize, e as usize)));
                },
                None => {},
            }
        }
        assert forall|k: int| 0 <= k < s.len() implies {
            let i = (#[trigger] s[k]).0 as int;
            0 <= i < pos.len() && pos[i].0 == x && e <= pos[i].1 < y
        } by {
            if k < sp.len() {
                assert(s[k] == sp[k]);
            } else {
                assert(s[k] == ve[k - sp.len()]);
            }
        }
        assert forall|k1: int, k2: int| 0 <= k1 < k2 < s.len() implies (pos[(
            #[trigger] s[k1]).0 as int].1 as int) > (pos[(#[trigger] s[k2]).0 as int].1
            as int) by {
            if k1 < sp.len() {
                assert(s[k1] == sp[k1]);
            } else {
                assert(s[k1] == ve[k1 - sp.len()]);
            }
            if k2 < sp.len() {
                assert(s[k2] == sp[k2]);
            } else {
                assert(s[k2] == ve[k2 - sp.len()]);
            }
        }
    }
}

/// A view list never names the same intersection twice, and its entries lie
/// on the scanned row or column.
pub proof fn lemma_view_distinct(map: Seq<Seq<Cell>>, pos: Seq<(usize, usize)>, x: int, y: int)
    requires
        0 <= x <= usize::MAX,
        0 <= y <= usize::MAX,
        map.len() <= usize::MAX,
        pos.len() <= usize::MAX,
    ensures
        forall|k1: int, k2: int|
            0 <= k1 < k2 < hview(map, pos, x, y).len() ==> (#[trigger] hview(map, pos, x, y)[k1]).0
                != (#[trigger] hview(map, pos, x, y)[k2]).0,
        forall|k: int|
            0 <= k < hview(map, pos, x, y).len() ==> {
                let i = (#[trigger] hview(map, pos, x, y)[k]).0 as int;
                0 <= i < pos.len() && pos[i].1 == y && pos[i].0 != x
            },
        forall|k1: int, k2: int|
            0 <= k1 < k2 < vview(map, pos, x, y).len() ==> (#[trigger] vview(map, pos, x, y)[k1]).0
                != (#[trigger] vview(map, pos, x, y)[k2]).0,
        forall|k: int|
            0 <= k < vview(map, pos, x, y).len() ==> {
                let i = (#[trigger] vview(map, pos, x, y)[k]).0 as int;
                0 <= i < pos.len() && pos[i].0 == x && pos[i].1 != y
            },
{
    lemma_hscan_right_cells(map, pos, x, y, map.len() - 1);
    lemma_hscan_left_cells(map, pos, x, y, 0);
    lemma_vscan_down_cells(map, pos, x, y, map.len() - 1);
    lemma_vscan_up_cells(map, pos, x, y, 0);
    let hr = hscan_right(map, pos, x, y, map.len() - 1);
    let hl = hscan_left(map, pos, x, y, 0);
    let hv = hview(map, pos, x, y);
    assert(forall|k: int| 0 <= k < hr.len() ==> #[trigger] hv[k] == hr[k]);
    assert(forall|k: int| hr.len() <= k < hv.len() ==> #[trigger] hv[k] == hl[k - hr.len()]);
    let vd = vscan_down(map, pos, x, y, map.len() - 1);
    let vu = vscan_up(map, pos, x, y, 0);
    let vv = vview(map, pos, x, y);
    assert(forall|k: int| 0 <= k < vd.len() ==> #[trigger] vv[k] == vd[k]);
    assert(forall|k: int| vd.len() <= k < vv.len() ==> #[trigger] vv[k] == vu[k - vd.len()]);
}

pub proof fn lemma_row_positions_len(map: Seq<Seq<Cell>>, y: int, xe: int)
    requires
        0 <= xe,
    ensures
        row_positions(map, y, xe).len() <= xe,
    decreases xe,
{
    if xe > 0 {
        lemma_row_positions_len(map, y, xe - 1);
    }
}

/// The intersection table is no larger than the grid.
pub proof fn lemma_grid_rows_len(map: Seq<Seq<Cell>>, ye: int)
    requires
        0 <= ye,
    ensures
        grid_rows(map, ye).len() <= ye * map.len(),
    decreases ye,
{
    if ye > 0 {
        lemma_grid_rows_len(map, ye - 1);
        lemma_row_positions_len(map, ye - 1, map.len() as int);
        assert((ye - 1) * map.len() + map.len() == ye * map.len()) by (nonlinear_arith);
    }
}

/// Every entry of a full view names a valid intersection index.
pub proof fn lemma_view_bounds(map: Seq<Seq<Cell>>, pos: Seq<(usize, usize)>, x: int, y: int)
    ensures
        forall|k: int|
            0 <= k < hview(map, pos, x, y).len() ==> (#[trigger] hview(map, pos, x, y)[k]).0
                < pos.len(),
        forall|k: int|
            0 <= k < vview(map, pos, x, y).len() ==> (#[trigger] vview(map, pos, x, y)[k]).0
                < pos.len(),
{
    lemma_hscan_right_bounds(map, pos, x, y, map.len() - 1);
    lemma_hscan_left_bounds(map, pos, x, y, 0);
    lemma_vscan_down_bounds(map, pos, x, y, map.len() - 1);
    lemma_vscan_up_bounds(map, pos, x, y, 0);
}

/// The intersection table: positions in row-major order, and per
/// intersection the horizontal and vertical view lists.
#[derive(Debug)]
pub struct Intersection {
    pub position: Vec<(usize, usize)>,
    pub view: Vec<(Vec<(usize, u64)>, Vec<(usize, u64)>)>,
}

impl Intersection {
    /// Every view entry names a valid index of `position`, and no view list
    /// names the same intersection twice.
    pub open spec fn wf(self) -> bool {
        &&& self.view@.len() == self.position@.len()
        &&& forall|u: int, k: int|
            0 <= u < self.view@.len() && 0 <= k < self.view@[u].0@.len() ==> ((
            #[trigger] self.view@[u].0@[k]).0 as int) < self.position@.len()
        &&& forall|u: int, k: int|
            0 <= u < self.view@.len() && 0 <= k < self.view@[u].1@.len() ==> ((
            #[trigger] self.view@[u].1@[k]).0 as int) < self.position@.len()
        &&& forall|u: int, k1: int, k2: int|
            0 <= u < self.view@.len() && 0 <= k1 < k2 < self.view@[u].0@.len() ==> (
            #[trigger] self.view@[u].0@[k1]).0 != (#[trigger] self.view@[u].0@[k2]).0
        &&& forall|u: int, k1: int, k2: int|
            0 <= u < self.view@.len() && 0 <= k1 < k2 < self.view@[u].1@.len() ==> (
            #[trigger] self.view@[u].1@[k1]).0 != (#[trigger] self.view@[u].1@[k2]).0
        &&& forall|u: int, k: int|
            0 <= u < self.view@.len() && 0 <= k < self.view@[u].0@.len() ==> ((
            #[trigger] self.view@[u].0@[k]).0 as int) != u
        &&& forall|u: int, k: int|
            0 <= u < self.view@.len() && 0 <= k < self.view@[u].1@.len() ==> ((
            #[trigger] self.view@[u].1@[k]).0 as int) != u
        &&& forall|u: int, k: int|
            0 <= u < self.view@.len() && 0 <= k < self.view@[u].0@.len()
                ==> self.position@[(#[trigger] self.view@[u].0@[k]).0 as int].1
                == self.position@[u].1
        &&& forall|u: int, k: int|
            0 <= u < self.view@.len() && 0 <= k < self.view@[u].1@.len()
                ==> self.position@[(#[trigger] self.view@[u].1@[k]).0 as int].0
                == self.position@[u].0
    }
}

/// Scans the grid once, classifying every intersection, choosing its initial
/// watch counters by type, and building its two view lists.
pub fn make_intersection(map: &Vec<Vec<Cell>>) -> (r: (Intersection, Vec<WatchedCount>))
    requires
        grid_wf(gview(map@)),
        map@.len() <= 1_000_000_000,
    ensures
        r.0.position@ == grid_positions(gview(map@)),
        r.0.wf(),
        r.1@.len() == r.0.position@.len(),
        forall|i: int|
            0 <= i < r.1@.len() ==> #[trigger] r.1@[i] == initial_watch(
                flag_spec(gview(map@), r.0.position@[i].0 as int, r.0.position@[i].1 as int),
            ),
        forall|i: int|
            0 <= i < r.0.view@.len() ==> (#[trigger] r.0.view@[i]).0@ == hview(
                gview(map@),
                r.0.position@,
                r.0.position@[i].0 as int,
                r.0.position@[i].1 as int,
            ) && r.0.view@[i].1@ == vview(
                gview(map@),
                r.0.position@,
                r.0.position@[i].0 as int,
                r.0.position@[i].1 as int,
            ),
{
    let ghost gm = gview(map@);
    let n = map.len();
    proof {
        assert(forall|j: int| 0 <= j < map@.len() ==> #[trigger] gm[j] == map@[j]@);
    }
    let mut position: Vec<(usize, usize)> = Vec::new();
    let mut watched_count: Vec<WatchedCount> = Vec::new();
    let mut y: usize = 0;
    while y < n
        invariant
            gm == gview(map@),
            n == map@.len(),
            n <= 1_000_000_000,
            grid_wf(gm),
            forall|j: int| 0 <= j < map@.len() ==> #[trigger] gm[j] == map@[j]@,
            y <= n,
            position@ == grid_rows(gm, y as int),
            watched_count@.len() == position@.len(),
            forall|i: int|
                0 <= i < watched_count@.len() ==> #[trigger] watched_count@[i] == initial_watch(
                    flag_spec(gm, position@[i].0 as int, position@[i].1 as int),
                ),
        decreases n - y,
    {
        let mut x: usize = 0;
        while x < n
            invariant
                gm == gview(map@),
                n == map@.len(),
                n <= 1_000_000_000,
                grid_wf(gm),
                forall|j: int| 0 <= j < map@.len() ==> #[trigger] gm[j] == map@[j]@,
                y < n,
                x <= n,
                position@ == grid_rows(gm, y as int) + row_positions(gm, y as int, x as int),
                watched_count@.len() == position@.len(),
                forall|i: int|
                    0 <= i < watched_count@.len() ==> #[trigger] watched_count@[i]
                        == initial_watch(
                        flag_spec(gm, position@[i].0 as int, position@[i].1 as int),
                    ),
            decreases n - x,
        {
            proof {
                lemma_row_len(map@, y as int);
            }
            let blocked = map[y][x].is_block();
            if !blocked {
                let flag = cell_flag(map, x, y);
                match flag {
                    5u8 | 9u8 | 6u8 | 10u8 => {
                        position.push((x, y));
                        watched_count.push(WatchedCount::Corner(0));
                    },
                    7u8 | 11u8 => {
                        position.push((x, y));
                        watched_count.push(WatchedCount::T1 { h: 0 });
                    },
                    13u8 | 14u8 => {
                        position.push((x, y));
                        watched_count.push(WatchedCount::T2 { v: 0 });
                    },
                    15u8 => {
                        position.push((x, y));
                        watched_count.push(WatchedCount::J { h: 0, v: 0 });
                    },
                    _ => {},
                }
            }
            proof {
                assert(position@ =~= grid_rows(gm, y as int) + row_positions(
                    gm,
                    y as int,
                    x + 1,
                ));
            }
            x += 1;
        }
        proof {
            assert(position@ =~= grid_rows(gm, y + 1));
        }
        y += 1;
    }

    let mut view: Vec<(Vec<(usize, u64)>, Vec<(usize, u64)>)> = Vec::new();
    proof {
        lemma_grid_rows_isect(gm, n as int);
    }
    let mut idx: usize = 0;
    while idx < position.len()
        invariant
            gm == gview(map@),
            n == map@.len(),
            n <= 1_000_000_000,
            grid_wf(gm),
            position@ == grid_positions(gm),
            idx <= position@.len(),
            forall|k: int|
                0 <= k < position@.len() ==> {
                    let e = #[trigger] position@[k];
                    is_isect(gm, e.0 as int, e.1 as int)
                },
            view@.len() == idx,
            forall|i: int|
                0 <= i < idx ==> (#[trigger] view@[i]).0@ == hview(
                    gm,
                    position@,
                    position@[i].0 as int,
                    position@[i].1 as int,
                ) && view@[i].1@ == vview(
                    gm,
                    position@,
                    position@[i].0 as int,
                    position@[i].1 as int,
                ),
            forall|u: int, k: int|
                0 <= u < idx && 0 <= k < view@[u].0@.len() ==> ((#[trigger] view@[u].0@[k]).0
                    as int) < position@.len(),
            forall|u: int, k: int|
                0 <= u < idx && 0 <= k < view@[u].1@.len() ==> ((#[trigger] view@[u].1@[k]).0
                    as int) < position@.len(),
            forall|u: int, k1: int, k2: int|
                0 <= u < idx && 0 <= k1 < k2 < view@[u].0@.len() ==> (
                #[trigger] view@[u].0@[k1]).0 != (#[trigger] view@[u].0@[k2]).0,
            forall|u: int, k1: int, k2: int|
                0 <= u < idx && 0 <= k1 < k2 < view@[u].1@.len() ==> (
                #[trigger] view@[u].1@[k1]).0 != (#[trigger] view@[u].1@[k2]).0,
            forall|u: int, k: int|
                0 <= u < idx && 0 <= k < view@[u].0@.len() ==> ((#[trigger] view@[u].0@[k]).0
                    as int) != u,
            forall|u: int, k: int|
                0 <= u < idx && 0 <= k < view@[u].1@.len() ==> ((#[trigger] view@[u].1@[k]).0
                    as int) != u,
            forall|u: int, k: int|
                0 <= u < idx && 0 <= k < view@[u].0@.len() ==> position@[(
                #[trigger] view@[u].0@[k]).0 as int].1 == position@[u].1,
            forall|u: int, k: int|
                0 <= u < idx && 0 <= k < view@[u].1@.len() ==> position@[(
                #[trigger] view@[u].1@[k]).0 as int].0 == position@[u].0,
        decreases position@.len() - idx,
    {
        let p = position[idx];
        let v = make_view(map, &position, p.0, p.1);
        proof {
            lemma_view_bounds(gm, position@, p.0 as int, p.1 as int);
            lemma_view_distinct(gm, position@, p.0 as int, p.1 as int);
        }
        view.push(v);
        idx += 1;
    }
    (Intersection { position, view }, watched_count)
}

} // verus!
