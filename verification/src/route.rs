//! The route serializer and the top-level solver: turns the winning path of
//! intersections plus the stored return leg into the final move string, and
//! wires the components together.

use vstd::prelude::*;

use crate::grid::{grid_wf, gview, is_road, Cell};
use crate::moves::{lemma_walk_append, step_pos, walk_end, walk_ok};
use crate::oracle::{calc_dist_to_start, oracle_entry_ok};
use crate::search::dfs;
use crate::view::{
    grid_positions, lemma_grid_rows_len, lemma_view_bounds, lemma_view_distinct, make_intersection,
    make_view,
};
use crate::watch::{counter_max, counters_admit, lemma_num_unwatched_le_len};

verus! {

/// `n` copies of the move byte `c`.
pub open spec fn rep(c: u8, n: int) -> Seq<u8> {
    Seq::new(if n >= 0 {
        n as nat
    } else {
        0
    }, |i: int| c)
}

/// The unit moves between two cells sharing a row or a column: one repeated
/// directional byte, as many times as the coordinate delta. Cells sharing a
/// column move vertically; otherwise the horizontal delta alone is emitted.
pub open spec fn seg_moves(p: (int, int), q: (int, int)) -> Seq<u8> {
    if p.0 == q.0 {
        if q.1 < p.1 {
            rep(85, p.1 - q.1)
        } else {
            rep(68, q.1 - p.1)
        }
    } else {
        if q.0 < p.0 {
            rep(76, p.0 - q.0)
        } else {
            rep(82, q.0 - p.0)
        }
    }
}

/// The concatenated segment moves along a path of intersection indices,
/// starting from `p`.
pub open spec fn route_moves(pos: Seq<(usize, usize)>, p: (int, int), path: Seq<usize>) -> Seq<u8>
    decreases path.len(),
{
    if path.len() == 0 {
        Seq::empty()
    } else {
        let q = ((pos[path[0] as int].0 as int, pos[path[0] as int].1 as int));
        seg_moves(p, q) + route_moves(pos, q, path.drop_first())
    }
}

/// Every step of the path names a valid intersection and shares a row or a
/// column with its predecessor, so that straight segments reproduce it.
pub open spec fn route_aligned(pos: Seq<(usize, usize)>, p: (int, int), path: Seq<usize>) -> bool
    decreases path.len(),
{
    if path.len() == 0 {
        true
    } else {
        &&& (path[0] as int) < pos.len()
        &&& {
            let q = ((pos[path[0] as int].0 as int, pos[path[0] as int].1 as int));
            (p.0 == q.0 || p.1 == q.1) && route_aligned(pos, q, path.drop_first())
        }
    }
}

pub proof fn lemma_rep_end(p: (int, int), c: u8, n: int)
    requires
        n >= 0,
        c == 85 || c == 68 || c == 76 || c == 82,
    ensures
        walk_end(p, rep(c, n)) == step_n(p, c, n),
    decreases n,
{
    if n > 0 {
        lemma_rep_end(step_pos(p, c), c, n - 1);
        assert(rep(c, n)[0] == c);
        assert(rep(c, n).drop_first() =~= rep(c, n - 1));
    }
}

/// Where `n` repetitions of one directional move land.
pub open spec fn step_n(p: (int, int), c: u8, n: int) -> (int, int) {
    if c == 85 {
        (p.0, p.1 - n)
    } else if c == 68 {
        (p.0, p.1 + n)
    } else if c == 76 {
        (p.0 - n, p.1)
    } else if c == 82 {
        (p.0 + n, p.1)
    } else {
        p
    }
}

/// A segment between aligned cells ends at its target.
pub proof fn lemma_seg_end(p: (int, int), q: (int, int))
    requires
        p.0 == q.0 || p.1 == q.1,
    ensures
        walk_end(p, seg_moves(p, q)) == q,
{
    if p.0 == q.0 {
        if q.1 < p.1 {
            lemma_rep_end(p, 85, p.1 - q.1);
        } else {
            lemma_rep_end(p, 68, q.1 - p.1);
        }
    } else {
        if q.0 < p.0 {
            lemma_rep_end(p, 76, p.0 - q.0);
        } else {
            lemma_rep_end(p, 82, q.0 - p.0);
        }
    }
}

/// Replaying the serialized segments of an aligned path visits its last
/// intersection.
pub proof fn lemma_route_moves_end(pos: Seq<(usize, usize)>, p: (int, int), path: Seq<usize>)
    requires
        route_aligned(pos, p, path),
        path.len() >= 1,
    ensures
        walk_end(p, route_moves(pos, p, path)) == ((
            pos[path.last() as int].0 as int,
            pos[path.last() as int].1 as int,
        )),
    decreases path.len(),
{
    let q = ((pos[path[0] as int].0 as int, pos[path[0] as int].1 as int));
    lemma_seg_end(p, q);
    lemma_walk_append(
        Seq::empty(),
        p,
        seg_moves(p, q),
        route_moves(pos, q, path.drop_first()),
    );
    if path.len() == 1 {
        assert(route_moves(pos, q, path.drop_first()) =~= Seq::empty());
        assert(path.last() == path[0]);
    } else {
        lemma_route_moves_end(pos, q, path.drop_first());
        assert(path.drop_first().last() == path.last());
    }
}

/// An aligned path stays aligned when one more stop sharing a row or a
/// column with its last stop is appended.
pub proof fn lemma_aligned_push(pos: Seq<(usize, usize)>, p: (int, int), s: Seq<usize>, j: usize)
    requires
        route_aligned(pos, p, s),
        s.len() >= 1,
        (j as int) < pos.len(),
        pos[j as int].0 == pos[s.last() as int].0 || pos[j as int].1 == pos[s.last() as int].1,
    ensures
        route_aligned(pos, p, s.push(j)),
    decreases s.len(),
{
    let q = ((pos[s[0] as int].0 as int, pos[s[0] as int].1 as int));
    if s.len() == 1 {
        assert(s.push(j)[0] == s[0]);
        assert(s.push(j).drop_first() =~= seq![j]);
        let qj = ((pos[j as int].0 as int, pos[j as int].1 as int));
        assert(route_aligned(pos, qj, seq![j].drop_first()));
        assert(route_aligned(pos, q, seq![j]));
    } else {
        lemma_aligned_push(pos, q, s.drop_first(), j);
        assert(s.drop_first().last() == s.last());
        assert(s.push(j).drop_first() =~= s.drop_first().push(j));
        assert(s.push(j)[0] == s[0]);
    }
}

/// A view-graph extension of an aligned path is aligned: every view edge
/// joins two stops on one row or one column.
pub proof fn lemma_extends_aligned(
    isect: &crate::view::Intersection,
    p: (int, int),
    base: Seq<usize>,
    bp: Seq<usize>,
)
    requires
        isect.wf(),
        route_aligned(isect.position@, p, base),
        crate::search::extends_path(*isect, base, bp),
        crate::search::bp_ok(bp, isect.position@.len() as int),
        base.len() >= 1,
    ensures
        route_aligned(isect.position@, p, bp),
    decreases bp.len(),
{
    let pos = isect.position@;
    if bp.len() == base.len() {
        assert(bp == base);
    } else {
        assert(crate::search::path_step_ok(*isect, bp[bp.len() - 2], bp.last()));
        assert(crate::search::extends_path(*isect, base, bp.drop_last()));
        assert(crate::search::bp_ok(bp.drop_last(), pos.len() as int)) by {
            assert(forall|k: int|
                0 <= k < bp.len() - 1 ==> (#[trigger] bp.drop_last()[k]) == bp[k]);
        }
        lemma_extends_aligned(isect, p, base, bp.drop_last());
        let a = bp[bp.len() - 2];
        let b = bp.last();
        if a == b {
            lemma_aligned_push(pos, p, bp.drop_last(), b);
        } else {
            let w = choose|w: u64| crate::search::is_view_edge(*isect, a as int, b, w);
            assert(pos[b as int].0 == pos[a as int].0 || pos[b as int].1 == pos[a as int].1);
            lemma_aligned_push(pos, p, bp.drop_last(), b);
        }
        assert(bp.drop_last().last() == a);
        assert(bp.drop_last().push(b) =~= bp);
    }
}

/// The shape of an emitted tour: the serialized segments of a nonempty,
/// aligned path over the grid's intersection table, followed by a return
/// leg that either walks over roads from the path's last stop back to the
/// start cell, or is empty because that stop is the start cell itself.
pub open spec fn tour_shape(
    map: Seq<Seq<Cell>>,
    pos: Seq<(usize, usize)>,
    s: Seq<u8>,
    sx: int,
    sy: int,
) -> bool {
    exists|bp: Seq<usize>, rl: Seq<u8>|
        {
            &&& crate::search::bp_ok(bp, pos.len() as int)
            &&& route_aligned(pos, (sx, sy), bp)
            &&& s == #[trigger] (route_moves(pos, (sx, sy), bp) + rl)
            &&& {
                let q = ((pos[bp.last() as int].0 as int, pos[bp.last() as int].1 as int));
                ||| (walk_ok(map, q, rl) && walk_end(q, rl) == ((sx, sy)))
                ||| (rl.len() == 0 && q == ((sx, sy)))
            }
        }
}

fn emit_repeat(out: &mut Vec<u8>, c: u8, cnt: usize)
    ensures
        final(out)@ == old(out)@ + rep(c, cnt as int),
{
    let mut t: usize = 0;
    while t < cnt
        invariant
            t <= cnt,
            out@ == old(out)@ + rep(c, t as int),
        decreases cnt - t,
    {
        out.push(c);
        proof {
            assert(out@ =~= old(out)@ + rep(c, t + 1));
        }
        t += 1;
    }
    proof {
        assert(out@ =~= old(out)@ + rep(c, cnt as int));
    }
}

/// Serializes a winning path: one straight segment per consecutive pair of
/// intersections, then the stored return leg. Returns `None` when the path
/// leaves the table or two consecutive stops share neither row nor column,
/// which a search-produced path never does.
#[verifier::loop_isolation(false)]
pub fn serialize_route(
    position: &Vec<(usize, usize)>,
    path: &Vec<usize>,
    start: (usize, usize),
    ret: &Vec<u8>,
) -> (r: Option<Vec<u8>>)
    ensures
        match r {
            Some(s) => route_aligned(position@, (start.0 as int, start.1 as int), path@) && s@
                == route_moves(position@, (start.0 as int, start.1 as int), path@) + ret@,
            None => !route_aligned(position@, (start.0 as int, start.1 as int), path@),
        },
{
    let ghost pos = position@;
    let ghost start0 = ((start.0 as int, start.1 as int));
    let mut out: Vec<u8> = Vec::new();
    let mut cx = start.0;
    let mut cy = start.1;
    proof {
        assert(path@.subrange(0, path@.len() as int) =~= path@);
        assert(out@ + route_moves(pos, start0, path@) =~= route_moves(pos, start0, path@));
    }
    let mut i: usize = 0;
    while i < path.len()
        invariant
            pos == position@,
            i <= path@.len(),
            out@ + route_moves(pos, (cx as int, cy as int), path@.subrange(i as int, path@.len() as int))
                =~= route_moves(pos, start0, path@),
            route_aligned(pos, (cx as int, cy as int), path@.subrange(i as int, path@.len() as int))
                == route_aligned(pos, start0, path@),
        decreases path@.len() - i,
    {
        let ghost suf = path@.subrange(i as int, path@.len() as int);
        let ghost suf1 = path@.subrange(i + 1, path@.len() as int);
        proof {
            assert(suf[0] == path@[i as int]);
            assert(suf.drop_first() =~= suf1);
        }
        let idx = path[i];
        if idx >= position.len() {
            proof {
                assert(!route_aligned(pos, (cx as int, cy as int), suf));
            }
            return None;
        }
        let p = position[idx];
        let ghost q = ((pos[idx as int].0 as int, pos[idx as int].1 as int));
        let ghost out0 = out@;
        if cx == p.0 {
            if p.1 < cy {
                emit_repeat(&mut out, 85, cy - p.1);
            } else {
                emit_repeat(&mut out, 68, p.1 - cy);
            }
        } else if cy == p.1 {
            if p.0 < cx {
                emit_repeat(&mut out, 76, cx - p.0);
            } else {
                emit_repeat(&mut out, 82, p.0 - cx);
            }
        } else {
            proof {
                assert(!route_aligned(pos, (cx as int, cy as int), suf));
            }
            return None;
        }
        proof {
            let sg = seg_moves((cx as int, cy as int), q);
            let rm1 = route_moves(pos, q, suf1);
            assert(out@ == out0 + sg);
            assert(route_moves(pos, (cx as int, cy as int), suf) == sg + rm1);
            assert(out0 + (sg + rm1) =~= (out0 + sg) + rm1);
            assert(out@ + rm1 =~= route_moves(pos, start0, path@));
            assert(route_aligned(pos, (cx as int, cy as int), suf) == route_aligned(
                pos,
                q,
                suf1,
            ));
        }
        cx = p.0;
        cy = p.1;
        i += 1;
    }
    proof {
        assert(path@.subrange(path@.len() as int, path@.len() as int) =~= Seq::<usize>::empty());
        assert(out@ =~= route_moves(pos, start0, path@));
        assert(route_aligned(pos, start0, path@));
    }
    let mut j: usize = 0;
    let ghost outm = out@;
    while j < ret.len()
        invariant
            j <= ret@.len(),
            out@ == outm + ret@.subrange(0, j as int),
        decreases ret@.len() - j,
    {
        out.push(ret[j]);
        proof {
            assert(out@ =~= outm + ret@.subrange(0, j + 1));
        }
        j += 1;
    }
    proof {
        assert(out@ =~= outm + ret@);
    }
    Some(out)
}

/// Solves the whole problem: classifies intersections, pre-credits those
/// visible from the start cell, runs the branch-and-bound search seeded from
/// every start-visible intersection, and serializes the winning tour. The
/// returned move string, replayed from the start cell, ends at the start
/// cell again; `None` means no tour was found.
#[verifier::rlimit(30)]
#[verifier::loop_isolation(false)]
pub fn solve(map: &Vec<Vec<Cell>>, start: (usize, usize)) -> (r: Option<Vec<u8>>)
    requires
        grid_wf(gview(map@)),
        map@.len() <= 1_000_000_000,
        start.0 < map@.len(),
        start.1 < map@.len(),
        is_road(gview(map@), start.0 as int, start.1 as int),
    ensures
        match r {
            Some(s) => walk_end((start.0 as int, start.1 as int), s@) == ((
                start.0 as int,
                start.1 as int,
            )) && tour_shape(
                gview(map@),
                grid_positions(gview(map@)),
                s@,
                start.0 as int,
                start.1 as int,
            ),
            None => true,
        },
{
    let ghost gm = gview(map@);
    let (intersection, mut watched_count) = make_intersection(map);
    let len = intersection.position.len();
    proof {
        lemma_grid_rows_len(gm, gm.len() as int);
        assert((gm.len() as int) * (gm.len() as int) <= 1_000_000_000_000_000_000int)
            by (nonlinear_arith)
            requires
                0 <= gm.len() as int <= 1_000_000_000,
        ;
    }
    let (dist_to_start, path_to_start) = calc_dist_to_start(map, &intersection.position, start);
    let start_view = make_view(map, &intersection.position, start.0, start.1);
    proof {
        lemma_view_bounds(gm, intersection.position@, start.0 as int, start.1 as int);
        lemma_view_distinct(gm, intersection.position@, start.0 as int, start.1 as int);
    }
    let ghost init = watched_count@;
    let ghost hv = start_view.0@;
    let mut t: usize = 0;
    while t < start_view.0.len()
        invariant
            hv == start_view.0@,
            watched_count@.len() == len,
            init.len() == len,
            t <= hv.len(),
            forall|jj: int| 0 <= jj < len ==> counter_max(#[trigger] init[jj]) == 0,
            forall|jj: int|
                0 <= jj < len ==> #[trigger] watched_count@[jj] == init[jj] || (exists|tt: int|
                    0 <= tt < t && (#[trigger] hv[tt]).0 == jj),
            forall|jj: int|
                0 <= jj < len ==> counter_max(#[trigger] watched_count@[jj]) <= 1,
            forall|k: int| 0 <= k < hv.len() ==> ((#[trigger] hv[k]).0 as int) < len,
        decreases hv.len() - t,
    {
        let i = start_view.0[t].0;
        proof {
            if watched_count@[i as int] != init[i as int] {
                let tt = choose|tt: int| 0 <= tt < t && (#[trigger] hv[tt]).0 == i;
                assert(hv[tt].0 != hv[t as int].0);
                assert(false);
            }
        }
        let mut c = watched_count[i];
        c.incr_h();
        watched_count[i] = c;
        proof {
            assert(0 <= t < t + 1 && hv[t as int].0 == i);
        }
        t += 1;
    }
    let ghost mid = watched_count@;
    let ghost vv = start_view.1@;
    let mut t: usize = 0;
    while t < start_view.1.len()
        invariant
            vv == start_view.1@,
            watched_count@.len() == len,
            mid.len() == len,
            t <= vv.len(),
            forall|jj: int| 0 <= jj < len ==> counter_max(#[trigger] mid[jj]) <= 1,
            forall|jj: int|
                0 <= jj < len ==> #[trigger] watched_count@[jj] == mid[jj] || (exists|tt: int|
                    0 <= tt < t && (#[trigger] vv[tt]).0 == jj),
            forall|jj: int|
                0 <= jj < len ==> counter_max(#[trigger] watched_count@[jj]) <= 2,
            forall|k: int| 0 <= k < vv.len() ==> ((#[trigger] vv[k]).0 as int) < len,
        decreases vv.len() - t,
    {
        let i = start_view.1[t].0;
        proof {
            if watched_count@[i as int] != mid[i as int] {
                let tt = choose|tt: int| 0 <= tt < t && (#[trigger] vv[tt]).0 == i;
                assert(vv[tt].0 != vv[t as int].0);
                assert(false);
            }
        }
        let mut c = watched_count[i];
        c.incr_v();
        watched_count[i] = c;
        proof {
            assert(0 <= t < t + 1 && vv[t as int].0 == i);
        }
        t += 1;
    }
    proof {
        lemma_num_unwatched_le_len(watched_count@);
        assert(counters_admit(watched_count@));
    }

    let mut best: u64 = u64::MAX;
    let mut best_path: Vec<usize> = Vec::new();
    let mut t: usize = 0;
    while t < start_view.0.len()
        invariant
            intersection.wf(),
            len == intersection.position@.len(),
            dist_to_start@.len() == len,
            watched_count@.len() == len,
            counters_admit(watched_count@),
            hv == start_view.0@,
            forall|k: int| 0 <= k < hv.len() ==> ((#[trigger] hv[k]).0 as int) < len,
            t <= hv.len(),
            best_path@.len() == 0 || (crate::search::bp_ok(best_path@, len as int)
                && route_aligned(
                intersection.position@,
                (start.0 as int, start.1 as int),
                best_path@,
            )),
        decreases hv.len() - t,
    {
        let e = start_view.0[t];
        let mut path: Vec<usize> = Vec::new();
        path.push(e.0);
        let ghost bp_before = best_path@;
        let ghost path_call = path@;
        let rr = dfs(
            &intersection,
            &dist_to_start,
            &mut watched_count,
            best,
            e.1,
            &mut path,
            &mut best_path,
        );
        proof {
            if best_path@ != bp_before {
                let start0 = ((start.0 as int, start.1 as int));
                assert(path_call =~= seq![e.0]);
                assert(intersection.position@[e.0 as int].1 == start.1);
                assert(seq![e.0].drop_first() =~= Seq::<usize>::empty());
                let q0 = ((
                    intersection.position@[e.0 as int].0 as int,
                    intersection.position@[e.0 as int].1 as int,
                ));
                assert(route_aligned(intersection.position@, q0, Seq::<usize>::empty()));
                assert(seq![e.0][0] == e.0);
                assert(route_aligned(intersection.position@, start0, seq![e.0]));
                lemma_extends_aligned(&intersection, start0, seq![e.0], best_path@);
            }
        }
        if rr < best {
            best = rr;
        }
        t += 1;
    }
    let mut t: usize = 0;
    while t < start_view.1.len()
        invariant
            intersection.wf(),
            len == intersection.position@.len(),
            dist_to_start@.len() == len,
            watched_count@.len() == len,
            counters_admit(watched_count@),
            vv == start_view.1@,
            forall|k: int| 0 <= k < vv.len() ==> ((#[trigger] vv[k]).0 as int) < len,
            t <= vv.len(),
            best_path@.len() == 0 || (crate::search::bp_ok(best_path@, len as int)
                && route_aligned(
                intersection.position@,
                (start.0 as int, start.1 as int),
                best_path@,
            )),
        decreases vv.len() - t,
    {
        let e = start_view.1[t];
        let mut path: Vec<usize> = Vec::new();
        path.push(e.0);
        let ghost bp_before = best_path@;
        let ghost path_call = path@;
        let rr = dfs(
            &intersection,
            &dist_to_start,
            &mut watched_count,
            best,
            e.1,
            &mut path,
            &mut best_path,
        );
        proof {
            if best_path@ != bp_before {
                let start0 = ((start.0 as int, start.1 as int));
                assert(path_call =~= seq![e.0]);
                assert(intersection.position@[e.0 as int].0 == start.0);
                assert(seq![e.0].drop_first() =~= Seq::<usize>::empty());
                let q0 = ((
                    intersection.position@[e.0 as int].0 as int,
                    intersection.position@[e.0 as int].1 as int,
                ));
                assert(route_aligned(intersection.position@, q0, Seq::<usize>::empty()));
                assert(seq![e.0][0] == e.0);
                assert(route_aligned(intersection.position@, start0, seq![e.0]));
                lemma_extends_aligned(&intersection, start0, seq![e.0], best_path@);
            }
        }
        if rr < best {
            best = rr;
        }
        t += 1;
    }

    if best_path.len() == 0 {
        return None;
    }
    let last = best_path[best_path.len() - 1];
    if last >= intersection.position.len() {
        return None;
    }
    let ret = &path_to_start[last];
    let pl = intersection.position[last];
    if ret.len() == 0 && !(pl.0 == start.0 && pl.1 == start.1) {
        return None;
    }
    proof {
        assert(oracle_entry_ok(
            gm,
            intersection.position@[last as int],
            dist_to_start@[last as int],
            path_to_start@[last as int]@,
            start.0 as int,
            start.1 as int,
        ));
    }
    match serialize_route(&intersection.position, &best_path, start, ret) {
        None => {
            proof {
                assert(false);
            }
            None
        },
        Some(s) => {
            proof {
                let start0 = ((start.0 as int, start.1 as int));
                let rm = route_moves(intersection.position@, start0, best_path@);
                lemma_route_moves_end(intersection.position@, start0, best_path@);
                lemma_walk_append(gm, start0, rm, ret@);
                let q = ((pl.0 as int, pl.1 as int));
                if ret@.len() == 0 {
                    assert(walk_end(q, ret@) == q);
                } else {
                    assert(walk_end(q, ret@) == start0);
                }
                assert(intersection.position@ == grid_positions(gm));
                assert(crate::search::bp_ok(best_path@, intersection.position@.len() as int));
                assert(s@ == route_moves(intersection.position@, start0, best_path@) + ret@);
                assert({
                    let qq = ((
                        intersection.position@[best_path@.last() as int].0 as int,
                        intersection.position@[best_path@.last() as int].1 as int,
                    ));
                    ||| (walk_ok(gm, qq, ret@) && walk_end(qq, ret@) == start0)
                    ||| (ret@.len() == 0 && qq == start0)
                });
                assert(tour_shape(gm, grid_positions(gm), s@, start.0 as int, start.1 as int));
            }
            Some(s)
        },
    }
}

} // verus!
