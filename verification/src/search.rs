//! The route search: a branch-and-bound depth-first search over the
//! intersection view graph, with a uniform-cost rescue search to the nearest
//! unsatisfied intersection when direct expansion stalls.

use vstd::prelude::*;

use crate::oracle::{copy_row, fill_row, sat_add};
use crate::view::Intersection;
use crate::watch::{
    all_watched, counter_max, counters_admit, lemma_num_unwatched_strict, lemma_unwatched_at,
    num_unwatched, spec_incr_h, spec_incr_v, spec_is_watched, WatchedCount,
};

verus! {

/// A distance table keyed by intersection index, backed by rustc-hash's
/// `FxHashMap`. Verus cannot use the standard `HashMap` specifications for
/// it, since those hold only for build-hashers it axiomatizes, so the map
/// is held opaquely and its contents are named by `dist_map_of`.
#[verifier::external_body]
pub struct DistMap {
    inner: rustc_hash::FxHashMap<usize, u64>,
}

/// The contents of a `DistMap`, as a mathematical map.
pub uninterp spec fn dist_map_of(m: DistMap) -> Map<usize, u64>;

/// The contents of a distance table with no entries.
pub open spec fn empty_dist_map() -> Map<usize, u64> {
    Map::empty()
}

/// Relies on `FxHashMap::default` (std's `HashMap::default` with the Fx
/// build-hasher): a freshly built map is empty.
#[verifier::external_body]
fn dist_map_new() -> (r: DistMap)
    ensures
        dist_map_of(r) == empty_dist_map(),
{
    DistMap { inner: rustc_hash::FxHashMap::default() }
}

/// Relies on std's `HashMap::get`: returns the value stored under the key,
/// if any.
#[verifier::external_body]
fn dist_map_get(m: &DistMap, k: usize) -> (r: Option<u64>)
    ensures
        match r {
            Some(v) => dist_map_of(*m).contains_key(k) && dist_map_of(*m)[k] == v,
            None => !dist_map_of(*m).contains_key(k),
        },
{
    m.inner.get(&k).copied()
}

/// Relies on std's `HashMap::insert`: afterwards the map holds `v` under
/// `k` and is otherwise unchanged.
#[verifier::external_body]
fn dist_map_insert(m: &mut DistMap, k: usize, v: u64)
    ensures
        dist_map_of(*final(m)) == dist_map_of(*old(m)).insert(k, v),
{
    m.inner.insert(k, v);
}

/// A recorded rescue path: starts at `start`, ends at `iend`, and stays
/// within the intersection table.
pub open spec fn node_path_ok(pp: Seq<usize>, start: usize, iend: int, len: int) -> bool {
    &&& pp.len() >= 1
    &&& pp[0] == start
    &&& pp.last() as int == iend
    &&& forall|k: int| 0 <= k < pp.len() ==> (#[trigger] pp[k] as int) < len
}

/// `b` stands in `a`'s view with cumulative cost `w`: the two are joined by
/// one uninterrupted straight road segment.
pub open spec fn is_view_edge(isect: Intersection, a: int, b: usize, w: u64) -> bool {
    ||| exists|k: int|
        0 <= k < isect.view@[a].0@.len() && #[trigger] isect.view@[a].0@[k] == ((b, w))
    ||| exists|k: int|
        0 <= k < isect.view@[a].1@.len() && #[trigger] isect.view@[a].1@[k] == ((b, w))
}

/// `pp` walks the view graph edge by edge and its edge costs sum to `c`.
pub open spec fn view_path_ok(isect: Intersection, pp: Seq<usize>, c: int) -> bool
    decreases pp.len(),
{
    if pp.len() <= 1 {
        pp.len() == 1 && c == 0
    } else {
        exists|w: u64|
            #[trigger] is_view_edge(isect, pp[0] as int, pp[1], w) && view_path_ok(
                isect,
                pp.drop_first(),
                c - w,
            )
    }
}

pub proof fn lemma_view_path_push(isect: Intersection, pp: Seq<usize>, c: int, j: usize, w: u64)
    requires
        view_path_ok(isect, pp, c),
        is_view_edge(isect, pp.last() as int, j, w),
    ensures
        view_path_ok(isect, pp.push(j), c + w),
    decreases pp.len(),
{
    if pp.len() == 1 {
        assert(pp.push(j)[0] == pp[0]);
        assert(pp.push(j)[1] == j);
        assert(pp.push(j).drop_first() =~= seq![j]);
        assert(view_path_ok(isect, seq![j], 0));
        assert(is_view_edge(isect, pp.push(j)[0] as int, pp.push(j)[1], w));
    } else {
        let w0 = choose|w0: u64|
            #[trigger] is_view_edge(isect, pp[0] as int, pp[1], w0) && view_path_ok(
                isect,
                pp.drop_first(),
                c - w0,
            );
        assert(pp.drop_first().last() == pp.last());
        lemma_view_path_push(isect, pp.drop_first(), c - w0, j, w);
        assert(pp.push(j).drop_first() =~= pp.drop_first().push(j));
        assert(pp.push(j)[0] == pp[0]);
        assert(pp.push(j)[1] == pp[1]);
        assert(is_view_edge(isect, pp.push(j)[0] as int, pp.push(j)[1], w0) && view_path_ok(
            isect,
            pp.push(j).drop_first(),
            (c + w) - w0,
        ));
    }
}

/// A plausible recorded tour: nonempty, staying within the intersection
/// table.
pub open spec fn bp_ok(bp: Seq<usize>, len: int) -> bool {
    bp.len() >= 1 && forall|k: int| 0 <= k < bp.len() ==> (#[trigger] bp[k] as int) < len
}

/// One step a recorded tour may take: staying put (as a rescue splice
/// does at its seam) or following a view edge.
pub open spec fn path_step_ok(isect: Intersection, a: usize, b: usize) -> bool {
    a == b || exists|w: u64| is_view_edge(isect, a as int, b, w)
}

/// `bp` extends `base` by zero or more steps, each of them a view edge or
/// a repetition of the previous stop.
pub open spec fn extends_path(isect: Intersection, base: Seq<usize>, bp: Seq<usize>) -> bool
    decreases bp.len(),
{
    if bp.len() < base.len() {
        false
    } else if bp.len() == base.len() {
        bp == base
    } else {
        path_step_ok(isect, bp[bp.len() - 2], bp.last()) && extends_path(
            isect,
            base,
            bp.drop_last(),
        )
    }
}

pub proof fn lemma_extends_shrink(isect: Intersection, base: Seq<usize>, i: usize, bp: Seq<usize>)
    requires
        base.len() >= 1,
        extends_path(isect, base.push(i), bp),
        path_step_ok(isect, base.last(), i),
    ensures
        extends_path(isect, base, bp),
    decreases bp.len(),
{
    if bp.len() == base.len() + 1 {
        assert(bp == base.push(i));
        assert(bp[bp.len() - 2] == base.last());
        assert(bp.last() == i);
        assert(bp.drop_last() =~= base);
        assert(extends_path(isect, base, bp.drop_last()));
        assert(extends_path(isect, base, bp));
    } else {
        assert(path_step_ok(isect, bp[bp.len() - 2], bp.last()));
        assert(extends_path(isect, base.push(i), bp.drop_last()));
        lemma_extends_shrink(isect, base, i, bp.drop_last());
        assert(extends_path(isect, base, bp));
    }
}

pub proof fn lemma_extends_shrink_many(
    isect: Intersection,
    base: Seq<usize>,
    ext: Seq<usize>,
    bp: Seq<usize>,
)
    requires
        base.len() >= 1,
        extends_path(isect, base + ext, bp),
        forall|k: int|
            0 <= k < ext.len() ==> path_step_ok(
                isect,
                if k == 0 {
                    base.last()
                } else {
                    ext[k - 1]
                },
                #[trigger] ext[k],
            ),
    ensures
        extends_path(isect, base, bp),
    decreases ext.len(),
{
    if ext.len() == 0 {
        assert(base + ext =~= base);
    } else {
        let b2 = base + ext.drop_last();
        assert(base + ext =~= b2.push(ext.last()));
        assert(b2.last() == if ext.len() == 1 {
            base.last()
        } else {
            ext[ext.len() - 2]
        });
        assert(path_step_ok(isect, b2.last(), ext.last()));
        lemma_extends_shrink(isect, b2, ext.last(), bp);
        lemma_extends_shrink_many(isect, base, ext.drop_last(), bp);
    }
}

/// Every consecutive pair of a costed view path is joined by a view edge.
pub proof fn lemma_view_path_steps(isect: Intersection, pp: Seq<usize>, c: int)
    requires
        view_path_ok(isect, pp, c),
    ensures
        forall|k: int| 1 <= k < pp.len() ==> path_step_ok(isect, pp[k - 1], #[trigger] pp[k]),
    decreases pp.len(),
{
    if pp.len() > 1 {
        let w0 = choose|w0: u64|
            #[trigger] is_view_edge(isect, pp[0] as int, pp[1], w0) && view_path_ok(
                isect,
                pp.drop_first(),
                c - w0,
            );
        lemma_view_path_steps(isect, pp.drop_first(), c - w0);
        assert forall|k: int| 1 <= k < pp.len() implies path_step_ok(
            isect,
            pp[k - 1],
            #[trigger] pp[k],
        ) by {
            if k == 1 {
                assert(is_view_edge(isect, pp[0] as int, pp[1], w0));
            } else {
                assert(pp.drop_first()[k - 2] == pp[k - 1]);
                assert(pp.drop_first()[k - 1] == pp[k]);
            }
        }
    }
}

/// One step of a recorded tour together with its cost: a repeated stop is
/// free, a view edge costs its stored cumulative weight.
pub open spec fn step_cost_ok(isect: Intersection, a: usize, b: usize, w: int) -> bool {
    ||| (a == b && w == 0)
    ||| (exists|ww: u64| #[trigger] is_view_edge(isect, a as int, b, ww) && w == ww)
}

/// As `extends_path`, with the extension's total edge cost.
pub open spec fn extends_cost(isect: Intersection, base: Seq<usize>, bp: Seq<usize>, c: int) -> bool
    decreases bp.len(),
{
    if bp.len() < base.len() {
        false
    } else if bp.len() == base.len() {
        bp == base && c == 0
    } else {
        exists|w: int|
            #[trigger] step_cost_ok(isect, bp[bp.len() - 2], bp.last(), w) && extends_cost(
                isect,
                base,
                bp.drop_last(),
                c - w,
            )
    }
}

pub proof fn lemma_extends_cost_shrink(
    isect: Intersection,
    base: Seq<usize>,
    i: usize,
    bp: Seq<usize>,
    c: int,
    w0: int,
)
    requires
        base.len() >= 1,
        extends_cost(isect, base.push(i), bp, c),
        step_cost_ok(isect, base.last(), i, w0),
    ensures
        extends_cost(isect, base, bp, c + w0),
    decreases bp.len(),
{
    if bp.len() == base.len() + 1 {
        assert(bp == base.push(i) && c == 0);
        assert(bp[bp.len() - 2] == base.last());
        assert(bp.last() == i);
        assert(bp.drop_last() =~= base);
        assert(extends_cost(isect, base, bp.drop_last(), 0));
        assert(step_cost_ok(isect, bp[bp.len() - 2], bp.last(), w0) && extends_cost(
            isect,
            base,
            bp.drop_last(),
            (c + w0) - w0,
        ));
    } else {
        let w = choose|w: int|
            #[trigger] step_cost_ok(isect, bp[bp.len() - 2], bp.last(), w) && extends_cost(
                isect,
                base.push(i),
                bp.drop_last(),
                c - w,
            );
        lemma_extends_cost_shrink(isect, base, i, bp.drop_last(), c - w, w0);
        assert(step_cost_ok(isect, bp[bp.len() - 2], bp.last(), w) && extends_cost(
            isect,
            base,
            bp.drop_last(),
            (c + w0) - w,
        ));
    }
}

pub proof fn lemma_extends_cost_refl(isect: Intersection, base: Seq<usize>)
    ensures
        extends_cost(isect, base, base, 0),
{
}

/// Takes the last edge off a costed view path.
pub proof fn lemma_view_path_unsnoc(isect: Intersection, pp: Seq<usize>, c: int)
    requires
        view_path_ok(isect, pp, c),
        pp.len() >= 2,
    ensures
        exists|w: u64|
            #[trigger] is_view_edge(isect, pp[pp.len() - 2] as int, pp.last(), w) && view_path_ok(
                isect,
                pp.drop_last(),
                c - w,
            ),
    decreases pp.len(),
{
    let w0 = choose|w0: u64|
        #[trigger] is_view_edge(isect, pp[0] as int, pp[1], w0) && view_path_ok(
            isect,
            pp.drop_first(),
            c - w0,
        );
    if pp.len() == 2 {
        assert(pp.drop_last() =~= seq![pp[0]]);
        assert(view_path_ok(isect, pp.drop_first(), c - w0));
        assert(pp.drop_first() =~= seq![pp[1]]);
        assert(c - w0 == 0);
        assert(view_path_ok(isect, pp.drop_last(), 0));
        assert(is_view_edge(isect, pp[pp.len() - 2] as int, pp.last(), w0));
    } else {
        lemma_view_path_unsnoc(isect, pp.drop_first(), c - w0);
        let w = choose|w: u64|
            #[trigger] is_view_edge(
                isect,
                pp.drop_first()[pp.drop_first().len() - 2] as int,
                pp.drop_first().last(),
                w,
            ) && view_path_ok(isect, pp.drop_first().drop_last(), (c - w0) - w);
        assert(pp.drop_first()[pp.drop_first().len() - 2] == pp[pp.len() - 2]);
        assert(pp.drop_first().last() == pp.last());
        assert(pp.drop_first().drop_last() =~= pp.drop_last().drop_first());
        assert(pp.drop_last()[0] == pp[0]);
        assert(pp.drop_last()[1] == pp[1]);
        assert(is_view_edge(isect, pp.drop_last()[0] as int, pp.drop_last()[1], w0)
            && view_path_ok(isect, pp.drop_last().drop_first(), (c - w) - w0));
        assert(view_path_ok(isect, pp.drop_last(), c - w));
        assert(is_view_edge(isect, pp[pp.len() - 2] as int, pp.last(), w));
    }
}

/// A costed view path spliced whole onto a base path ending at its first
/// node is a costed extension of it.
pub proof fn lemma_extends_cost_splice(
    isect: Intersection,
    base: Seq<usize>,
    pp: Seq<usize>,
    c: int,
)
    requires
        base.len() >= 1,
        pp.len() >= 1,
        pp[0] == base.last(),
        view_path_ok(isect, pp, c),
    ensures
        extends_cost(isect, base, base + pp, c),
    decreases pp.len(),
{
    if pp.len() == 1 {
        assert(base + pp =~= base.push(pp[0]));
        let bp = base + pp;
        assert(bp[bp.len() - 2] == base.last());
        assert(bp.last() == pp[0]);
        assert(step_cost_ok(isect, bp[bp.len() - 2], bp.last(), 0));
        assert(bp.drop_last() =~= base);
        lemma_extends_cost_refl(isect, base);
        assert(c == 0);
        assert(extends_cost(isect, base, bp.drop_last(), c - 0));
    } else {
        lemma_view_path_unsnoc(isect, pp, c);
        let w = choose|w: u64|
            #[trigger] is_view_edge(isect, pp[pp.len() - 2] as int, pp.last(), w) && view_path_ok(
                isect,
                pp.drop_last(),
                c - w,
            );
        lemma_extends_cost_splice(isect, base, pp.drop_last(), c - w);
        let bp = base + pp;
        assert(bp.drop_last() =~= base + pp.drop_last());
        assert(bp[bp.len() - 2] == pp[pp.len() - 2]);
        assert(bp.last() == pp.last());
        assert(step_cost_ok(isect, bp[bp.len() - 2], bp.last(), w as int));
        assert(step_cost_ok(isect, bp[bp.len() - 2], bp.last(), w as int) && extends_cost(
            isect,
            base,
            bp.drop_last(),
            c - w,
        ));
    }
}

pub proof fn lemma_extends_cost_trans(
    isect: Intersection,
    a: Seq<usize>,
    b: Seq<usize>,
    bp: Seq<usize>,
    c1: int,
    c2: int,
)
    requires
        extends_cost(isect, a, b, c1),
        extends_cost(isect, b, bp, c2),
    ensures
        extends_cost(isect, a, bp, c1 + c2),
    decreases bp.len(),
{
    if bp.len() == b.len() {
        assert(bp == b && c2 == 0);
    } else {
        let w = choose|w: int|
            #[trigger] step_cost_ok(isect, bp[bp.len() - 2], bp.last(), w) && extends_cost(
                isect,
                b,
                bp.drop_last(),
                c2 - w,
            );
        lemma_extends_cost_trans(isect, a, b, bp.drop_last(), c1, c2 - w);
        assert(step_cost_ok(isect, bp[bp.len() - 2], bp.last(), w) && extends_cost(
            isect,
            a,
            bp.drop_last(),
            (c1 + c2) - w,
        ));
    }
}

/// Checks whether every intersection is currently satisfied.
pub fn check_all_watched(wc: &Vec<WatchedCount>) -> (r: bool)
    ensures
        r == all_watched(wc@),
{
    let mut j: usize = 0;
    let mut all = true;
    while j < wc.len()
        invariant
            j <= wc@.len(),
            all == forall|q: int| 0 <= q < j ==> spec_is_watched(#[trigger] wc@[q]),
        decreases wc@.len() - j,
    {
        all = all && wc[j].is_watched();
        j += 1;
    }
    all
}

/// The rescue search: a uniform-cost search over the intersection view
/// graph from `start`, stopping at the nearest intersection whose watch
/// predicate is not yet satisfied. Returns that node's distance and the
/// full path of intersections traversed to it, or `None` when no
/// unsatisfied intersection is reachable.
pub fn bfs(intersection: &Intersection, watched_count: &Vec<WatchedCount>, start: usize) -> (r:
    Option<(u64, Vec<usize>)>)
    requires
        intersection.wf(),
        watched_count@.len() == intersection.position@.len(),
        start < intersection.position@.len(),
    ensures
        match r {
            Some(p) => node_path_ok(
                p.1@,
                start,
                p.1@.last() as int,
                intersection.position@.len() as int,
            ) && !spec_is_watched(watched_count@[p.1@.last() as int]) && view_path_ok(
                *intersection,
                p.1@,
                p.0 as int,
            ),
            None => true,
        },
        !spec_is_watched(watched_count@[start as int]) ==> (match r {
            Some(p) => p.0 == 0 && p.1@ == seq![start],
            None => false,
        }),
{
    let len = intersection.position.len();
    let mut dist = dist_map_new();
    dist_map_insert(&mut dist, start, 0);
    let mut settled: Vec<bool> = fill_row(len, false);
    let mut paths: Vec<Vec<usize>> = Vec::new();
    let mut t: usize = 0;
    while t < len
        invariant
            t <= len,
            paths@.len() == t,
        decreases len - t,
    {
        paths.push(Vec::new());
        t += 1;
    }
    let mut p0: Vec<usize> = Vec::new();
    p0.push(start);
    paths[start] = p0;
    proof {
        assert(paths@[start as int]@ =~= seq![start]);
        assert(view_path_ok(*intersection, paths@[start as int]@, 0));
        assert(dist_map_of(dist) == empty_dist_map().insert(start, 0));
        assert(dist_map_of(dist).contains_key(start) && dist_map_of(dist)[start] == 0);
        assert(forall|ii: usize| #[trigger] dist_map_of(dist).contains_key(ii) ==> ii == start);
    }

    let mut rounds: usize = 0;
    while rounds < len
        invariant
            intersection.wf(),
            len == intersection.position@.len(),
            watched_count@.len() == len,
            start < len,
            settled@.len() == len,
            paths@.len() == len,
            forall|ii: usize|
                #[trigger] dist_map_of(dist).contains_key(ii) ==> (ii as int) < len
                    && dist_map_of(dist)[ii] < u64::MAX
                    && node_path_ok(paths@[ii as int]@, start, ii as int, len as int)
                    && view_path_ok(
                    *intersection,
                    paths@[ii as int]@,
                    dist_map_of(dist)[ii] as int,
                ),
            !spec_is_watched(watched_count@[start as int]) ==> rounds == 0
                && !settled@[start as int] && dist_map_of(dist).contains_key(start)
                && dist_map_of(dist)[start] == 0 && paths@[start as int]@ == seq![start] && (forall|
                ii: usize,
            |
                #[trigger] dist_map_of(dist).contains_key(ii) ==> ii == start),
        decreases len - rounds,
    {
        rounds += 1;
        let mut found = false;
        let mut bd: u64 = u64::MAX;
        let mut bi: usize = 0;
        let mut i: usize = 0;
        while i < len
            invariant
                len == intersection.position@.len(),
                settled@.len() == len,
                paths@.len() == len,
                i <= len,
                forall|ii: usize|
                    #[trigger] dist_map_of(dist).contains_key(ii) ==> dist_map_of(dist)[ii]
                        < u64::MAX,
                found ==> bi < len && !settled@[bi as int] && dist_map_of(dist).contains_key(bi)
                    && dist_map_of(dist)[bi] == bd,
                !found ==> bd == u64::MAX,
                !found ==> forall|q: usize|
                    q < i ==> settled@[q as int] || !(#[trigger] dist_map_of(
                        dist,
                    ).contains_key(q)),
            decreases len - i,
        {
            if !settled[i] {
                match dist_map_get(&dist, i) {
                    Some(dv) => {
                        if dv < bd {
                            bd = dv;
                            bi = i;
                            found = true;
                        }
                    },
                    None => {},
                }
            }
            i += 1;
        }
        if !found {
            proof {
                if !spec_is_watched(watched_count@[start as int]) {
                    assert(settled@[start as int] || !dist_map_of(dist).contains_key(start));
                    assert(false);
                }
            }
            return None;
        }
        if !watched_count[bi].is_watched() {
            let pp = copy_row(&paths[bi]);
            proof {
                if !spec_is_watched(watched_count@[start as int]) {
                    assert(bi == start);
                    assert(bd == 0);
                    assert(pp@ == seq![start]);
                }
            }
            return Some((bd, pp));
        }
        proof {
            if !spec_is_watched(watched_count@[start as int]) {
                assert(bi == start);
                assert(false);
            }
        }
        settled[bi] = true;
        let mut k: usize = 0;
        while k < intersection.view[bi].0.len()
            invariant
                intersection.wf(),
                len == intersection.position@.len(),
                bi < len,
                settled@.len() == len,
                paths@.len() == len,
                dist_map_of(dist).contains_key(bi),
                dist_map_of(dist)[bi] == bd,
                k <= intersection.view@[bi as int].0@.len(),
                forall|ii: usize|
                    #[trigger] dist_map_of(dist).contains_key(ii) ==> (ii as int) < len
                        && dist_map_of(dist)[ii] < u64::MAX
                        && node_path_ok(paths@[ii as int]@, start, ii as int, len as int)
                        && view_path_ok(
                        *intersection,
                        paths@[ii as int]@,
                        dist_map_of(dist)[ii] as int,
                    ),
            decreases intersection.view@[bi as int].0@.len() - k,
        {
            let e = intersection.view[bi].0[k];
            let nd = sat_add(bd, e.1);
            let cur = match dist_map_get(&dist, e.0) {
                Some(v) => v,
                None => u64::MAX,
            };
            if nd < cur {
                proof {
                    assert(intersection.view@[bi as int].0@[k as int] == ((e.0, e.1)));
                    assert(is_view_edge(*intersection, bi as int, e.0, e.1));
                    lemma_view_path_push(
                        *intersection,
                        paths@[bi as int]@,
                        bd as int,
                        e.0,
                        e.1,
                    );
                }
                dist_map_insert(&mut dist, e.0, nd);
                let mut np = copy_row(&paths[bi]);
                np.push(e.0);
                paths[e.0] = np;
            }
            k += 1;
        }
        let mut k: usize = 0;
        while k < intersection.view[bi].1.len()
            invariant
                intersection.wf(),
                len == intersection.position@.len(),
                bi < len,
                settled@.len() == len,
                paths@.len() == len,
                dist_map_of(dist).contains_key(bi),
                dist_map_of(dist)[bi] == bd,
                k <= intersection.view@[bi as int].1@.len(),
                forall|ii: usize|
                    #[trigger] dist_map_of(dist).contains_key(ii) ==> (ii as int) < len
                        && dist_map_of(dist)[ii] < u64::MAX
                        && node_path_ok(paths@[ii as int]@, start, ii as int, len as int)
                        && view_path_ok(
                        *intersection,
                        paths@[ii as int]@,
                        dist_map_of(dist)[ii] as int,
                    ),
            decreases intersection.view@[bi as int].1@.len() - k,
        {
            let e = intersection.view[bi].1[k];
            let nd = sat_add(bd, e.1);
            let cur = match dist_map_get(&dist, e.0) {
                Some(v) => v,
                None => u64::MAX,
            };
            if nd < cur {
                proof {
                    assert(intersection.view@[bi as int].1@[k as int] == ((e.0, e.1)));
                    assert(is_view_edge(*intersection, bi as int, e.0, e.1));
                    lemma_view_path_push(
                        *intersection,
                        paths@[bi as int]@,
                        bd as int,
                        e.0,
                        e.1,
                    );
                }
                dist_map_insert(&mut dist, e.0, nd);
                let mut np = copy_row(&paths[bi]);
                np.push(e.0);
                paths[e.0] = np;
            }
            k += 1;
        }
    }
    proof {
        if !spec_is_watched(watched_count@[start as int]) {
            assert(false);
        }
    }
    None
}

/// `u64::MAX` capped at the addition's true value.
pub open spec fn sat64(a: int) -> int {
    if a <= u64::MAX {
        a
    } else {
        u64::MAX as int
    }
}

/// The branch-and-bound depth-first search. From the intersection at the
/// end of `path`, with `dist` spent so far and `best` the best complete
/// tour known: if every intersection is satisfied, the candidate total is
/// the spent distance plus the return distance, recorded in `best_path`
/// when it improves on `best`. Otherwise the search commits to at most one
/// unsatisfied, not-prunable candidate from the horizontal view list, then
/// the vertical one, crediting intersections passed over on the way, and
/// falls back to the rescue search when both lists stall. The watch array
/// and the path are restored exactly before returning.
#[verifier::rlimit(60)]
#[verifier::loop_isolation(false)]
pub fn dfs(
    intersection: &Intersection,
    dist_to_start: &Vec<u64>,
    watched_count: &mut Vec<WatchedCount>,
    best: u64,
    dist: u64,
    path: &mut Vec<usize>,
    best_path: &mut Vec<usize>,
) -> (r: u64)
    requires
        intersection.wf(),
        dist_to_start@.len() == intersection.position@.len(),
        old(watched_count)@.len() == intersection.position@.len(),
        counters_admit(old(watched_count)@),
        old(path)@.len() >= 1,
        forall|k: int|
            0 <= k < old(path)@.len() ==> (#[trigger] old(path)@[k] as int)
                < intersection.position@.len(),
    ensures
        final(watched_count)@ == old(watched_count)@,
        final(path)@ == old(path)@,
        all_watched(old(watched_count)@) ==> r as int == sat64(
            dist + dist_to_start@[old(path)@.last() as int],
        ),
        !all_watched(old(watched_count)@) ==> r <= best,
        final(best_path)@ == old(best_path)@ ==> r >= best || (bp_ok(
            final(best_path)@,
            intersection.position@.len() as int,
        ) && extends_path(*intersection, old(path)@, final(best_path)@) && (exists|c: int|
            #[trigger] extends_cost(*intersection, old(path)@, final(best_path)@, c) && r as int
                == dist + c + dist_to_start@[final(best_path)@.last() as int])),
        final(best_path)@ != old(best_path)@ ==> r < best && bp_ok(
            final(best_path)@,
            intersection.position@.len() as int,
        ) && extends_path(*intersection, old(path)@, final(best_path)@) && (exists|c: int|
            #[trigger] extends_cost(*intersection, old(path)@, final(best_path)@, c) && r as int
                == dist + c + dist_to_start@[final(best_path)@.last() as int]),
    decreases num_unwatched(watched_count@),
{
    let ghost orig = watched_count@;
    let ghost path0 = path@;
    let len = intersection.position.len();
    let u0 = path[path.len() - 1];
    let all = check_all_watched(watched_count);
    if all {
        let cand = sat_add(dist, dist_to_start[u0]);
        if cand < best {
            *best_path = copy_row(path);
            proof {
                lemma_extends_cost_refl(*intersection, path0);
                assert(cand as int == dist + 0 + dist_to_start@[path0.last() as int]);
            }
        }
        return cand;
    }
    let saved: Vec<WatchedCount> = copy_row(watched_count);
    let pu = intersection.position[u0];
    let mut best_cur = best;
    let mut expanded = false;

    let mut k: usize = 0;
    while k < intersection.view[u0].0.len() && !expanded
        invariant
            intersection.wf(),
            len == intersection.position@.len(),
            dist_to_start@.len() == len,
            watched_count@ == orig,
            orig.len() == len,
            counters_admit(orig),
            saved@ == orig,
            path@ == path0,
            path0.len() >= 1,
            forall|q: int| 0 <= q < path0.len() ==> (#[trigger] path0[q] as int) < len,
            u0 < len,
            u0 == path0.last(),
            best_cur <= best,
            best_path@ != old(best_path)@ ==> best_cur < best,
            best_cur == best || (bp_ok(best_path@, len as int) && extends_path(
                *intersection,
                path0,
                best_path@,
            ) && best_cur < best && (exists|c: int|
                #[trigger] extends_cost(*intersection, path0, best_path@, c) && best_cur as int
                    == dist + c + dist_to_start@[best_path@.last() as int])),
            k <= intersection.view@[u0 as int].0@.len(),
        decreases intersection.view@[u0 as int].0@.len() - k + if expanded {
            0int
        } else {
            1int
        },
    {
        let e = intersection.view[u0].0[k];
        let i = e.0;
        let de = e.1;
        let lb = sat_add(sat_add(dist, de), dist_to_start[i]);
        if !watched_count[i].is_watched() && lb < best_cur {
            proof {
                lemma_unwatched_at(orig, i as int);
            }
            let mut c = watched_count[i];
            c.incr_h();
            c.incr_v();
            watched_count[i] = c;
            let ghost base = watched_count@;
            let pi = intersection.position[i];
            let x0 = if pi.0 < pu.0 {
                pi.0
            } else {
                pu.0
            };
            let x1 = if pi.0 < pu.0 {
                pu.0
            } else {
                pi.0
            };
            let ghost hl = intersection.view@[u0 as int].0@;
            let ghost pos = intersection.position@;
            let mut t: usize = 0;
            while t < intersection.view[u0].0.len()
                invariant
                    intersection.wf(),
                    len == intersection.position@.len(),
                    pos == intersection.position@,
                    hl == intersection.view@[u0 as int].0@,
                    u0 < len,
                    i < len,
                    i == hl[k as int].0,
                    k < hl.len(),
                    orig.len() == len,
                    counters_admit(orig),
                    base.len() == len,
                    watched_count@.len() == len,
                    base == orig.update(i as int, spec_incr_v(spec_incr_h(orig[i as int]))),
                    pi == pos[i as int],
                    x0 == if pi.0 < pu.0 {
                        pi.0
                    } else {
                        pu.0
                    },
                    x1 == if pi.0 < pu.0 {
                        pu.0
                    } else {
                        pi.0
                    },
                    t <= hl.len(),
                    forall|jj: int|
                        0 <= jj < len ==> #[trigger] watched_count@[jj] == base[jj] || (exists|
                            tt: int,
                        |
                            0 <= tt < t && (#[trigger] hl[tt]).0 == jj && x0 < pos[hl[tt].0 as int].0
                                < x1),
                    forall|jj: int|
                        0 <= jj < len ==> counter_max(#[trigger] watched_count@[jj])
                            <= counter_max(base[jj]) + 1,
                    forall|jj: int|
                        0 <= jj < len && spec_is_watched(#[trigger] base[jj]) ==> spec_is_watched(
                            watched_count@[jj],
                        ),
                decreases hl.len() - t,
            {
                let ej = intersection.view[u0].0[t];
                let j = ej.0;
                let jx = intersection.position[j].0;
                if x0 < jx && jx < x1 {
                    proof {
                        if watched_count@[j as int] != base[j as int] {
                            let tt = choose|tt: int|
                                0 <= tt < t && (#[trigger] hl[tt]).0 == j && x0 < pos[hl[tt].0 as int].0 < x1;
                            assert(hl[tt].0 != hl[t as int].0);
                            assert(false);
                        }
                        assert(j != i);
                        assert(base[j as int] == orig[j as int]);
                        assert(counter_max(orig[j as int]) + 2 * num_unwatched(orig) + 2
                            <= u64::MAX);
                    }
                    let mut cj = watched_count[j];
                    cj.incr_v();
                    watched_count[j] = cj;
                    proof {
                        assert(0 <= t < t + 1 && hl[t as int].0 == j && x0 < pos[hl[t as int].0 as int].0 < x1);
                    }
                }
                t += 1;
            }
            proof {
                assert forall|jj: int|
                    0 <= jj < len && spec_is_watched(orig[jj]) implies spec_is_watched(
                    #[trigger] watched_count@[jj],
                ) by {
                    assert(spec_is_watched(base[jj]));
                }
                assert(watched_count@[i as int] == base[i as int]) by {
                    if watched_count@[i as int] != base[i as int] {
                        let tt = choose|tt: int|
                            0 <= tt < hl.len() && (#[trigger] hl[tt]).0 == i && x0 < pos[hl[tt].0 as int].0 < x1;
                        assert(false);
                    }
                }
                assert(spec_is_watched(watched_count@[i as int]));
                lemma_num_unwatched_strict(orig, watched_count@, i as int);
                assert forall|jj: int|
                    0 <= jj < len implies counter_max(#[trigger] watched_count@[jj]) + 2
                    * num_unwatched(watched_count@) + 2 <= u64::MAX by {
                    assert(counter_max(orig[jj]) + 2 * num_unwatched(orig) + 2 <= u64::MAX);
                    assert(counter_max(base[jj]) <= counter_max(orig[jj]) + 2);
                }
            }
            path.push(i);
            let ghost bp_call = best_path@;
            let ghost bc_call = best_cur;
            let nd = sat_add(dist, de);
            proof {
                assert(nd as int == dist + de);
            }
            let rr = dfs(
                intersection,
                dist_to_start,
                watched_count,
                best_cur,
                nd,
                path,
                best_path,
            );
            if rr < best_cur {
                best_cur = rr;
            }
            let _ = path.pop();
            proof {
                assert(path@ =~= path0);
                if rr < bc_call {
                    assert(is_view_edge(*intersection, u0 as int, i, de));
                    assert(path_step_ok(*intersection, path0.last(), i));
                    lemma_extends_shrink(*intersection, path0, i, best_path@);
                    let c2 = choose|c2: int|
                        #[trigger] extends_cost(
                            *intersection,
                            path0.push(i),
                            best_path@,
                            c2,
                        ) && rr as int == nd + c2 + dist_to_start@[best_path@.last() as int];
                    assert(step_cost_ok(*intersection, path0.last(), i, de as int));
                    lemma_extends_cost_shrink(
                        *intersection,
                        path0,
                        i,
                        best_path@,
                        c2,
                        de as int,
                    );
                    assert(extends_cost(*intersection, path0, best_path@, c2 + de));
                    assert(best_cur as int == dist + (c2 + de) + dist_to_start@[
                        best_path@.last() as int
                    ]);
                } else {
                    assert(best_path@ == bp_call);
                }
            }
            *watched_count = copy_row(&saved);
            expanded = true;
        }
        k += 1;
    }

    let mut k: usize = 0;
    while k < intersection.view[u0].1.len() && !expanded
        invariant
            intersection.wf(),
            len == intersection.position@.len(),
            dist_to_start@.len() == len,
            watched_count@ == orig,
            orig.len() == len,
            counters_admit(orig),
            saved@ == orig,
            path@ == path0,
            path0.len() >= 1,
            forall|q: int| 0 <= q < path0.len() ==> (#[trigger] path0[q] as int) < len,
            u0 < len,
            u0 == path0.last(),
            best_cur <= best,
            best_path@ != old(best_path)@ ==> best_cur < best,
            best_cur == best || (bp_ok(best_path@, len as int) && extends_path(
                *intersection,
                path0,
                best_path@,
            ) && best_cur < best && (exists|c: int|
                #[trigger] extends_cost(*intersection, path0, best_path@, c) && best_cur as int
                    == dist + c + dist_to_start@[best_path@.last() as int])),
            k <= intersection.view@[u0 as int].1@.len(),
        decreases intersection.view@[u0 as int].1@.len() - k + if expanded {
            0int
        } else {
            1int
        },
    {
        let e = intersection.view[u0].1[k];
        let i = e.0;
        let de = e.1;
        let lb = sat_add(sat_add(dist, de), dist_to_start[i]);
        if !watched_count[i].is_watched() && lb < best_cur {
            proof {
                lemma_unwatched_at(orig, i as int);
            }
            let mut c = watched_count[i];
            c.incr_h();
            c.incr_v();
            watched_count[i] = c;
            let ghost base = watched_count@;
            let pi = intersection.position[i];
            let y0 = if pi.1 < pu.1 {
                pi.1
            } else {
                pu.1
            };
            let y1 = if pi.1 < pu.1 {
                pu.1
            } else {
                pi.1
            };
            let ghost vl = intersection.view@[u0 as int].1@;
            let ghost pos = intersection.position@;
            let mut t: usize = 0;
            while t < intersection.view[u0].1.len()
                invariant
                    intersection.wf(),
                    len == intersection.position@.len(),
                    pos == intersection.position@,
                    vl == intersection.view@[u0 as int].1@,
                    u0 < len,
                    i < len,
                    i == vl[k as int].0,
                    k < vl.len(),
                    orig.len() == len,
                    counters_admit(orig),
                    base.len() == len,
                    watched_count@.len() == len,
                    base == orig.update(i as int, spec_incr_v(spec_incr_h(orig[i as int]))),
                    pi == pos[i as int],
                    y0 == if pi.1 < pu.1 {
                        pi.1
                    } else {
                        pu.1
                    },
                    y1 == if pi.1 < pu.1 {
                        pu.1
                    } else {
                        pi.1
                    },
                    t <= vl.len(),
                    forall|jj: int|
                        0 <= jj < len ==> #[trigger] watched_count@[jj] == base[jj] || (exists|
                            tt: int,
                        |
                            0 <= tt < t && (#[trigger] vl[tt]).0 == jj && y0 < pos[vl[tt].0 as int].1
                                < y1),
                    forall|jj: int|
                        0 <= jj < len ==> counter_max(#[trigger] watched_count@[jj])
                            <= counter_max(base[jj]) + 1,
                    forall|jj: int|
                        0 <= jj < len && spec_is_watched(#[trigger] base[jj]) ==> spec_is_watched(
                            watched_count@[jj],
                        ),
                decreases vl.len() - t,
            {
                let ej = intersection.view[u0].1[t];
                let j = ej.0;
                let jy = intersection.position[j].1;
                if y0 < jy && jy < y1 {
                    proof {
                        if watched_count@[j as int] != base[j as int] {
                            let tt = choose|tt: int|
                                0 <= tt < t && (#[trigger] vl[tt]).0 == j && y0 < pos[vl[tt].0 as int].1 < y1;
                            assert(vl[tt].0 != vl[t as int].0);
                            assert(false);
                        }
                        assert(j != i);
                        assert(base[j as int] == orig[j as int]);
                        assert(counter_max(orig[j as int]) + 2 * num_unwatched(orig) + 2
                            <= u64::MAX);
                    }
                    let mut cj = watched_count[j];
                    cj.incr_h();
                    watched_count[j] = cj;
                    proof {
                        assert(0 <= t < t + 1 && vl[t as int].0 == j && y0 < pos[vl[t as int].0 as int].1 < y1);
                    }
                }
                t += 1;
            }
            proof {
                assert forall|jj: int|
                    0 <= jj < len && spec_is_watched(orig[jj]) implies spec_is_watched(
                    #[trigger] watched_count@[jj],
                ) by {
                    assert(spec_is_watched(base[jj]));
                }
                assert(watched_count@[i as int] == base[i as int]) by {
                    if watched_count@[i as int] != base[i as int] {
                        let tt = choose|tt: int|
                            0 <= tt < vl.len() && (#[trigger] vl[tt]).0 == i && y0 < pos[vl[tt].0 as int].1 < y1;
                        assert(false);
                    }
                }
                assert(spec_is_watched(watched_count@[i as int]));
                lemma_num_unwatched_strict(orig, watched_count@, i as int);
                assert forall|jj: int|
                    0 <= jj < len implies counter_max(#[trigger] watched_count@[jj]) + 2
                    * num_unwatched(watched_count@) + 2 <= u64::MAX by {
                    assert(counter_max(orig[jj]) + 2 * num_unwatched(orig) + 2 <= u64::MAX);
                    assert(counter_max(base[jj]) <= counter_max(orig[jj]) + 2);
                }
            }
            path.push(i);
            let ghost bp_call = best_path@;
            let ghost bc_call = best_cur;
            let nd = sat_add(dist, de);
            proof {
                assert(nd as int == dist + de);
            }
            let rr = dfs(
                intersection,
                dist_to_start,
                watched_count,
                best_cur,
                nd,
                path,
                best_path,
            );
            if rr < best_cur {
                best_cur = rr;
            }
            let _ = path.pop();
            proof {
                assert(path@ =~= path0);
                if rr < bc_call {
                    assert(is_view_edge(*intersection, u0 as int, i, de));
                    assert(path_step_ok(*intersection, path0.last(), i));
                    lemma_extends_shrink(*intersection, path0, i, best_path@);
                    let c2 = choose|c2: int|
                        #[trigger] extends_cost(
                            *intersection,
                            path0.push(i),
                            best_path@,
                            c2,
                        ) && rr as int == nd + c2 + dist_to_start@[best_path@.last() as int];
                    assert(step_cost_ok(*intersection, path0.last(), i, de as int));
                    lemma_extends_cost_shrink(
                        *intersection,
                        path0,
                        i,
                        best_path@,
                        c2,
                        de as int,
                    );
                    assert(extends_cost(*intersection, path0, best_path@, c2 + de));
                    assert(best_cur as int == dist + (c2 + de) + dist_to_start@[
                        best_path@.last() as int
                    ]);
                } else {
                    assert(best_path@ == bp_call);
                }
            }
            *watched_count = copy_row(&saved);
            expanded = true;
        }
        k += 1;
    }

    if !expanded {
        match bfs(intersection, watched_count, u0) {
            None => {},
            Some((dr, pp)) => {
                let iend = pp[pp.len() - 1];
                let lb = sat_add(sat_add(dist, dr), dist_to_start[iend]);
                if lb < best_cur {
                    proof {
                        lemma_unwatched_at(orig, iend as int);
                    }
                    let mut c = watched_count[iend];
                    c.incr_h();
                    c.incr_v();
                    watched_count[iend] = c;
                    proof {
                        assert(spec_is_watched(watched_count@[iend as int]));
                        assert forall|jj: int|
                            0 <= jj < len && spec_is_watched(orig[jj]) implies spec_is_watched(
                            #[trigger] watched_count@[jj],
                        ) by {}
                        lemma_num_unwatched_strict(orig, watched_count@, iend as int);
                        assert forall|jj: int|
                            0 <= jj < len implies counter_max(#[trigger] watched_count@[jj]) + 2
                            * num_unwatched(watched_count@) + 2 <= u64::MAX by {
                            assert(counter_max(orig[jj]) + 2 * num_unwatched(orig) + 2
                                <= u64::MAX);
                        }
                    }
                    let mut t: usize = 0;
                    while t < pp.len()
                        invariant
                            t <= pp@.len(),
                            path@ == path0 + pp@.subrange(0, t as int),
                            forall|q: int| 0 <= q < path0.len() ==> (#[trigger] path0[q] as int) < len,
                            forall|q: int|
                                0 <= q < pp@.len() ==> (#[trigger] pp@[q] as int) < len,
                        decreases pp@.len() - t,
                    {
                        proof {
                            assert(path0 + pp@.subrange(0, t as int) =~= path@);
                        }
                        path.push(pp[t]);
                        proof {
                            assert(path@ =~= path0 + pp@.subrange(0, t + 1));
                        }
                        t += 1;
                    }
                    proof {
                        assert(pp@.subrange(0, pp@.len() as int) =~= pp@);
                        assert(path@.last() == pp@.last());
                        assert forall|q: int|
                            0 <= q < path@.len() implies (#[trigger] path@[q] as int) < len by {
                            if q < path0.len() {
                                assert(path@[q] == path0[q]);
                            } else {
                                assert(path@[q] == pp@[q - path0.len()]);
                            }
                        }
                    }
                    let ghost bp_call = best_path@;
                    let ghost bc_call = best_cur;
                    let nd = sat_add(dist, dr);
                    proof {
                        assert(nd as int == dist + dr);
                    }
                    let rr = dfs(
                        intersection,
                        dist_to_start,
                        watched_count,
                        best_cur,
                        nd,
                        path,
                        best_path,
                    );
                    if rr < best_cur {
                        best_cur = rr;
                    }
                    let mut t: usize = 0;
                    while t < pp.len()
                        invariant
                            t <= pp@.len(),
                            path@ == path0 + pp@.subrange(0, (pp@.len() - t) as int),
                        decreases pp@.len() - t,
                    {
                        let _ = path.pop();
                        proof {
                            assert(path@ =~= path0 + pp@.subrange(
                                0,
                                (pp@.len() - t - 1) as int,
                            ));
                        }
                        t += 1;
                    }
                    proof {
                        assert(path@ =~= path0);
                        if rr < bc_call {
                            lemma_view_path_steps(*intersection, pp@, dr as int);
                            assert forall|q: int| 0 <= q < pp@.len() implies path_step_ok(
                                *intersection,
                                if q == 0 {
                                    path0.last()
                                } else {
                                    pp@[q - 1]
                                },
                                #[trigger] pp@[q],
                            ) by {
                                if q == 0 {
                                    assert(pp@[0] == u0);
                                    assert(path0.last() == u0);
                                }
                            }
                            lemma_extends_shrink_many(*intersection, path0, pp@, best_path@);
                            let c2 = choose|c2: int|
                                #[trigger] extends_cost(
                                    *intersection,
                                    path0 + pp@,
                                    best_path@,
                                    c2,
                                ) && rr as int == nd + c2 + dist_to_start@[
                                    best_path@.last() as int
                                ];
                            lemma_extends_cost_splice(*intersection, path0, pp@, dr as int);
                            lemma_extends_cost_trans(
                                *intersection,
                                path0,
                                path0 + pp@,
                                best_path@,
                                dr as int,
                                c2,
                            );
                            assert(extends_cost(*intersection, path0, best_path@, dr + c2));
                            assert(best_cur as int == dist + (dr + c2) + dist_to_start@[
                                best_path@.last() as int
                            ]);
                        } else {
                            assert(best_path@ == bp_call);
                        }
                    }
                    *watched_count = copy_row(&saved);
                }
            },
        }
    }
    best_cur
}

} // verus!
