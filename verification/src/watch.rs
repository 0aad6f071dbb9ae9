//! Per-intersection observation state: counters sized to the intersection's
//! type, with a satisfaction predicate and reversible increments.

use vstd::prelude::*;

verus! {

/// Observation counters for one intersection. A `Corner` needs one
/// observation from either axis; a full cross (`J`) needs one from each
/// axis; a T-junction missing a vertical side (`T1`) only counts horizontal
/// observations, and one missing a horizontal side (`T2`) only vertical.
#[derive(Debug, Copy, Clone, PartialEq, Eq, Structural)]
pub enum WatchedCount {
    Corner(u64),
    J { h: u64, v: u64 },
    T1 { h: u64 },
    T2 { v: u64 },
}

pub open spec fn spec_is_watched(c: WatchedCount) -> bool {
    match c {
        WatchedCount::Corner(n) => n > 0,
        WatchedCount::J { h, v } => h > 0 && v > 0,
        WatchedCount::T1 { h } => h > 0,
        WatchedCount::T2 { v } => v > 0,
    }
}

pub open spec fn spec_incr_h(c: WatchedCount) -> WatchedCount {
    match c {
        WatchedCount::Corner(n) => WatchedCount::Corner((n + 1) as u64),
        WatchedCount::J { h, v } => WatchedCount::J { h: (h + 1) as u64, v },
        WatchedCount::T1 { h } => WatchedCount::T1 { h: (h + 1) as u64 },
        WatchedCount::T2 { v } => WatchedCount::T2 { v },
    }
}

pub open spec fn spec_incr_v(c: WatchedCount) -> WatchedCount {
    match c {
        WatchedCount::Corner(n) => WatchedCount::Corner((n + 1) as u64),
        WatchedCount::J { h, v } => WatchedCount::J { h, v: (v + 1) as u64 },
        WatchedCount::T1 { h } => WatchedCount::T1 { h },
        WatchedCount::T2 { v } => WatchedCount::T2 { v: (v + 1) as u64 },
    }
}

pub open spec fn spec_decr_h(c: WatchedCount) -> WatchedCount {
    match c {
        WatchedCount::Corner(n) => WatchedCount::Corner((n - 1) as u64),
        WatchedCount::J { h, v } => WatchedCount::J { h: (h - 1) as u64, v },
        WatchedCount::T1 { h } => WatchedCount::T1 { h: (h - 1) as u64 },
        WatchedCount::T2 { v } => WatchedCount::T2 { v },
    }
}

pub open spec fn spec_decr_v(c: WatchedCount) -> WatchedCount {
    match c {
        WatchedCount::Corner(n) => WatchedCount::Corner((n - 1) as u64),
        WatchedCount::J { h, v } => WatchedCount::J { h, v: (v - 1) as u64 },
        WatchedCount::T1 { h } => WatchedCount::T1 { h },
        WatchedCount::T2 { v } => WatchedCount::T2 { v: (v - 1) as u64 },
    }
}

/// True when the counter that `incr_h` bumps has room to grow.
pub open spec fn can_incr_h(c: WatchedCount) -> bool {
    match c {
        WatchedCount::Corner(n) => n < u64::MAX,
        WatchedCount::J { h, v: _ } => h < u64::MAX,
        WatchedCount::T1 { h } => h < u64::MAX,
        WatchedCount::T2 { v: _ } => true,
    }
}

pub open spec fn can_incr_v(c: WatchedCount) -> bool {
    match c {
        WatchedCount::Corner(n) => n < u64::MAX,
        WatchedCount::J { h: _, v } => v < u64::MAX,
        WatchedCount::T1 { h: _ } => true,
        WatchedCount::T2 { v } => v < u64::MAX,
    }
}

/// True when the counter that `decr_h` lowers is positive.
pub open spec fn can_decr_h(c: WatchedCount) -> bool {
    match c {
        WatchedCount::Corner(n) => n > 0,
        WatchedCount::J { h, v: _ } => h > 0,
        WatchedCount::T1 { h } => h > 0,
        WatchedCount::T2 { v: _ } => true,
    }
}

pub open spec fn can_decr_v(c: WatchedCount) -> bool {
    match c {
        WatchedCount::Corner(n) => n > 0,
        WatchedCount::J { h: _, v } => v > 0,
        WatchedCount::T1 { h: _ } => true,
        WatchedCount::T2 { v } => v > 0,
    }
}

/// The largest counter held, used to bound counter growth during search.
pub open spec fn counter_max(c: WatchedCount) -> int {
    match c {
        WatchedCount::Corner(n) => n as int,
        WatchedCount::J { h, v } => if h >= v { h as int } else { v as int },
        WatchedCount::T1 { h } => h as int,
        WatchedCount::T2 { v } => v as int,
    }
}

impl WatchedCount {
    pub fn is_watched(self) -> (r: bool)
        ensures
            r == spec_is_watched(self),
    {
        match self {
            WatchedCount::Corner(n) => n > 0,
            WatchedCount::J { h, v } => h > 0 && v > 0,
            WatchedCount::T1 { h } => h > 0,
            WatchedCount::T2 { v } => v > 0,
        }
    }

    pub fn incr_h(&mut self)
        requires
            can_incr_h(*old(self)),
        ensures
            *final(self) == spec_incr_h(*old(self)),
    {
        match self {
            WatchedCount::Corner(n) => *n += 1,
            WatchedCount::J { h, .. } => *h += 1,
            WatchedCount::T1 { h } => *h += 1,
            WatchedCount::T2 { .. } => (),
        }
    }

    pub fn incr_v(&mut self)
        requires
            can_incr_v(*old(self)),
        ensures
            *final(self) == spec_incr_v(*old(self)),
    {
        match self {
            WatchedCount::Corner(n) => *n += 1,
            WatchedCount::J { v, .. } => *v += 1,
            WatchedCount::T1 { .. } => (),
            WatchedCount::T2 { v } => *v += 1,
        }
    }

    pub fn decr_h(&mut self)
        requires
            can_decr_h(*old(self)),
        ensures
            *final(self) == spec_decr_h(*old(self)),
    {
        match self {
            WatchedCount::Corner(n) => *n -= 1,
            WatchedCount::J { h, .. } => *h -= 1,
            WatchedCount::T1 { h } => *h -= 1,
            WatchedCount::T2 { .. } => (),
        }
    }

    pub fn decr_v(&mut self)
        requires
            can_decr_v(*old(self)),
        ensures
            *final(self) == spec_decr_v(*old(self)),
    {
        match self {
            WatchedCount::Corner(n) => *n -= 1,
            WatchedCount::J { v, .. } => *v -= 1,
            WatchedCount::T1 { .. } => (),
            WatchedCount::T2 { v } => *v -= 1,
        }
    }
}

/// The observation predicate is monotone non-decreasing under either
/// increment: a satisfied intersection stays satisfied.
pub proof fn lemma_watch_monotone_incr(c: WatchedCount)
    requires
        can_incr_h(c),
        can_incr_v(c),
    ensures
        spec_is_watched(c) ==> spec_is_watched(spec_incr_h(c)),
        spec_is_watched(c) ==> spec_is_watched(spec_incr_v(c)),
{
}

/// An increment followed by its matching decrement restores the state
/// bit for bit, on either axis.
pub proof fn lemma_watch_incr_decr(c: WatchedCount)
    requires
        can_incr_h(c),
        can_incr_v(c),
    ensures
        spec_decr_h(spec_incr_h(c)) == c,
        spec_decr_v(spec_incr_v(c)) == c,
{
}

/// How many entries of a watch-state array are still unsatisfied.
pub open spec fn num_unwatched(s: Seq<WatchedCount>) -> nat
    decreases s.len(),
{
    if s.len() == 0 {
        0
    } else {
        num_unwatched(s.drop_last()) + if spec_is_watched(s.last()) {
            0nat
        } else {
            1nat
        }
    }
}

/// Every intersection of the array is satisfied.
pub open spec fn all_watched(s: Seq<WatchedCount>) -> bool {
    forall|j: int| 0 <= j < s.len() ==> spec_is_watched(#[trigger] s[j])
}

/// Room left for the search: each counter can still take two increments per
/// remaining unsatisfied intersection.
pub open spec fn counters_admit(s: Seq<WatchedCount>) -> bool {
    forall|j: int|
        0 <= j < s.len() ==> counter_max(#[trigger] s[j]) + 2 * num_unwatched(s) + 2 <= u64::MAX
}

pub proof fn lemma_num_unwatched_le_len(s: Seq<WatchedCount>)
    ensures
        num_unwatched(s) <= s.len(),
    decreases s.len(),
{
    if s.len() > 0 {
        lemma_num_unwatched_le_len(s.drop_last());
    }
}

/// One unsatisfied entry makes `num_unwatched` positive.
pub proof fn lemma_unwatched_at(s: Seq<WatchedCount>, j: int)
    requires
        0 <= j < s.len(),
        !spec_is_watched(s[j]),
    ensures
        num_unwatched(s) >= 1,
    decreases s.len(),
{
    if j < s.len() - 1 {
        lemma_unwatched_at(s.drop_last(), j);
    }
}

/// Pointwise watchedness dominance keeps `num_unwatched` from growing.
pub proof fn lemma_num_unwatched_monotone(a: Seq<WatchedCount>, b: Seq<WatchedCount>)
    requires
        a.len() == b.len(),
        forall|j: int|
            0 <= j < a.len() && spec_is_watched(#[trigger] a[j]) ==> spec_is_watched(b[j]),
    ensures
        num_unwatched(b) <= num_unwatched(a),
    decreases a.len(),
{
    if a.len() > 0 {
        lemma_num_unwatched_monotone(a.drop_last(), b.drop_last());
        assert(a.last() == a[a.len() - 1]);
    }
}

/// Pointwise dominance plus one entry newly satisfied strictly shrinks
/// `num_unwatched`.
pub proof fn lemma_num_unwatched_strict(a: Seq<WatchedCount>, b: Seq<WatchedCount>, k: int)
    requires
        a.len() == b.len(),
        forall|j: int|
            0 <= j < a.len() && spec_is_watched(#[trigger] a[j]) ==> spec_is_watched(b[j]),
        0 <= k < a.len(),
        !spec_is_watched(a[k]),
        spec_is_watched(b[k]),
    ensures
        num_unwatched(b) < num_unwatched(a),
    decreases a.len(),
{
    if k == a.len() - 1 {
        lemma_num_unwatched_monotone(a.drop_last(), b.drop_last());
    } else {
        lemma_num_unwatched_strict(a.drop_last(), b.drop_last(), k);
    }
}

} // verus!
