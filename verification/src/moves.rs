//! Unit-move semantics: the meaning of a `U`/`D`/`L`/`R` move string as a
//! walk over the grid, with its endpoint and travel cost.

use vstd::prelude::*;

use crate::grid::{cost, is_road, Cell};

verus! {

/// One unit step from a position. `U` decreases the row, `D` increases it,
/// `L` decreases the column, `R` increases it; any other byte stands still.
pub open spec fn step_pos(p: (int, int), c: u8) -> (int, int) {
    if c == 85 {
        (p.0, p.1 - 1)
    } else if c == 68 {
        (p.0, p.1 + 1)
    } else if c == 76 {
        (p.0 - 1, p.1)
    } else if c == 82 {
        (p.0 + 1, p.1)
    } else {
        p
    }
}

/// Every step of the walk lands on a road cell.
pub open spec fn walk_ok(map: Seq<Seq<Cell>>, p: (int, int), s: Seq<u8>) -> bool
    decreases s.len(),
{
    if s.len() == 0 {
        true
    } else {
        let q = step_pos(p, s[0]);
        is_road(map, q.0, q.1) && walk_ok(map, q, s.drop_first())
    }
}

/// Where the walk ends.
pub open spec fn walk_end(p: (int, int), s: Seq<u8>) -> (int, int)
    decreases s.len(),
{
    if s.len() == 0 {
        p
    } else {
        walk_end(step_pos(p, s[0]), s.drop_first())
    }
}

/// The cost of the cells the walk leaves: each step pays the cost of the
/// cell it departs from. This matches the forward travel cost of the same
/// path walked in the opposite direction, which pays for each cell entered.
pub open spec fn walk_leave_cost(map: Seq<Seq<Cell>>, p: (int, int), s: Seq<u8>) -> int
    decreases s.len(),
{
    if s.len() == 0 {
        0
    } else {
        cost(map[p.1][p.0]) + walk_leave_cost(map, step_pos(p, s[0]), s.drop_first())
    }
}

/// The cost of the cells the walk enters: each step pays the cost of the
/// cell it arrives on, so a walk from the start cell pays the standard
/// forward travel cost, with the start cell itself free.
pub open spec fn walk_enter_cost(map: Seq<Seq<Cell>>, p: (int, int), s: Seq<u8>) -> int
    decreases s.len(),
{
    if s.len() == 0 {
        0
    } else {
        let q = step_pos(p, s[0]);
        cost(map[q.1][q.0]) + walk_enter_cost(map, q, s.drop_first())
    }
}

/// Splits the last move off a walk.
pub proof fn lemma_walk_unsnoc(map: Seq<Seq<Cell>>, p: (int, int), s: Seq<u8>)
    requires
        s.len() >= 1,
    ensures
        walk_end(p, s) == step_pos(walk_end(p, s.drop_last()), s.last()),
        walk_ok(map, p, s) == (walk_ok(map, p, s.drop_last()) && is_road(
            map,
            walk_end(p, s).0,
            walk_end(p, s).1,
        )),
        walk_enter_cost(map, p, s) == walk_enter_cost(map, p, s.drop_last()) + cost(
            map[walk_end(p, s).1][walk_end(p, s).0],
        ),
    decreases s.len(),
{
    let q = step_pos(p, s[0]);
    if s.len() == 1 {
        assert(s.drop_last() =~= Seq::<u8>::empty());
        assert(s.drop_first() =~= Seq::<u8>::empty());
        assert(s.last() == s[0]);
        assert(walk_end(p, s) == walk_end(q, s.drop_first()));
        assert(walk_end(q, s.drop_first()) == q);
        assert(walk_end(p, s.drop_last()) == p);
        assert(walk_ok(map, q, s.drop_first()));
        assert(walk_ok(map, p, s.drop_last()));
        assert(walk_ok(map, p, s) == (is_road(map, q.0, q.1) && walk_ok(
            map,
            q,
            s.drop_first(),
        )));
        assert(walk_enter_cost(map, q, s.drop_first()) == 0);
        assert(walk_enter_cost(map, p, s.drop_last()) == 0);
        assert(walk_enter_cost(map, p, s) == cost(map[q.1][q.0]) + walk_enter_cost(
            map,
            q,
            s.drop_first(),
        ));
    } else {
        lemma_walk_unsnoc(map, q, s.drop_first());
        assert(s.drop_first().drop_last() =~= s.drop_last().drop_first());
        assert(s.drop_first().last() == s.last());
        assert(s.drop_last()[0] == s[0]);
        assert(step_pos(p, s.drop_last()[0]) == q);
    }
}

/// Every step of a non-empty walk from a road cell, including its endpoint,
/// lies on a road.
pub proof fn lemma_walk_end_road(map: Seq<Seq<Cell>>, p: (int, int), s: Seq<u8>)
    requires
        walk_ok(map, p, s),
        is_road(map, p.0, p.1),
    ensures
        is_road(map, walk_end(p, s).0, walk_end(p, s).1),
    decreases s.len(),
{
    if s.len() >= 1 {
        lemma_walk_unsnoc(map, p, s);
    }
}

/// Unfolds one leading move of a walk.
pub proof fn lemma_walk_cons(map: Seq<Seq<Cell>>, p: (int, int), c: u8, t: Seq<u8>)
    ensures
        walk_ok(map, p, seq![c] + t) == (is_road(map, step_pos(p, c).0, step_pos(p, c).1)
            && walk_ok(map, step_pos(p, c), t)),
        walk_end(p, seq![c] + t) == walk_end(step_pos(p, c), t),
        walk_leave_cost(map, p, seq![c] + t) == cost(map[p.1][p.0]) + walk_leave_cost(
            map,
            step_pos(p, c),
            t,
        ),
{
    let u = seq![c] + t;
    assert(u[0] == c);
    assert(u.drop_first() =~= t);
}

/// Appending one move and reversing is reversing and prepending it.
pub proof fn lemma_reverse_push(s: Seq<u8>, c: u8)
    ensures
        s.push(c).reverse() =~= seq![c] + s.reverse(),
{
}

/// A walk over a concatenation is the two walks in turn.
pub proof fn lemma_walk_append(map: Seq<Seq<Cell>>, p: (int, int), s: Seq<u8>, t: Seq<u8>)
    ensures
        walk_end(p, s + t) == walk_end(walk_end(p, s), t),
        walk_ok(map, p, s + t) == (walk_ok(map, p, s) && walk_ok(map, walk_end(p, s), t)),
        walk_leave_cost(map, p, s + t) == walk_leave_cost(map, p, s) + walk_leave_cost(
            map,
            walk_end(p, s),
            t,
        ),
    decreases s.len(),
{
    if s.len() == 0 {
        assert(s + t =~= t);
    } else {
        let q = step_pos(p, s[0]);
        lemma_walk_append(map, q, s.drop_first(), t);
        assert((s + t).drop_first() =~= s.drop_first() + t);
        assert((s + t)[0] == s[0]);
    }
}

} // verus!
