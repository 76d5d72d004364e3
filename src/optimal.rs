use vstd::prelude::*;

use crate::grid::{
    adjacent, around, is_walk, lemma_adjacent_is_around, lemma_index_in_range,
    lemma_manhattan_triangle, lemma_passable_only_contains, lemma_walk_at_least_manhattan,
    manhattan, neighbor_seq, reachable, GridView, Pos,
};
use crate::machine::{min_index, pop_state, relax, relax_all, settle, step_spec, SearchView};
use crate::node::{node_lt, SearchNode};
use crate::search_inv::{
    all_entries, closed_have_best, core_ok, entry_ok, inv_core, lemma_count_true_bound,
    lemma_index_ne,
    lemma_min_index, lemma_neighbors_adjacent, lemma_popped_is_best, lemma_relax_all,
    lemma_settle, lemma_step_core, relax_ctx, sizes_ok, witnessed,
};

verus! {

/// Each passable neighbour of a settled cell is settled, or has a cost at
/// most one more than the settled cell's.
#[verifier::opaque]
pub open spec fn frontier_closed(st: SearchView) -> bool {
    forall|c: Pos, m: Pos|
        #![trigger st.closed_at(c), st.best_at(m)]
        st.grid.in_bounds(c) && st.closed_at(c) && st.grid.passable(m) && adjacent(c, m)
            ==> st.closed_at(m) || (st.best_at(m) is Some && st.best_at(m).unwrap()
            <= st.best_at(c).unwrap() + 1)
}

/// The cost of each settled cell is no more than the length of any walk
/// from the start to it.
#[verifier::opaque]
pub open spec fn closed_optimal(st: SearchView) -> bool {
    forall|w: Seq<Pos>|
        #![trigger is_walk(st.grid, w)]
        is_walk(st.grid, w) && w[0] == st.start && st.closed_at(w.last()) ==> st.best_at(
            w.last(),
        ).unwrap() <= w.len() - 1
}

/// The cost of the goal is no more than the length of any walk to it.
pub open spec fn end_optimal(st: SearchView) -> bool {
    forall|w: Seq<Pos>|
        #![trigger is_walk(st.grid, w)]
        is_walk(st.grid, w) && w[0] == st.start && w.last() == st.end ==> st.best_at(
            st.end,
        ).unwrap() <= w.len() - 1
}

/// What holds of every state that a search passes through, with what makes
/// its outcome right.
pub open spec fn inv_full(st: SearchView) -> bool {
    &&& inv_core(st)
    &&& st.status is Running ==> frontier_closed(st) && closed_optimal(st)
    &&& st.status is Found ==> end_optimal(st)
    &&& st.status is NotFound ==> !reachable(st.grid, st.start, st.end)
}

/// Cost only falls under relaxation, and never at a settled cell.
pub open spec fn costs_fall(a: SearchView, b: SearchView) -> bool {
    &&& forall|p: Pos|
        #![trigger b.best_at(p)]
        a.grid.in_bounds(p) && a.best_at(p) is Some ==> b.best_at(p) is Some
            && b.best_at(p).unwrap() <= a.best_at(p).unwrap()
    &&& forall|p: Pos|
        #![trigger b.best_at(p)]
        a.grid.in_bounds(p) && a.closed_at(p) ==> b.best_at(p) == a.best_at(p)
}

proof fn lemma_relax_falls(st: SearchView, cur: SearchNode, m: Pos)
    requires
        relax_ctx(st, cur),
        adjacent(cur.position, m),
    ensures
        costs_fall(st, relax(st, cur, m)),
        st.grid.passable(m) ==> relax(st, cur, m).closed_at(m) || (relax(st, cur, m).best_at(
            m,
        ) is Some && relax(st, cur, m).best_at(m).unwrap() <= cur.g_score + 1),
{
    let g = st.grid;
    let r = relax(st, cur, m);
    let i = g.index(m);
    if g.passable(m) && !st.closed[i] && (st.best_g[i] is None || cur.g_score + 1
        < st.best_g[i].unwrap()) {
        lemma_index_in_range(g, m);
        assert forall|p: Pos|
            #![trigger r.best_at(p)]
            g.in_bounds(p) && st.best_at(p) is Some implies r.best_at(p) is Some
                && r.best_at(p).unwrap() <= st.best_at(p).unwrap() by {
            if p != m {
                lemma_index_ne(g, p, m);
            }
        }
        assert forall|p: Pos|
            #![trigger r.best_at(p)]
            g.in_bounds(p) && st.closed_at(p) implies r.best_at(p) == st.best_at(p) by {
            if p != m {
                lemma_index_ne(g, p, m);
            }
        }
        lemma_count_true_bound(st.closed);
    }
}

proof fn lemma_relax_all_falls(st: SearchView, cur: SearchNode, ms: Seq<Pos>)
    requires
        relax_ctx(st, cur),
        forall|k: int| 0 <= k < ms.len() ==> adjacent(cur.position, #[trigger] ms[k]),
    ensures
        costs_fall(st, relax_all(st, cur, ms)),
        forall|k: int|
            0 <= k < ms.len() && st.grid.passable(#[trigger] ms[k]) ==> relax_all(
                st,
                cur,
                ms,
            ).closed_at(ms[k]) || (relax_all(st, cur, ms).best_at(ms[k]) is Some && relax_all(
                st,
                cur,
                ms,
            ).best_at(ms[k]).unwrap() <= cur.g_score + 1),
    decreases ms.len(),
{
    if ms.len() > 0 {
        let t = ms.drop_last();
        assert forall|k: int| 0 <= k < t.len() implies adjacent(cur.position, #[trigger] t[k]) by {
            assert(t[k] == ms[k]);
        }
        lemma_relax_all_falls(st, cur, t);
        lemma_relax_all(st, cur, t);
        let mid = relax_all(st, cur, t);
        let r = relax_all(st, cur, ms);
        assert(adjacent(cur.position, ms[ms.len() - 1]));
        lemma_relax_falls(mid, cur, ms.last());
        assert(r == relax(mid, cur, ms.last()));
        assert forall|k: int|
            0 <= k < ms.len() && st.grid.passable(#[trigger] ms[k]) implies r.closed_at(ms[k]) || (
            r.best_at(ms[k]) is Some && r.best_at(ms[k]).unwrap() <= cur.g_score + 1) by {
            if k < ms.len() - 1 {
                assert(t[k] == ms[k]);
                let q = ms[k];
                if !mid.closed_at(q) {
                    assert(mid.best_at(q) is Some);
                    assert(r.best_at(q) is Some && r.best_at(q).unwrap() <= mid.best_at(q).unwrap());
                }
            }
        }
        assert forall|p: Pos|
            #![trigger r.best_at(p)]
            st.grid.in_bounds(p) && st.best_at(p) is Some implies r.best_at(p) is Some
                && r.best_at(p).unwrap() <= st.best_at(p).unwrap() by {
            assert(mid.best_at(p) is Some);
        }
        assert forall|p: Pos|
            #![trigger r.best_at(p)]
            st.grid.in_bounds(p) && st.closed_at(p) implies r.best_at(p) == st.best_at(p) by {
            assert(mid.best_at(p) == st.best_at(p));
        }
    }
}

pub proof fn lemma_walk_prefix(g: GridView, w: Seq<Pos>, i: int)
    requires
        is_walk(g, w),
        1 <= i <= w.len(),
    ensures
        is_walk(g, w.take(i)),
        w.take(i)[0] == w[0],
        w.take(i).last() == w[i - 1],
{
    let t = w.take(i);
    assert forall|j: int| 0 <= j < t.len() implies g.passable(#[trigger] t[j]) by {
        assert(t[j] == w[j]);
    }
    assert forall|j: int| 0 <= j < t.len() - 1 implies adjacent(#[trigger] t[j], t[j + 1]) by {
        assert(t[j] == w[j]);
        assert(t[j + 1] == w[j + 1]);
    }
}

/// Along a walk from the start whose first `i` cells are settled and whose
/// last cell is not, the frontier holds an entry whose priority is at most
/// the walk's length plus the heuristic of its last cell.
proof fn lemma_scan(st: SearchView, w: Seq<Pos>, i: int)
    requires
        sizes_ok(st),
        core_ok(st),
        witnessed(st),
        frontier_closed(st),
        closed_optimal(st),
        is_walk(st.grid, w),
        w[0] == st.start,
        0 <= i < w.len(),
        forall|j: int| 0 <= j < i ==> st.closed_at(#[trigger] w[j]),
        !st.closed_at(w.last()),
    ensures
        exists|k: int|
            0 <= k < st.open.len() && (#[trigger] st.open[k]).f_score <= w.len() - 1 + manhattan(
                w.last(),
                st.end,
            ),
    decreases w.len() - i,
{
    let g = st.grid;
    if st.closed_at(w[i]) {
        assert(i < w.len() - 1);
        lemma_scan(st, w, i + 1);
    } else {
        let p = w[i];
        assert(g.passable(p));
        lemma_walk_at_least_manhattan(g, w, i);
        lemma_manhattan_triangle(p, w.last(), st.end);
        if i > 0 {
            let c = w[i - 1];
            assert(st.closed_at(c));
            assert(adjacent(c, p));
            assert(g.passable(c));
            reveal(frontier_closed);
            assert(st.closed_at(c) && st.best_at(p) == st.best_at(p));
            lemma_walk_prefix(g, w, i);
            reveal(closed_optimal);
            assert(is_walk(g, w.take(i)));
            reveal(closed_have_best);
            assert(st.best_at(c) is Some);
            assert(st.best_at(c).unwrap() <= i - 1);
        }
        assert(st.best_at(p) is Some && st.best_at(p).unwrap() <= i);
        reveal(witnessed);
        reveal(all_entries);
        let k = choose|k: int|
            0 <= k < st.open.len() && (#[trigger] st.open[k]).position == p
                && st.open[k].g_score == st.best_at(p).unwrap();
        assert(entry_ok(st, st.open[k]));
    }
}

/// The entry that leaves the frontier for an unsettled cell costs no more
/// than any walk from the start to that cell.
proof fn lemma_pop_bound(st: SearchView, w: Seq<Pos>)
    requires
        inv_core(st),
        st.status is Running,
        frontier_closed(st),
        closed_optimal(st),
        st.open.len() > 0,
        !st.closed_at(st.open[min_index(st.open)].position),
        is_walk(st.grid, w),
        w[0] == st.start,
        w.last() == st.open[min_index(st.open)].position,
    ensures
        st.open[min_index(st.open)].g_score <= w.len() - 1,
{
    lemma_scan(st, w, 0);
    lemma_min_index(st.open);
    let cur = st.open[min_index(st.open)];
    let k = choose|k: int|
        0 <= k < st.open.len() && (#[trigger] st.open[k]).f_score <= w.len() - 1 + manhattan(
            w.last(),
            st.end,
        );
    assert(!node_lt(st.open[k], cur));
    reveal(all_entries);
    assert(entry_ok(st, cur));
}

/// With an empty frontier, no walk joins the start to the goal.
proof fn lemma_exhausted(st: SearchView)
    requires
        inv_core(st),
        st.status is Running,
        frontier_closed(st),
        closed_optimal(st),
        st.open.len() == 0,
    ensures
        !reachable(st.grid, st.start, st.end),
{
    assert forall|w: Seq<Pos>| is_walk(st.grid, w) && w[0] == st.start implies w.last() != st.end by {
        if w.last() == st.end {
            lemma_scan(st, w, 0);
        }
    }
}

proof fn lemma_same_costs(a: SearchView, b: SearchView)
    requires
        frontier_closed(a),
        closed_optimal(a),
        b.grid == a.grid,
        b.start == a.start,
        b.closed == a.closed,
        b.best_g == a.best_g,
    ensures
        frontier_closed(b),
        closed_optimal(b),
{
    reveal(frontier_closed);
    reveal(closed_optimal);
    assert forall|c: Pos, m: Pos|
        #![trigger b.closed_at(c), b.best_at(m)]
        b.grid.in_bounds(c) && b.closed_at(c) && b.grid.passable(m) && adjacent(c, m) implies b.closed_at(
            m,
        ) || (b.best_at(m) is Some && b.best_at(m).unwrap() <= b.best_at(c).unwrap() + 1) by {
        assert(a.closed_at(c) && a.best_at(m) == b.best_at(m));
    }
    assert forall|w: Seq<Pos>|
        #![trigger is_walk(b.grid, w)]
        is_walk(b.grid, w) && w[0] == b.start && b.closed_at(w.last()) implies b.best_at(
            w.last(),
        ).unwrap() <= w.len() - 1 by {
        assert(is_walk(a.grid, w));
    }
}

/// Expanding an entry keeps the settled costs least and the frontier closed.
proof fn lemma_expand_full(st: SearchView)
    requires
        inv_core(st),
        st.status is Running,
        frontier_closed(st),
        closed_optimal(st),
        st.open.len() > 0,
        !st.closed_at(st.open[min_index(st.open)].position),
        st.open[min_index(st.open)].position != st.end,
    ensures
        frontier_closed(step_spec(st)),
        closed_optimal(step_spec(st)),
        step_spec(st).status is Running,
{
    let g = st.grid;
    lemma_min_index(st.open);
    let cur = st.open[min_index(st.open)];
    let c0 = cur.position;
    let settled = settle(pop_state(st), cur);
    let ns = neighbor_seq(g, c0);
    let new = step_spec(st);
    lemma_settle(st);
    lemma_popped_is_best(st);
    lemma_neighbors_adjacent(g, c0);
    lemma_relax_all(settled, cur, ns);
    lemma_relax_all_falls(settled, cur, ns);
    assert(new == relax_all(settled, cur, ns));
    lemma_index_in_range(g, c0);
    assert(settled.closed_at(c0));
    assert(new.best_at(c0) == Some(cur.g_score));
    // Settled cells of `new`: the cells settled before, and `c0`.
    assert forall|p: Pos| g.in_bounds(p) && new.closed_at(p) && p != c0 implies st.closed_at(p) by {
        lemma_index_ne(g, p, c0);
    }
    assert forall|p: Pos| g.in_bounds(p) && st.closed_at(p) implies new.closed_at(p) by {
        if p != c0 {
            lemma_index_ne(g, p, c0);
        }
    }
    assert(closed_optimal(new)) by {
        reveal(closed_optimal);
        assert forall|w: Seq<Pos>|
            #![trigger is_walk(new.grid, w)]
            is_walk(new.grid, w) && w[0] == new.start && new.closed_at(w.last()) implies new.best_at(
                w.last(),
            ).unwrap() <= w.len() - 1 by {
            let q = w.last();
            assert(g.passable(w[w.len() - 1]));
            if q == c0 {
                lemma_pop_bound(st, w);
            } else {
                assert(st.closed_at(q));
                assert(is_walk(st.grid, w));
                assert(settled.best_at(q) == st.best_at(q));
                assert(settled.closed_at(q));
                assert(new.best_at(q) == settled.best_at(q));
            }
        }
    }
    assert(frontier_closed(new)) by {
        reveal(frontier_closed);
        assert forall|c: Pos, m: Pos|
            #![trigger new.closed_at(c), new.best_at(m)]
            g.in_bounds(c) && new.closed_at(c) && g.passable(m) && adjacent(c, m) implies new.closed_at(
                m,
            ) || (new.best_at(m) is Some && new.best_at(m).unwrap() <= new.best_at(c).unwrap()
                + 1) by {
            if c == c0 {
                lemma_adjacent_is_around(g, c0, m);
                lemma_passable_only_contains(g, around(c0), m);
                assert(ns.contains(m));
                let k = choose|k: int| 0 <= k < ns.len() && ns[k] == m;
                assert(g.passable(ns[k]));
            } else {
                assert(st.closed_at(c));
                assert(st.closed_at(c) && st.best_at(m) == st.best_at(m));
                assert(settled.closed_at(c));
                assert(new.best_at(c) == settled.best_at(c));
                assert(settled.best_at(c) == st.best_at(c));
                if !st.closed_at(m) {
                    assert(st.best_at(m) is Some);
                    assert(settled.best_at(m) == st.best_at(m));
                    assert(new.best_at(m) is Some);
                }
            }
        }
    }
}

/// One step keeps the full invariant.
pub proof fn lemma_step_full(st: SearchView)
    requires
        inv_full(st),
    ensures
        inv_full(step_spec(st)),
{
    lemma_step_core(st);
    if st.status is Running {
        if st.open.len() == 0 {
            lemma_exhausted(st);
            assert(inv_full(step_spec(st)));
        } else {
            lemma_min_index(st.open);
            let cur = st.open[min_index(st.open)];
            let popped = pop_state(st);
            if st.closed_at(cur.position) {
                lemma_same_costs(st, popped);
                assert(step_spec(st) == popped);
                assert(inv_full(step_spec(st)));
            } else if cur.position == st.end {
                lemma_popped_is_best(st);
                let fin = step_spec(st);
                assert forall|w: Seq<Pos>|
                    #![trigger is_walk(fin.grid, w)]
                    is_walk(fin.grid, w) && w[0] == fin.start && w.last() == fin.end implies fin.best_at(
                        fin.end,
                    ).unwrap() <= w.len() - 1 by {
                    lemma_pop_bound(st, w);
                }
                assert(end_optimal(fin));
                assert(inv_full(fin));
            } else {
                lemma_expand_full(st);
                assert(inv_full(step_spec(st)));
            }
        }
    }
}

} // verus!
