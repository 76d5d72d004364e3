use vstd::prelude::*;

use crate::grid::{
    adjacent, around, lemma_index_in_range, lemma_index_injective,
    lemma_manhattan_triangle, lemma_passable_only_all, manhattan, neighbor_seq, GridView, Pos,
};
use crate::machine::{
    entry_for, final_state, init_spec, min_index, pop_state, relax, relax_all, route, settle,
    step_bound, step_spec, steps, SearchView, StatusView,
};
use crate::node::{node_lt, lemma_node_order_transitive, SearchNode};

verus! {

/// The number of `true` entries of `s`.
pub open spec fn count_true(s: Seq<bool>) -> nat
    decreases s.len(),
{
    if s.len() == 0 {
        0
    } else {
        count_true(s.drop_last()) + if s.last() {
            1nat
        } else {
            0nat
        }
    }
}

pub proof fn lemma_count_true_bound(s: Seq<bool>)
    ensures
        count_true(s) <= s.len(),
    decreases s.len(),
{
    if s.len() > 0 {
        lemma_count_true_bound(s.drop_last());
    }
}

pub proof fn lemma_count_true_set(s: Seq<bool>, i: int)
    requires
        0 <= i < s.len(),
        !s[i],
    ensures
        count_true(s.update(i, true)) == count_true(s) + 1,
    decreases s.len(),
{
    let t = s.update(i, true);
    if i == s.len() - 1 {
        assert(t.drop_last() =~= s.drop_last());
    } else {
        assert(t.drop_last() =~= s.drop_last().update(i, true));
        lemma_count_true_set(s.drop_last(), i);
    }
}

pub open spec fn closed_count(st: SearchView) -> nat {
    count_true(st.closed)
}

/// The number that every step of an unfinished search makes smaller.
pub open spec fn measure(st: SearchView) -> int {
    5 * (st.grid.cells() - closed_count(st)) + st.open.len()
}

pub open spec fn sizes_ok(st: SearchView) -> bool {
    &&& st.grid.wf()
    &&& st.closed.len() == st.grid.cells()
    &&& st.best_g.len() == st.grid.cells()
    &&& st.came_from.len() == st.grid.cells()
}

/// A frontier entry: on a passable cell, with the heuristic to the goal, and
/// no cheaper than the best cost recorded for its cell.
pub open spec fn entry_ok(st: SearchView, e: SearchNode) -> bool {
    &&& st.grid.passable(e.position)
    &&& e.h_score == manhattan(e.position, st.end)
    &&& e.f_score == e.g_score + e.h_score
    &&& 0 <= e.g_score <= closed_count(st)
    &&& st.best_at(e.position) is Some
    &&& st.best_at(e.position).unwrap() <= e.g_score
}

/// A cell with a recorded cost: the start has cost 0; any other cell came
/// from a settled neighbour whose cost is one less.
pub open spec fn chain_ok(st: SearchView, p: Pos) -> bool {
    let v = st.best_at(p).unwrap();
    &&& st.grid.passable(p)
    &&& 0 <= v <= closed_count(st)
    &&& p != st.start ==> {
        &&& v >= 1
        &&& st.from_at(p) is Some
        &&& st.grid.in_bounds(st.from_at(p).unwrap())
        &&& st.closed_at(st.from_at(p).unwrap())
        &&& adjacent(p, st.from_at(p).unwrap())
        &&& st.best_at(st.from_at(p).unwrap()) == Some((v - 1) as i32)
    }
}

/// Every unsettled cell with a recorded cost has a frontier entry at that cost.
#[verifier::opaque]
pub open spec fn witnessed(st: SearchView) -> bool {
    forall|p: Pos|
        #![trigger st.best_at(p)]
        st.grid.in_bounds(p) && !st.closed_at(p) && st.best_at(p) is Some ==> exists|j: int|
            0 <= j < st.open.len() && (#[trigger] st.open[j]).position == p
                && st.open[j].g_score == st.best_at(p).unwrap()
}

/// Every settled cell has a recorded cost.
#[verifier::opaque]
pub open spec fn closed_have_best(st: SearchView) -> bool {
    forall|p: Pos| #[trigger] st.closed_at(p) && st.grid.in_bounds(p) ==> st.best_at(p) is Some
}

#[verifier::opaque]
pub open spec fn all_chain(st: SearchView) -> bool {
    forall|p: Pos| #[trigger] st.best_at(p) is Some && st.grid.in_bounds(p) ==> chain_ok(st, p)
}

#[verifier::opaque]
pub open spec fn all_entries(st: SearchView) -> bool {
    forall|k: int| 0 <= k < st.open.len() ==> entry_ok(st, #[trigger] st.open[k])
}

pub open spec fn core_ok(st: SearchView) -> bool {
    &&& st.grid.passable(st.start)
    &&& st.grid.passable(st.end)
    &&& st.best_at(st.start) == Some(0i32)
    &&& !st.closed_at(st.end)
    &&& closed_have_best(st)
    &&& all_chain(st)
    &&& all_entries(st)
}

/// What holds of every state that a search passes through.
pub open spec fn inv_core(st: SearchView) -> bool {
    &&& sizes_ok(st)
    &&& !(st.status is NotFound) ==> core_ok(st)
    &&& st.status is Running ==> witnessed(st)
    &&& st.status is Found ==> st.best_at(st.end) is Some
    &&& st.status matches StatusView::Found(path) ==> path == route(
        st.grid,
        st.came_from,
        st.end,
        st.best_at(st.end).unwrap() as nat,
    )
}

pub proof fn lemma_min_index(s: Seq<SearchNode>)
    requires
        s.len() > 0,
    ensures
        0 <= min_index(s) < s.len(),
        forall|j: int| 0 <= j < s.len() ==> !node_lt(#[trigger] s[j], s[min_index(s)]),
    decreases s.len(),
{
    if s.len() > 1 {
        let t = s.drop_last();
        lemma_min_index(t);
        let j0 = min_index(t);
        assert forall|j: int| 0 <= j < s.len() implies !node_lt(#[trigger] s[j], s[min_index(s)]) by {
            if j < s.len() - 1 {
                assert(t[j] == s[j]);
                if node_lt(s.last(), s[j0]) && node_lt(s[j], s.last()) {
                    lemma_node_order_transitive(s[j], s.last(), s[j0]);
                }
            }
        }
    }
}

/// Positions in bounds have cells in bounds, and the Manhattan distance
/// between two of them fits comfortably in an `i32`.
pub proof fn lemma_manhattan_small(g: GridView, a: Pos, b: Pos)
    requires
        g.wf(),
        g.in_bounds(a),
        g.in_bounds(b),
    ensures
        0 <= manhattan(a, b) <= g.width + g.height,
        g.width + g.height <= 2 * g.cells(),
{
    assert(g.width <= g.width * g.height) by (nonlinear_arith)
        requires
            0 < g.width,
            1 <= g.height,
    ;
    assert(g.height <= g.width * g.height) by (nonlinear_arith)
        requires
            1 <= g.width,
            0 < g.height,
    ;
}

/// What the relaxation of the neighbours of `cur` relies on and keeps.
pub open spec fn relax_ctx(st: SearchView, cur: SearchNode) -> bool {
    &&& sizes_ok(st)
    &&& core_ok(st)
    &&& witnessed(st)
    &&& st.status is Running
    &&& st.grid.in_bounds(cur.position)
    &&& st.closed_at(cur.position)
    &&& st.best_at(cur.position) == Some(cur.g_score)
    &&& 0 <= cur.g_score
    &&& cur.g_score + 1 <= closed_count(st)
}

/// What relaxation leaves alone.
pub open spec fn relax_frame(a: SearchView, b: SearchView) -> bool {
    &&& b.grid == a.grid
    &&& b.start == a.start
    &&& b.end == a.end
    &&& b.closed == a.closed
    &&& b.expanded == a.expanded
    &&& b.status == a.status
    &&& a.open.len() <= b.open.len()
}

/// The neighbour `m` of `cur` gets a cheaper cost when relaxed.
pub open spec fn improves(st: SearchView, cur: SearchNode, m: Pos) -> bool {
    let i = st.grid.index(m);
    st.grid.passable(m) && !st.closed[i] && (st.best_g[i] is None || cur.g_score + 1
        < st.best_g[i].unwrap())
}

proof fn lemma_relax_chain_at(st: SearchView, cur: SearchNode, m: Pos, p: Pos)
    requires
        sizes_ok(st),
        st.grid.in_bounds(p),
        all_chain(st),
        relax(st, cur, m).best_at(p) is Some,
        st.grid.in_bounds(cur.position),
        st.closed_at(cur.position),
        st.best_at(cur.position) == Some(cur.g_score),
        0 <= cur.g_score,
        cur.g_score + 1 <= closed_count(st),
        adjacent(cur.position, m),
        improves(st, cur, m),
        st.best_at(st.start) == Some(0i32),
    ensures
        chain_ok(relax(st, cur, m), p),
{
    let g = st.grid;
    let r = relax(st, cur, m);
    reveal(all_chain);
    lemma_index_in_range(g, m);
    lemma_count_true_bound(st.closed);
    lemma_manhattan_triangle(cur.position, m, m);
    if p != m {
        lemma_index_ne(g, p, m);
        assert(st.best_at(p) == r.best_at(p));
        assert(chain_ok(st, p));
        if p != st.start {
            let q = st.from_at(p).unwrap();
            lemma_index_ne(g, q, m);
            assert(r.from_at(p) == st.from_at(p));
            assert(r.best_at(q) == st.best_at(q));
            assert(r.closed_at(q));
        }
        assert(closed_count(r) == closed_count(st));
    } else {
        let v = r.best_at(p).unwrap();
        assert(v == cur.g_score + 1);
        assert(r.from_at(m) == Some(cur.position));
        lemma_index_ne(g, cur.position, m);
        assert(r.best_at(cur.position) == st.best_at(cur.position));
        assert(r.closed_at(cur.position));
        assert(adjacent(m, cur.position));
        assert(r.best_at(cur.position) == Some((v - 1) as i32));
        assert(g.passable(m));
        assert(0 <= v <= closed_count(r));
    }
}

proof fn lemma_relax_chain(st: SearchView, cur: SearchNode, m: Pos)
    requires
        relax_ctx(st, cur),
        adjacent(cur.position, m),
        improves(st, cur, m),
    ensures
        all_chain(relax(st, cur, m)),
{
    let r = relax(st, cur, m);
    reveal(all_chain);
    assert forall|p: Pos| #[trigger]
        r.best_at(p) is Some && st.grid.in_bounds(p) implies chain_ok(r, p) by {
        lemma_relax_chain_at(st, cur, m, p);
    }
}

proof fn lemma_relax_entries(st: SearchView, cur: SearchNode, m: Pos)
    requires
        relax_ctx(st, cur),
        adjacent(cur.position, m),
        improves(st, cur, m),
    ensures
        all_entries(relax(st, cur, m)),
{
    reveal(all_entries);
    let g = st.grid;
    let r = relax(st, cur, m);
    let i = g.index(m);
    let ng = cur.g_score + 1;
    lemma_index_in_range(g, m);
    lemma_manhattan_small(g, m, st.end);
    lemma_count_true_bound(st.closed);
    let e = entry_for(m, ng as int, st.end);
    assert forall|k: int| 0 <= k < r.open.len() implies entry_ok(r, #[trigger] r.open[k]) by {
        if k < st.open.len() {
            assert(r.open[k] == st.open[k]);
            assert(entry_ok(st, st.open[k]));
            let q = st.open[k].position;
            if q != m {
                lemma_index_ne(g, q, m);
            }
        } else {
            assert(r.open[k] == e);
        }
    }
}

proof fn lemma_relax_witnessed(st: SearchView, cur: SearchNode, m: Pos)
    requires
        relax_ctx(st, cur),
        adjacent(cur.position, m),
        improves(st, cur, m),
    ensures
        witnessed(relax(st, cur, m)),
{
    reveal(witnessed);
    let g = st.grid;
    let r = relax(st, cur, m);
    let e = entry_for(m, cur.g_score + 1, st.end);
    lemma_index_in_range(g, m);
    assert forall|p: Pos|
        #![trigger r.best_at(p)]
        g.in_bounds(p) && !r.closed_at(p) && r.best_at(p) is Some implies exists|j: int|
            0 <= j < r.open.len() && (#[trigger] r.open[j]).position == p
                && r.open[j].g_score == r.best_at(p).unwrap() by {
        if p == m {
            assert(r.open[st.open.len() as int] == e);
        } else {
            lemma_index_ne(g, p, m);
            assert(st.best_at(p) == r.best_at(p));
            let j = choose|j: int|
                0 <= j < st.open.len() && (#[trigger] st.open[j]).position == p
                    && st.open[j].g_score == st.best_at(p).unwrap();
            assert(r.open[j] == st.open[j]);
        }
    }
}

proof fn lemma_relax_closed(st: SearchView, cur: SearchNode, m: Pos)
    requires
        relax_ctx(st, cur),
        adjacent(cur.position, m),
        improves(st, cur, m),
    ensures
        closed_have_best(relax(st, cur, m)),
        relax(st, cur, m).best_at(st.start) == Some(0i32),
        !relax(st, cur, m).closed_at(st.end),
        relax(st, cur, m).best_at(cur.position) == Some(cur.g_score),
{
    let g = st.grid;
    let r = relax(st, cur, m);
    reveal(closed_have_best);
    lemma_index_in_range(g, m);
    lemma_index_ne(g, cur.position, m);
    if st.start != m {
        lemma_index_ne(g, st.start, m);
    }
    assert forall|p: Pos| #[trigger]
        r.closed_at(p) && g.in_bounds(p) implies r.best_at(p) is Some by {
        assert(st.closed_at(p));
        if p != m {
            lemma_index_ne(g, p, m);
        }
    }
}

pub proof fn lemma_relax(st: SearchView, cur: SearchNode, m: Pos)
    requires
        relax_ctx(st, cur),
        adjacent(cur.position, m),
    ensures
        relax_ctx(relax(st, cur, m), cur),
        relax_frame(st, relax(st, cur, m)),
        relax(st, cur, m).open.len() <= st.open.len() + 1,
{
    if improves(st, cur, m) {
        lemma_relax_chain(st, cur, m);
        lemma_relax_entries(st, cur, m);
        lemma_relax_witnessed(st, cur, m);
        lemma_relax_closed(st, cur, m);
        let r = relax(st, cur, m);
        lemma_index_in_range(st.grid, m);
        assert(sizes_ok(r));
        assert(core_ok(r));
        assert(witnessed(r));
    }
}

pub proof fn lemma_relax_all(st: SearchView, cur: SearchNode, ms: Seq<Pos>)
    requires
        relax_ctx(st, cur),
        forall|k: int| 0 <= k < ms.len() ==> adjacent(cur.position, #[trigger] ms[k]),
    ensures
        relax_ctx(relax_all(st, cur, ms), cur),
        relax_frame(st, relax_all(st, cur, ms)),
        relax_all(st, cur, ms).open.len() <= st.open.len() + ms.len(),
    decreases ms.len(),
{
    if ms.len() > 0 {
        let t = ms.drop_last();
        assert forall|k: int| 0 <= k < t.len() implies adjacent(cur.position, #[trigger] t[k]) by {
            assert(t[k] == ms[k]);
        }
        lemma_relax_all(st, cur, t);
        assert(adjacent(cur.position, ms[ms.len() - 1]));
        lemma_relax(relax_all(st, cur, t), cur, ms.last());
    }
}

pub proof fn lemma_neighbors_adjacent(g: GridView, p: Pos)
    requires
        g.wf(),
        g.in_bounds(p),
    ensures
        forall|k: int|
            0 <= k < neighbor_seq(g, p).len() ==> adjacent(p, #[trigger] neighbor_seq(g, p)[k]),
        neighbor_seq(g, p).len() <= 4,
{
    lemma_passable_only_all(g, around(p));
    assert forall|k: int| 0 <= k < neighbor_seq(g, p).len() implies adjacent(
        p,
        #[trigger] neighbor_seq(g, p)[k],
    ) by {
        let q = neighbor_seq(g, p)[k];
        assert(around(p).contains(q));
        let j = choose|j: int| 0 <= j < around(p).len() && around(p)[j] == q;
        assert(adjacent(p, around(p)[0]));
        assert(adjacent(p, around(p)[1]));
        assert(adjacent(p, around(p)[2]));
        assert(adjacent(p, around(p)[3]));
    }
}

pub proof fn lemma_init_core(g: GridView, start: Pos, end: Pos)
    requires
        g.wf(),
    ensures
        inv_core(init_spec(g, start, end)),
        measure(init_spec(g, start, end)) <= 5 * g.cells() + 1,
{
    let st = init_spec(g, start, end);
    reveal(closed_have_best);
    reveal(all_chain);
    reveal(all_entries);
    reveal(witnessed);
    assert(count_true(st.closed) == 0) by {
        lemma_count_zero(st.closed);
    }
    if g.passable(start) && g.passable(end) {
        lemma_index_in_range(g, start);
        lemma_index_in_range(g, end);
        lemma_manhattan_small(g, start, end);
        assert forall|p: Pos| g.in_bounds(p) implies (p == start <==> g.index(p) == g.index(start)) by {
            if g.index(p) == g.index(start) {
                lemma_index_injective(g, p, start);
            }
        }
        assert forall|p: Pos| #[trigger]
            st.best_at(p) is Some && g.in_bounds(p) implies chain_ok(st, p) by {
            lemma_index_in_range(g, p);
        }
        assert forall|k: int| 0 <= k < st.open.len() implies entry_ok(st, #[trigger] st.open[k]) by {}
        assert forall|p: Pos|
            #![trigger st.best_at(p)]
            g.in_bounds(p) && !st.closed_at(p) && st.best_at(p) is Some implies exists|j: int|
                0 <= j < st.open.len() && (#[trigger] st.open[j]).position == p
                    && st.open[j].g_score == st.best_at(p).unwrap() by {
            lemma_index_in_range(g, p);
            assert(st.open[0].position == p);
        }
        assert forall|p: Pos| #[trigger]
            st.closed_at(p) && g.in_bounds(p) implies st.best_at(p) is Some by {
            lemma_index_in_range(g, p);
        }
    }
}

pub proof fn lemma_index_ne(g: GridView, p: Pos, q: Pos)
    requires
        g.wf(),
        g.in_bounds(p),
        g.in_bounds(q),
        p != q,
    ensures
        g.index(p) != g.index(q),
        0 <= g.index(p) < g.cells(),
        0 <= g.index(q) < g.cells(),
{
    lemma_index_in_range(g, p);
    lemma_index_in_range(g, q);
    if g.index(p) == g.index(q) {
        lemma_index_injective(g, p, q);
    }
}

pub proof fn lemma_count_zero(s: Seq<bool>)
    requires
        forall|i: int| 0 <= i < s.len() ==> !s[i],
    ensures
        count_true(s) == 0,
    decreases s.len(),
{
    if s.len() > 0 {
        lemma_count_zero(s.drop_last());
    }
}

/// Each settled cell of `a` is settled in `b`.
pub open spec fn closed_grows(a: SearchView, b: SearchView) -> bool {
    forall|p: Pos| #[trigger] a.closed_at(p) && a.grid.in_bounds(p) ==> b.closed_at(p)
}

pub proof fn lemma_chain_grows(a: SearchView, b: SearchView)
    requires
        all_chain(a),
        b.grid == a.grid,
        b.start == a.start,
        b.best_g == a.best_g,
        b.came_from == a.came_from,
        closed_grows(a, b),
        closed_count(a) <= closed_count(b),
    ensures
        all_chain(b),
{
    reveal(all_chain);
    assert forall|p: Pos| #[trigger] b.best_at(p) is Some && b.grid.in_bounds(p) implies chain_ok(
        b,
        p,
    ) by {
        assert(a.best_at(p) is Some);
        assert(chain_ok(a, p));
        if p != a.start {
            let q = a.from_at(p).unwrap();
            assert(a.closed_at(q));
        }
    }
}

pub proof fn lemma_closed_best_same(a: SearchView, b: SearchView)
    requires
        closed_have_best(a),
        b.grid == a.grid,
        b.closed == a.closed,
        b.best_g == a.best_g,
    ensures
        closed_have_best(b),
{
    reveal(closed_have_best);
    assert forall|p: Pos| #[trigger] b.closed_at(p) && b.grid.in_bounds(p) implies b.best_at(p) is Some by {
        assert(a.closed_at(p));
    }
}

proof fn lemma_entries_remove(a: SearchView, b: SearchView, k: int)
    requires
        all_entries(a),
        0 <= k < a.open.len(),
        b.open == a.open.remove(k),
        b.grid == a.grid,
        b.end == a.end,
        b.best_g == a.best_g,
        closed_count(a) <= closed_count(b),
    ensures
        all_entries(b),
{
    reveal(all_entries);
    assert forall|j: int| 0 <= j < b.open.len() implies entry_ok(b, #[trigger] b.open[j]) by {
        if j < k {
            assert(b.open[j] == a.open[j]);
            assert(entry_ok(a, a.open[j]));
        } else {
            assert(b.open[j] == a.open[j + 1]);
            assert(entry_ok(a, a.open[j + 1]));
        }
    }
}

proof fn lemma_witnessed_remove(a: SearchView, b: SearchView, k: int)
    requires
        witnessed(a),
        sizes_ok(a),
        0 <= k < a.open.len(),
        a.grid.in_bounds(a.open[k].position),
        b.closed_at(a.open[k].position),
        b.open == a.open.remove(k),
        b.grid == a.grid,
        b.best_g == a.best_g,
        closed_grows(a, b),
    ensures
        witnessed(b),
{
    reveal(witnessed);
    assert forall|p: Pos|
        #![trigger b.best_at(p)]
        b.grid.in_bounds(p) && !b.closed_at(p) && b.best_at(p) is Some implies exists|j: int|
            0 <= j < b.open.len() && (#[trigger] b.open[j]).position == p
                && b.open[j].g_score == b.best_at(p).unwrap() by {
        assert(!a.closed_at(p));
        assert(a.best_at(p) is Some);
        let j = choose|j: int|
            0 <= j < a.open.len() && (#[trigger] a.open[j]).position == p
                && a.open[j].g_score == a.best_at(p).unwrap();
        assert(j != k);
        if j < k {
            assert(b.open[j] == a.open[j]);
        } else {
            assert(b.open[j - 1] == a.open[j]);
        }
    }
}

/// The entry that leaves the frontier for an unsettled cell carries the
/// cell's best cost.
pub proof fn lemma_popped_is_best(st: SearchView)
    requires
        sizes_ok(st),
        core_ok(st),
        witnessed(st),
        st.open.len() > 0,
        !st.closed_at(st.open[min_index(st.open)].position),
    ensures
        st.best_at(st.open[min_index(st.open)].position) == Some(
            st.open[min_index(st.open)].g_score,
        ),
        entry_ok(st, st.open[min_index(st.open)]),
{
    reveal(witnessed);
    reveal(all_entries);
    lemma_min_index(st.open);
    let k = min_index(st.open);
    let cur = st.open[k];
    let p = cur.position;
    assert(entry_ok(st, cur));
    let j = choose|j: int|
        0 <= j < st.open.len() && (#[trigger] st.open[j]).position == p && st.open[j].g_score
            == st.best_at(p).unwrap();
    assert(entry_ok(st, st.open[j]));
    assert(!node_lt(st.open[j], cur));
}

/// Settling the cell of the entry that leaves the frontier sets up its
/// relaxation.
pub proof fn lemma_settle(st: SearchView)
    requires
        inv_core(st),
        st.status is Running,
        st.open.len() > 0,
        !st.closed_at(st.open[min_index(st.open)].position),
        st.open[min_index(st.open)].position != st.end,
    ensures
        relax_ctx(
            settle(pop_state(st), st.open[min_index(st.open)]),
            st.open[min_index(st.open)],
        ),
        closed_count(settle(pop_state(st), st.open[min_index(st.open)])) == closed_count(st) + 1,
{
    let g = st.grid;
    lemma_min_index(st.open);
    let k = min_index(st.open);
    let cur = st.open[k];
    let popped = pop_state(st);
    assert(entry_ok(st, cur)) by {
        reveal(all_entries);
    }
    lemma_index_in_range(g, cur.position);
    lemma_popped_is_best(st);
    let i = g.index(cur.position);
    let settled = settle(popped, cur);
    lemma_count_true_set(st.closed, i);
    assert(closed_grows(st, settled)) by {
        assert forall|p: Pos| #[trigger] st.closed_at(p) && g.in_bounds(p) implies settled.closed_at(
            p,
        ) by {
            if p != cur.position {
                lemma_index_ne(g, p, cur.position);
            }
        }
    }
    lemma_chain_grows(st, settled);
    lemma_entries_remove(st, settled, k);
    lemma_witnessed_remove(st, settled, k);
    lemma_index_ne(g, cur.position, st.end);
    assert(closed_have_best(settled)) by {
        reveal(closed_have_best);
        assert forall|p: Pos| #[trigger] settled.closed_at(p) && g.in_bounds(p) implies settled.best_at(
            p,
        ) is Some by {
            if p != cur.position {
                lemma_index_ne(g, p, cur.position);
                assert(st.closed_at(p));
            }
        }
    }
}

/// One step keeps the invariant, and an unfinished search that goes on
/// makes its measure smaller.
pub proof fn lemma_step_core(st: SearchView)
    requires
        inv_core(st),
    ensures
        inv_core(step_spec(st)),
        step_spec(st).grid == st.grid,
        step_spec(st).start == st.start,
        step_spec(st).end == st.end,
        st.status is Running && step_spec(st).status is Running ==> measure(step_spec(st)) < measure(
            st,
        ),
        st.status is Running ==> measure(step_spec(st)) <= measure(st),
        0 <= measure(st),
{
    lemma_count_true_bound(st.closed);
    if st.status is Running && st.open.len() > 0 {
        let g = st.grid;
        lemma_min_index(st.open);
        let k = min_index(st.open);
        let cur = st.open[k];
        let popped = pop_state(st);
        assert(entry_ok(st, cur)) by {
            reveal(all_entries);
        }
        lemma_index_in_range(g, cur.position);
        assert(closed_grows(st, popped));
        lemma_entries_remove(st, popped, k);
        lemma_chain_grows(st, popped);
        lemma_closed_best_same(st, popped);
        if st.closed_at(cur.position) {
            lemma_witnessed_remove(st, popped, k);
            assert(inv_core(popped));
        } else if cur.position == st.end {
            let fin = step_spec(st);
            lemma_chain_grows(st, fin);
            lemma_entries_remove(st, fin, k);
            assert(closed_grows(st, fin));
            lemma_closed_best_same(st, fin);
            assert(inv_core(fin));
        } else {
            lemma_settle(st);
            let settled = settle(popped, cur);
            lemma_neighbors_adjacent(g, cur.position);
            lemma_relax_all(settled, cur, neighbor_seq(g, cur.position));
            lemma_count_true_bound(settled.closed);
        }
    }
}

/// Following predecessors back from a cell of cost `v` takes `v` steps.
pub proof fn lemma_route_len(st: SearchView, p: Pos, v: nat)
    requires
        sizes_ok(st),
        all_chain(st),
        st.best_at(st.start) == Some(0i32),
        st.grid.in_bounds(p),
        st.best_at(p) is Some,
        st.best_at(p).unwrap() == v,
    ensures
        route(st.grid, st.came_from, p, v).len() == v,
    decreases v,
{
    if v > 0 {
        reveal(all_chain);
        assert(chain_ok(st, p));
        let q = st.from_at(p).unwrap();
        lemma_route_len(st, q, (v - 1) as nat);
    }
}

pub proof fn lemma_steps_core(st: SearchView, n: nat)
    requires
        inv_core(st),
    ensures
        inv_core(steps(st, n)),
        steps(st, n).grid == st.grid,
        steps(st, n).start == st.start,
        steps(st, n).end == st.end,
    decreases n,
{
    if n > 0 {
        lemma_step_core(st);
        lemma_steps_core(step_spec(st), (n - 1) as nat);
    }
}

/// A finished search stays as it is.
pub proof fn lemma_terminal_stays(st: SearchView, n: nat)
    requires
        st.is_terminal(),
    ensures
        steps(st, n) == st,
    decreases n,
{
    if n > 0 {
        lemma_terminal_stays(step_spec(st), (n - 1) as nat);
    }
}

pub proof fn lemma_steps_add(st: SearchView, a: nat, b: nat)
    ensures
        steps(st, a + b) == steps(steps(st, a), b),
    decreases a,
{
    if a > 0 {
        lemma_steps_add(step_spec(st), (a - 1) as nat, b);
        assert(steps(st, a + b) == steps(step_spec(st), (a - 1 + b) as nat));
    }
}

/// A search finishes within one step more than its measure.
pub proof fn lemma_finishes(st: SearchView, n: nat)
    requires
        inv_core(st),
        n >= measure(st) + 1,
    ensures
        steps(st, n).is_terminal(),
    decreases n,
{
    lemma_step_core(st);
    if st.is_terminal() {
        lemma_terminal_stays(st, n);
    } else {
        let next = step_spec(st);
        if next.is_terminal() {
            lemma_terminal_stays(next, (n - 1) as nat);
        } else {
            lemma_finishes(next, (n - 1) as nat);
        }
    }
}

/// Any two finished states reached from one state are the same state.
pub proof fn lemma_terminal_unique(st: SearchView, a: nat, b: nat)
    requires
        steps(st, a).is_terminal(),
        steps(st, b).is_terminal(),
    ensures
        steps(st, a) == steps(st, b),
{
    if a <= b {
        lemma_steps_add(st, a, (b - a) as nat);
        lemma_terminal_stays(steps(st, a), (b - a) as nat);
    } else {
        lemma_steps_add(st, b, (a - b) as nat);
        lemma_terminal_stays(steps(st, b), (a - b) as nat);
    }
}

/// The search from `start` to `end` on `g` finishes, in `final_state`, and
/// every finished state that stepping reaches is that one.
pub proof fn lemma_final_state(g: GridView, start: Pos, end: Pos, n: nat)
    requires
        g.wf(),
        steps(init_spec(g, start, end), n).is_terminal(),
    ensures
        final_state(g, start, end).is_terminal(),
        steps(init_spec(g, start, end), n) == final_state(g, start, end),
        inv_core(final_state(g, start, end)),
{
    let st = init_spec(g, start, end);
    lemma_init_core(g, start, end);
    lemma_finishes(st, step_bound(g));
    lemma_terminal_unique(st, n, step_bound(g));
    lemma_steps_core(st, step_bound(g));
}

} // verus!
