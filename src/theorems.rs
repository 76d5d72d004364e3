use vstd::prelude::*;

use crate::grid::{
    adjacent, is_walk, lemma_index_in_range, lemma_manhattan_triangle, reachable, GridView, Pos,
};
use crate::machine::{
    final_state, init_spec, min_index, route, step_bound, step_spec, steps, SearchView,
    StatusView,
};
use crate::node::SearchNode;
use crate::optimal::{closed_optimal, frontier_closed, inv_full, lemma_step_full};
use crate::search_inv::{
    all_chain, chain_ok, lemma_final_state, lemma_finishes, lemma_init_core, lemma_min_index,
    lemma_route_len, lemma_steps_core, lemma_terminal_unique, sizes_ok,
};

verus! {

proof fn lemma_init_full(g: GridView, start: Pos, end: Pos)
    requires
        g.wf(),
    ensures
        inv_full(init_spec(g, start, end)),
{
    let st = init_spec(g, start, end);
    lemma_init_core(g, start, end);
    if g.passable(start) && g.passable(end) {
        assert(frontier_closed(st)) by {
            reveal(frontier_closed);
            assert forall|c: Pos| g.in_bounds(c) implies !st.closed_at(c) by {
                lemma_index_in_range(g, c);
            }
        }
        assert(closed_optimal(st)) by {
            reveal(closed_optimal);
            assert forall|w: Seq<Pos>| #![trigger is_walk(st.grid, w)] is_walk(st.grid, w) && w[0] == st.start implies !st.closed_at(w.last()) by {
                lemma_index_in_range(g, w.last());
                assert(g.passable(w[w.len() - 1]));
            }
        }
    } else {
        assert forall|w: Seq<Pos>| is_walk(g, w) && w[0] == start implies w.last() != end by {
            assert(g.passable(w[0]));
            assert(g.passable(w[w.len() - 1]));
        }
    }
}

proof fn lemma_steps_full(st: SearchView, n: nat)
    requires
        inv_full(st),
    ensures
        inv_full(steps(st, n)),
    decreases n,
{
    if n > 0 {
        lemma_step_full(st);
        lemma_steps_full(step_spec(st), (n - 1) as nat);
    }
}

proof fn lemma_final_full(g: GridView, start: Pos, end: Pos)
    requires
        g.wf(),
    ensures
        inv_full(final_state(g, start, end)),
        final_state(g, start, end).is_terminal(),
        final_state(g, start, end).grid == g,
        final_state(g, start, end).start == start,
        final_state(g, start, end).end == end,
{
    lemma_init_full(g, start, end);
    lemma_init_core(g, start, end);
    lemma_steps_full(init_spec(g, start, end), step_bound(g));
    lemma_finishes(init_spec(g, start, end), step_bound(g));
    lemma_steps_core(init_spec(g, start, end), step_bound(g));
}

/// The start followed by the route back from `p` is a walk that ends at `p`.
proof fn lemma_route_walk(st: SearchView, p: Pos, v: nat)
    requires
        sizes_ok(st),
        all_chain(st),
        st.best_at(st.start) == Some(0i32),
        st.grid.in_bounds(p),
        st.best_at(p) is Some,
        st.best_at(p).unwrap() == v,
    ensures
        is_walk(st.grid, seq![st.start] + route(st.grid, st.came_from, p, v)),
        (seq![st.start] + route(st.grid, st.came_from, p, v)).last() == p,
    decreases v,
{
    reveal(all_chain);
    assert(chain_ok(st, p));
    let r = route(st.grid, st.came_from, p, v);
    if v == 0 {
        assert(seq![st.start] + r =~= seq![st.start]);
    } else {
        let q = st.from_at(p).unwrap();
        assert(chain_ok(st, q));
        lemma_route_walk(st, q, (v - 1) as nat);
        let prev = seq![st.start] + route(st.grid, st.came_from, q, (v - 1) as nat);
        assert(seq![st.start] + r =~= prev.push(p));
        let w = prev.push(p);
        lemma_manhattan_triangle(p, q, q);
        assert forall|i: int| 0 <= i < w.len() implies st.grid.passable(#[trigger] w[i]) by {
            if i < prev.len() {
                assert(w[i] == prev[i]);
            }
        }
        assert forall|i: int| 0 <= i < w.len() - 1 implies adjacent(#[trigger] w[i], w[i + 1]) by {
            assert(w[i] == prev[i]);
            if i < prev.len() - 1 {
                assert(w[i + 1] == prev[i + 1]);
            } else {
                assert(w[i] == q);
            }
        }
    }
}

/// Every step of a found path joins two cells one orthogonal step apart,
/// neither of them a wall: the start followed by the path is a walk from
/// the start to the goal.
pub proof fn lemma_found_path_is_walk(g: GridView, start: Pos, end: Pos)
    requires
        g.wf(),
        final_state(g, start, end).status is Found,
    ensures
        is_walk(g, seq![start] + final_state(g, start, end).status->Found_0),
        (seq![start] + final_state(g, start, end).status->Found_0).last() == end,
{
    lemma_final_full(g, start, end);
    let st = final_state(g, start, end);
    reveal(all_chain);
    assert(chain_ok(st, end));
    lemma_route_walk(st, end, st.best_at(end).unwrap() as nat);
}

/// A found path is a shortest one: no walk from the start to the goal has
/// fewer steps.
pub proof fn lemma_found_path_is_shortest(g: GridView, start: Pos, end: Pos, w: Seq<Pos>)
    requires
        g.wf(),
        final_state(g, start, end).status is Found,
        is_walk(g, w),
        w[0] == start,
        w.last() == end,
    ensures
        final_state(g, start, end).status->Found_0.len() <= w.len() - 1,
{
    lemma_final_full(g, start, end);
    let st = final_state(g, start, end);
    reveal(all_chain);
    assert(chain_ok(st, end));
    lemma_route_len(st, end, st.best_at(end).unwrap() as nat);
    assert(is_walk(st.grid, w));
}

/// A search finds a path exactly when a walk joins the start to the goal.
pub proof fn lemma_found_iff_reachable(g: GridView, start: Pos, end: Pos)
    requires
        g.wf(),
    ensures
        final_state(g, start, end).status is Found <==> reachable(g, start, end),
        final_state(g, start, end).status is NotFound <==> !reachable(g, start, end),
{
    lemma_final_full(g, start, end);
    if final_state(g, start, end).status is Found {
        lemma_found_path_is_walk(g, start, end);
        let w = seq![start] + final_state(g, start, end).status->Found_0;
        assert(w[0] == start);
    }
}

/// Two searches with the same grid, start and goal, each stepped until it
/// finishes, expand the same cells in the same order and reach the same
/// outcome.
pub proof fn lemma_search_deterministic(g: GridView, start: Pos, end: Pos, a: nat, b: nat)
    requires
        g.wf(),
        steps(init_spec(g, start, end), a).is_terminal(),
        steps(init_spec(g, start, end), b).is_terminal(),
    ensures
        steps(init_spec(g, start, end), a).expanded == steps(init_spec(g, start, end), b).expanded,
        steps(init_spec(g, start, end), a).status == steps(init_spec(g, start, end), b).status,
{
    lemma_terminal_unique(init_spec(g, start, end), a, b);
}

/// A search advanced one step at a time until it finishes ends where a
/// search run to completion ends: same expansions, same outcome.
pub proof fn lemma_step_mode_matches_run(g: GridView, start: Pos, end: Pos, n: nat)
    requires
        g.wf(),
        steps(init_spec(g, start, end), n).is_terminal(),
    ensures
        steps(init_spec(g, start, end), n).expanded == final_state(g, start, end).expanded,
        steps(init_spec(g, start, end), n).status == final_state(g, start, end).status,
{
    lemma_final_state(g, start, end, n);
}

/// Among frontier entries of equal `f` and equal `h`, the one with the
/// least position (by `x`, then `y`) leaves first.
pub proof fn lemma_tie_break(open: Seq<SearchNode>, j: int)
    requires
        open.len() > 0,
        0 <= j < open.len(),
        open[j].f_score == open[min_index(open)].f_score,
        open[j].h_score == open[min_index(open)].h_score,
    ensures
        open[min_index(open)].position.x < open[j].position.x || (open[min_index(open)].position.x
            == open[j].position.x && open[min_index(open)].position.y <= open[j].position.y),
{
    lemma_min_index(open);
}

/// When the start is the goal and passable, the search finds the empty
/// path at its first step and expands no cell.
pub proof fn lemma_start_is_end(g: GridView, p: Pos)
    requires
        g.wf(),
        g.passable(p),
    ensures
        final_state(g, p, p).status == StatusView::Found(Seq::<Pos>::empty()),
        final_state(g, p, p).expanded == Seq::<Pos>::empty(),
{
    let st = init_spec(g, p, p);
    lemma_index_in_range(g, p);
    assert(min_index(st.open) == 0);
    assert(steps(st, 1) == steps(step_spec(st), 0));
    assert(steps(st, 1).status == StatusView::Found(Seq::<Pos>::empty()));
    lemma_final_state(g, p, p, 1);
}

} // verus!
