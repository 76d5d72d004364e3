use vstd::prelude::*;

use crate::grid::{adjacent, around, lemma_passable_only_all, neighbor_seq, Grid, Pos};
use crate::machine::{
    final_state, init_spec, min_index, pop_state, relax, relax_all, route, settle, step_spec,
    steps, SearchView, StatusView,
};
use crate::node::{manhattan_distance, SearchNode};
use crate::search_inv::{
    all_chain, all_entries, chain_ok, entry_ok, inv_core, lemma_chain_grows,
    lemma_count_true_bound, lemma_final_state, lemma_init_core, lemma_manhattan_small,
    lemma_min_index, lemma_neighbors_adjacent, lemma_relax, lemma_route_len, lemma_settle,
    lemma_step_core, measure, relax_ctx, sizes_ok,
};

verus! {

/// Where a search stands.
#[derive(Debug)]
pub enum SearchStatus {
    /// Entries still wait in the frontier.
    Running,
    /// The goal was settled: the cells from just after the start to the goal.
    Found(Vec<Pos>),
    /// The frontier ran dry, or the start or the goal is not a passable cell.
    NotFound,
}

impl View for SearchStatus {
    type V = StatusView;

    open spec fn view(&self) -> StatusView {
        match self {
            SearchStatus::Running => StatusView::Running,
            SearchStatus::Found(p) => StatusView::Found(p@),
            SearchStatus::NotFound => StatusView::NotFound,
        }
    }
}

/// The outcome of a finished search.
#[derive(Debug)]
pub enum PathResult {
    /// The cells from just after the start to the goal, each one step from the last.
    Found(Vec<Pos>),
    /// No path joins the start to the goal.
    NotFound,
}

impl View for PathResult {
    type V = StatusView;

    open spec fn view(&self) -> StatusView {
        match self {
            PathResult::Found(p) => StatusView::Found(p@),
            PathResult::NotFound => StatusView::NotFound,
        }
    }
}

fn copy_path(p: &Vec<Pos>) -> (r: Vec<Pos>)
    ensures
        r@ == p@,
{
    let mut r: Vec<Pos> = Vec::new();
    let mut i: usize = 0;
    while i < p.len()
        invariant
            i <= p@.len(),
            r@ =~= p@.take(i as int),
        decreases p@.len() - i,
    {
        r.push(p[i]);
        i = i + 1;
    }
    assert(p@.take(p@.len() as int) =~= p@);
    r
}

/// Searches `grid` for a shortest path from `start` to `end`.
pub fn find_path(grid: &Grid, start: Pos, end: Pos) -> (r: PathResult)
    requires
        grid@.wf(),
    ensures
        r@ == final_state(grid@, start, end).status,
{
    let mut search = AStarSearch::new(grid.snapshot(), start, end);
    let r = search.run();
    proof {
        let n = choose|n: nat| search@ == steps(init_spec(grid@, start, end), n);
        lemma_final_state(grid@, start, end, n);
    }
    r
}

/// What one step of a search did.
#[derive(Debug, PartialEq, Eq, Structural, Clone, Copy)]
pub enum StepEvent {
    /// The entry that came out was for a cell already settled; it was dropped.
    Skipped(SearchNode),
    /// The entry that came out was settled and its neighbours relaxed.
    Expanded(SearchNode),
    /// The search has finished; its status tells how.
    Finished,
}

/// What `step_spec` reports about the step it takes from `st`.
pub open spec fn event_spec(st: SearchView) -> StepEvent {
    if st.is_terminal() || st.open.len() == 0 {
        StepEvent::Finished
    } else {
        let cur = st.open[min_index(st.open)];
        if st.closed_at(cur.position) {
            StepEvent::Skipped(cur)
        } else if cur.position == st.end {
            StepEvent::Finished
        } else {
            StepEvent::Expanded(cur)
        }
    }
}

/// One A* search run on a grid, advanced one frontier entry at a time.
///
/// The frontier keeps every entry it is given: when a cheaper cost for a
/// cell is found, a new entry is added and the older, dearer one stays. The
/// cheaper one always comes out first; the stale ones come out later, find
/// their cell settled, and are dropped. No entry is ever updated in place.
pub struct AStarSearch {
    grid: Grid,
    start: Pos,
    end: Pos,
    open_set: Vec<SearchNode>,
    closed_set: Vec<bool>,
    best_g: Vec<Option<i32>>,
    came_from: Vec<Option<Pos>>,
    expanded: Vec<Pos>,
    status: SearchStatus,
}

impl View for AStarSearch {
    type V = SearchView;

    closed spec fn view(&self) -> SearchView {
        SearchView {
            grid: self.grid@,
            start: self.start,
            end: self.end,
            open: self.open_set@,
            closed: self.closed_set@,
            best_g: self.best_g@,
            came_from: self.came_from@,
            expanded: self.expanded@,
            status: self.status@,
        }
    }
}

/// Follow a step of `steps` from the back: `n + 1` steps are `n` steps and one more.
pub proof fn lemma_steps_last(st: SearchView, n: nat)
    ensures
        steps(st, n + 1) == step_spec(steps(st, n)),
    decreases n,
{
    if n == 0 {
        assert(steps(step_spec(st), 0) == step_spec(st));
    } else {
        lemma_steps_last(step_spec(st), (n - 1) as nat);
        assert(steps(st, n) == steps(step_spec(st), (n - 1) as nat));
        assert(steps(st, n + 1) == steps(step_spec(st), n));
    }
}

impl AStarSearch {
    /// The search's state is one that a search passes through.
    pub closed spec fn wf(&self) -> bool {
        inv_core(self@)
    }

    /// A search from `start` to `end` on `grid`. Where either is not a
    /// passable cell, the search is finished at once with no path.
    pub fn new(grid: Grid, start: Pos, end: Pos) -> (r: AStarSearch)
        requires
            grid@.wf(),
        ensures
            r.wf(),
            r@ == init_spec(grid@, start, end),
    {
        let ghost g = grid@;
        let ghost want = init_spec(g, start, end);
        let cells: usize = grid.cell_count();
        let mut closed_set: Vec<bool> = Vec::new();
        let mut best_g: Vec<Option<i32>> = Vec::new();
        let mut came_from: Vec<Option<Pos>> = Vec::new();
        let mut i: usize = 0;
        while i < cells
            invariant
                cells == g.cells(),
                i <= cells,
                closed_set@ =~= Seq::new(i as nat, |j: int| false),
                came_from@ =~= Seq::new(i as nat, |j: int| None::<Pos>),
                best_g@ =~= Seq::new(i as nat, |j: int| None::<i32>),
            decreases cells - i,
        {
            closed_set.push(false);
            best_g.push(None);
            came_from.push(None);
            i = i + 1;
        }
        let ok = grid.is_passable(start.x, start.y) && grid.is_passable(end.x, end.y);
        let mut open_set: Vec<SearchNode> = Vec::new();
        let status;
        if ok {
            let si = grid.index_of(start);
            best_g.set(si, Some(0));
            proof {
                lemma_manhattan_small(g, start, end);
            }
            let h = manhattan_distance(start, end);
            open_set.push(SearchNode::new(start, 0, h));
            status = SearchStatus::Running;
        } else {
            status = SearchStatus::NotFound;
        }
        let r = AStarSearch {
            grid,
            start,
            end,
            open_set,
            closed_set,
            best_g,
            came_from,
            expanded: Vec::new(),
            status,
        };
        proof {
            lemma_init_core(g, start, end);
            assert(r@.closed =~= want.closed);
            assert(r@.came_from =~= want.came_from);
            assert(r@.best_g =~= want.best_g);
            assert(r@.open =~= want.open);
            assert(r@.expanded =~= want.expanded);
        }
        r
    }

    pub fn is_finished(&self) -> (r: bool)
        ensures
            r == self@.is_terminal(),
    {
        match self.status {
            SearchStatus::Running => false,
            _ => true,
        }
    }

    pub fn status(&self) -> (r: &SearchStatus)
        ensures
            r@ == self@.status,
    {
        &self.status
    }

    pub fn start(&self) -> (r: Pos)
        ensures
            r == self@.start,
    {
        self.start
    }

    pub fn end(&self) -> (r: Pos)
        ensures
            r == self@.end,
    {
        self.end
    }

    /// The settled cells, in the order they were expanded.
    pub fn expanded(&self) -> (r: &Vec<Pos>)
        ensures
            r@ == self@.expanded,
    {
        &self.expanded
    }

    /// The frontier, stale entries included.
    pub fn open_nodes(&self) -> (r: &Vec<SearchNode>)
        ensures
            r@ == self@.open,
    {
        &self.open_set
    }

    /// The cheapest cost recorded so far for `p`; `None` outside the grid or
    /// where no cost is recorded.
    pub fn best_cost(&self, p: Pos) -> (r: Option<i32>)
        requires
            self.wf(),
        ensures
            !self@.grid.in_bounds(p) ==> r is None,
            self@.grid.in_bounds(p) ==> r == self@.best_at(p),
    {
        if self.grid.in_bounds(p.x, p.y) {
            let i = self.grid.index_of(p);
            self.best_g[i]
        } else {
            None
        }
    }

    pub fn grid(&self) -> (r: &Grid)
        ensures
            r@ == self@.grid,
    {
        &self.grid
    }

    /// The index of the entry that leaves the frontier next.
    fn min_index(&self) -> (r: usize)
        requires
            self.open_set@.len() > 0,
        ensures
            r == min_index(self.open_set@),
    {
        let ghost s = self.open_set@;
        let mut best: usize = 0;
        let mut i: usize = 1;
        assert(s.take(1).drop_last() =~= s.take(0));
        while i < self.open_set.len()
            invariant
                s == self.open_set@,
                1 <= i <= s.len(),
                best < i,
                best == min_index(s.take(i as int)),
            decreases s.len() - i,
        {
            proof {
                let t = s.take(i as int + 1);
                assert(t.drop_last() =~= s.take(i as int));
                assert(t[best as int] == s[best as int]);
            }
            if self.open_set[i].precedes(&self.open_set[best]) {
                best = i;
            }
            i = i + 1;
        }
        assert(s.take(s.len() as int) =~= s);
        best
    }

    /// Relaxes the neighbour `m` of the expanded entry `cur`.
    fn relax_neighbor(&mut self, cur: SearchNode, m: Pos)
        requires
            relax_ctx(old(self)@, cur),
            adjacent(cur.position, m),
            old(self)@.grid.passable(m),
        ensures
            final(self)@ == relax(old(self)@, cur, m),
    {
        let ghost st = self@;
        let i = self.grid.index_of(m);
        if !self.closed_set[i] {
            proof {
                lemma_count_true_bound(st.closed);
                lemma_manhattan_small(st.grid, m, st.end);
            }
            let ng = cur.g_score + 1;
            let better = match self.best_g[i] {
                None => true,
                Some(b) => ng < b,
            };
            if better {
                let h = manhattan_distance(m, self.end);
                self.best_g.set(i, Some(ng));
                self.came_from.set(i, Some(cur.position));
                self.open_set.push(SearchNode::new(m, ng, h));
            }
        }
    }

    /// The path to the goal, read back along the predecessors from the goal
    /// to the start; the start is left out and the goal ends it.
    fn reconstruct_path(&self) -> (r: Vec<Pos>)
        requires
            sizes_ok(self@),
            all_chain(self@),
            self@.best_at(self@.start) == Some(0i32),
            self@.grid.in_bounds(self@.end),
            self@.best_at(self@.end) is Some,
        ensures
            r@ == route(self@.grid, self@.came_from, self@.end, self@.best_at(self@.end).unwrap() as nat),
    {
        let ghost st = self@;
        let ghost g = st.grid;
        let ghost cf = st.came_from;
        let ei = self.grid.index_of(self.end);
        let k: i32 = match self.best_g[ei] {
            Some(v) => v,
            None => 0,
        };
        proof {
            reveal(all_chain);
            assert(chain_ok(st, st.end));
            lemma_count_true_bound(st.closed);
        }
        let ghost full = route(g, cf, st.end, k as nat);
        proof {
            lemma_route_len(st, st.end, k as nat);
        }
        let ku = k as usize;
        let mut path: Vec<Pos> = Vec::new();
        let mut i: usize = 0;
        while i < ku
            invariant
                i <= ku,
                path@.len() == i,
            decreases ku - i,
        {
            path.push(self.end);
            i = i + 1;
        }
        let mut cur = self.end;
        let mut j: usize = ku;
        while j > 0
            invariant
                sizes_ok(st),
                all_chain(st),
                st.best_at(st.start) == Some(0i32),
                st == self@,
                g == st.grid,
                cf == st.came_from,
                full.len() == ku,
                ku <= g.cells(),
                j <= ku,
                g.in_bounds(cur),
                st.best_at(cur) == Some(j as i32),
                route(g, cf, cur, j as nat) =~= full.take(j as int),
                path@.len() == ku,
                forall|q: int| j <= q < ku ==> path@[q] == full[q],
            decreases j,
        {
            proof {
                reveal(all_chain);
                assert(chain_ok(st, cur));
                assert(cur != st.start);
            }
            let ci = self.grid.index_of(cur);
            let prev = match self.came_from[ci] {
                Some(q) => q,
                None => cur,
            };
            proof {
                assert(st.from_at(cur) == Some(prev));
                assert(g.in_bounds(prev));
                assert(st.best_at(prev) == Some((j - 1) as i32));
                let t = full.take(j as int);
                assert(route(g, cf, cur, j as nat) == route(g, cf, prev, (j - 1) as nat).push(cur));
                assert(t[j - 1] == cur);
                assert(full[j - 1] == cur);
                assert(route(g, cf, prev, (j - 1) as nat) =~= full.take(j - 1));
            }
            path.set(j - 1, cur);
            cur = prev;
            j = j - 1;
        }
        assert(path@ =~= full);
        path
    }

    /// Steps the search until it finishes, and returns its outcome.
    pub fn run(&mut self) -> (r: PathResult)
        requires
            old(self).wf(),
        ensures
            final(self).wf(),
            final(self)@.is_terminal(),
            exists|n: nat| final(self)@ == steps(old(self)@, n),
            r@ == final(self)@.status,
    {
        let ghost s0 = self@;
        let ghost mut n: nat = 0;
        proof {
            lemma_step_core(self@);
        }
        while !self.is_finished()
            invariant
                self.wf(),
                self@ == steps(s0, n),
            decreases measure(self@) + if self@.is_terminal() {
                0int
            } else {
                1int
            },
        {
            proof {
                lemma_step_core(self@);
                lemma_steps_last(s0, n);
            }
            self.step();
            proof {
                n = n + 1;
                lemma_step_core(self@);
            }
        }
        match &self.status {
            SearchStatus::Found(p) => PathResult::Found(copy_path(p)),
            _ => PathResult::NotFound,
        }
    }

    /// Advances the search by one frontier entry.
    pub fn step(&mut self) -> (e: StepEvent)
        requires
            old(self).wf(),
        ensures
            final(self).wf(),
            final(self)@ == step_spec(old(self)@),
            e == event_spec(old(self)@),
    {
        let ghost st = self@;
        proof {
            lemma_step_core(st);
            lemma_count_true_bound(st.closed);
        }
        if self.is_finished() {
            return StepEvent::Finished;
        }
        if self.open_set.len() == 0 {
            self.status = SearchStatus::NotFound;
            return StepEvent::Finished;
        }
        let k = self.min_index();
        proof {
            lemma_min_index(st.open);
        }
        let cur = self.open_set.remove(k);
        proof {
            assert(cur == st.open[k as int]);
            reveal(all_entries);
            assert(entry_ok(st, cur));
        }
        let ci = self.grid.index_of(cur.position);
        if self.closed_set[ci] {
            return StepEvent::Skipped(cur);
        }
        if cur.position == self.end {
            proof {
                lemma_chain_grows(st, self@);
            }
            let path = self.reconstruct_path();
            self.status = SearchStatus::Found(path);
            return StepEvent::Finished;
        }
        self.closed_set.set(ci, true);
        self.expanded.push(cur.position);
        let ghost settled = self@;
        let ns = self.grid.neighbors(cur.position);
        proof {
            lemma_neighbors_adjacent(st.grid, cur.position);
            lemma_passable_only_all(st.grid, around(cur.position));
            lemma_settle(st);
            assert(settled == settle(pop_state(st), cur));
        }
        let mut j: usize = 0;
        while j < ns.len()
            invariant
                j <= ns@.len(),
                ns@ == neighbor_seq(st.grid, cur.position),
                forall|q: int| 0 <= q < ns@.len() ==> adjacent(cur.position, #[trigger] ns@[q]),
                forall|q: int| 0 <= q < ns@.len() ==> st.grid.passable(#[trigger] ns@[q]),
                self@ == relax_all(settled, cur, ns@.take(j as int)),
                relax_ctx(self@, cur),
                self@.grid == st.grid,
            decreases ns@.len() - j,
        {
            let m = ns[j];
            proof {
                assert(ns@.take(j as int + 1).drop_last() =~= ns@.take(j as int));
                lemma_relax(self@, cur, m);
            }
            self.relax_neighbor(cur, m);
            j = j + 1;
        }
        assert(ns@.take(ns@.len() as int) =~= ns@);
        StepEvent::Expanded(cur)
    }
}

} // verus!
