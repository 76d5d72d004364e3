use vstd::prelude::*;

use crate::grid::{manhattan, neighbor_seq, GridView, Pos};
use crate::node::{node_lt, SearchNode};

verus! {

/// Where a search stands.
pub enum StatusView {
    /// More entries wait in the frontier.
    Running,
    /// The goal was settled; the path runs from just after the start to the goal.
    Found(Seq<Pos>),
    /// The frontier ran dry, or the start or the goal is not a passable cell.
    NotFound,
}

/// The mathematical state of one search run.
///
/// The frontier (`open`) is a list of entries; an entry is never removed
/// when a cheaper one for the same cell is added. Such stale entries are
/// dropped when they come out and their cell is already settled.
pub struct SearchView {
    pub grid: GridView,
    pub start: Pos,
    pub end: Pos,
    pub open: Seq<SearchNode>,
    /// Per cell: whether it is settled.
    pub closed: Seq<bool>,
    /// Per cell: the cheapest cost found so far.
    pub best_g: Seq<Option<i32>>,
    /// Per cell: the settled cell that the cheapest cost came from.
    pub came_from: Seq<Option<Pos>>,
    /// The settled cells, in the order they were expanded.
    pub expanded: Seq<Pos>,
    pub status: StatusView,
}

impl SearchView {
    pub open spec fn closed_at(self, p: Pos) -> bool {
        self.closed[self.grid.index(p)]
    }

    pub open spec fn best_at(self, p: Pos) -> Option<i32> {
        self.best_g[self.grid.index(p)]
    }

    pub open spec fn from_at(self, p: Pos) -> Option<Pos> {
        self.came_from[self.grid.index(p)]
    }

    pub open spec fn is_terminal(self) -> bool {
        !(self.status is Running)
    }
}

/// The index of the first entry of `s` that no other entry precedes.
pub open spec fn min_index(s: Seq<SearchNode>) -> int
    decreases s.len(),
{
    if s.len() <= 1 {
        0
    } else {
        let j = min_index(s.drop_last());
        if node_lt(s.last(), s[j]) {
            s.len() - 1
        } else {
            j
        }
    }
}

/// The frontier entry for `p` reached from an entry of cost `g`.
pub open spec fn entry_for(p: Pos, g: int, end: Pos) -> SearchNode {
    SearchNode {
        position: p,
        f_score: (g + manhattan(p, end)) as i32,
        g_score: g as i32,
        h_score: manhattan(p, end) as i32,
    }
}

/// Considers the neighbour `m` of the expanded entry `cur`: when `m` is
/// passable, not settled, and reached more cheaply than before, its cost and
/// predecessor are updated and a new entry is added to the frontier.
pub open spec fn relax(st: SearchView, cur: SearchNode, m: Pos) -> SearchView {
    let i = st.grid.index(m);
    let g = cur.g_score + 1;
    if st.grid.passable(m) && !st.closed[i] && (st.best_g[i] is None || g < st.best_g[i].unwrap()) {
        SearchView {
            open: st.open.push(entry_for(m, g, st.end)),
            best_g: st.best_g.update(i, Some(g as i32)),
            came_from: st.came_from.update(i, Some(cur.position)),
            ..st
        }
    } else {
        st
    }
}

/// `relax` applied to each of `ms`, in order.
pub open spec fn relax_all(st: SearchView, cur: SearchNode, ms: Seq<Pos>) -> SearchView
    decreases ms.len(),
{
    if ms.len() == 0 {
        st
    } else {
        relax(relax_all(st, cur, ms.drop_last()), cur, ms.last())
    }
}

/// The path to `p`, found by following predecessors `k` times back; it
/// leaves out the cell where it starts and ends with `p`.
pub open spec fn route(g: GridView, came_from: Seq<Option<Pos>>, p: Pos, k: nat) -> Seq<Pos>
    decreases k,
{
    if k == 0 {
        Seq::empty()
    } else {
        match came_from[g.index(p)] {
            Some(q) => route(g, came_from, q, (k - 1) as nat).push(p),
            None => Seq::empty(),
        }
    }
}

/// The state before the first step: the frontier holds the start alone.
pub open spec fn init_spec(g: GridView, start: Pos, end: Pos) -> SearchView {
    let ok = g.passable(start) && g.passable(end);
    let none_g: Seq<Option<i32>> = Seq::new(g.cells() as nat, |i: int| None);
    SearchView {
        grid: g,
        start,
        end,
        open: if ok {
            seq![entry_for(start, 0, end)]
        } else {
            Seq::empty()
        },
        closed: Seq::new(g.cells() as nat, |i: int| false),
        best_g: if ok {
            none_g.update(g.index(start), Some(0i32))
        } else {
            none_g
        },
        came_from: Seq::new(g.cells() as nat, |i: int| None),
        expanded: Seq::empty(),
        status: if ok {
            StatusView::Running
        } else {
            StatusView::NotFound
        },
    }
}

/// What one step does: take the first entry out of the frontier; drop it if
/// its cell is settled; finish if it is the goal; otherwise settle its cell
/// and relax its passable neighbours. A finished search stays as it is.
pub open spec fn step_spec(st: SearchView) -> SearchView {
    if st.is_terminal() {
        st
    } else if st.open.len() == 0 {
        SearchView { status: StatusView::NotFound, ..st }
    } else {
        let cur = st.open[min_index(st.open)];
        let popped = pop_state(st);
        if st.closed_at(cur.position) {
            popped
        } else if cur.position == st.end {
            SearchView {
                status: StatusView::Found(
                    route(st.grid, st.came_from, st.end, st.best_at(st.end).unwrap() as nat),
                ),
                ..popped
            }
        } else {
            relax_all(settle(popped, cur), cur, neighbor_seq(st.grid, cur.position))
        }
    }
}

/// The state with the first entry of the frontier taken out.
pub open spec fn pop_state(st: SearchView) -> SearchView {
    SearchView { open: st.open.remove(min_index(st.open)), ..st }
}

/// The state with the cell of `cur` settled and recorded as expanded.
pub open spec fn settle(st: SearchView, cur: SearchNode) -> SearchView {
    SearchView {
        closed: st.closed.update(st.grid.index(cur.position), true),
        expanded: st.expanded.push(cur.position),
        ..st
    }
}

/// The state after `n` steps.
pub open spec fn steps(st: SearchView, n: nat) -> SearchView
    decreases n,
{
    if n == 0 {
        st
    } else {
        steps(step_spec(st), (n - 1) as nat)
    }
}

/// A number of steps after which every search on `g` has finished.
pub open spec fn step_bound(g: GridView) -> nat {
    (5 * g.cells() + 2) as nat
}

/// The state in which the search from `start` to `end` on `g` finishes.
pub open spec fn final_state(g: GridView, start: Pos, end: Pos) -> SearchView {
    steps(init_spec(g, start, end), step_bound(g))
}

} // verus!
