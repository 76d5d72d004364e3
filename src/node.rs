use vstd::prelude::*;

use crate::grid::{manhattan, Pos};

verus! {

/// One frontier entry of the search: a position with its cost so far (`g`),
/// its heuristic estimate to the goal (`h`) and their sum (`f`).
#[derive(Debug, PartialEq, Eq, Structural, Clone, Copy)]
pub struct SearchNode {
    pub position: Pos,
    pub f_score: i32,
    pub g_score: i32,
    pub h_score: i32,
}

/// The frontier's priority order: `f` first, then `h`, then the position by
/// `x` and then `y`. The smaller entry leaves the frontier first.
pub open spec fn node_lt(a: SearchNode, b: SearchNode) -> bool {
    ||| a.f_score < b.f_score
    ||| (a.f_score == b.f_score && a.h_score < b.h_score)
    ||| (a.f_score == b.f_score && a.h_score == b.h_score && a.position.x < b.position.x)
    ||| (a.f_score == b.f_score && a.h_score == b.h_score && a.position.x == b.position.x
        && a.position.y < b.position.y)
}

pub proof fn lemma_node_order_transitive(a: SearchNode, b: SearchNode, c: SearchNode)
    requires
        node_lt(a, b),
        node_lt(b, c),
    ensures
        node_lt(a, c),
{
}

impl SearchNode {
    /// A node at `position` with cost `g_score` and estimate `h_score`.
    pub fn new(position: Pos, g_score: i32, h_score: i32) -> (r: SearchNode)
        requires
            i32::MIN <= g_score + h_score <= i32::MAX,
        ensures
            r == (SearchNode { position, f_score: (g_score + h_score) as i32, g_score, h_score }),
    {
        SearchNode { position, f_score: g_score + h_score, g_score, h_score }
    }

    /// Whether this entry leaves the frontier before `other`.
    pub fn precedes(&self, other: &SearchNode) -> (r: bool)
        ensures
            r == node_lt(*self, *other),
    {
        if self.f_score != other.f_score {
            self.f_score < other.f_score
        } else if self.h_score != other.h_score {
            self.h_score < other.h_score
        } else if self.position.x != other.position.x {
            self.position.x < other.position.x
        } else {
            self.position.y < other.position.y
        }
    }
}

/// The Manhattan distance `|dx| + |dy|` between two positions.
pub fn manhattan_distance(a: Pos, b: Pos) -> (r: i32)
    requires
        manhattan(a, b) <= i32::MAX,
    ensures
        r == manhattan(a, b),
{
    let dx: i64 = a.x as i64 - b.x as i64;
    let dy: i64 = a.y as i64 - b.y as i64;
    let ax: i64 = if dx >= 0 { dx } else { -dx };
    let ay: i64 = if dy >= 0 { dy } else { -dy };
    (ax + ay) as i32
}

} // verus!
