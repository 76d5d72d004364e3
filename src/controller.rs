use vstd::prelude::*;

use crate::grid::{Grid, GridView, Pos};
use crate::machine::{final_state, init_spec, StatusView};
use crate::search::{find_path, AStarSearch, PathResult};

verus! {

/// Why a cell cannot take the start or goal role.
#[derive(Debug, PartialEq, Eq, Structural, Clone, Copy)]
pub enum RoleError {
    /// The cell is a wall or lies outside the grid.
    InvalidRoleAssignment,
}

/// What a click on a cell did.
#[derive(Debug, PartialEq, Eq, Structural, Clone, Copy)]
pub enum ClickOutcome {
    /// Nothing: the cell is a wall or outside the grid, or both roles are taken.
    Ignored,
    /// The cell became the start.
    StartSet(Pos),
    /// The cell became the goal; both roles are now set and a search is due.
    EndSet(Pos),
}

/// The cell at storage index `i` of `g`.
pub open spec fn pos_of(g: GridView, i: int) -> Pos {
    Pos { x: (i / g.height) as i32, y: (i % g.height) as i32 }
}

/// Whether a cell's colour and labels go back to plain when the board is
/// reset: passable, and neither the start nor the goal.
pub open spec fn resets(g: GridView, start: Option<Pos>, end: Option<Pos>, p: Pos) -> bool {
    g.passable(p) && start != Some(p) && end != Some(p)
}

/// The cells among the first `k` in storage order that a reset touches.
pub open spec fn reset_prefix(g: GridView, start: Option<Pos>, end: Option<Pos>, k: int) -> Seq<Pos>
    decreases k,
{
    if k <= 0 {
        Seq::empty()
    } else if resets(g, start, end, pos_of(g, k - 1)) {
        reset_prefix(g, start, end, k - 1).push(pos_of(g, k - 1))
    } else {
        reset_prefix(g, start, end, k - 1)
    }
}

/// The grid with the start and goal roles that the user has assigned.
pub struct AStarController {
    grid: Grid,
    start_block: Option<Pos>,
    end_block: Option<Pos>,
}

pub struct ControllerView {
    pub grid: GridView,
    pub start: Option<Pos>,
    pub end: Option<Pos>,
}

impl View for AStarController {
    type V = ControllerView;

    closed spec fn view(&self) -> ControllerView {
        ControllerView { grid: self.grid@, start: self.start_block, end: self.end_block }
    }
}

impl AStarController {
    /// A controller over `grid` with no start and no goal.
    pub fn new(grid: Grid) -> (r: AStarController)
        ensures
            r@ == (ControllerView { grid: grid@, start: None, end: None }),
    {
        AStarController { grid, start_block: None, end_block: None }
    }

    pub fn grid(&self) -> (r: &Grid)
        ensures
            r@ == self@.grid,
    {
        &self.grid
    }

    pub fn start_block(&self) -> (r: Option<Pos>)
        ensures
            r == self@.start,
    {
        self.start_block
    }

    pub fn end_block(&self) -> (r: Option<Pos>)
        ensures
            r == self@.end,
    {
        self.end_block
    }

    /// Makes `(x, y)` the start, unless it is a wall or outside the grid.
    pub fn set_as_start_block(&mut self, x: i32, y: i32) -> (r: Result<(), RoleError>)
        requires
            old(self)@.grid.wf(),
        ensures
            old(self)@.grid.passable(Pos { x, y }) ==> r is Ok && final(self)@ == (ControllerView {
                start: Some(Pos { x, y }),
                ..old(self)@
            }),
            !old(self)@.grid.passable(Pos { x, y }) ==> r == Err::<(), RoleError>(
                RoleError::InvalidRoleAssignment,
            ) && final(self)@ == old(self)@,
    {
        if self.grid.is_passable(x, y) {
            self.start_block = Some(Pos { x, y });
            Ok(())
        } else {
            Err(RoleError::InvalidRoleAssignment)
        }
    }

    /// Makes `(x, y)` the goal, unless it is a wall or outside the grid.
    pub fn set_as_end_block(&mut self, x: i32, y: i32) -> (r: Result<(), RoleError>)
        requires
            old(self)@.grid.wf(),
        ensures
            old(self)@.grid.passable(Pos { x, y }) ==> r is Ok && final(self)@ == (ControllerView {
                end: Some(Pos { x, y }),
                ..old(self)@
            }),
            !old(self)@.grid.passable(Pos { x, y }) ==> r == Err::<(), RoleError>(
                RoleError::InvalidRoleAssignment,
            ) && final(self)@ == old(self)@,
    {
        if self.grid.is_passable(x, y) {
            self.end_block = Some(Pos { x, y });
            Ok(())
        } else {
            Err(RoleError::InvalidRoleAssignment)
        }
    }

    /// Removes both roles.
    pub fn clear_roles(&mut self)
        ensures
            final(self)@ == (ControllerView { start: None, end: None, ..old(self)@ }),
    {
        self.start_block = None;
        self.end_block = None;
    }

    /// A click on `(x, y)`: a passable cell becomes the start if there is
    /// none, else the goal if there is none; otherwise nothing happens.
    pub fn on_block_clicked(&mut self, x: i32, y: i32) -> (r: ClickOutcome)
        requires
            old(self)@.grid.wf(),
        ensures
            ({
                let p = Pos { x, y };
                let o = old(self)@;
                if !o.grid.passable(p) {
                    r == ClickOutcome::Ignored && final(self)@ == o
                } else if o.start is None {
                    r == ClickOutcome::StartSet(p) && final(self)@ == (ControllerView {
                        start: Some(p),
                        ..o
                    })
                } else if o.end is None {
                    r == ClickOutcome::EndSet(p) && final(self)@ == (ControllerView {
                        end: Some(p),
                        ..o
                    })
                } else {
                    r == ClickOutcome::Ignored && final(self)@ == o
                }
            }),
    {
        if !self.grid.is_passable(x, y) {
            return ClickOutcome::Ignored;
        }
        if self.start_block.is_none() {
            self.start_block = Some(Pos { x, y });
            ClickOutcome::StartSet(Pos { x, y })
        } else if self.end_block.is_none() {
            self.end_block = Some(Pos { x, y });
            ClickOutcome::EndSet(Pos { x, y })
        } else {
            ClickOutcome::Ignored
        }
    }

    /// A search from the start to the goal, ready to be stepped; `None`
    /// while either role is unset.
    pub fn start_search(&self) -> (r: Option<AStarSearch>)
        requires
            self@.grid.wf(),
        ensures
            (self@.start is None || self@.end is None) ==> r is None,
            (self@.start is Some && self@.end is Some) ==> (r matches Some(search) && search.wf()
                && search@ == init_spec(
                self@.grid,
                self@.start.unwrap(),
                self@.end.unwrap(),
            )),
    {
        match (self.start_block, self.end_block) {
            (Some(s), Some(e)) => Some(AStarSearch::new(self.grid.snapshot(), s, e)),
            _ => None,
        }
    }

    /// The shortest path from the start to the goal; `NotFound` when there
    /// is none, or while either role is unset.
    pub fn calculate_path(&self) -> (r: PathResult)
        requires
            self@.grid.wf(),
        ensures
            (self@.start is Some && self@.end is Some) ==> r@ == final_state(
                self@.grid,
                self@.start.unwrap(),
                self@.end.unwrap(),
            ).status,
            (self@.start is None || self@.end is None) ==> r@ == StatusView::NotFound,
    {
        match (self.start_block, self.end_block) {
            (Some(s), Some(e)) => find_path(&self.grid, s, e),
            _ => PathResult::NotFound,
        }
    }

    /// The cells whose colour and labels a reset clears, in storage order:
    /// every passable cell but the start and the goal.
    pub fn cells_to_reset(&self) -> (r: Vec<Pos>)
        requires
            self@.grid.wf(),
        ensures
            r@ == reset_prefix(self@.grid, self@.start, self@.end, self@.grid.cells()),
    {
        let ghost g = self@.grid;
        let n = self.grid.cell_count();
        let h = self.grid.height();
        let mut r: Vec<Pos> = Vec::new();
        let mut i: usize = 0;
        while i < n
            invariant
                g == self@.grid,
                g.wf(),
                n == g.cells(),
                h == g.height,
                i <= n,
                r@ == reset_prefix(g, self@.start, self@.end, i as int),
            decreases n - i,
        {
            let x = (i / h as usize) as i32;
            let y = (i % h as usize) as i32;
            proof {
                let ii = i as int;
                let hh = g.height;
                assert(ii / hh < g.width) by (nonlinear_arith)
                    requires
                        ii < g.width * hh,
                        hh > 0,
                        ii >= 0,
                ;
                assert(0 <= ii / hh) by (nonlinear_arith)
                    requires
                        hh > 0,
                        ii >= 0,
                ;
                assert(0 <= ii % hh < hh) by (nonlinear_arith)
                    requires
                        hh > 0,
                ;
            }
            let p = Pos { x, y };
            let keep = self.grid.is_passable(x, y) && self.start_block != Some(p)
                && self.end_block != Some(p);
            if keep {
                r.push(p);
            }
            i = i + 1;
        }
        r
    }
}

/// A user input that the board reacts to.
#[derive(Debug, PartialEq, Eq, Structural, Clone, Copy)]
pub enum UserInput {
    /// A right click anywhere: clear the roles.
    RightClick,
    /// The key that switches step mode on and off.
    ToggleStepMode,
    /// The key that lets a suspended search take its next step.
    Advance,
    /// Anything else.
    Other,
}

/// What the board does in answer to an input.
#[derive(Debug, PartialEq, Eq, Structural, Clone, Copy)]
pub enum InputAction {
    ClearRoles,
    /// Step mode is now as given.
    StepModeSet(bool),
    /// Let the suspended search take one step.
    AdvanceSearch,
    Nothing,
}

/// Whether the next search runs in step mode, and whether one is running.
#[derive(Debug, PartialEq, Eq, Structural, Clone, Copy)]
pub struct Session {
    pub step_mode: bool,
    pub is_processing: bool,
}

impl Default for Session {
    fn default() -> (r: Session)
        ensures
            r == (Session { step_mode: false, is_processing: false }),
    {
        Session { step_mode: false, is_processing: false }
    }
}

impl Session {
    /// Answers one input. Step mode can be switched only while no search
    /// runs; an advance counts only while a search runs in step mode.
    pub fn handle_input(&mut self, input: UserInput) -> (r: InputAction)
        ensures
            input == UserInput::RightClick ==> r == InputAction::ClearRoles && *final(self)
                == *old(self),
            input == UserInput::ToggleStepMode && !old(self).is_processing ==> r
                == InputAction::StepModeSet(!old(self).step_mode) && *final(self) == (Session {
                step_mode: !old(self).step_mode,
                ..*old(self)
            }),
            input == UserInput::Advance && old(self).is_processing && old(self).step_mode ==> r
                == InputAction::AdvanceSearch && *final(self) == *old(self),
            !(input == UserInput::RightClick || (input == UserInput::ToggleStepMode
                && !old(self).is_processing) || (input == UserInput::Advance
                && old(self).is_processing && old(self).step_mode)) ==> r == InputAction::Nothing
                && *final(self) == *old(self),
    {
        match input {
            UserInput::RightClick => InputAction::ClearRoles,
            UserInput::ToggleStepMode => {
                if !self.is_processing {
                    self.step_mode = !self.step_mode;
                    InputAction::StepModeSet(self.step_mode)
                } else {
                    InputAction::Nothing
                }
            },
            UserInput::Advance => {
                if self.is_processing && self.step_mode {
                    InputAction::AdvanceSearch
                } else {
                    InputAction::Nothing
                }
            },
            UserInput::Other => InputAction::Nothing,
        }
    }
}

} // verus!
