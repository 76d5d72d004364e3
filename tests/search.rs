use grid_astar::controller::{AStarController, ClickOutcome, InputAction, RoleError, Session, UserInput};
use grid_astar::grid::{Grid, Pos};
use grid_astar::node::SearchNode;
use grid_astar::search::{find_path, AStarSearch, PathResult, SearchStatus, StepEvent};
use std::collections::VecDeque;

fn p(x: i32, y: i32) -> Pos {
    Pos::new(x, y)
}

/// A grid whose walls come from a fixed linear congruential sequence, about
/// one cell in five a wall.
fn seeded_grid(w: i32, h: i32, seed: u64) -> Grid {
    let mut state = seed;
    let mut walls = Vec::new();
    for _ in 0..(w * h) {
        state = state.wrapping_mul(6364136223846793005).wrapping_add(1442695040888963407);
        walls.push((state >> 33) % 5 == 0);
    }
    Grid::new(w, h, walls).unwrap()
}

fn grid_from_rows(rows: &[&str]) -> Grid {
    let h = rows.len() as i32;
    let w = rows[0].len() as i32;
    let mut walls = vec![false; (w * h) as usize];
    for (y, row) in rows.iter().enumerate() {
        for (x, c) in row.chars().enumerate() {
            walls[x * h as usize + y] = c == '#';
        }
    }
    Grid::new(w, h, walls).unwrap()
}

/// Shortest walk length by breadth-first search, independent of the library's search.
fn bfs(g: &Grid, s: Pos, e: Pos) -> Option<usize> {
    if !g.is_passable(s.x, s.y) || !g.is_passable(e.x, e.y) {
        return None;
    }
    let (w, h) = (g.width(), g.height());
    let mut dist = vec![usize::MAX; (w * h) as usize];
    let idx = |q: Pos| (q.x * h + q.y) as usize;
    dist[idx(s)] = 0;
    let mut queue = VecDeque::new();
    queue.push_back(s);
    while let Some(c) = queue.pop_front() {
        for (dx, dy) in [(0, -1), (1, 0), (0, 1), (-1, 0)] {
            let n = p(c.x + dx, c.y + dy);
            if g.is_passable(n.x, n.y) && dist[idx(n)] == usize::MAX {
                dist[idx(n)] = dist[idx(c)] + 1;
                queue.push_back(n);
            }
        }
    }
    if dist[idx(e)] == usize::MAX { None } else { Some(dist[idx(e)]) }
}

fn path_of(r: PathResult) -> Option<Vec<Pos>> {
    match r {
        PathResult::Found(v) => Some(v),
        PathResult::NotFound => None,
    }
}

fn check_sound(g: &Grid, s: Pos, e: Pos, path: &[Pos]) {
    let mut prev = s;
    for &q in path {
        assert_eq!((q.x - prev.x).abs() + (q.y - prev.y).abs(), 1, "{:?} -> {:?}", prev, q);
        assert!(g.is_passable(q.x, q.y));
        assert!(g.is_passable(prev.x, prev.y));
        prev = q;
    }
    assert_eq!(prev, e);
}

fn run_search(g: &Grid, s: Pos, e: Pos) -> (Option<Vec<Pos>>, Vec<Pos>) {
    let mut search = AStarSearch::new(g.snapshot(), s, e);
    let r = search.run();
    (path_of(r), search.expanded().clone())
}

#[test]
fn open_five_by_five_corner_to_corner() {
    let g = Grid::open(5, 5).unwrap();
    let (s, e) = (p(0, 0), p(4, 4));
    let mut search = AStarSearch::new(g.snapshot(), s, e);
    let path = path_of(search.run()).unwrap();
    assert_eq!(path.len(), 8);
    assert_eq!(*path.last().unwrap(), e);
    check_sound(&g, s, e, &path);
    // f = g + h along the chain from the start never decreases.
    let mut last_f = -1;
    for q in std::iter::once(s).chain(path.iter().copied()) {
        let gq = search.best_cost(q).unwrap();
        let f = gq + (q.x - e.x).abs() + (q.y - e.y).abs();
        assert!(f >= last_f);
        last_f = f;
    }
    assert_eq!(search.best_cost(p(7, 7)), None);
}

#[test]
fn wall_column_detours_through_gap() {
    // Column x = 2 is a wall everywhere but y = 0.
    let g = grid_from_rows(&[".....", "..#..", "..#..", "..#..", "..#.."]);
    let (s, e) = (p(0, 4), p(4, 4));
    let path = path_of(find_path(&g, s, e)).unwrap();
    assert!(path.contains(&p(2, 0)));
    check_sound(&g, s, e, &path);
    assert_eq!(Some(path.len()), bfs(&g, s, e));
    assert_eq!(path.len(), 12);
}

#[test]
fn start_equal_to_end_finds_empty_path() {
    let g = Grid::open(3, 3).unwrap();
    let mut search = AStarSearch::new(g.snapshot(), p(1, 1), p(1, 1));
    assert_eq!(search.step(), StepEvent::Finished);
    match search.status() {
        SearchStatus::Found(v) => assert!(v.is_empty()),
        other => panic!("unexpected {:?}", other),
    }
    assert!(search.expanded().is_empty());
    assert!(matches!(find_path(&g, p(1, 1), p(1, 1)), PathResult::Found(v) if v.is_empty()));
}

#[test]
fn invalid_endpoints_give_not_found() {
    let g = grid_from_rows(&["..", ".#"]);
    assert!(matches!(find_path(&g, p(0, 0), p(1, 1)), PathResult::NotFound));
    assert!(matches!(find_path(&g, p(0, 0), p(5, 0)), PathResult::NotFound));
    assert!(matches!(find_path(&g, p(-1, 0), p(0, 0)), PathResult::NotFound));
    let search = AStarSearch::new(g.snapshot(), p(1, 1), p(0, 0));
    assert!(search.is_finished());
    assert!(matches!(search.status(), SearchStatus::NotFound));
}

#[test]
fn enclosed_goal_gives_not_found() {
    let g = grid_from_rows(&[".....", "..###", "..#..", "..###", "....."]);
    assert_eq!(bfs(&g, p(0, 0), p(4, 2)), None);
    let (path, expanded) = run_search(&g, p(0, 0), p(4, 2));
    assert_eq!(path, None);
    // Every reachable cell gets expanded before the search gives up.
    assert_eq!(expanded.len(), 25 - 7 - 2);
}

#[test]
fn search_is_deterministic() {
    let g = seeded_grid(12, 9, 6466529302137445490);
    let (s, e) = (p(0, 0), p(11, 8));
    let first = run_search(&g, s, e);
    let second = run_search(&g, s, e);
    assert_eq!(first, second);
    let other = seeded_grid(12, 9, 6466529302137445490);
    assert_eq!(run_search(&other, s, e), first);
}

#[test]
fn path_lengths_match_breadth_first_search() {
    for seed in 0..40u64 {
        let g = seeded_grid(10, 8, seed);
        for &(s, e) in &[(p(0, 0), p(9, 7)), (p(3, 2), p(8, 1)), (p(9, 0), p(0, 7))] {
            let expected = bfs(&g, s, e);
            let got = path_of(find_path(&g, s, e));
            assert_eq!(got.as_ref().map(|v| v.len()), expected, "seed {}", seed);
            if let Some(path) = got {
                check_sound(&g, s, e, &path);
            }
        }
    }
}

#[test]
fn step_mode_matches_run() {
    for seed in 0..10u64 {
        let g = seeded_grid(9, 9, seed);
        let (s, e) = (p(0, 4), p(8, 4));
        let (run_path, run_expanded) = run_search(&g, s, e);
        let mut search = AStarSearch::new(g.snapshot(), s, e);
        let mut stepped = Vec::new();
        loop {
            match search.step() {
                StepEvent::Expanded(n) => stepped.push(n.position),
                StepEvent::Skipped(_) => {}
                StepEvent::Finished => break,
            }
        }
        assert_eq!(stepped, run_expanded);
        assert_eq!(search.expanded(), &run_expanded);
        let step_path = match search.status() {
            SearchStatus::Found(v) => Some(v.clone()),
            SearchStatus::NotFound => None,
            SearchStatus::Running => panic!("still running"),
        };
        assert_eq!(step_path, run_path);
        // A finished search stays finished.
        assert_eq!(search.step(), StepEvent::Finished);
    }
}

#[test]
fn equal_priorities_pop_in_position_order() {
    // From (1, 1) to (1, 3) with a wall at (1, 2): the four neighbours of
    // the start tie in pairs on (f, h); each pair comes out by position.
    let g = grid_from_rows(&["...", "...", ".#.", "..."]);
    let mut search = AStarSearch::new(g.snapshot(), p(1, 1), p(1, 3));
    assert_eq!(search.step(), StepEvent::Expanded(SearchNode::new(p(1, 1), 0, 2)));
    // (0, 1) and (2, 1) both have g 1 and h 3; (0, 1) comes first.
    assert_eq!(search.step(), StepEvent::Expanded(SearchNode::new(p(0, 1), 1, 3)));
    assert_eq!(search.step(), StepEvent::Expanded(SearchNode::new(p(0, 2), 2, 2)));
}

/// An upper bound on the entries a search adds: one per passable neighbour
/// of each expanded cell.
fn count_added(g: &Grid, expanded: &[Pos]) -> usize {
    expanded.iter().map(|&q| g.neighbors(q).len()).sum()
}

#[test]
fn stale_entries_are_skipped() {
    // The goal is walled in, so the frontier is drained to the last entry,
    // stale ones included.
    for seed in 0..20u64 {
        let g = seeded_grid(8, 8, seed);
        let mut walls = Vec::new();
        for x in 0..9 {
            for y in 0..9 {
                let ring = (x == 6 || x == 8 || y == 6 || y == 8) && x >= 6 && y >= 6;
                walls.push(if x == 7 && y == 7 { false } else if ring { true } else if x < 8 && y < 8 {
                    g.is_wall(x, y)
                } else {
                    false
                });
            }
        }
        let g = Grid::new(9, 9, walls).unwrap();
        if !g.is_passable(0, 0) {
            continue;
        }
        let mut search = AStarSearch::new(g.snapshot(), p(0, 0), p(7, 7));
        let mut expanded: Vec<Pos> = Vec::new();
        let mut skipped = 0;
        loop {
            match search.step() {
                StepEvent::Expanded(n) => {
                    assert!(!expanded.contains(&n.position));
                    expanded.push(n.position);
                }
                StepEvent::Skipped(n) => {
                    assert!(expanded.contains(&n.position));
                    skipped += 1;
                }
                StepEvent::Finished => break,
            }
        }
        assert!(matches!(search.status(), SearchStatus::NotFound));
        assert!(search.open_nodes().is_empty());
        assert_eq!(expanded, *search.expanded());
        // Every entry ever added came out once: as an expansion or as a skip.
        let added: usize = 1 + count_added(&g, &expanded);
        assert!(skipped + expanded.len() <= added);
    }
}

#[test]
fn clicks_assign_start_then_end() {
    let g = grid_from_rows(&["..", "#."]);
    let mut c = AStarController::new(g);
    assert_eq!(c.on_block_clicked(0, 1), ClickOutcome::Ignored);
    assert_eq!(c.on_block_clicked(9, 9), ClickOutcome::Ignored);
    assert!(c.start_search().is_none());
    assert!(matches!(c.calculate_path(), PathResult::NotFound));
    assert_eq!(c.on_block_clicked(0, 0), ClickOutcome::StartSet(p(0, 0)));
    assert_eq!(c.on_block_clicked(1, 1), ClickOutcome::EndSet(p(1, 1)));
    assert_eq!(c.on_block_clicked(1, 0), ClickOutcome::Ignored);
    assert_eq!(c.start_block(), Some(p(0, 0)));
    assert_eq!(c.end_block(), Some(p(1, 1)));
    assert_eq!(path_of(c.calculate_path()), Some(vec![p(1, 0), p(1, 1)]));
    let mut search = c.start_search().unwrap();
    assert!(matches!(search.run(), PathResult::Found(v) if v == vec![p(1, 0), p(1, 1)]));
    c.clear_roles();
    assert_eq!(c.start_block(), None);
    assert_eq!(c.end_block(), None);
}

#[test]
fn roles_refuse_walls() {
    let g = grid_from_rows(&[".#"]);
    let mut c = AStarController::new(g);
    assert_eq!(c.set_as_start_block(1, 0), Err(RoleError::InvalidRoleAssignment));
    assert_eq!(c.set_as_end_block(0, 5), Err(RoleError::InvalidRoleAssignment));
    assert_eq!(c.start_block(), None);
    assert_eq!(c.set_as_start_block(0, 0), Ok(()));
    assert_eq!(c.set_as_end_block(0, 0), Ok(()));
    assert_eq!(c.start_block(), Some(p(0, 0)));
    assert_eq!(c.end_block(), Some(p(0, 0)));
}

#[test]
fn reset_covers_plain_cells_only() {
    let g = grid_from_rows(&["..", "#.", ".."]);
    let mut c = AStarController::new(g);
    assert_eq!(c.cells_to_reset(), vec![p(0, 0), p(0, 2), p(1, 0), p(1, 1), p(1, 2)]);
    c.on_block_clicked(1, 1);
    c.on_block_clicked(0, 2);
    assert_eq!(c.cells_to_reset(), vec![p(0, 0), p(1, 0), p(1, 2)]);
}

#[test]
fn session_input_rules() {
    let mut s = Session { step_mode: false, is_processing: false };
    assert_eq!(s.handle_input(UserInput::ToggleStepMode), InputAction::StepModeSet(true));
    assert!(s.step_mode);
    assert_eq!(s.handle_input(UserInput::Advance), InputAction::Nothing);
    s.is_processing = true;
    assert_eq!(s.handle_input(UserInput::ToggleStepMode), InputAction::Nothing);
    assert!(s.step_mode);
    assert_eq!(s.handle_input(UserInput::Advance), InputAction::AdvanceSearch);
    assert_eq!(s.handle_input(UserInput::RightClick), InputAction::ClearRoles);
    assert_eq!(s.handle_input(UserInput::Other), InputAction::Nothing);
    s.step_mode = false;
    assert_eq!(s.handle_input(UserInput::Advance), InputAction::Nothing);
}

#[test]
fn search_reports_its_endpoints_and_default_session() {
    let g = Grid::open(2, 2).unwrap();
    let search = AStarSearch::new(g, p(0, 1), p(1, 0));
    assert_eq!(search.start(), p(0, 1));
    assert_eq!(search.end(), p(1, 0));
    assert_eq!(search.grid().width(), 2);
    assert_eq!(search.open_nodes(), &vec![SearchNode::new(p(0, 1), 0, 2)]);
    assert_eq!(Session::default(), Session { step_mode: false, is_processing: false });
}
