use vstd::prelude::*;

verus! {

/// A cell position `(x, y)` on the grid.
#[derive(Debug, PartialEq, Eq, Structural, Clone, Copy, Hash)]
pub struct Pos {
    pub x: i32,
    pub y: i32,
}

impl Pos {
    pub fn new(x: i32, y: i32) -> (r: Pos)
        ensures
            r == (Pos { x, y }),
    {
        Pos { x, y }
    }
}

/// The largest number of cells a grid may hold, so that every path cost and
/// every priority of the search fits in an `i32`.
pub const MAX_CELLS: u64 = 0x1000_0000;

/// Manhattan distance between two positions, as a mathematical integer.
pub open spec fn manhattan(a: Pos, b: Pos) -> int {
    let dx = a.x - b.x;
    let dy = a.y - b.y;
    (if dx >= 0 { dx } else { -dx }) + (if dy >= 0 { dy } else { -dy })
}

/// Two positions one orthogonal step apart.
pub open spec fn adjacent(a: Pos, b: Pos) -> bool {
    manhattan(a, b) == 1
}

/// The mathematical model of a grid: its dimensions and, cell by cell, whether
/// the cell is a wall. Cell `(x, y)` is stored at index `x * height + y`.
pub struct GridView {
    pub width: int,
    pub height: int,
    pub walls: Seq<bool>,
}

impl GridView {
    pub open spec fn wf(self) -> bool {
        &&& 0 < self.width
        &&& 0 < self.height
        &&& self.width * self.height <= MAX_CELLS
        &&& self.width <= MAX_CELLS
        &&& self.height <= MAX_CELLS
        &&& self.walls.len() == self.width * self.height
    }

    pub open spec fn cells(self) -> int {
        self.width * self.height
    }

    pub open spec fn in_bounds(self, p: Pos) -> bool {
        0 <= p.x < self.width && 0 <= p.y < self.height
    }

    pub open spec fn index(self, p: Pos) -> int {
        p.x * self.height + p.y
    }

    pub open spec fn is_wall(self, p: Pos) -> bool {
        self.in_bounds(p) && self.walls[self.index(p)]
    }

    /// A cell that a path may pass through: inside the grid and not a wall.
    pub open spec fn passable(self, p: Pos) -> bool {
        self.in_bounds(p) && !self.walls[self.index(p)]
    }
}

/// The four orthogonal neighbours of `p`, in the order up, right, down, left.
pub open spec fn around(p: Pos) -> Seq<Pos> {
    seq![
        Pos { x: p.x, y: (p.y - 1) as i32 },
        Pos { x: (p.x + 1) as i32, y: p.y },
        Pos { x: p.x, y: (p.y + 1) as i32 },
        Pos { x: (p.x - 1) as i32, y: p.y },
    ]
}

/// The positions of `s` that are passable on `g`, in their order.
pub open spec fn passable_only(g: GridView, s: Seq<Pos>) -> Seq<Pos>
    decreases s.len(),
{
    if s.len() == 0 {
        Seq::empty()
    } else if g.passable(s.last()) {
        passable_only(g, s.drop_last()).push(s.last())
    } else {
        passable_only(g, s.drop_last())
    }
}

/// The passable orthogonal neighbours of `p`, in the order up, right, down, left.
pub open spec fn neighbor_seq(g: GridView, p: Pos) -> Seq<Pos> {
    passable_only(g, around(p))
}

/// A walk on `g`: one or more passable cells, each one step from the next.
/// Its length is its number of steps, `w.len() - 1`.
pub open spec fn is_walk(g: GridView, w: Seq<Pos>) -> bool {
    &&& w.len() >= 1
    &&& forall|i: int| 0 <= i < w.len() ==> g.passable(#[trigger] w[i])
    &&& forall|i: int| 0 <= i < w.len() - 1 ==> adjacent(#[trigger] w[i], w[i + 1])
}

/// There is a walk on `g` from `a` to `b`.
pub open spec fn reachable(g: GridView, a: Pos, b: Pos) -> bool {
    exists|w: Seq<Pos>| is_walk(g, w) && w[0] == a && w.last() == b
}

pub proof fn lemma_manhattan_triangle(a: Pos, b: Pos, c: Pos)
    ensures
        manhattan(a, c) <= manhattan(a, b) + manhattan(b, c),
        manhattan(a, b) == manhattan(b, a),
        manhattan(a, b) >= 0,
        manhattan(a, b) == 0 <==> a == b,
{
}

/// A walk is never shorter than the Manhattan distance of its ends.
pub proof fn lemma_walk_at_least_manhattan(g: GridView, w: Seq<Pos>, i: int)
    requires
        is_walk(g, w),
        0 <= i < w.len(),
    ensures
        manhattan(w[i], w.last()) <= w.len() - 1 - i,
    decreases w.len() - i,
{
    if i < w.len() - 1 {
        lemma_walk_at_least_manhattan(g, w, i + 1);
        assert(adjacent(w[i], w[i + 1]));
        lemma_manhattan_triangle(w[i], w[i + 1], w.last());
    }
}

/// A cell one step from an in-bounds cell is one of its four neighbours.
pub proof fn lemma_adjacent_is_around(g: GridView, p: Pos, q: Pos)
    requires
        g.wf(),
        g.in_bounds(p),
        adjacent(p, q),
    ensures
        around(p).contains(q),
{
    let a = around(p);
    if q.x == p.x && q.y == p.y - 1 {
        assert(a[0] == q);
    } else if q.x == p.x + 1 {
        assert(a[1] == q);
    } else if q.x == p.x && q.y == p.y + 1 {
        assert(a[2] == q);
    } else {
        assert(a[3] == q);
    }
}

pub proof fn lemma_passable_only_contains(g: GridView, s: Seq<Pos>, q: Pos)
    ensures
        passable_only(g, s).contains(q) <==> (s.contains(q) && g.passable(q)),
    decreases s.len(),
{
    if s.len() > 0 {
        lemma_passable_only_contains(g, s.drop_last(), q);
        assert(s =~= s.drop_last().push(s.last()));
        if s.drop_last().contains(q) {
            let k = choose|k: int| 0 <= k < s.drop_last().len() && s.drop_last()[k] == q;
            assert(s[k] == q);
        }
        if s.contains(q) && q != s.last() {
            let k = choose|k: int| 0 <= k < s.len() && s[k] == q;
            assert(s.drop_last()[k] == q);
        }
        if g.passable(s.last()) {
            let r = passable_only(g, s.drop_last());
            if r.contains(q) {
                let k = choose|k: int| 0 <= k < r.len() && r[k] == q;
                assert(r.push(s.last())[k] == q);
            }
            if r.push(s.last()).contains(q) && q != s.last() {
                let k = choose|k: int| 0 <= k < r.push(s.last()).len() && r.push(s.last())[k] == q;
                assert(r[k] == q);
            }
            assert(r.push(s.last())[r.len() as int] == s.last());
        }
    }
}

pub proof fn lemma_passable_only_all(g: GridView, s: Seq<Pos>)
    ensures
        forall|k: int|
            0 <= k < passable_only(g, s).len() ==> g.passable(#[trigger] passable_only(g, s)[k])
                && s.contains(passable_only(g, s)[k]),
        passable_only(g, s).len() <= s.len(),
    decreases s.len(),
{
    if s.len() > 0 {
        lemma_passable_only_all(g, s.drop_last());
        let r = passable_only(g, s.drop_last());
        assert forall|k: int| 0 <= k < passable_only(g, s).len() implies g.passable(
            #[trigger] passable_only(g, s)[k],
        ) && s.contains(passable_only(g, s)[k]) by {
            let q = passable_only(g, s)[k];
            if k < r.len() {
                assert(q == r[k]);
                assert(s.drop_last().contains(q));
                let j = choose|j: int| 0 <= j < s.drop_last().len() && s.drop_last()[j] == q;
                assert(s[j] == q);
            } else {
                assert(q == s.last());
                assert(s[s.len() - 1] == q);
            }
        }
    }
}

/// Why a grid could not be created.
#[derive(Debug, PartialEq, Eq, Structural, Clone, Copy)]
pub enum GridError {
    /// The width or the height is zero or negative.
    InvalidDimensions,
    /// The grid would hold more than `MAX_CELLS` cells.
    TooLarge,
    /// The wall list does not hold exactly one entry per cell.
    WallCountMismatch,
}

/// What a lookup of one cell yields.
#[derive(Debug, PartialEq, Eq, Structural, Clone, Copy)]
pub struct Cell {
    pub x: i32,
    pub y: i32,
    pub is_wall: bool,
}

/// A fixed rectangular grid of cells, each either passable or a wall. Its
/// dimensions and its walls never change once it is created.
pub struct Grid {
    width: i32,
    height: i32,
    walls: Vec<bool>,
}

impl View for Grid {
    type V = GridView;

    closed spec fn view(&self) -> GridView {
        GridView { width: self.width as int, height: self.height as int, walls: self.walls@ }
    }
}

pub proof fn lemma_sides_le_area(w: int, h: int)
    requires
        0 < w,
        0 < h,
    ensures
        w <= w * h,
        h <= w * h,
{
    assert(w <= w * h) by (nonlinear_arith)
        requires
            0 < w,
            1 <= h,
    ;
    assert(h <= w * h) by (nonlinear_arith)
        requires
            1 <= w,
            0 < h,
    ;
}

pub proof fn lemma_index_in_range(g: GridView, p: Pos)
    requires
        g.wf(),
        g.in_bounds(p),
    ensures
        0 <= g.index(p) < g.cells(),
{
    assert(p.x * g.height + p.y < g.width * g.height) by (nonlinear_arith)
        requires
            0 <= p.x < g.width,
            0 <= p.y < g.height,
    ;
    assert(0 <= p.x * g.height) by (nonlinear_arith)
        requires
            0 <= p.x,
            0 < g.height,
    ;
}

pub proof fn lemma_index_injective(g: GridView, p: Pos, q: Pos)
    requires
        g.wf(),
        g.in_bounds(p),
        g.in_bounds(q),
        g.index(p) == g.index(q),
    ensures
        p == q,
{
    if p.x < q.x {
        assert(p.x * g.height + g.height <= q.x * g.height) by (nonlinear_arith)
            requires
                p.x < q.x,
                0 < g.height,
        ;
    } else if q.x < p.x {
        assert(q.x * g.height + g.height <= p.x * g.height) by (nonlinear_arith)
            requires
                q.x < p.x,
                0 < g.height,
        ;
    }
}

impl Grid {
    /// Creates a grid of `width` columns and `height` rows. `walls` holds one
    /// entry per cell, cell `(x, y)` at index `x * height + y`.
    pub fn new(width: i32, height: i32, walls: Vec<bool>) -> (r: Result<Grid, GridError>)
        ensures
            (width <= 0 || height <= 0) ==> r == Err::<Grid, GridError>(
                GridError::InvalidDimensions,
            ),
            (width > 0 && height > 0 && width * height > MAX_CELLS) ==> r == Err::<
                Grid,
                GridError,
            >(GridError::TooLarge),
            (width > 0 && height > 0 && width * height <= MAX_CELLS && walls@.len() != width
                * height) ==> r == Err::<Grid, GridError>(GridError::WallCountMismatch),
            (width > 0 && height > 0 && width * height <= MAX_CELLS && walls@.len() == width
                * height) ==> (r matches Ok(g) && g@ == (GridView {
                width: width as int,
                height: height as int,
                walls: walls@,
            })),
    {
        if width <= 0 || height <= 0 {
            return Err(GridError::InvalidDimensions);
        }
        let w = width as u64;
        let h = height as u64;
        assert(w * h < 0x1_0000_0000_0000_0000) by (nonlinear_arith)
            requires
                w < 0x8000_0000,
                h < 0x8000_0000,
        ;
        let cells = w * h;
        if cells > MAX_CELLS {
            return Err(GridError::TooLarge);
        }
        if walls.len() as u64 != cells {
            return Err(GridError::WallCountMismatch);
        }
        proof {
            lemma_sides_le_area(width as int, height as int);
        }
        Ok(Grid { width, height, walls })
    }

    /// Creates a grid with no walls.
    pub fn open(width: i32, height: i32) -> (r: Result<Grid, GridError>)
        ensures
            (width <= 0 || height <= 0) ==> r == Err::<Grid, GridError>(
                GridError::InvalidDimensions,
            ),
            (width > 0 && height > 0 && width * height > MAX_CELLS) ==> r == Err::<
                Grid,
                GridError,
            >(GridError::TooLarge),
            (width > 0 && height > 0 && width * height <= MAX_CELLS) ==> (r matches Ok(g) && g@.wf()
                && g@.width == width && g@.height == height && forall|i: int|
                0 <= i < g@.walls.len() ==> !#[trigger] g@.walls[i]),
    {
        if width <= 0 || height <= 0 {
            return Err(GridError::InvalidDimensions);
        }
        let w = width as u64;
        let h = height as u64;
        assert(w * h < 0x1_0000_0000_0000_0000) by (nonlinear_arith)
            requires
                w < 0x8000_0000,
                h < 0x8000_0000,
        ;
        let cells = w * h;
        if cells > MAX_CELLS {
            return Err(GridError::TooLarge);
        }
        let mut walls: Vec<bool> = Vec::new();
        let n = cells as usize;
        let mut i: usize = 0;
        while i < n
            invariant
                n == cells,
                i <= n,
                walls@.len() == i,
                forall|j: int| 0 <= j < i ==> !#[trigger] walls@[j],
            decreases n - i,
        {
            walls.push(false);
            i = i + 1;
        }
        proof {
            lemma_sides_le_area(width as int, height as int);
        }
        Ok(Grid { width, height, walls })
    }

    pub fn width(&self) -> (r: i32)
        ensures
            r == self@.width,
    {
        self.width
    }

    pub fn height(&self) -> (r: i32)
        ensures
            r == self@.height,
    {
        self.height
    }

    pub fn in_bounds(&self, x: i32, y: i32) -> (r: bool)
        ensures
            r == self@.in_bounds(Pos { x, y }),
    {
        x >= 0 && x < self.width && y >= 0 && y < self.height
    }

    /// The number of cells, `width * height`.
    pub fn cell_count(&self) -> (r: usize)
        requires
            self@.wf(),
        ensures
            r == self@.cells(),
    {
        self.walls.len()
    }

    /// Where the cell at `p` is stored.
    pub(crate) fn index_of(&self, p: Pos) -> (r: usize)
        requires
            self@.wf(),
            self@.in_bounds(p),
        ensures
            r == self@.index(p),
            r < self@.cells(),
    {
        proof {
            lemma_index_in_range(self@, p);
        }
        p.x as usize * self.height as usize + p.y as usize
    }

    /// The cell at `(x, y)`, or `None` outside the grid.
    pub fn get(&self, x: i32, y: i32) -> (r: Option<Cell>)
        requires
            self@.wf(),
        ensures
            !self@.in_bounds(Pos { x, y }) ==> r is None,
            self@.in_bounds(Pos { x, y }) ==> r == Some(
                Cell { x, y, is_wall: self@.walls[self@.index(Pos { x, y })] },
            ),
    {
        if self.in_bounds(x, y) {
            proof {
                lemma_index_in_range(self@, Pos { x, y });
            }
            let i = x as usize * self.height as usize + y as usize;
            Some(Cell { x, y, is_wall: self.walls[i] })
        } else {
            None
        }
    }

    /// Whether `(x, y)` is a wall; a position outside the grid is none.
    pub fn is_wall(&self, x: i32, y: i32) -> (r: bool)
        requires
            self@.wf(),
        ensures
            r == self@.is_wall(Pos { x, y }),
    {
        match self.get(x, y) {
            Some(c) => c.is_wall,
            None => false,
        }
    }

    /// Whether a path may pass through `(x, y)`.
    pub fn is_passable(&self, x: i32, y: i32) -> (r: bool)
        requires
            self@.wf(),
        ensures
            r == self@.passable(Pos { x, y }),
    {
        match self.get(x, y) {
            Some(c) => !c.is_wall,
            None => false,
        }
    }

    /// The passable orthogonal neighbours of `p`, in the order up, right,
    /// down, left.
    pub fn neighbors(&self, p: Pos) -> (r: Vec<Pos>)
        requires
            self@.wf(),
            self@.in_bounds(p),
        ensures
            r@ == neighbor_seq(self@, p),
    {
        let ghost dirs = around(p);
        let cand: [Pos; 4] = [
            Pos { x: p.x, y: p.y - 1 },
            Pos { x: p.x + 1, y: p.y },
            Pos { x: p.x, y: p.y + 1 },
            Pos { x: p.x - 1, y: p.y },
        ];
        assert(cand@ =~= dirs);
        let mut r: Vec<Pos> = Vec::new();
        let mut i: usize = 0;
        while i < 4
            invariant
                self@.wf(),
                cand@ == dirs,
                dirs.len() == 4,
                i <= 4,
                r@ == passable_only(self@, dirs.take(i as int)),
            decreases 4 - i,
        {
            let q = cand[i];
            assert(dirs.take(i as int + 1).drop_last() =~= dirs.take(i as int));
            if self.is_passable(q.x, q.y) {
                r.push(q);
            }
            i = i + 1;
        }
        assert(dirs.take(4) =~= dirs);
        r
    }

    /// An independent copy of this grid.
    pub fn snapshot(&self) -> (r: Grid)
        ensures
            r@ == self@,
    {
        let mut walls: Vec<bool> = Vec::new();
        let mut i: usize = 0;
        while i < self.walls.len()
            invariant
                i <= self.walls@.len(),
                walls@ == self.walls@.subrange(0, i as int),
            decreases self.walls@.len() - i,
        {
            walls.push(self.walls[i]);
            i = i + 1;
            assert(walls@ =~= self.walls@.subrange(0, i as int));
        }
        assert(walls@ =~= self.walls@);
        Grid { width: self.width, height: self.height, walls }
    }
}

} // verus!
