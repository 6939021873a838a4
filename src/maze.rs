use vstd::prelude::*;

verus! {

/// The state of one side of a cell: an open passage or a closed wall.
#[derive(Clone, Copy, Debug, PartialEq, Eq, Structural)]
pub enum LinkType {
    Path,
    Wall,
}

/// A step from a cell to one of its four neighbours; `Blank` is no step.
#[derive(Clone, Copy, Debug, PartialEq, Eq, Structural)]
pub enum Direction {
    Up,
    Right,
    Down,
    Left,
    Blank,
}

/// One grid position: its four sides, the direction last chosen there by a
/// random walk, and whether it already belongs to the spanning tree.
#[derive(Clone, Copy, Debug, PartialEq, Eq, Structural)]
pub struct Cell {
    pub top: LinkType,
    pub right: LinkType,
    pub bottom: LinkType,
    pub left: LinkType,
    pub direction: Direction,
    pub in_maze: bool,
}

/// A cell position, `x` the column and `y` the row, both counted from 0.
#[derive(Clone, Copy, Debug, PartialEq, Eq, Hash, Structural)]
pub struct Coords {
    pub x: usize,
    pub y: usize,
}

/// Errors of maze construction.
#[derive(Clone, Copy, Debug, PartialEq, Eq, Structural)]
pub enum MazeError {
    /// The width or the height is zero.
    InvalidDimensions,
    /// The generator reached a state that its own rules exclude.
    GenerationInvariantViolation,
    /// A random walk took more steps than a 64-bit counter holds without
    /// meeting the tree.
    WalkLimitReached,
}

/// A rectangular grid of cells, stored row by row.
#[derive(Debug)]
pub struct Maze {
    data: Vec<Vec<Cell>>,
    width: usize,
    height: usize,
    start_point: Coords,
    end_point: Coords,
}

/// The mathematical content of a maze.
pub struct MazeView {
    pub width: int,
    pub height: int,
    pub cells: Seq<Seq<Cell>>,
    pub start: Coords,
    pub end: Coords,
}

/// A cell with every side closed, outside the tree, with no recorded step.
pub open spec fn blank_cell() -> Cell {
    Cell {
        top: LinkType::Wall,
        right: LinkType::Wall,
        bottom: LinkType::Wall,
        left: LinkType::Wall,
        direction: Direction::Blank,
        in_maze: false,
    }
}

/// The position one step from `c` in direction `d`.
pub open spec fn step(c: Coords, d: Direction) -> Coords {
    match d {
        Direction::Up => Coords { x: c.x, y: (c.y - 1) as usize },
        Direction::Right => Coords { x: (c.x + 1) as usize, y: c.y },
        Direction::Down => Coords { x: c.x, y: (c.y + 1) as usize },
        Direction::Left => Coords { x: (c.x - 1) as usize, y: c.y },
        Direction::Blank => c,
    }
}

/// The side of a cell that faces direction `d`.
pub open spec fn side(c: Cell, d: Direction) -> LinkType {
    match d {
        Direction::Up => c.top,
        Direction::Right => c.right,
        Direction::Down => c.bottom,
        Direction::Left => c.left,
        Direction::Blank => LinkType::Wall,
    }
}

/// The direction opposite to `d`.
pub open spec fn opposite(d: Direction) -> Direction {
    match d {
        Direction::Up => Direction::Down,
        Direction::Right => Direction::Left,
        Direction::Down => Direction::Up,
        Direction::Left => Direction::Right,
        Direction::Blank => Direction::Blank,
    }
}

/// `c` with the side facing `d` set to `l`.
pub open spec fn with_side(c: Cell, d: Direction, l: LinkType) -> Cell {
    match d {
        Direction::Up => Cell { top: l, ..c },
        Direction::Right => Cell { right: l, ..c },
        Direction::Down => Cell { bottom: l, ..c },
        Direction::Left => Cell { left: l, ..c },
        Direction::Blank => c,
    }
}

/// The directions that stay inside a `w` by `h` grid from `c`, in the order
/// left, up, right, down.
pub open spec fn directions_in_grid(w: int, h: int, c: Coords) -> Seq<Direction> {
    (if c.x > 0 { seq![Direction::Left] } else { Seq::empty() })
    + (if c.y > 0 { seq![Direction::Up] } else { Seq::empty() })
    + (if c.x < w - 1 { seq![Direction::Right] } else { Seq::empty() })
    + (if c.y < h - 1 { seq![Direction::Down] } else { Seq::empty() })
}

/// Every cell with a parent has a greater rank than its parent.
pub open spec fn ranked(par: Map<Coords, Coords>, rank: Map<Coords, nat>) -> bool {
    forall|c: Coords| #[trigger] par.dom().contains(c) ==> {
        &&& rank.dom().contains(c)
        &&& rank.dom().contains(par[c])
        &&& rank[par[c]] < rank[c]
    }
}

/// `cyc` is a cycle of `v`: at least three distinct cells, each opening onto
/// the next and the last onto the first.
pub open spec fn is_cycle(v: MazeView, cyc: Seq<Coords>) -> bool {
    &&& cyc.len() >= 3
    &&& cyc.no_duplicates()
    &&& v.is_walk(cyc)
    &&& v.has_move(cyc.last(), cyc[0])
}

/// Counts the entries of a row that satisfy `f`.
pub open spec fn count_row<T>(row: Seq<T>, f: spec_fn(T) -> bool) -> nat
    decreases row.len(),
{
    if row.len() == 0 {
        0
    } else {
        count_row(row.drop_last(), f) + if f(row.last()) { 1nat } else { 0nat }
    }
}

/// Counts the entries of a grid that satisfy `f`.
pub open spec fn count_grid<T>(rows: Seq<Seq<T>>, f: spec_fn(T) -> bool) -> nat
    decreases rows.len(),
{
    if rows.len() == 0 {
        0
    } else {
        count_grid(rows.drop_last(), f) + count_row(rows.last(), f)
    }
}

/// All four sides of `c` are walls.
pub open spec fn is_closed(c: Cell) -> bool {
    &&& c.top == LinkType::Wall
    &&& c.right == LinkType::Wall
    &&& c.bottom == LinkType::Wall
    &&& c.left == LinkType::Wall
}

pub open spec fn is_in_maze(c: Cell) -> bool {
    c.in_maze
}

pub open spec fn opens_right(c: Cell) -> bool {
    c.right == LinkType::Path
}

pub open spec fn opens_down(c: Cell) -> bool {
    c.bottom == LinkType::Path
}

impl MazeView {
    pub open spec fn in_bounds(self, c: Coords) -> bool {
        c.x < self.width && c.y < self.height
    }

    pub open spec fn cell(self, c: Coords) -> Cell {
        self.cells[c.y as int][c.x as int]
    }

    /// The grid with the cell at `c` replaced by `v`.
    pub open spec fn set_cell(self, c: Coords, v: Cell) -> MazeView {
        MazeView {
            cells: self.cells.update(c.y as int, self.cells[c.y as int].update(c.x as int, v)),
            ..self
        }
    }

    /// Dimensions, storage shape, and the fixed start and end points.
    pub open spec fn shape_ok(self) -> bool {
        &&& 1 <= self.width <= usize::MAX
        &&& 1 <= self.height <= usize::MAX
        &&& self.cells.len() == self.height
        &&& forall|y: int| 0 <= y < self.height ==> #[trigger] self.cells[y].len() == self.width
        &&& self.start == Coords { x: 0, y: 0 }
        &&& self.end == Coords { x: (self.width - 1) as usize, y: (self.height - 1) as usize }
    }

    /// No passage leads out of the grid.
    pub open spec fn borders_closed(self) -> bool {
        forall|c: Coords| #[trigger] self.in_bounds(c) ==> {
            &&& (c.y == 0 ==> self.cell(c).top == LinkType::Wall)
            &&& (c.x == self.width - 1 ==> self.cell(c).right == LinkType::Wall)
            &&& (c.y == self.height - 1 ==> self.cell(c).bottom == LinkType::Wall)
            &&& (c.x == 0 ==> self.cell(c).left == LinkType::Wall)
        }
    }

    /// A well-formed grid: the shape holds and the border is closed.
    pub open spec fn wf(self) -> bool {
        self.shape_ok() && self.borders_closed()
    }

    /// Every shared side looks the same from both of its cells.
    pub open spec fn symmetric(self) -> bool {
        &&& forall|c: Coords| #[trigger] self.in_bounds(c) && c.x + 1 < self.width
            ==> self.cell(c).right == self.cell(step(c, Direction::Right)).left
        &&& forall|c: Coords| #[trigger] self.in_bounds(c) && c.y + 1 < self.height
            ==> self.cell(c).bottom == self.cell(step(c, Direction::Down)).top
    }

    /// A fresh grid: well-formed, and every cell blank.
    pub open spec fn is_blank(self) -> bool {
        &&& self.wf()
        &&& forall|c: Coords| #[trigger] self.in_bounds(c) ==> self.cell(c) == blank_cell()
    }

    /// The neighbours reachable from `c` through an open side, in the order
    /// up, right, down, left.
    pub open spec fn moves(self, c: Coords) -> Seq<Coords> {
        let cell = self.cell(c);
        (if cell.top == LinkType::Path { seq![step(c, Direction::Up)] } else { Seq::empty() })
        + (if cell.right == LinkType::Path { seq![step(c, Direction::Right)] } else { Seq::empty() })
        + (if cell.bottom == LinkType::Path { seq![step(c, Direction::Down)] } else { Seq::empty() })
        + (if cell.left == LinkType::Path { seq![step(c, Direction::Left)] } else { Seq::empty() })
    }

    /// An open side of `a` leads to `b`.
    pub open spec fn has_move(self, a: Coords, b: Coords) -> bool {
        let cell = self.cell(a);
        ||| cell.top == LinkType::Path && b == step(a, Direction::Up)
        ||| cell.right == LinkType::Path && b == step(a, Direction::Right)
        ||| cell.bottom == LinkType::Path && b == step(a, Direction::Down)
        ||| cell.left == LinkType::Path && b == step(a, Direction::Left)
    }

    /// `p` is a walk: in-bounds positions, each next one a move from the one before.
    pub open spec fn is_walk(self, p: Seq<Coords>) -> bool {
        &&& p.len() >= 1
        &&& forall|i: int| 0 <= i < p.len() ==> self.in_bounds(#[trigger] p[i])
        &&& forall|i: int| 0 <= i < p.len() - 1 ==> self.has_move(p[i], #[trigger] p[i + 1])
    }

    /// Every open side of `self` is open in `other`, on a grid of the same size.
    pub open spec fn opens_within(self, other: MazeView) -> bool {
        &&& self.width == other.width
        &&& self.height == other.height
        &&& forall|c: Coords| #[trigger] self.in_bounds(c) ==> {
            &&& (self.cell(c).top == LinkType::Path ==> other.cell(c).top == LinkType::Path)
            &&& (self.cell(c).right == LinkType::Path ==> other.cell(c).right == LinkType::Path)
            &&& (self.cell(c).bottom == LinkType::Path ==> other.cell(c).bottom == LinkType::Path)
            &&& (self.cell(c).left == LinkType::Path ==> other.cell(c).left == LinkType::Path)
        }
    }

    /// A partly grown spanning tree: the cells outside it are closed, every
    /// cell in it is reachable from the start, and it has one passage fewer
    /// than cells.
    pub open spec fn is_growing_tree(self) -> bool {
        &&& self.wf()
        &&& self.symmetric()
        &&& forall|c: Coords| #[trigger] self.in_bounds(c) && !self.cell(c).in_maze
            ==> is_closed(self.cell(c))
        &&& forall|c: Coords| #[trigger] self.in_bounds(c) && self.cell(c).in_maze
            ==> self.reachable(self.start, c)
        &&& self.passage_count() + 1 == self.in_maze_count()
    }

    /// Some walk leads from `a` to `b`.
    pub open spec fn reachable(self, a: Coords, b: Coords) -> bool {
        exists|p: Seq<Coords>| self.is_walk(p) && p[0] == a && p.last() == b
    }

    /// The number of open passages, each counted once from its left or upper cell.
    pub open spec fn passage_count(self) -> nat {
        count_grid(self.cells, |c: Cell| opens_right(c)) + count_grid(self.cells, |c: Cell| opens_down(c))
    }

    /// The number of cells already in the spanning tree.
    pub open spec fn in_maze_count(self) -> nat {
        count_grid(self.cells, |c: Cell| is_in_maze(c))
    }

    /// `par` directs every passage toward the start: the start has no parent,
    /// and each open side of a cell leads to its parent or to a cell whose
    /// parent it is.
    pub open spec fn directed_by(self, par: Map<Coords, Coords>) -> bool {
        &&& !par.dom().contains(self.start)
        &&& forall|c: Coords, b: Coords| self.in_bounds(c) && #[trigger] self.has_move(c, b) ==> {
            ||| par.dom().contains(c) && par[c] == b
            ||| par.dom().contains(b) && par[b] == c
        }
    }

    /// `par` orients every passage toward the start, and only cells of the
    /// tree have a parent.
    pub open spec fn oriented_by(self, par: Map<Coords, Coords>) -> bool {
        &&& self.directed_by(par)
        &&& forall|c: Coords| #[trigger] par.dom().contains(c) ==> self.in_bounds(c) && self.cell(c).in_maze
    }

    /// `rank` numbers exactly the cells of the tree.
    pub open spec fn ranks_tree(self, rank: Map<Coords, nat>) -> bool {
        forall|c: Coords| #[trigger] rank.dom().contains(c) <==> self.in_bounds(c) && self.cell(c).in_maze
    }

    /// Some choice of parents orients every passage toward the start, and
    /// some numbering of the tree's cells puts each parent below its child.
    pub open spec fn has_orientation(self) -> bool {
        exists|par: Map<Coords, Coords>, rank: Map<Coords, nat>| {
            &&& self.oriented_by(par)
            &&& ranked(par, rank)
            &&& self.ranks_tree(rank)
        }
    }

    /// A perfect maze: every cell in the tree and reachable from the start,
    /// sides consistent, passages oriented toward the start, and exactly one
    /// passage fewer than there are cells.
    pub open spec fn is_perfect(self) -> bool {
        &&& self.wf()
        &&& self.symmetric()
        &&& self.has_orientation()
        &&& forall|c: Coords| #[trigger] self.in_bounds(c) ==> self.cell(c).in_maze
        &&& forall|c: Coords| #[trigger] self.in_bounds(c) ==> self.reachable(self.start, c)
        &&& self.passage_count() == self.width * self.height - 1
    }
}

pub proof fn lemma_moves(v: MazeView, c: Coords)
    ensures
        forall|b: Coords| v.moves(c).contains(b) <==> v.has_move(c, b),
        forall|i: int| 0 <= i < v.moves(c).len() ==> v.has_move(c, #[trigger] v.moves(c)[i]),
{
    let cell = v.cell(c);
    let s1: Seq<Coords> = if cell.top == LinkType::Path { seq![step(c, Direction::Up)] } else { Seq::empty() };
    let s2: Seq<Coords> = if cell.right == LinkType::Path { seq![step(c, Direction::Right)] } else { Seq::empty() };
    let s3: Seq<Coords> = if cell.bottom == LinkType::Path { seq![step(c, Direction::Down)] } else { Seq::empty() };
    let s4: Seq<Coords> = if cell.left == LinkType::Path { seq![step(c, Direction::Left)] } else { Seq::empty() };
    let m = v.moves(c);
    assert(m == s1 + s2 + s3 + s4);
    assert forall|i: int| 0 <= i < m.len() implies v.has_move(c, #[trigger] m[i]) by {
        if i < s1.len() {
            assert(m[i] == s1[i]);
        } else if i < s1.len() + s2.len() {
            assert(m[i] == s2[i - s1.len()]);
        } else if i < s1.len() + s2.len() + s3.len() {
            assert(m[i] == s3[i - s1.len() - s2.len()]);
        } else {
            assert(m[i] == s4[i - s1.len() - s2.len() - s3.len()]);
        }
    }
    assert forall|b: Coords| v.has_move(c, b) implies m.contains(b) by {
        if cell.top == LinkType::Path && b == step(c, Direction::Up) {
            assert(m[0] == b);
        } else if cell.right == LinkType::Path && b == step(c, Direction::Right) {
            assert(m[s1.len() as int] == b);
        } else if cell.bottom == LinkType::Path && b == step(c, Direction::Down) {
            assert(m[(s1.len() + s2.len()) as int] == b);
        } else {
            assert(m[(s1.len() + s2.len() + s3.len()) as int] == b);
        }
    }
}

pub proof fn lemma_directions_in_grid(w: int, h: int, c: Coords)
    ensures
        forall|d: Direction| #[trigger] directions_in_grid(w, h, c).contains(d) <==> {
            ||| d == Direction::Left && c.x > 0
            ||| d == Direction::Up && c.y > 0
            ||| d == Direction::Right && c.x < w - 1
            ||| d == Direction::Down && c.y < h - 1
        },
{
    let s1: Seq<Direction> = if c.x > 0 { seq![Direction::Left] } else { Seq::empty() };
    let s2: Seq<Direction> = if c.y > 0 { seq![Direction::Up] } else { Seq::empty() };
    let s3: Seq<Direction> = if c.x < w - 1 { seq![Direction::Right] } else { Seq::empty() };
    let s4: Seq<Direction> = if c.y < h - 1 { seq![Direction::Down] } else { Seq::empty() };
    let m = directions_in_grid(w, h, c);
    assert(m == s1 + s2 + s3 + s4);
    assert forall|d: Direction| #[trigger] m.contains(d) implies {
        ||| d == Direction::Left && c.x > 0
        ||| d == Direction::Up && c.y > 0
        ||| d == Direction::Right && c.x < w - 1
        ||| d == Direction::Down && c.y < h - 1
    } by {
        let i = choose|i: int| 0 <= i < m.len() && m[i] == d;
        if i < s1.len() {
            assert(m[i] == s1[i]);
        } else if i < s1.len() + s2.len() {
            assert(m[i] == s2[i - s1.len()]);
        } else if i < s1.len() + s2.len() + s3.len() {
            assert(m[i] == s3[i - s1.len() - s2.len()]);
        } else {
            assert(m[i] == s4[i - s1.len() - s2.len() - s3.len()]);
        }
    }
    assert forall|d: Direction| {
        ||| d == Direction::Left && c.x > 0
        ||| d == Direction::Up && c.y > 0
        ||| d == Direction::Right && c.x < w - 1
        ||| d == Direction::Down && c.y < h - 1
    } implies #[trigger] m.contains(d) by {
        if d == Direction::Left && c.x > 0 {
            assert(m[0] == d);
        } else if d == Direction::Up && c.y > 0 {
            assert(m[s1.len() as int] == d);
        } else if d == Direction::Right && c.x < w - 1 {
            assert(m[(s1.len() + s2.len()) as int] == d);
        } else {
            assert(m[(s1.len() + s2.len() + s3.len()) as int] == d);
        }
    }
}

pub proof fn lemma_set_cell(v: MazeView, c: Coords, val: Cell)
    requires
        v.shape_ok(),
        v.in_bounds(c),
    ensures
        v.set_cell(c, val).shape_ok(),
        v.set_cell(c, val).width == v.width,
        v.set_cell(c, val).height == v.height,
        v.set_cell(c, val).start == v.start,
        v.set_cell(c, val).end == v.end,
        forall|x: Coords| v.in_bounds(x) ==> #[trigger] v.set_cell(c, val).cell(x) == (if x == c { val } else { v.cell(x) }),
{
    let v2 = v.set_cell(c, val);
    assert forall|y: int| 0 <= y < v2.height implies #[trigger] v2.cells[y].len() == v2.width by {
        if y != c.y {
            assert(v2.cells[y] == v.cells[y]);
        }
    }
    assert forall|x: Coords| v.in_bounds(x) implies #[trigger] v2.cell(x) == (if x == c { val } else { v.cell(x) }) by {
        if x.y != c.y {
            assert(v2.cells[x.y as int] == v.cells[x.y as int]);
        } else if x.x != c.x {
            assert(x != c);
        }
    }
}

/// Open sides lead to cells of the grid.
pub proof fn lemma_move_in_bounds(v: MazeView, a: Coords, b: Coords)
    requires
        v.wf(),
        v.in_bounds(a),
        v.has_move(a, b),
    ensures
        v.in_bounds(b),
{
}

/// Along a walk without repeats from the start of an oriented grid, each
/// cell after the first has the cell before it as parent.
pub proof fn lemma_simple_walk_descends(v: MazeView, par: Map<Coords, Coords>, p: Seq<Coords>, i: int)
    requires
        v.directed_by(par),
        v.is_walk(p),
        p.no_duplicates(),
        p[0] == v.start,
        1 <= i < p.len(),
    ensures
        par.dom().contains(p[i]),
        par[p[i]] == p[i - 1],
    decreases i,
{
    let j = i - 1;
    assert(v.has_move(p[j], p[j + 1]));
    assert(v.in_bounds(p[j]));
    if par.dom().contains(p[j]) && par[p[j]] == p[i] {
        if j == 0 {
            assert(false);
        } else {
            lemma_simple_walk_descends(v, par, p, j);
            assert(p[i] == p[j - 1]);
            assert(false);
        }
    }
}

/// In an oriented grid at most one walk without repeats leads from the start
/// to a given cell.
pub proof fn lemma_simple_walk_unique(v: MazeView, par: Map<Coords, Coords>, p: Seq<Coords>, q: Seq<Coords>)
    requires
        v.directed_by(par),
        v.is_walk(p),
        v.is_walk(q),
        p.no_duplicates(),
        q.no_duplicates(),
        p[0] == v.start,
        q[0] == v.start,
        p.last() == q.last(),
    ensures
        p == q,
{
    if p.len() > q.len() {
        lemma_simple_walk_unique_prefix(v, par, q, p);
    } else {
        lemma_simple_walk_unique_prefix(v, par, p, q);
    }
}

proof fn lemma_simple_walk_unique_prefix(v: MazeView, par: Map<Coords, Coords>, p: Seq<Coords>, q: Seq<Coords>)
    requires
        v.directed_by(par),
        v.is_walk(p),
        v.is_walk(q),
        p.no_duplicates(),
        q.no_duplicates(),
        p[0] == v.start,
        q[0] == v.start,
        p.last() == q.last(),
        p.len() <= q.len(),
    ensures
        p == q,
{
    let lp = p.len() as int;
    let lq = q.len() as int;
    // the two walks agree backward from their common last cell
    assert forall|k: int| 0 <= k < lp implies #[trigger] p[lp - 1 - k] == q[lq - 1 - k] by {
        lemma_walks_agree_backward(v, par, p, q, k);
    }
    if lp < lq {
        assert(p[lp - 1 - (lp - 1)] == q[lq - 1 - (lp - 1)]);
        lemma_simple_walk_descends(v, par, q, lq - lp);
        assert(false);
    }
    assert(p =~= q) by {
        assert forall|i: int| 0 <= i < lp implies p[i] == q[i] by {
            assert(p[lp - 1 - (lp - 1 - i)] == q[lq - 1 - (lp - 1 - i)]);
        }
    }
}

proof fn lemma_walks_agree_backward(v: MazeView, par: Map<Coords, Coords>, p: Seq<Coords>, q: Seq<Coords>, k: int)
    requires
        v.directed_by(par),
        v.is_walk(p),
        v.is_walk(q),
        p.no_duplicates(),
        q.no_duplicates(),
        p[0] == v.start,
        q[0] == v.start,
        p.last() == q.last(),
        p.len() <= q.len(),
        0 <= k < p.len(),
    ensures
        p[p.len() - 1 - k] == q[q.len() - 1 - k],
    decreases k,
{
    if k > 0 {
        lemma_walks_agree_backward(v, par, p, q, k - 1);
        let i = p.len() - 1 - (k - 1);
        let j = q.len() - 1 - (k - 1);
        lemma_simple_walk_descends(v, par, p, i);
        lemma_simple_walk_descends(v, par, q, j);
    }
}

/// Some cell of a nonempty sequence of ranked cells has the greatest rank.
proof fn lemma_max_rank(rank: Map<Coords, nat>, s: Seq<Coords>, n: int) -> (m: int)
    requires
        1 <= n <= s.len(),
        forall|i: int| 0 <= i < s.len() ==> rank.dom().contains(#[trigger] s[i]),
    ensures
        0 <= m < n,
        forall|i: int| 0 <= i < n ==> rank[#[trigger] s[i]] <= rank[s[m]],
    decreases n,
{
    if n == 1 {
        0
    } else {
        let k = lemma_max_rank(rank, s, n - 1);
        if rank[s[n - 1]] > rank[s[k]] {
            n - 1
        } else {
            k
        }
    }
}

/// A grid whose passages are oriented toward the start, each parent ranked
/// below its child, has no cycle.
pub proof fn lemma_no_cycle(v: MazeView, par: Map<Coords, Coords>, rank: Map<Coords, nat>, cyc: Seq<Coords>)
    requires
        v.directed_by(par),
        ranked(par, rank),
    ensures
        !is_cycle(v, cyc),
{
    if is_cycle(v, cyc) {
        let k = cyc.len() as int;
        // the cell after position i on the cycle
        assert forall|i: int| 0 <= i < k implies {
            let j = if i == k - 1 { 0 } else { i + 1 };
            v.has_move(#[trigger] cyc[i], cyc[j])
        } by {
            assert(v.in_bounds(cyc[i]));
            if i < k - 1 {
                assert(v.has_move(cyc[i], cyc[i + 1]));
            }
        }
        assert forall|i: int| 0 <= i < k implies rank.dom().contains(#[trigger] cyc[i]) by {
            let j = if i == k - 1 { 0 } else { i + 1 };
            assert(v.in_bounds(cyc[i]));
            assert(v.has_move(cyc[i], cyc[j]));
            if par.dom().contains(cyc[i]) && par[cyc[i]] == cyc[j] {
            } else {
                assert(par.dom().contains(cyc[j]) && par[cyc[j]] == cyc[i]);
            }
        }
        let m = lemma_max_rank(rank, cyc, k);
        let next = if m == k - 1 { 0 } else { m + 1 };
        let prev = if m == 0 { k - 1 } else { m - 1 };
        assert(next != prev);
        assert(cyc[next] != cyc[prev]);
        assert(v.in_bounds(cyc[m]) && v.in_bounds(cyc[prev]));
        assert(v.has_move(cyc[m], cyc[next]));
        assert(v.has_move(cyc[prev], cyc[m]));
        // a child of the top cell would rank above it, so both neighbours are its parent
        if par.dom().contains(cyc[next]) && par[cyc[next]] == cyc[m] {
            assert(rank[cyc[next]] <= rank[cyc[m]]);
        }
        if par.dom().contains(cyc[prev]) && par[cyc[prev]] == cyc[m] {
            assert(rank[cyc[prev]] <= rank[cyc[m]]);
        }
        assert(par[cyc[m]] == cyc[next]);
        assert(par[cyc[m]] == cyc[prev]);
    }
}

/// A perfect maze has no cycle: with its width times height less one
/// passages and every cell reachable, it is a spanning tree.
pub proof fn lemma_perfect_maze_acyclic(v: MazeView, cyc: Seq<Coords>)
    requires
        v.is_perfect(),
    ensures
        !is_cycle(v, cyc),
{
    let (par, rank) = choose|par: Map<Coords, Coords>, rank: Map<Coords, nat>| {
        &&& v.oriented_by(par)
        &&& ranked(par, rank)
        &&& v.ranks_tree(rank)
    };
    lemma_no_cycle(v, par, rank, cyc);
}

/// On a grid whose only passages join consecutive cells of a walk `q`
/// without repeats from the start, `q` is the only walk without repeats from
/// the start to its last cell.
pub proof fn lemma_only_path(v: MazeView, q: Seq<Coords>, p: Seq<Coords>)
    requires
        v.is_walk(q),
        q.no_duplicates(),
        q[0] == v.start,
        forall|c: Coords, b: Coords| v.in_bounds(c) && #[trigger] v.has_move(c, b) ==>
            exists|i: int| 0 <= i < q.len() - 1 && ((#[trigger] q[i] == c && q[i + 1] == b) || (q[i] == b && q[i + 1] == c)),
        v.is_walk(p),
        p.no_duplicates(),
        p[0] == v.start,
        p.last() == q.last(),
    ensures
        p == q,
{
    let par = Map::new(
        |c: Coords| exists|i: int| 1 <= i < q.len() && q[i] == c,
        |c: Coords| q[(choose|i: int| 1 <= i < q.len() && q[i] == c) - 1],
    );
    assert(!par.dom().contains(v.start)) by {
        if par.dom().contains(v.start) {
            let i = choose|i: int| 1 <= i < q.len() && q[i] == v.start;
            assert(q[i] == q[0]);
        }
    }
    assert forall|k: int| 1 <= k < q.len() implies par.dom().contains(#[trigger] q[k]) && par[q[k]] == q[k - 1] by {
        let i = choose|i: int| 1 <= i < q.len() && q[i] == q[k];
        assert(i == k);
    }
    assert forall|c: Coords, b: Coords| v.in_bounds(c) && #[trigger] v.has_move(c, b) implies {
        ||| par.dom().contains(c) && par[c] == b
        ||| par.dom().contains(b) && par[b] == c
    } by {
        let i = choose|i: int| 0 <= i < q.len() - 1 && ((#[trigger] q[i] == c && q[i + 1] == b) || (q[i] == b && q[i + 1] == c));
        assert(par.dom().contains(q[i + 1]) && par[q[i + 1]] == q[i]);
    }
    assert(v.directed_by(par));
    lemma_simple_walk_unique(v, par, p, q);
}

/// Walks stay walks when more sides open.
pub proof fn lemma_walk_grows(v1: MazeView, v2: MazeView, p: Seq<Coords>)
    requires
        v1.is_walk(p),
        v1.opens_within(v2),
    ensures
        v2.is_walk(p),
{
    assert forall|i: int| 0 <= i < p.len() - 1 implies v2.has_move(p[i], #[trigger] p[i + 1]) by {
        assert(v1.has_move(p[i], p[i + 1]));
        assert(v1.in_bounds(p[i]));
    }
    assert forall|i: int| 0 <= i < p.len() implies v2.in_bounds(#[trigger] p[i]) by {
        assert(v1.in_bounds(p[i]));
    }
}

/// Two walks that meet end to start join into one.
pub proof fn lemma_walk_join(v: MazeView, p: Seq<Coords>, q: Seq<Coords>)
    requires
        v.is_walk(p),
        v.is_walk(q),
        p.last() == q[0],
    ensures
        v.is_walk(p + q.drop_first()),
        (p + q.drop_first())[0] == p[0],
        (p + q.drop_first()).last() == q.last(),
{
    let r = p + q.drop_first();
    assert forall|i: int| 0 <= i < r.len() implies v.in_bounds(#[trigger] r[i]) by {
        if i < p.len() {
            assert(r[i] == p[i]);
        } else {
            assert(r[i] == q[i - p.len() + 1]);
        }
    }
    assert forall|i: int| 0 <= i < r.len() - 1 implies v.has_move(r[i], #[trigger] r[i + 1]) by {
        if i < p.len() - 1 {
            assert(r[i] == p[i] && r[i + 1] == p[i + 1]);
        } else {
            let j = i - p.len() + 1;
            assert(r[i] == q[j]);
            assert(r[i + 1] == q[j + 1]);
        }
    }
    if q.len() > 1 {
        assert(r.last() == q[q.len() - 1]);
    }
}

/// A walk from `a` to `b` and one from `b` to `c` give one from `a` to `c`.
pub proof fn lemma_reachable_trans(v: MazeView, a: Coords, b: Coords, c: Coords)
    requires
        v.reachable(a, b),
        v.reachable(b, c),
    ensures
        v.reachable(a, c),
{
    let p = choose|p: Seq<Coords>| v.is_walk(p) && p[0] == a && p.last() == b;
    let q = choose|q: Seq<Coords>| v.is_walk(q) && q[0] == b && q.last() == c;
    lemma_walk_join(v, p, q);
    assert(v.is_walk(p + q.drop_first()));
}

pub proof fn lemma_count_row_update<T>(row: Seq<T>, i: int, c: T, f: spec_fn(T) -> bool)
    requires
        0 <= i < row.len(),
    ensures
        count_row(row.update(i, c), f) == count_row(row, f) - (if f(row[i]) { 1int } else { 0int })
            + (if f(c) { 1int } else { 0int }),
    decreases row.len(),
{
    if i == row.len() - 1 {
        assert(row.update(i, c).drop_last() =~= row.drop_last());
    } else {
        lemma_count_row_update(row.drop_last(), i, c, f);
        assert(row.update(i, c).drop_last() =~= row.drop_last().update(i, c));
    }
}

pub proof fn lemma_count_grid_update<T>(rows: Seq<Seq<T>>, y: int, x: int, c: T, f: spec_fn(T) -> bool)
    requires
        0 <= y < rows.len(),
        0 <= x < rows[y].len(),
    ensures
        count_grid(rows.update(y, rows[y].update(x, c)), f) == count_grid(rows, f)
            - (if f(rows[y][x]) { 1int } else { 0int }) + (if f(c) { 1int } else { 0int }),
    decreases rows.len(),
{
    let new_rows = rows.update(y, rows[y].update(x, c));
    if y == rows.len() - 1 {
        assert(new_rows.drop_last() =~= rows.drop_last());
        lemma_count_row_update(rows[y], x, c, f);
    } else {
        lemma_count_grid_update(rows.drop_last(), y, x, c, f);
        assert(new_rows.drop_last() =~= rows.drop_last().update(y, rows[y].update(x, c)));
    }
}

pub proof fn lemma_count_row_bound<T>(row: Seq<T>, f: spec_fn(T) -> bool)
    ensures
        count_row(row, f) <= row.len(),
        count_row(row, f) == row.len() ==> forall|i: int| 0 <= i < row.len() ==> f(#[trigger] row[i]),
    decreases row.len(),
{
    if row.len() > 0 {
        lemma_count_row_bound(row.drop_last(), f);
        assert forall|i: int| 0 <= i < row.len() && count_row(row, f) == row.len() implies f(#[trigger] row[i]) by {
            if i < row.len() - 1 {
                assert(row[i] == row.drop_last()[i]);
            }
        }
    }
}

/// At most every entry of a grid with rows of `w` entries is counted, and
/// when all are, each satisfies `f`.
pub proof fn lemma_count_grid_bound<T>(rows: Seq<Seq<T>>, w: int, f: spec_fn(T) -> bool)
    requires
        w >= 0,
        forall|y: int| 0 <= y < rows.len() ==> #[trigger] rows[y].len() == w,
    ensures
        count_grid(rows, f) <= rows.len() * w,
        count_grid(rows, f) == rows.len() * w ==> forall|y: int, x: int|
            0 <= y < rows.len() && 0 <= x < w ==> f(#[trigger] rows[y][x]),
    decreases rows.len(),
{
    if rows.len() > 0 {
        let n = rows.len() as int;
        lemma_count_grid_bound(rows.drop_last(), w, f);
        lemma_count_row_bound(rows.last(), f);
        assert((n - 1) * w + w == n * w) by (nonlinear_arith);
        assert forall|y: int, x: int| 0 <= y < rows.len() && 0 <= x < w && count_grid(rows, f) == rows.len() * w
            implies f(#[trigger] rows[y][x]) by {
            if y < n - 1 {
                assert(rows[y] == rows.drop_last()[y]);
            }
        }
    }
}

pub proof fn lemma_count_grid_zero<T>(rows: Seq<Seq<T>>, f: spec_fn(T) -> bool)
    requires
        forall|y: int, x: int| 0 <= y < rows.len() && 0 <= x < rows[y].len() ==> !f(#[trigger] rows[y][x]),
    ensures
        count_grid(rows, f) == 0,
    decreases rows.len(),
{
    if rows.len() > 0 {
        lemma_count_grid_zero(rows.drop_last(), f);
        lemma_count_row_zero(rows.last(), f);
    }
}

pub proof fn lemma_count_row_zero<T>(row: Seq<T>, f: spec_fn(T) -> bool)
    requires
        forall|x: int| 0 <= x < row.len() ==> !f(#[trigger] row[x]),
    ensures
        count_row(row, f) == 0,
    decreases row.len(),
{
    if row.len() > 0 {
        lemma_count_row_zero(row.drop_last(), f);
    }
}

pub proof fn lemma_count_row_full<T>(row: Seq<T>, f: spec_fn(T) -> bool)
    requires
        forall|x: int| 0 <= x < row.len() ==> f(#[trigger] row[x]),
    ensures
        count_row(row, f) == row.len(),
    decreases row.len(),
{
    if row.len() > 0 {
        lemma_count_row_full(row.drop_last(), f);
    }
}

/// When every entry of a grid with rows of `w` entries satisfies `f`, all
/// are counted.
pub proof fn lemma_count_grid_full<T>(rows: Seq<Seq<T>>, w: int, f: spec_fn(T) -> bool)
    requires
        w >= 0,
        forall|y: int| 0 <= y < rows.len() ==> #[trigger] rows[y].len() == w,
        forall|y: int, x: int| 0 <= y < rows.len() && 0 <= x < w ==> f(#[trigger] rows[y][x]),
    ensures
        count_grid(rows, f) == rows.len() * w,
    decreases rows.len(),
{
    if rows.len() > 0 {
        let n = rows.len() as int;
        assert forall|y: int, x: int| 0 <= y < n - 1 && 0 <= x < w implies f(#[trigger] rows.drop_last()[y][x]) by {
            assert(rows.drop_last()[y] == rows[y]);
        }
        lemma_count_grid_full(rows.drop_last(), w, f);
        assert forall|x: int| 0 <= x < rows.last().len() implies f(#[trigger] rows.last()[x]) by {
            assert(rows.last() == rows[n - 1]);
        }
        lemma_count_row_full(rows.last(), f);
        assert((n - 1) * w + w == n * w) by (nonlinear_arith);
    }
}

impl View for Maze {
    type V = MazeView;

    closed spec fn view(&self) -> MazeView {
        MazeView {
            width: self.width as int,
            height: self.height as int,
            cells: self.data@.map_values(|r: Vec<Cell>| r@),
            start: self.start_point,
            end: self.end_point,
        }
    }
}

/// The character at column `col` of line `row` of the text picture of `v`:
/// a `+---` border on top, then for each row of cells a line of interiors,
/// `|` marking closed left and right sides, and a line of `---` marking
/// closed bottoms between `+` corners.
pub open spec fn console_char(v: MazeView, row: int, col: int) -> char {
    if row == 0 {
        if col % 4 == 0 { '+' } else { '-' }
    } else if row % 2 == 1 {
        if col == 0 {
            '|'
        } else if col % 4 == 0 {
            if v.cells[(row - 1) / 2][col / 4 - 1].right == LinkType::Path { ' ' } else { '|' }
        } else {
            ' '
        }
    } else {
        if col % 4 == 0 {
            '+'
        } else if v.cells[(row - 2) / 2][col / 4].bottom == LinkType::Path {
            ' '
        } else {
            '-'
        }
    }
}

/// The grid made of `rows`, with the start at the top left and the end at
/// the bottom right.
pub open spec fn grid_of(width: usize, height: usize, rows: Seq<Seq<Cell>>) -> MazeView {
    MazeView {
        width: width as int,
        height: height as int,
        cells: rows,
        start: Coords { x: 0, y: 0 },
        end: Coords { x: (width - 1) as usize, y: (height - 1) as usize },
    }
}

impl Maze {
    /// The maze made of `data`, one vector of cells per row, when it is a
    /// well-formed `width` by `height` grid.
    pub fn from_cells(width: usize, height: usize, data: Vec<Vec<Cell>>) -> (r: Option<Maze>)
        ensures
            r is Some <==> grid_of(width, height, data@.map_values(|row: Vec<Cell>| row@)).wf(),
            r is Some ==> r->Some_0@ == grid_of(width, height, data@.map_values(|row: Vec<Cell>| row@)),
    {
        let ghost v = grid_of(width, height, data@.map_values(|row: Vec<Cell>| row@));
        if width == 0 || height == 0 || data.len() != height {
            return None;
        }
        let mut y: usize = 0;
        while y < height
            invariant
                v == grid_of(width, height, data@.map_values(|row: Vec<Cell>| row@)),
                width >= 1,
                data.len() == height,
                y <= height,
                forall|j: int| 0 <= j < y ==> #[trigger] v.cells[j].len() == width,
                forall|c: Coords| #[trigger] v.in_bounds(c) && c.y < y ==> {
                    &&& (c.y == 0 ==> v.cell(c).top == LinkType::Wall)
                    &&& (c.x == v.width - 1 ==> v.cell(c).right == LinkType::Wall)
                    &&& (c.y == v.height - 1 ==> v.cell(c).bottom == LinkType::Wall)
                    &&& (c.x == 0 ==> v.cell(c).left == LinkType::Wall)
                },
            decreases height - y,
        {
            let row = &data[y];
            proof {
                assert(v.cells[y as int] == row@);
            }
            if row.len() != width {
                return None;
            }
            let mut x: usize = 0;
            while x < width
                invariant
                    v == grid_of(width, height, data@.map_values(|row: Vec<Cell>| row@)),
                    width >= 1,
                    data.len() == height,
                    y < height,
                    x <= width,
                    row@ == v.cells[y as int],
                    row.len() == width,
                    forall|j: int| 0 <= j < y ==> #[trigger] v.cells[j].len() == width,
                    forall|c: Coords| #[trigger] v.in_bounds(c) && (c.y < y || (c.y == y && c.x < x)) ==> {
                        &&& (c.y == 0 ==> v.cell(c).top == LinkType::Wall)
                        &&& (c.x == v.width - 1 ==> v.cell(c).right == LinkType::Wall)
                        &&& (c.y == v.height - 1 ==> v.cell(c).bottom == LinkType::Wall)
                        &&& (c.x == 0 ==> v.cell(c).left == LinkType::Wall)
                    },
                decreases width - x,
            {
                let cell = &row[x];
                if (y == 0 && cell.top != LinkType::Wall) || (x == width - 1 && cell.right != LinkType::Wall)
                    || (y == height - 1 && cell.bottom != LinkType::Wall) || (x == 0 && cell.left != LinkType::Wall) {
                    proof {
                        let c = Coords { x: x, y: y };
                        assert(v.in_bounds(c));
                        assert(v.cell(c) == *cell);
                    }
                    return None;
                }
                proof {
                    assert forall|c: Coords| #[trigger] v.in_bounds(c) && (c.y < y || (c.y == y && c.x < x + 1)) implies {
                        &&& (c.y == 0 ==> v.cell(c).top == LinkType::Wall)
                        &&& (c.x == v.width - 1 ==> v.cell(c).right == LinkType::Wall)
                        &&& (c.y == v.height - 1 ==> v.cell(c).bottom == LinkType::Wall)
                        &&& (c.x == 0 ==> v.cell(c).left == LinkType::Wall)
                    } by {
                        if c.y == y && c.x == x {
                            assert(v.cell(c) == *cell);
                        }
                    }
                }
                x = x + 1;
            }
            proof {
                assert forall|c: Coords| #[trigger] v.in_bounds(c) && c.y < y + 1 implies {
                    &&& (c.y == 0 ==> v.cell(c).top == LinkType::Wall)
                    &&& (c.x == v.width - 1 ==> v.cell(c).right == LinkType::Wall)
                    &&& (c.y == v.height - 1 ==> v.cell(c).bottom == LinkType::Wall)
                    &&& (c.x == 0 ==> v.cell(c).left == LinkType::Wall)
                } by {
                    if c.y < y {
                    } else {
                        assert(c.y == y && c.x < width);
                    }
                }
            }
            y = y + 1;
        }
        let r = Maze {
            data,
            width,
            height,
            start_point: Coords { x: 0, y: 0 },
            end_point: Coords { x: width - 1, y: height - 1 },
        };
        proof {
            assert(r@.cells == v.cells);
            assert(v.shape_ok());
        }
        Some(r)
    }

    /// A blank `width` by `height` grid: every side closed, no cell in the
    /// tree; a grid without cells is refused.
    pub fn new(width: usize, height: usize) -> (r: Result<Maze, MazeError>)
        ensures
            width == 0 || height == 0 ==> r == Err::<Maze, MazeError>(MazeError::InvalidDimensions),
            width >= 1 && height >= 1 ==> {
                &&& r is Ok
                &&& r->Ok_0@.is_blank()
                &&& r->Ok_0@.width == width
                &&& r->Ok_0@.height == height
            },
    {
        if width == 0 || height == 0 {
            return Err(MazeError::InvalidDimensions);
        }
        let mut data: Vec<Vec<Cell>> = Vec::new();
        let mut y: usize = 0;
        while y < height
            invariant
                y <= height,
                data.len() == y,
                forall|j: int| 0 <= j < y ==> (#[trigger] data@[j])@.len() == width,
                forall|j: int, i: int| 0 <= j < y && 0 <= i < width ==> data@[j]@[i] == blank_cell(),
            decreases height - y,
        {
            let mut row: Vec<Cell> = Vec::new();
            let mut x: usize = 0;
            while x < width
                invariant
                    x <= width,
                    row.len() == x,
                    forall|i: int| 0 <= i < x ==> row@[i] == blank_cell(),
                decreases width - x,
            {
                row.push(Cell {
                    top: LinkType::Wall,
                    right: LinkType::Wall,
                    bottom: LinkType::Wall,
                    left: LinkType::Wall,
                    direction: Direction::Blank,
                    in_maze: false,
                });
                x = x + 1;
            }
            data.push(row);
            y = y + 1;
        }
        Ok(Maze {
            data,
            width,
            height,
            start_point: Coords { x: 0, y: 0 },
            end_point: Coords { x: width - 1, y: height - 1 },
        })
    }

    /// The directions that stay inside the grid from `coords`.
    pub fn get_directions_possible(&self, coords: &Coords) -> (r: Vec<Direction>)
        requires
            self@.wf(),
        ensures
            r@ == directions_in_grid(self@.width, self@.height, *coords),
    {
        let mut vec: Vec<Direction> = Vec::new();
        if coords.x > 0 {
            vec.push(Direction::Left);
        }
        if coords.y > 0 {
            vec.push(Direction::Up);
        }
        if coords.x < self.width - 1 {
            vec.push(Direction::Right);
        }
        if coords.y < self.height - 1 {
            vec.push(Direction::Down);
        }
        vec
    }

    pub fn borrow_cell(&self, coords: &Coords) -> (r: &Cell)
        requires
            self@.shape_ok(),
            self@.in_bounds(*coords),
        ensures
            *r == self@.cell(*coords),
    {
        &self.data[coords.y][coords.x]
    }

    pub fn borrow_cell_mut(&mut self, coords: &Coords) -> (r: &mut Cell)
        requires
            old(self)@.shape_ok(),
            old(self)@.in_bounds(*coords),
        ensures
            *r == old(self)@.cell(*coords),
            final(self)@.cells =~= old(self)@.set_cell(*coords, *final(r)).cells,
            final(self)@ == old(self)@.set_cell(*coords, *final(r)),
    {
        &mut self.data[coords.y][coords.x]
    }

    /// The text picture of the maze, one vector of characters per line.
    pub fn console_lines(&self) -> (r: Vec<Vec<char>>)
        requires
            self@.wf(),
            4 * self@.width + 1 <= usize::MAX,
            2 * self@.height + 1 <= usize::MAX,
        ensures
            r@.len() == 2 * self@.height + 1,
            forall|row: int| 0 <= row < r@.len() ==> #[trigger] r@[row]@.len() == 4 * self@.width + 1,
            forall|row: int, col: int| 0 <= row < r@.len() && 0 <= col < 4 * self@.width + 1
                ==> #[trigger] r@[row]@[col] == console_char(self@, row, col),
    {
        let ghost v = self@;
        let mut lines: Vec<Vec<char>> = Vec::new();
        let mut first: Vec<char> = Vec::new();
        let mut i: usize = 0;
        while i < 4 * self.width + 1
            invariant
                v == self@,
                4 * v.width + 1 <= usize::MAX,
                i <= 4 * v.width + 1,
                first@.len() == i,
                forall|col: int| 0 <= col < i ==> #[trigger] first@[col] == console_char(v, 0, col),
            decreases 4 * self.width + 1 - i,
        {
            if i % 4 == 0 {
                first.push('+');
            } else {
                first.push('-');
            }
            i = i + 1;
        }
        lines.push(first);
        let mut y: usize = 0;
        while y < self.height
            invariant
                v == self@,
                v.wf(),
                4 * v.width + 1 <= usize::MAX,
                2 * v.height + 1 <= usize::MAX,
                y <= v.height,
                lines@.len() == 2 * y + 1,
                forall|row: int| 0 <= row < lines@.len() ==> #[trigger] lines@[row]@.len() == 4 * v.width + 1,
                forall|row: int, col: int| 0 <= row < lines@.len() && 0 <= col < 4 * v.width + 1
                    ==> #[trigger] lines@[row]@[col] == console_char(v, row, col),
            decreases self.height - y,
        {
            let ghost top = 2 * y + 1;
            let ghost bot = 2 * y + 2;
            let mut upper: Vec<char> = Vec::new();
            let mut lower: Vec<char> = Vec::new();
            upper.push('|');
            lower.push('+');
            let row = &self.data[y];
            proof {
                assert(v.cells[y as int] == row@);
                assert(row@.len() == v.width);
                assert((top - 1) / 2 == y);
                assert((bot - 2) / 2 == y);
                assert(top % 2 == 1);
                assert(bot % 2 == 0);
            }
            let mut x: usize = 0;
            while x < self.width
                invariant
                    v == self@,
                    4 * v.width + 1 <= usize::MAX,
                    y < v.height,
                    x <= v.width,
                    row@ == v.cells[y as int],
                    row@.len() == v.width,
                    top == 2 * y + 1,
                    bot == 2 * y + 2,
                    (top - 1) / 2 == y,
                    (bot - 2) / 2 == y,
                    top % 2 == 1,
                    bot % 2 == 0,
                    upper@.len() == 4 * x + 1,
                    lower@.len() == 4 * x + 1,
                    forall|col: int| 0 <= col < 4 * x + 1 ==> #[trigger] upper@[col] == console_char(v, top, col),
                    forall|col: int| 0 <= col < 4 * x + 1 ==> #[trigger] lower@[col] == console_char(v, bot, col),
                decreases self.width - x,
            {
                let cell = &row[x];
                let right = if cell.right == LinkType::Path { ' ' } else { '|' };
                let bottom = if cell.bottom == LinkType::Path { ' ' } else { '-' };
                let ghost n = 4 * x + 1;
                upper.push(' ');
                upper.push(' ');
                upper.push(' ');
                upper.push(right);
                lower.push(bottom);
                lower.push(bottom);
                lower.push(bottom);
                lower.push('+');
                proof {
                    assert forall|k: int| 0 <= k < 3 implies #[trigger] ((n + k) / 4) == x by {
                        assert((4 * x + 1 + k) / 4 == x) by (nonlinear_arith)
                            requires 0 <= k < 3;
                    }
                    assert forall|k: int| 0 <= k < 4 implies #[trigger] ((n + k) % 4) == (k + 1) % 4 by {
                        assert((4 * x + 1 + k) % 4 == (k + 1) % 4) by (nonlinear_arith)
                            requires 0 <= k < 4;
                    }
                    assert((n + 3) / 4 == x + 1) by (nonlinear_arith)
                        requires n == 4 * x + 1;
                    assert forall|col: int| 0 <= col < 4 * (x + 1) + 1 implies #[trigger] upper@[col] == console_char(v, top, col) by {
                        if col >= n {
                            let k = col - n;
                            assert((n + k) % 4 == (k + 1) % 4);
                        }
                    }
                    assert forall|col: int| 0 <= col < 4 * (x + 1) + 1 implies #[trigger] lower@[col] == console_char(v, bot, col) by {
                        if col >= n {
                            let k = col - n;
                            assert((n + k) % 4 == (k + 1) % 4);
                            assert((n + k) / 4 == x || k == 3);
                        }
                    }
                }
                x = x + 1;
            }
            lines.push(upper);
            lines.push(lower);
            y = y + 1;
        }
        lines
    }

    /// The neighbours of `coords` that an open side leads to.
    pub fn get_possible_moves(&self, coords: &Coords) -> (r: Vec<Coords>)
        requires
            self@.wf(),
            self@.in_bounds(*coords),
        ensures
            r@ == self@.moves(*coords),
    {
        let mut ret_vec: Vec<Coords> = Vec::new();
        let cell = self.borrow_cell(coords);
        proof {
            assert(self@.in_bounds(*coords));
        }
        if cell.top == LinkType::Path {
            ret_vec.push(Coords { x: coords.x, y: coords.y - 1 });
        }
        if cell.right == LinkType::Path {
            ret_vec.push(Coords { x: coords.x + 1, y: coords.y });
        }
        if cell.bottom == LinkType::Path {
            ret_vec.push(Coords { x: coords.x, y: coords.y + 1 });
        }
        if cell.left == LinkType::Path {
            ret_vec.push(Coords { x: coords.x - 1, y: coords.y });
        }
        ret_vec
    }

    pub fn get_dimensions(&self) -> (r: (usize, usize))
        ensures
            r.0 == self@.width,
            r.1 == self@.height,
    {
        (self.width, self.height)
    }

    pub fn get_width(&self) -> (r: usize)
        ensures
            r == self@.width,
    {
        self.width
    }

    pub fn get_height(&self) -> (r: usize)
        ensures
            r == self@.height,
    {
        self.height
    }

    pub fn get_start_point(&self) -> (r: &Coords)
        ensures
            *r == self@.start,
    {
        &self.start_point
    }

    pub fn get_end_point(&self) -> (r: &Coords)
        ensures
            *r == self@.end,
    {
        &self.end_point
    }
}

/// A way of carving passages into a blank grid.
pub trait MazeGenerator {
    /// Carves `maze` into a perfect maze, or reports that it gave up; the
    /// grid stays well-formed and symmetric either way.
    fn generate(&self, maze: &mut Maze) -> (r: Result<(), MazeError>)
        requires
            old(maze)@.is_blank(),
            old(maze)@.width * old(maze)@.height <= usize::MAX,
        ensures
            final(maze)@.width == old(maze)@.width,
            final(maze)@.height == old(maze)@.height,
            r is Ok ==> final(maze)@.is_perfect(),
            final(maze)@.wf(),
            final(maze)@.symmetric(),
            old(maze)@.width == 1 && old(maze)@.height == 1 ==> r is Ok,
            r is Err ==> r == Err::<(), MazeError>(MazeError::WalkLimitReached),
    ;
}

/// Builds mazes of any size with one generator.
pub struct MazeBuilder<G: MazeGenerator> {
    generator: G,
}

impl<G: MazeGenerator> MazeBuilder<G> {
    pub fn from_generator(generator: G) -> (r: MazeBuilder<G>)
        ensures
            r.generator() == generator,
    {
        MazeBuilder { generator: generator }
    }

    pub closed spec fn generator(&self) -> G {
        self.generator
    }

    /// A `width` by `height` maze carved by the generator.
    pub fn generate(&self, width: usize, height: usize) -> (r: Result<Maze, MazeError>)
        requires
            width * height <= usize::MAX,
        ensures
            width == 0 || height == 0 ==> r == Err::<Maze, MazeError>(MazeError::InvalidDimensions),
            r is Ok ==> {
                &&& r->Ok_0@.width == width
                &&& r->Ok_0@.height == height
                &&& r->Ok_0@.is_perfect()
            },
            width == 1 && height == 1 ==> r is Ok,
            r is Err && width >= 1 && height >= 1
                ==> r == Err::<Maze, MazeError>(MazeError::WalkLimitReached),
    {
        let mut maze = match Maze::new(width, height) {
            Ok(maze) => maze,
            Err(e) => {
                return Err(e);
            },
        };
        match self.generator.generate(&mut maze) {
            Ok(()) => Ok(maze),
            Err(e) => Err(e),
        }
    }
}

} // verus!
