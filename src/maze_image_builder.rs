use crate::image_drawer::{
    lemma_repaint_same, lemma_repaint_twice,
    draw_line_with_thickness, image_ok, image_pixels, image_size, in_image, repainted, stroke_hit, Canvas,
    Color,
};
use crate::maze::{Coords, LinkType, Maze, MazeView};
use crate::solver::{is_solution, lemma_solution_unique, solve_maze};
use vstd::prelude::*;

verus! {

/// The size in pixels of one cell, its border rows and columns included.
#[derive(Clone, Copy, Debug, PartialEq, Eq, Structural)]
pub struct ConfigArray {
    pub cell_width: u32,
    pub cell_height: u32,
}

/// Draws a maze, and optionally its solution, onto a canvas.
pub struct MazeImageBuilder<'a> {
    config: ConfigArray,
    image: Canvas,
    maze: &'a Maze,
    solve: bool,
}

pub open spec fn white() -> Color {
    (0xffu8, 0xffu8, 0xffu8)
}

pub open spec fn black() -> Color {
    (0u8, 0u8, 0u8)
}

pub open spec fn red() -> Color {
    (0xffu8, 0u8, 0u8)
}

/// The image width for `m`: neighbouring cells share their border column.
pub open spec fn image_width_for(m: MazeView, cfg: ConfigArray) -> int {
    m.width * (cfg.cell_width - 1) + 1
}

/// The image height for `m`: neighbouring cells share their border row.
pub open spec fn image_height_for(m: MazeView, cfg: ConfigArray) -> int {
    m.height * (cfg.cell_height - 1) + 1
}

/// Cell sizes of at least one pixel, and an image that fits the machine.
pub open spec fn config_ok(m: MazeView, cfg: ConfigArray) -> bool {
    &&& cfg.cell_width >= 1
    &&& cfg.cell_height >= 1
    &&& m.width <= u32::MAX
    &&& m.height <= u32::MAX
    &&& image_width_for(m, cfg) <= u32::MAX
    &&& image_height_for(m, cfg) <= u32::MAX
    &&& 3 * image_width_for(m, cfg) * image_height_for(m, cfg) <= isize::MAX
}

/// A tenth of `size`, rounded half up, and at least one.
pub open spec fn wall_width(size: int) -> int {
    let t = size / 10 + if size % 10 >= 5 { 1int } else { 0int };
    if t < 1 { 1 } else { t }
}

/// A fifth of `size`, rounded half up, and at least one.
pub open spec fn overlay_width(size: int) -> int {
    let t = size / 5 + if size % 5 >= 3 { 1int } else { 0int };
    if t < 1 { 1 } else { t }
}

/// The thickness of the solution line: the larger of the overlay widths
/// for the two cell sides.
pub open spec fn solution_width(cfg: ConfigArray) -> int {
    let a = overlay_width(cfg.cell_width as int);
    let b = overlay_width(cfg.cell_height as int);
    if a >= b { a } else { b }
}

/// `(px, py)` is covered by a closed side of the cell at `c`.
pub open spec fn cell_hit(m: MazeView, cfg: ConfigArray, c: Coords, px: int, py: int) -> bool {
    let bx = (cfg.cell_width - 1) * c.x;
    let by = (cfg.cell_height - 1) * c.y;
    let ex = bx + cfg.cell_width - 1;
    let ey = by + cfg.cell_height - 1;
    let th = wall_width(cfg.cell_width as int);
    let tv = wall_width(cfg.cell_height as int);
    let cell = m.cell(c);
    ||| cell.top == LinkType::Wall && stroke_hit(bx, by, ex, by, tv, px, py)
    ||| cell.left == LinkType::Wall && stroke_hit(bx, by, bx, ey, th, px, py)
    ||| cell.right == LinkType::Wall && stroke_hit(ex, by, ex, ey, th, px, py)
    ||| cell.bottom == LinkType::Wall && stroke_hit(bx, ey, ex, ey, tv, px, py)
}

/// `(px, py)` is covered by a closed side of a cell before row `y`, or of a
/// cell of row `y` before column `x`.
pub open spec fn walls_before(m: MazeView, cfg: ConfigArray, y: int, x: int, px: int, py: int) -> bool {
    exists|c: Coords| #[trigger] m.in_bounds(c) && (c.y < y || (c.y == y && c.x < x)) && cell_hit(m, cfg, c, px, py)
}

/// `(px, py)` is covered by a closed side of some cell.
pub open spec fn wall_hit(m: MazeView, cfg: ConfigArray, px: int, py: int) -> bool {
    exists|c: Coords| #[trigger] m.in_bounds(c) && cell_hit(m, cfg, c, px, py)
}

/// The maze drawn on a white image of its size: closed sides black.
pub open spec fn maze_render(m: MazeView, cfg: ConfigArray) -> Map<(u32, u32), Color> {
    repainted(
        Map::new(
            |p: (u32, u32)| in_image(image_width_for(m, cfg), image_height_for(m, cfg), p),
            |p: (u32, u32)| white(),
        ),
        |p: (u32, u32)| wall_hit(m, cfg, p.0 as int, p.1 as int),
        black(),
    )
}

/// The pixel at the middle of the cell at `c`.
pub open spec fn cell_center(cfg: ConfigArray, c: Coords) -> (int, int) {
    (
        (cfg.cell_width - 1) * c.x + (cfg.cell_width - 1) / 2,
        (cfg.cell_height - 1) * c.y + (cfg.cell_height - 1) / 2,
    )
}

/// `(px, py)` is covered by the solution line along the first `n` steps of `p`.
pub open spec fn solution_hit_before(cfg: ConfigArray, p: Seq<Coords>, n: int, px: int, py: int) -> bool {
    exists|i: int| 0 <= i < n && #[trigger] segment_hit(cfg, p, i, px, py)
}

/// `(px, py)` is covered by the solution line from `p[i]` to `p[i + 1]`.
pub open spec fn segment_hit(cfg: ConfigArray, p: Seq<Coords>, i: int, px: int, py: int) -> bool {
    let a = cell_center(cfg, p[i]);
    let b = cell_center(cfg, p[i + 1]);
    stroke_hit(a.0, a.1, b.0, b.1, solution_width(cfg), px, py)
}

/// `(px, py)` is covered by the solution line along `p`.
pub open spec fn solution_hit(cfg: ConfigArray, p: Seq<Coords>, px: int, py: int) -> bool {
    solution_hit_before(cfg, p, p.len() - 1, px, py)
}

/// `img` is the picture of `m` for `cfg`: the image size for the maze, the
/// maze drawn, and when `solve` holds a solution drawn over it in red.
pub open spec fn rendered_as(m: MazeView, cfg: ConfigArray, solve: bool, img: Canvas) -> bool {
    &&& image_ok(img)
    &&& image_size(img).0 == image_width_for(m, cfg)
    &&& image_size(img).1 == image_height_for(m, cfg)
    &&& !solve ==> image_pixels(img) == maze_render(m, cfg)
    &&& solve ==> exists|p: Seq<Coords>| {
        &&& is_solution(m, p)
        &&& image_pixels(img) == repainted(
            maze_render(m, cfg),
            |q: (u32, u32)| solution_hit(cfg, p, q.0 as int, q.1 as int),
            red(),
        )
    }
}

/// Drawing a perfect maze twice with the same cell sizes, with or without
/// its solution, gives the same pixels.
pub proof fn lemma_render_deterministic(m: MazeView, cfg: ConfigArray, solve: bool, a: Canvas, b: Canvas)
    requires
        m.is_perfect(),
        rendered_as(m, cfg, solve, a),
        rendered_as(m, cfg, solve, b),
    ensures
        image_size(a) == image_size(b),
        image_pixels(a) == image_pixels(b),
{
    if solve {
        let pa = choose|p: Seq<Coords>| {
            &&& is_solution(m, p)
            &&& image_pixels(a) == repainted(
                maze_render(m, cfg),
                |q: (u32, u32)| solution_hit(cfg, p, q.0 as int, q.1 as int),
                red(),
            )
        };
        let pb = choose|p: Seq<Coords>| {
            &&& is_solution(m, p)
            &&& image_pixels(b) == repainted(
                maze_render(m, cfg),
                |q: (u32, u32)| solution_hit(cfg, p, q.0 as int, q.1 as int),
                red(),
            )
        };
        lemma_solution_unique(m, pa, pb);
    }
}

/// A tenth of `size`, rounded half up, and at least one.
fn wall_thickness(size: u32) -> (r: u32)
    ensures
        r == wall_width(size as int),
{
    let t = size / 10 + if size % 10 >= 5 { 1 } else { 0 };
    if t < 1 { 1 } else { t }
}

/// A fifth of `size`, rounded half up, and at least one.
fn overlay_thickness(size: u32) -> (r: u32)
    ensures
        r == overlay_width(size as int),
{
    let t = size / 5 + if size % 5 >= 3 { 1 } else { 0 };
    if t < 1 { 1 } else { t }
}

pub proof fn lemma_corner_bounds(n: int, k: int, i: int)
    requires
        0 <= i < n,
        k >= 1,
        n * (k - 1) + 1 <= u32::MAX,
    ensures
        0 <= (k - 1) * i,
        (k - 1) * i + k - 1 < n * (k - 1) + 1,
        (k - 1) * i + (k - 1) / 2 < n * (k - 1) + 1,
{
    assert((k - 1) * i <= (k - 1) * (n - 1)) by (nonlinear_arith)
        requires 0 <= i <= n - 1, k >= 1;
    assert((k - 1) * (n - 1) + k - 1 == n * (k - 1)) by (nonlinear_arith);
    assert(0 <= (k - 1) * i) by (nonlinear_arith)
        requires 0 <= i, k >= 1;
}

impl<'a> MazeImageBuilder<'a> {
    pub closed spec fn maze_view(&self) -> MazeView {
        self.maze@
    }

    pub closed spec fn config_view(&self) -> ConfigArray {
        self.config
    }

    pub closed spec fn canvas(&self) -> Canvas {
        self.image
    }

    pub closed spec fn solve_flag(&self) -> bool {
        self.solve
    }

    /// The canvas has the image size for the maze and holds the maze drawn.
    pub open spec fn wf(&self) -> bool {
        &&& self.maze_view().wf()
        &&& config_ok(self.maze_view(), self.config_view())
        &&& image_ok(self.canvas())
        &&& image_size(self.canvas()).0 == image_width_for(self.maze_view(), self.config_view())
        &&& image_size(self.canvas()).1 == image_height_for(self.maze_view(), self.config_view())
    }

    /// Draws the closed sides of the cell at `(x, y)`.
    pub fn draw_cell(&mut self, x: u32, y: u32)
        requires
            old(self).wf(),
            x < old(self).maze_view().width,
            y < old(self).maze_view().height,
        ensures
            final(self).wf(),
            final(self).maze_view() == old(self).maze_view(),
            final(self).config_view() == old(self).config_view(),
            final(self).solve_flag() == old(self).solve_flag(),
            image_pixels(final(self).canvas()) == repainted(
                image_pixels(old(self).canvas()),
                |p: (u32, u32)| cell_hit(old(self).maze_view(), old(self).config_view(),
                    Coords { x: x as usize, y: y as usize }, p.0 as int, p.1 as int),
                black(),
            ),
    {
        let ghost m = self.maze@;
        let ghost cfg = self.config;
        let ghost c = Coords { x: x as usize, y: y as usize };
        let width_cell = self.config.cell_width;
        let height_cell = self.config.cell_height;
        let thickness_horizontal = wall_thickness(width_cell);
        let thickness_vertical = wall_thickness(height_cell);
        proof {
            lemma_corner_bounds(m.width, width_cell as int, x as int);
            lemma_corner_bounds(m.height, height_cell as int, y as int);
        }
        let base_x = (width_cell - 1) * x;
        let base_y = (height_cell - 1) * y;
        let end_x = base_x + width_cell - 1;
        let end_y = base_y + height_cell - 1;
        let top_left_corner = Coords { x: base_x as usize, y: base_y as usize };
        let top_right_corner = Coords { x: end_x as usize, y: base_y as usize };
        let bottom_left_corner = Coords { x: base_x as usize, y: end_y as usize };
        let bottom_right_corner = Coords { x: end_x as usize, y: end_y as usize };
        let coords = Coords { x: x as usize, y: y as usize };
        let maze: &Maze = self.maze;
        let cell = *maze.borrow_cell(&coords);
        let black_color: Color = (0, 0, 0);
        let ghost p0 = image_pixels(self.image);
        let ghost ht = |p: (u32, u32)| cell.top == LinkType::Wall
            && stroke_hit(base_x as int, base_y as int, end_x as int, base_y as int, thickness_vertical as int, p.0 as int, p.1 as int);
        let ghost hl = |p: (u32, u32)| cell.left == LinkType::Wall
            && stroke_hit(base_x as int, base_y as int, base_x as int, end_y as int, thickness_horizontal as int, p.0 as int, p.1 as int);
        let ghost hr = |p: (u32, u32)| cell.right == LinkType::Wall
            && stroke_hit(end_x as int, base_y as int, end_x as int, end_y as int, thickness_horizontal as int, p.0 as int, p.1 as int);
        let ghost hb = |p: (u32, u32)| cell.bottom == LinkType::Wall
            && stroke_hit(base_x as int, end_y as int, end_x as int, end_y as int, thickness_vertical as int, p.0 as int, p.1 as int);
        if cell.top == LinkType::Wall {
            draw_line_with_thickness(&mut self.image, &top_left_corner, &top_right_corner, thickness_vertical, black_color);
        }
        proof {
            assert(image_pixels(self.image) == repainted(p0, ht, black())) by {
                if cell.top != LinkType::Wall {
                    assert(repainted(p0, ht, black()) =~= p0);
                }
            }
        }
        let ghost p1 = image_pixels(self.image);
        if cell.left == LinkType::Wall {
            draw_line_with_thickness(&mut self.image, &top_left_corner, &bottom_left_corner, thickness_horizontal, black_color);
        }
        proof {
            assert(image_pixels(self.image) == repainted(p1, hl, black())) by {
                if cell.left != LinkType::Wall {
                    assert(repainted(p1, hl, black()) =~= p1);
                }
            }
        }
        let ghost p2 = image_pixels(self.image);
        if cell.right == LinkType::Wall {
            draw_line_with_thickness(&mut self.image, &top_right_corner, &bottom_right_corner, thickness_horizontal, black_color);
        }
        proof {
            assert(image_pixels(self.image) == repainted(p2, hr, black())) by {
                if cell.right != LinkType::Wall {
                    assert(repainted(p2, hr, black()) =~= p2);
                }
            }
        }
        let ghost p3 = image_pixels(self.image);
        if cell.bottom == LinkType::Wall {
            draw_line_with_thickness(&mut self.image, &bottom_left_corner, &bottom_right_corner, thickness_vertical, black_color);
        }
        proof {
            assert(image_pixels(self.image) == repainted(p3, hb, black())) by {
                if cell.bottom != LinkType::Wall {
                    assert(repainted(p3, hb, black()) =~= p3);
                }
            }
            lemma_repaint_twice(p0, ht, hl, black());
            let h2 = |p: (u32, u32)| ht(p) || hl(p);
            lemma_repaint_twice(p0, h2, hr, black());
            let h3 = |p: (u32, u32)| h2(p) || hr(p);
            lemma_repaint_twice(p0, h3, hb, black());
            let h4 = |p: (u32, u32)| h3(p) || hb(p);
            lemma_repaint_same(p0, h4, |p: (u32, u32)| cell_hit(m, cfg, c, p.0 as int, p.1 as int), black());
        }
    }

    /// Draws the closed sides of every cell.
    fn draw_maze(&mut self)
        requires
            old(self).wf(),
        ensures
            final(self).wf(),
            final(self).maze_view() == old(self).maze_view(),
            final(self).config_view() == old(self).config_view(),
            final(self).solve_flag() == old(self).solve_flag(),
            image_pixels(final(self).canvas()) == repainted(
                image_pixels(old(self).canvas()),
                |p: (u32, u32)| wall_hit(old(self).maze_view(), old(self).config_view(), p.0 as int, p.1 as int),
                black(),
            ),
    {
        let ghost m = self.maze@;
        let ghost cfg = self.config;
        let ghost p0 = image_pixels(self.image);
        let ghost solve0 = self.solve;
        let (width, height) = self.maze.get_dimensions();
        proof {
            lemma_repaint_same(p0, |p: (u32, u32)| walls_before(m, cfg, 0, 0, p.0 as int, p.1 as int),
                |p: (u32, u32)| false, black());
            assert(repainted(p0, |p: (u32, u32)| false, black()) =~= p0);
        }
        let mut y: usize = 0;
        while y < height
            invariant
                self.wf(),
                self.maze_view() == m,
                self.config_view() == cfg,
                self.solve_flag() == solve0,
                width == m.width,
                height == m.height,
                y <= height,
                image_pixels(self.canvas()) == repainted(p0,
                    |p: (u32, u32)| walls_before(m, cfg, y as int, 0, p.0 as int, p.1 as int), black()),
            decreases height - y,
        {
            let mut x: usize = 0;
            while x < width
                invariant
                    self.wf(),
                    self.maze_view() == m,
                    self.config_view() == cfg,
                    self.solve_flag() == solve0,
                    width == m.width,
                    height == m.height,
                    y < height,
                    x <= width,
                    image_pixels(self.canvas()) == repainted(p0,
                        |p: (u32, u32)| walls_before(m, cfg, y as int, x as int, p.0 as int, p.1 as int), black()),
                decreases width - x,
            {
                let ghost before = image_pixels(self.canvas());
                self.draw_cell(x as u32, y as u32);
                proof {
                    let c = Coords { x: x as usize, y: y as usize };
                    let a = |p: (u32, u32)| walls_before(m, cfg, y as int, x as int, p.0 as int, p.1 as int);
                    let b = |p: (u32, u32)| cell_hit(m, cfg, c, p.0 as int, p.1 as int);
                    lemma_repaint_twice(p0, a, b, black());
                    let ab = |q: (u32, u32)| a(q) || b(q);
                    assert forall|p: (u32, u32)| #[trigger] ab(p)
                        == walls_before(m, cfg, y as int, x + 1, p.0 as int, p.1 as int) by {
                        if b(p) {
                            assert(m.in_bounds(c));
                        }
                        if walls_before(m, cfg, y as int, x + 1, p.0 as int, p.1 as int) {
                            let d = choose|d: Coords| #[trigger] m.in_bounds(d) && (d.y < y || (d.y == y && d.x < x + 1))
                                && cell_hit(m, cfg, d, p.0 as int, p.1 as int);
                            if d.y == y && d.x == x {
                                assert(d == c);
                            }
                        }
                    }
                    lemma_repaint_same(p0, ab,
                        |p: (u32, u32)| walls_before(m, cfg, y as int, x + 1, p.0 as int, p.1 as int), black());
                }
                x = x + 1;
            }
            proof {
                assert forall|p: (u32, u32)| #[trigger] walls_before(m, cfg, y as int, width as int, p.0 as int, p.1 as int)
                    == walls_before(m, cfg, y + 1, 0, p.0 as int, p.1 as int) by {
                    if walls_before(m, cfg, y + 1, 0, p.0 as int, p.1 as int) {
                        let d = choose|d: Coords| #[trigger] m.in_bounds(d) && (d.y < y + 1 || (d.y == y + 1 && d.x < 0))
                            && cell_hit(m, cfg, d, p.0 as int, p.1 as int);
                        assert(m.in_bounds(d));
                    }
                }
                lemma_repaint_same(p0, |p: (u32, u32)| walls_before(m, cfg, y as int, width as int, p.0 as int, p.1 as int),
                    |p: (u32, u32)| walls_before(m, cfg, y + 1, 0, p.0 as int, p.1 as int), black());
            }
            y = y + 1;
        }
        proof {
            assert forall|p: (u32, u32)| #[trigger] walls_before(m, cfg, height as int, 0, p.0 as int, p.1 as int)
                == wall_hit(m, cfg, p.0 as int, p.1 as int) by {
                if wall_hit(m, cfg, p.0 as int, p.1 as int) {
                    let d = choose|d: Coords| #[trigger] m.in_bounds(d) && cell_hit(m, cfg, d, p.0 as int, p.1 as int);
                    assert(m.in_bounds(d) && d.y < height);
                }
            }
            lemma_repaint_same(p0, |p: (u32, u32)| walls_before(m, cfg, height as int, 0, p.0 as int, p.1 as int),
                |p: (u32, u32)| wall_hit(m, cfg, p.0 as int, p.1 as int), black());
        }
    }

    /// The canvas holds exactly the maze drawn on white.
    pub open spec fn is_rendered(&self) -> bool {
        image_pixels(self.canvas()) == maze_render(self.maze_view(), self.config_view())
    }

    /// A builder for `maze` whose canvas already holds the maze drawn.
    pub fn new(config: ConfigArray, maze: &'a Maze) -> (r: MazeImageBuilder<'a>)
        requires
            maze@.wf(),
            config_ok(maze@, config),
        ensures
            r.wf(),
            r.is_rendered(),
            r.maze_view() == maze@,
            r.config_view() == config,
            !r.solve_flag(),
    {
        let (width, height) = MazeImageBuilder::get_image_array_size(maze, &config);
        let mut ret = MazeImageBuilder {
            config: config,
            maze: maze,
            image: Canvas::from_pixel(width, height, (0xff, 0xff, 0xff)),
            solve: false,
        };
        let ghost m = maze@;
        proof {
            assert(image_pixels(ret.image) =~= Map::new(
                |p: (u32, u32)| in_image(image_width_for(m, config), image_height_for(m, config), p),
                |p: (u32, u32)| white(),
            ));
        }
        ret.draw_maze();
        ret
    }

    /// Asks for the solution to be drawn, or not, by `build_image`.
    pub fn solve(&mut self, flag: bool)
        ensures
            final(self).solve_flag() == flag,
            final(self).maze_view() == old(self).maze_view(),
            final(self).config_view() == old(self).config_view(),
            final(self).canvas() == old(self).canvas(),
    {
        self.solve = flag;
    }

    /// Draws the maze, and the solution when asked for, and returns the canvas.
    pub fn build_image(self) -> (r: Canvas)
        requires
            self.wf(),
            self.is_rendered(),
            self.solve_flag() ==> self.maze_view().reachable(self.maze_view().start, self.maze_view().end),
        ensures
            rendered_as(self.maze_view(), self.config_view(), self.solve_flag(), r),
    {
        let ghost m = self.maze@;
        let ghost cfg = self.config;
        let mut builder = self;
        builder.draw_maze();
        proof {
            let white_canvas = Map::new(
                |p: (u32, u32)| in_image(image_width_for(m, cfg), image_height_for(m, cfg), p),
                |p: (u32, u32)| white(),
            );
            let w = |p: (u32, u32)| wall_hit(m, cfg, p.0 as int, p.1 as int);
            lemma_repaint_twice(white_canvas, w, w, black());
            lemma_repaint_same(white_canvas, |p: (u32, u32)| w(p) || w(p), w, black());
        }
        if builder.solve {
            builder.draw_solution();
        }
        builder.image
    }

    /// Draws a solution of the maze as a red line through the cell centres.
    fn draw_solution(&mut self)
        requires
            old(self).wf(),
            old(self).maze_view().reachable(old(self).maze_view().start, old(self).maze_view().end),
        ensures
            final(self).wf(),
            final(self).maze_view() == old(self).maze_view(),
            final(self).config_view() == old(self).config_view(),
            final(self).solve_flag() == old(self).solve_flag(),
            exists|p: Seq<Coords>| {
                &&& is_solution(old(self).maze_view(), p)
                &&& image_pixels(final(self).canvas()) == repainted(
                    image_pixels(old(self).canvas()),
                    |q: (u32, u32)| solution_hit(old(self).config_view(), p, q.0 as int, q.1 as int),
                    red(),
                )
            },
    {
        let ghost m = self.maze@;
        let ghost cfg = self.config;
        let ghost p0 = image_pixels(self.image);
        let ghost solve0 = self.solve;
        let maze: &Maze = self.maze;
        let path = match solve_maze(maze) {
            Ok(path) => path,
            Err(_) => {
                proof {
                    assert(false);
                }
                return;
            },
        };
        let ghost pd = path.data@;
        let width_cell = self.config.cell_width;
        let height_cell = self.config.cell_height;
        let thickness_horizontal = overlay_thickness(width_cell);
        let thickness_vertical = overlay_thickness(height_cell);
        let thickness = if thickness_horizontal >= thickness_vertical {
            thickness_horizontal
        } else {
            thickness_vertical
        };
        let color: Color = (0xff, 0x00, 0x00);
        proof {
            lemma_repaint_same(p0, |q: (u32, u32)| solution_hit_before(cfg, pd, 0, q.0 as int, q.1 as int),
                |q: (u32, u32)| false, red());
            assert(repainted(p0, |q: (u32, u32)| false, red()) =~= p0);
        }
        let n = path.data.len();
        let mut i: usize = 0;
        while i < n - 1
            invariant
                self.wf(),
                self.maze_view() == m,
                self.config_view() == cfg,
                self.solve_flag() == solve0,
                m.wf(),
                is_solution(m, pd),
                pd == path.data@,
                n == pd.len(),
                n >= 1,
                i <= n - 1,
                width_cell == cfg.cell_width,
                height_cell == cfg.cell_height,
                thickness == solution_width(cfg),
                color == red(),
                image_pixels(self.canvas()) == repainted(p0,
                    |q: (u32, u32)| solution_hit_before(cfg, pd, i as int, q.0 as int, q.1 as int), red()),
            decreases n - 1 - i,
        {
            let coords_first = path.data[i];
            let coords_second = path.data[i + 1];
            proof {
                assert(m.in_bounds(pd[i as int]));
                assert(m.in_bounds(pd[i + 1]));
                lemma_corner_bounds(m.width, width_cell as int, coords_first.x as int);
                lemma_corner_bounds(m.height, height_cell as int, coords_first.y as int);
                lemma_corner_bounds(m.width, width_cell as int, coords_second.x as int);
                lemma_corner_bounds(m.height, height_cell as int, coords_second.y as int);
            }
            let base_x0 = (width_cell - 1) * coords_first.x as u32 + (width_cell - 1) / 2;
            let base_y0 = (height_cell - 1) * coords_first.y as u32 + (height_cell - 1) / 2;
            let base_x1 = (width_cell - 1) * coords_second.x as u32 + (width_cell - 1) / 2;
            let base_y1 = (height_cell - 1) * coords_second.y as u32 + (height_cell - 1) / 2;
            let begin = Coords { x: base_x0 as usize, y: base_y0 as usize };
            let end = Coords { x: base_x1 as usize, y: base_y1 as usize };
            let ghost before = image_pixels(self.image);
            proof {
                assert(begin.x < image_size(self.image).0 && end.x < image_size(self.image).0);
                assert(begin.y < image_size(self.image).1 && end.y < image_size(self.image).1);
                assert(cell_center(cfg, pd[i as int]) == (begin.x as int, begin.y as int));
                assert(cell_center(cfg, pd[i + 1]) == (end.x as int, end.y as int));
            }
            draw_line_with_thickness(&mut self.image, &begin, &end, thickness, color);
            proof {
                let a = |q: (u32, u32)| solution_hit_before(cfg, pd, i as int, q.0 as int, q.1 as int);
                let b = |q: (u32, u32)| segment_hit(cfg, pd, i as int, q.0 as int, q.1 as int);
                assert(color == red());
                lemma_repaint_same(before, |q: (u32, u32)| stroke_hit(begin.x as int, begin.y as int, end.x as int,
                    end.y as int, thickness as int, q.0 as int, q.1 as int), b, red());
                lemma_repaint_twice(p0, a, b, red());
                let ab = |q: (u32, u32)| a(q) || b(q);
                assert forall|q: (u32, u32)| #[trigger] ab(q)
                    == solution_hit_before(cfg, pd, i + 1, q.0 as int, q.1 as int) by {
                    if solution_hit_before(cfg, pd, i + 1, q.0 as int, q.1 as int) {
                        let j = choose|j: int| 0 <= j < i + 1 && #[trigger] segment_hit(cfg, pd, j, q.0 as int, q.1 as int);
                        if j < i {
                            assert(a(q));
                        }
                    }
                }
                lemma_repaint_same(p0, ab,
                    |q: (u32, u32)| solution_hit_before(cfg, pd, i + 1, q.0 as int, q.1 as int), red());
            }
            i = i + 1;
        }
        proof {
            lemma_repaint_same(p0, |q: (u32, u32)| solution_hit_before(cfg, pd, (n - 1) as int, q.0 as int, q.1 as int),
                |q: (u32, u32)| solution_hit(cfg, pd, q.0 as int, q.1 as int), red());
        }
    }

    /// The image size for a maze: `width * (cell_width - 1) + 1` by
    /// `height * (cell_height - 1) + 1`.
    pub fn get_image_array_size(maze: &Maze, config: &ConfigArray) -> (r: (u32, u32))
        requires
            config.cell_width >= 1,
            config.cell_height >= 1,
            image_width_for(maze@, *config) <= u32::MAX,
            image_height_for(maze@, *config) <= u32::MAX,
        ensures
            r.0 == image_width_for(maze@, *config),
            r.1 == image_height_for(maze@, *config),
    {
        let (width, height) = maze.get_dimensions();
        let w: u32 = if config.cell_width == 1 {
            proof {
                assert(width * (config.cell_width - 1) == 0) by (nonlinear_arith)
                    requires config.cell_width == 1;
            }
            1
        } else {
            proof {
                assert(width * (config.cell_width - 1) >= width) by (nonlinear_arith)
                    requires config.cell_width >= 2, width >= 0;
                assert(width as u32 == width);
            }
            width as u32 * (config.cell_width - 1) + 1
        };
        let h: u32 = if config.cell_height == 1 {
            proof {
                assert(height * (config.cell_height - 1) == 0) by (nonlinear_arith)
                    requires config.cell_height == 1;
            }
            1
        } else {
            proof {
                assert(height * (config.cell_height - 1) >= height) by (nonlinear_arith)
                    requires config.cell_height >= 2, height >= 0;
                assert(height as u32 == height);
            }
            height as u32 * (config.cell_height - 1) + 1
        };
        (w, h)
    }
}

} // verus!
