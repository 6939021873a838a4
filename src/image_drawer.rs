use crate::maze::Coords;
use image::{Rgb, RgbImage};
use vstd::prelude::*;

verus! {

/// An RGB image, held in an `image` crate buffer.
#[verifier::external_body]
pub struct Canvas {
    pub image: RgbImage,
}

/// An RGB colour, one byte per channel.
pub type Color = (u8, u8, u8);

/// The pixels of an image, by column and row.
pub uninterp spec fn image_pixels(img: Canvas) -> Map<(u32, u32), (u8, u8, u8)>;

/// The width and height of an image.
pub uninterp spec fn image_size(img: Canvas) -> (u32, u32);

/// The positions inside a `width` by `height` image.
pub open spec fn in_image(width: int, height: int, p: (u32, u32)) -> bool {
    p.0 < width && p.1 < height
}

/// The image has exactly one pixel for each position inside it.
pub open spec fn image_ok(img: Canvas) -> bool {
    &&& forall|p: (u32, u32)| #[trigger] image_pixels(img).dom().contains(p)
        <==> in_image(image_size(img).0 as int, image_size(img).1 as int, p)
}

/// Relies on `ImageBuffer::from_pixel`: a `width` by `height` image whose
/// every pixel is `color`; it panics when the buffer would not fit a vector.
#[verifier::external_body]
fn new_image(width: u32, height: u32, color: Color) -> (r: Canvas)
    requires
        3 * width * height <= isize::MAX,
    ensures
        image_size(r) == (width, height),
        image_pixels(r) == Map::new(|p: (u32, u32)| in_image(width as int, height as int, p), |p: (u32, u32)| color),
{
    Canvas { image: RgbImage::from_pixel(width, height, Rgb([color.0, color.1, color.2])) }
}

/// Relies on `ImageBuffer::dimensions`: the width and height of the image.
#[verifier::external_body]
fn image_dimensions(img: &Canvas) -> (r: (u32, u32))
    ensures
        r == image_size(*img),
{
    img.image.dimensions()
}

/// Relies on `ImageBuffer::put_pixel`: sets the pixel at `(x, y)` and no
/// other; it panics outside the image.
#[verifier::external_body]
fn put_pixel(img: &mut Canvas, x: u32, y: u32, color: Color)
    requires
        x < image_size(*old(img)).0,
        y < image_size(*old(img)).1,
    ensures
        image_size(*final(img)) == image_size(*old(img)),
        image_pixels(*final(img)) == image_pixels(*old(img)).insert((x, y), color),
{
    img.image.put_pixel(x, y, Rgb([color.0, color.1, color.2]))
}

/// The pixels of `m` inside the set `hit` painted `color`, the others kept.
pub open spec fn repainted(
    m: Map<(u32, u32), Color>,
    hit: spec_fn((u32, u32)) -> bool,
    color: Color,
) -> Map<(u32, u32), Color> {
    Map::new(|p: (u32, u32)| m.dom().contains(p), |p: (u32, u32)| if hit(p) { color } else { m[p] })
}

/// Painting two sets one after the other in one colour paints their union.
pub proof fn lemma_repaint_twice(
    m: Map<(u32, u32), Color>,
    a: spec_fn((u32, u32)) -> bool,
    b: spec_fn((u32, u32)) -> bool,
    color: Color,
)
    ensures
        repainted(repainted(m, a, color), b, color) == repainted(m, |p: (u32, u32)| a(p) || b(p), color),
{
    assert(repainted(repainted(m, a, color), b, color) =~= repainted(m, |p: (u32, u32)| a(p) || b(p), color));
}

/// Painting depends only on which pixels are in the set.
pub proof fn lemma_repaint_same(
    m: Map<(u32, u32), Color>,
    a: spec_fn((u32, u32)) -> bool,
    b: spec_fn((u32, u32)) -> bool,
    color: Color,
)
    requires
        forall|p: (u32, u32)| #[trigger] a(p) == b(p),
    ensures
        repainted(m, a, color) == repainted(m, b, color),
{
    assert(repainted(m, a, color) =~= repainted(m, b, color));
}

/// `(px, py)` lies in the square stamped around `(cx, cy)` for `radius`: it
/// reaches `radius / 2` pixels forward, and as many backward for an odd
/// radius, one fewer for an even one.
pub open spec fn in_square(cx: int, cy: int, radius: int, px: int, py: int) -> bool {
    let r_pos = radius / 2;
    let r_neg = if radius % 2 == 0 { 1 - r_pos } else { -r_pos };
    &&& cx + r_neg <= px <= cx + r_pos
    &&& cy + r_neg <= py <= cy + r_pos
}

/// The pixels that the line walk visits from `(x, y)` with error term `err`
/// toward `(x1, y1)`, for at most `fuel` pixels: each step moves along x when
/// twice the error is at least `dy`, along y when it is at most `dx`.
pub open spec fn line_walk(
    x: int,
    y: int,
    err: int,
    x1: int,
    y1: int,
    dx: int,
    dy: int,
    sx: int,
    sy: int,
    fuel: nat,
) -> Seq<(int, int)>
    decreases fuel,
{
    if fuel == 0 {
        Seq::empty()
    } else if x == x1 && y == y1 {
        seq![(x, y)]
    } else {
        let e2 = 2 * err;
        let err1 = if e2 >= dy { err + dy } else { err };
        let nx = if e2 >= dy { x + sx } else { x };
        let err2 = if e2 <= dx { err1 + dx } else { err1 };
        let ny = if e2 <= dx { y + sy } else { y };
        seq![(x, y)] + line_walk(nx, ny, err2, x1, y1, dx, dy, sx, sy, (fuel - 1) as nat)
    }
}

pub open spec fn abs(a: int) -> int {
    if a < 0 { -a } else { a }
}

pub open spec fn sign_toward(a: int, b: int) -> int {
    if a < b { 1 } else { -1 }
}

/// The pixels of Bresenham's line from `(x0, y0)` to `(x1, y1)`, in order.
pub open spec fn line_points(x0: int, y0: int, x1: int, y1: int) -> Seq<(int, int)> {
    let dx = abs(x1 - x0);
    let dy = -abs(y1 - y0);
    line_walk(x0, y0, dx + dy, x1, y1, dx, dy, sign_toward(x0, x1), sign_toward(y0, y1), (dx - dy + 1) as nat)
}

/// `(px, py)` is covered by a stroke of `thickness` along the line.
pub open spec fn stroke_hit(x0: int, y0: int, x1: int, y1: int, thickness: int, px: int, py: int) -> bool {
    let l = line_points(x0, y0, x1, y1);
    exists|i: int| 0 <= i < l.len() && in_square(#[trigger] l[i].0, l[i].1, thickness, px, py)
}

/// A state of the line walk from `(x0, y0)`: it has moved `X` columns and
/// `Y` rows toward `(x1, y1)`, no further than it, and the error term is the
/// one Bresenham's method keeps for that position.
pub open spec fn walk_state_ok(x0: int, y0: int, x1: int, y1: int, x: int, y: int, err: int) -> bool {
    let dx = abs(x1 - x0);
    let ady = abs(y1 - y0);
    let xx = if x0 < x1 { x - x0 } else { x0 - x };
    let yy = if y0 < y1 { y - y0 } else { y0 - y };
    &&& 0 <= xx <= dx
    &&& 0 <= yy <= ady
    &&& err == dx * (1 + yy) - ady * (1 + xx)
    &&& -2 * ady <= err <= 2 * dx
}

pub open spec fn walk_dist(x0: int, y0: int, x1: int, y1: int, x: int, y: int) -> int {
    abs(x1 - x) + abs(y1 - y)
}

/// One step of the walk from a good state short of the end gives a good
/// state nearer the end.
pub proof fn lemma_walk_step(x0: int, y0: int, x1: int, y1: int, x: int, y: int, err: int)
    requires
        walk_state_ok(x0, y0, x1, y1, x, y, err),
        !(x == x1 && y == y1),
    ensures
        ({
            let dx = abs(x1 - x0);
            let dy = -abs(y1 - y0);
            let sx = sign_toward(x0, x1);
            let sy = sign_toward(y0, y1);
            let e2 = 2 * err;
            let err1 = if e2 >= dy { err + dy } else { err };
            let nx = if e2 >= dy { x + sx } else { x };
            let err2 = if e2 <= dx { err1 + dx } else { err1 };
            let ny = if e2 <= dx { y + sy } else { y };
            &&& walk_state_ok(x0, y0, x1, y1, nx, ny, err2)
            &&& walk_dist(x0, y0, x1, y1, nx, ny) < walk_dist(x0, y0, x1, y1, x, y)
        }),
{
    let dx = abs(x1 - x0);
    let ady = abs(y1 - y0);
    let xx = if x0 < x1 { x - x0 } else { x0 - x };
    let yy = if y0 < y1 { y - y0 } else { y0 - y };
    let e2 = 2 * err;
    assert(abs(x1 - x) == dx - xx);
    assert(abs(y1 - y) == ady - yy);
    if xx == dx {
        // at the last column the walk does not move along x
        assert(yy < ady);
        assert(dx * yy <= dx * (ady - 1)) by (nonlinear_arith)
            requires 0 <= yy <= ady - 1, dx >= 0;
        assert(err == dx * (1 + yy) - ady * (1 + dx));
        assert(dx * (1 + yy) == dx + dx * yy) by (nonlinear_arith);
        assert(ady * (1 + dx) == ady + ady * dx) by (nonlinear_arith);
        assert(dx * (ady - 1) == dx * ady - dx) by (nonlinear_arith);
        assert(ady * dx == dx * ady) by (nonlinear_arith);
        assert(e2 < -ady);
    }
    if yy == ady {
        // at the last row the walk does not move along y
        assert(xx < dx);
        assert(ady * xx <= ady * (dx - 1)) by (nonlinear_arith)
            requires 0 <= xx <= dx - 1, ady >= 0;
        assert(err == dx * (1 + ady) - ady * (1 + xx));
        assert(dx * (1 + ady) == dx + dx * ady) by (nonlinear_arith);
        assert(ady * (1 + xx) == ady + ady * xx) by (nonlinear_arith);
        assert(ady * (dx - 1) == ady * dx - ady) by (nonlinear_arith);
        assert(ady * dx == dx * ady) by (nonlinear_arith);
        assert(e2 > dx);
    }
    assert(dx * (1 + yy + 1) == dx * (1 + yy) + dx) by (nonlinear_arith);
    assert(ady * (1 + xx + 1) == ady * (1 + xx) + ady) by (nonlinear_arith);
}

/// From a good state, the walk with enough fuel starts at that state, stays
/// between the two ends, and stops at the far one.
pub proof fn lemma_walk_reaches(x0: int, y0: int, x1: int, y1: int, x: int, y: int, err: int, fuel: nat)
    requires
        walk_state_ok(x0, y0, x1, y1, x, y, err),
        walk_dist(x0, y0, x1, y1, x, y) < fuel,
    ensures
        ({
            let l = line_walk(x, y, err, x1, y1, abs(x1 - x0), -abs(y1 - y0), sign_toward(x0, x1),
                sign_toward(y0, y1), fuel);
            &&& l.len() >= 1
            &&& l[0] == (x, y)
            &&& l.last() == (x1, y1)
            &&& forall|i: int| 0 <= i < l.len() ==> {
                &&& (x0 <= #[trigger] l[i].0 <= x1 || x1 <= l[i].0 <= x0)
                &&& (y0 <= l[i].1 <= y1 || y1 <= l[i].1 <= y0)
            }
        }),
    decreases fuel,
{
    let dx = abs(x1 - x0);
    let dy = -abs(y1 - y0);
    let sx = sign_toward(x0, x1);
    let sy = sign_toward(y0, y1);
    let l = line_walk(x, y, err, x1, y1, dx, dy, sx, sy, fuel);
    if !(x == x1 && y == y1) {
        lemma_walk_step(x0, y0, x1, y1, x, y, err);
        let e2 = 2 * err;
        let err1 = if e2 >= dy { err + dy } else { err };
        let nx = if e2 >= dy { x + sx } else { x };
        let err2 = if e2 <= dx { err1 + dx } else { err1 };
        let ny = if e2 <= dx { y + sy } else { y };
        lemma_walk_reaches(x0, y0, x1, y1, nx, ny, err2, (fuel - 1) as nat);
        let rest = line_walk(nx, ny, err2, x1, y1, dx, dy, sx, sy, (fuel - 1) as nat);
        assert(l == seq![(x, y)] + rest);
        assert forall|i: int| 0 <= i < l.len() implies {
            &&& (x0 <= #[trigger] l[i].0 <= x1 || x1 <= l[i].0 <= x0)
            &&& (y0 <= l[i].1 <= y1 || y1 <= l[i].1 <= y0)
        } by {
            if i > 0 {
                assert(l[i] == rest[i - 1]);
            }
        }
    }
}

/// Bresenham's line runs from its first end to its second, and every pixel
/// of it lies between the two ends.
pub proof fn lemma_line_ends(x0: int, y0: int, x1: int, y1: int)
    ensures
        ({
            let l = line_points(x0, y0, x1, y1);
            &&& l.len() >= 1
            &&& l[0] == (x0, y0)
            &&& l.last() == (x1, y1)
            &&& forall|i: int| 0 <= i < l.len() ==> {
                &&& (x0 <= #[trigger] l[i].0 <= x1 || x1 <= l[i].0 <= x0)
                &&& (y0 <= l[i].1 <= y1 || y1 <= l[i].1 <= y0)
            }
        }),
{
    let dx = abs(x1 - x0);
    let ady = abs(y1 - y0);
    assert(dx * (1 + 0) - ady * (1 + 0) == dx - ady) by (nonlinear_arith);
    lemma_walk_reaches(x0, y0, x1, y1, x0, y0, dx - ady, (dx + ady + 1) as nat);
}

impl Canvas {
    /// A `width` by `height` canvas with every pixel `color`.
    pub fn from_pixel(width: u32, height: u32, color: Color) -> (r: Canvas)
        requires
            3 * width * height <= isize::MAX,
        ensures
            image_ok(r),
            image_size(r) == (width, height),
            forall|p: (u32, u32)| in_image(width as int, height as int, p) ==> image_pixels(r)[p] == color,
    {
        new_image(width, height, color)
    }

    pub fn dimensions(&self) -> (r: (u32, u32))
        ensures
            r == image_size(*self),
    {
        image_dimensions(self)
    }
}

/// Paints the square stamped around `center` for `radius`, leaving out the
/// part outside the image.
pub fn draw_full_square_with_center(img: &mut Canvas, center: &Coords, radius: u32, color: Color)
    requires
        image_ok(*old(img)),
    ensures
        image_ok(*final(img)),
        image_size(*final(img)) == image_size(*old(img)),
        image_pixels(*final(img)) == repainted(
            image_pixels(*old(img)),
            |p: (u32, u32)| in_square(center.x as int, center.y as int, radius as int, p.0 as int, p.1 as int),
            color,
        ),
{
    let ghost old_pix = image_pixels(*img);
    let ghost (w0, h0) = image_size(*img);
    let reach: u64 = u32::MAX as u64 + (radius / 2) as u64;
    if center.x as u64 > reach || center.y as u64 > reach {
        // the whole square lies beyond the last row or column an image can have
        proof {
            assert(image_pixels(*img) =~= repainted(
                old_pix,
                |p: (u32, u32)| in_square(center.x as int, center.y as int, radius as int, p.0 as int, p.1 as int),
                color,
            ));
        }
        return;
    }
    let r_pos: i64 = (radius / 2) as i64;
    let r_neg: i64 = if radius % 2 == 0 { 1 - r_pos } else { -r_pos };
    let cx = center.x as i64;
    let cy = center.y as i64;
    let (width, height) = image_dimensions(img);
    let mut dx: i64 = r_neg;
    while dx <= r_pos
        invariant
            r_pos == radius as int / 2,
            r_neg == (if radius % 2 == 0 { 1 - r_pos } else { -r_pos }),
            r_neg <= dx <= r_pos + 1,
            cx == center.x,
            cy == center.y,
            cx <= u32::MAX + r_pos,
            cy <= u32::MAX + r_pos,
            (width, height) == image_size(*img),
            (w0, h0) == image_size(*img),
            image_ok(*img),
            image_pixels(*img).dom() == old_pix.dom(),
            forall|p: (u32, u32)| #[trigger] old_pix.dom().contains(p) ==> image_pixels(*img)[p] == (
                if cx + r_neg <= p.0 < cx + dx && cy + r_neg <= p.1 <= cy + r_pos { color } else { old_pix[p] }),
        decreases r_pos + 1 - dx,
    {
        let mut dy: i64 = r_neg;
        while dy <= r_pos
            invariant
                r_neg <= dx <= r_pos,
                r_neg <= dy <= r_pos + 1,
                r_pos == radius as int / 2,
                cx == center.x,
                cy == center.y,
                cx <= u32::MAX + r_pos,
                cy <= u32::MAX + r_pos,
                (width, height) == image_size(*img),
                image_ok(*img),
                image_pixels(*img).dom() == old_pix.dom(),
                forall|p: (u32, u32)| #[trigger] old_pix.dom().contains(p) ==> image_pixels(*img)[p] == (
                    if (cx + r_neg <= p.0 < cx + dx && cy + r_neg <= p.1 <= cy + r_pos)
                        || (p.0 == cx + dx && cy + r_neg <= p.1 < cy + dy) { color } else { old_pix[p] }),
            decreases r_pos + 1 - dy,
        {
            let x = cx + dx;
            let y = cy + dy;
            if x >= 0 && y >= 0 && x < width as i64 && y < height as i64 {
                let ghost before = image_pixels(*img);
                put_pixel(img, x as u32, y as u32, color);
                proof {
                    let q = (x as u32, y as u32);
                    assert(in_image(width as int, height as int, q));
                    assert(before.dom().contains(q));
                    assert(image_pixels(*img).dom() =~= before.dom());
                }
            } else {
                proof {
                    assert forall|p: (u32, u32)| #[trigger] old_pix.dom().contains(p) implies !(p.0 == x && p.1 == y) by {
                        assert(in_image(width as int, height as int, p));
                    }
                }
            }
            dy = dy + 1;
        }
        dx = dx + 1;
    }
    proof {
        assert(image_pixels(*img) =~= repainted(
            old_pix,
            |p: (u32, u32)| in_square(center.x as int, center.y as int, radius as int, p.0 as int, p.1 as int),
            color,
        ));
    }
}

/// Draws Bresenham's line from `start` to `end`, stamping at each of its
/// pixels a square for `thickness`; does nothing when an end lies outside
/// the image.
pub fn draw_line_with_thickness(img: &mut Canvas, start: &Coords, end: &Coords, thickness: u32, color: Color)
    requires
        image_ok(*old(img)),
    ensures
        image_ok(*final(img)),
        image_size(*final(img)) == image_size(*old(img)),
        ({
            let (w, h) = image_size(*old(img));
            if start.x < w && start.y < h && end.x < w && end.y < h {
                image_pixels(*final(img)) == repainted(
                    image_pixels(*old(img)),
                    |p: (u32, u32)| stroke_hit(start.x as int, start.y as int, end.x as int, end.y as int,
                        thickness as int, p.0 as int, p.1 as int),
                    color,
                )
            } else {
                image_pixels(*final(img)) == image_pixels(*old(img))
            }
        }),
{
    let (width, height) = image_dimensions(img);
    if !(start.x < width as usize && start.y < height as usize && end.x < width as usize && end.y < height as usize) {
        return;
    }
    let ghost old_pix = image_pixels(*img);
    let x0 = start.x as i64;
    let y0 = start.y as i64;
    let x1 = end.x as i64;
    let y1 = end.y as i64;
    let dx: i64 = if x1 >= x0 { x1 - x0 } else { x0 - x1 };
    let sx: i64 = if x0 < x1 { 1 } else { -1 };
    let dy: i64 = -(if y1 >= y0 { y1 - y0 } else { y0 - y1 });
    let sy: i64 = if y0 < y1 { 1 } else { -1 };
    let mut err = dx + dy;
    let mut x = x0;
    let mut y = y0;
    let ghost l = line_points(x0 as int, y0 as int, x1 as int, y1 as int);
    let ghost fuel: int = dx - dy + 1;
    let ghost mut k: int = 0;
    proof {
        lemma_line_ends(x0 as int, y0 as int, x1 as int, y1 as int);
        assert(dx * (1 + 0) - (-dy) * (1 + 0) == dx + dy) by (nonlinear_arith);
        assert(l.subrange(0, l.len() as int) =~= l);
    }
    let mut done = false;
    while !done
        invariant
            x0 == start.x, y0 == start.y, x1 == end.x, y1 == end.y,
            x0 < width, y0 < height, x1 < width, y1 < height,
            (width, height) == image_size(*img),
            dx == abs(x1 - x0),
            dy == -abs(y1 - y0),
            sx == sign_toward(x0 as int, x1 as int),
            sy == sign_toward(y0 as int, y1 as int),
            fuel == dx - dy + 1,
            l == line_points(x0 as int, y0 as int, x1 as int, y1 as int),
            l.len() >= 1,
            forall|i: int| 0 <= i < l.len() ==> {
                &&& (x0 <= #[trigger] l[i].0 <= x1 || x1 <= l[i].0 <= x0)
                &&& (y0 <= l[i].1 <= y1 || y1 <= l[i].1 <= y0)
            },
            image_ok(*img),
            image_pixels(*img).dom() == old_pix.dom(),
            !done ==> {
                &&& walk_state_ok(x0 as int, y0 as int, x1 as int, y1 as int, x as int, y as int, err as int)
                &&& 0 <= k < l.len()
                &&& walk_dist(x0 as int, y0 as int, x1 as int, y1 as int, x as int, y as int) < fuel - k
                &&& line_walk(x as int, y as int, err as int, x1 as int, y1 as int, dx as int, dy as int,
                    sx as int, sy as int, (fuel - k) as nat) == l.subrange(k, l.len() as int)
            },
            done ==> k == l.len(),
            forall|p: (u32, u32)| #[trigger] old_pix.dom().contains(p) ==> image_pixels(*img)[p] == (
                if exists|i: int| 0 <= i < k && in_square(#[trigger] l[i].0, l[i].1, thickness as int, p.0 as int, p.1 as int) {
                    color
                } else {
                    old_pix[p]
                }),
        decreases (if done { 0 } else { walk_dist(x0 as int, y0 as int, x1 as int, y1 as int, x as int, y as int) + 1 }),
    {
        let ghost rest = line_walk(x as int, y as int, err as int, x1 as int, y1 as int, dx as int, dy as int,
            sx as int, sy as int, (fuel - k) as nat);
        proof {
            lemma_walk_reaches(x0 as int, y0 as int, x1 as int, y1 as int, x as int, y as int, err as int, (fuel - k) as nat);
            assert(rest[0] == l[k]);
            assert(l[k] == (x as int, y as int));
        }
        let ghost before = image_pixels(*img);
        draw_full_square_with_center(img, &Coords { x: x as usize, y: y as usize }, thickness, color);
        proof {
            assert forall|p: (u32, u32)| #[trigger] old_pix.dom().contains(p) implies image_pixels(*img)[p] == (
                if exists|i: int| 0 <= i < k + 1 && in_square(#[trigger] l[i].0, l[i].1, thickness as int, p.0 as int, p.1 as int) {
                    color
                } else {
                    old_pix[p]
                }) by {
                if in_square(x as int, y as int, thickness as int, p.0 as int, p.1 as int) {
                    assert(in_square(l[k].0, l[k].1, thickness as int, p.0 as int, p.1 as int));
                } else {
                    if exists|i: int| 0 <= i < k + 1 && in_square(#[trigger] l[i].0, l[i].1, thickness as int, p.0 as int, p.1 as int) {
                        let i = choose|i: int| 0 <= i < k + 1 && in_square(#[trigger] l[i].0, l[i].1, thickness as int, p.0 as int, p.1 as int);
                        assert(i < k);
                    }
                }
            }
        }
        if x == x1 && y == y1 {
            proof {
                assert(rest =~= seq![(x as int, y as int)]);
                assert(l.subrange(k, l.len() as int).len() == 1);
                k = k + 1;
            }
            done = true;
        } else {
            proof {
                lemma_walk_step(x0 as int, y0 as int, x1 as int, y1 as int, x as int, y as int, err as int);
            }
            let e2 = 2 * err;
            if e2 >= dy {
                err = err + dy;
                x = x + sx;
            }
            if e2 <= dx {
                err = err + dx;
                y = y + sy;
            }
            proof {
                let next = line_walk(x as int, y as int, err as int, x1 as int, y1 as int, dx as int, dy as int,
                    sx as int, sy as int, (fuel - k - 1) as nat);
                assert(rest == seq![l[k]] + next);
                assert(next =~= l.subrange(k + 1, l.len() as int)) by {
                    assert forall|i: int| 0 <= i < next.len() implies next[i] == l.subrange(k + 1, l.len() as int)[i] by {
                        assert(rest[i + 1] == next[i]);
                        assert(l.subrange(k, l.len() as int)[i + 1] == l[k + 1 + i]);
                    }
                }
                k = k + 1;
            }
        }
    }
    proof {
        assert(image_pixels(*img) =~= repainted(
            old_pix,
            |p: (u32, u32)| stroke_hit(start.x as int, start.y as int, end.x as int, end.y as int,
                thickness as int, p.0 as int, p.1 as int),
            color,
        ));
    }
}

/// Draws Bresenham's line from `start` to `end`, one pixel wide; does
/// nothing when an end lies outside the image.
pub fn draw_line(img: &mut Canvas, start: &Coords, end: &Coords, color: Color)
    requires
        image_ok(*old(img)),
    ensures
        image_ok(*final(img)),
        image_size(*final(img)) == image_size(*old(img)),
        ({
            let (w, h) = image_size(*old(img));
            if start.x < w && start.y < h && end.x < w && end.y < h {
                image_pixels(*final(img)) == repainted(
                    image_pixels(*old(img)),
                    |p: (u32, u32)| line_points(start.x as int, start.y as int, end.x as int, end.y as int)
                        .contains((p.0 as int, p.1 as int)),
                    color,
                )
            } else {
                image_pixels(*final(img)) == image_pixels(*old(img))
            }
        }),
{
    let ghost old_pix = image_pixels(*img);
    draw_line_with_thickness(img, start, end, 1, color);
    proof {
        let l = line_points(start.x as int, start.y as int, end.x as int, end.y as int);
        let thin = |p: (u32, u32)| l.contains((p.0 as int, p.1 as int));
        let thick = |p: (u32, u32)| stroke_hit(start.x as int, start.y as int, end.x as int, end.y as int,
            1, p.0 as int, p.1 as int);
        assert forall|p: (u32, u32)| #[trigger] thin(p) == thick(p) by {
            if thin(p) {
                let i = choose|i: int| 0 <= i < l.len() && l[i] == (p.0 as int, p.1 as int);
                assert(in_square(l[i].0, l[i].1, 1, p.0 as int, p.1 as int));
            }
            if thick(p) {
                let i = choose|i: int| 0 <= i < l.len() && in_square(#[trigger] l[i].0, l[i].1, 1, p.0 as int, p.1 as int);
                assert(l[i] == (p.0 as int, p.1 as int));
            }
        }
        assert(repainted(old_pix, thin, color) =~= repainted(old_pix, thick, color));
    }
}

} // verus!
