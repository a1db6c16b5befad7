//! The generic raster buffer: a minimal accessor contract that every image
//! type supplies, plus drawing algorithms written once as default methods.
//!
//! Storage is a flat, row-major sequence from the top row down; coordinate
//! `(0, 0)` is the bottom-left of the image, so it maps to the first cell of
//! the last storage row: index `x + (height - y - 1) * width`.

use vstd::prelude::*;

use vstd::arithmetic::div_mod::{
    lemma_div_is_ordered,
    lemma_div_multiples_vanish,
    lemma_div_of0,
    lemma_div_pos_is_pos,
};
use vstd::arithmetic::mul::{lemma_mul_inequality, lemma_mul_is_commutative, lemma_mul_nonnegative};

use crate::geom::{abs_diff, spec_dist, Coord};
use crate::geom::{lemma_dist_le_sum, lemma_dist_zero_iff};

verus! {

/// The low edge of a drawing footprint: `c - r`, clamped to zero on the low
/// side.
pub open spec fn box_low(c: int, r: int) -> int {
    if c - r >= 0 {
        c - r
    } else {
        0
    }
}

/// The cells filled by `draw_circle` with the given center and radius: a
/// square box of side `2 * (radius / 2)`, clamped to zero on the low side.
pub open spec fn circle_covers(cx: int, cy: int, radius: int, x: int, y: int) -> bool {
    let r = radius / 2;
    &&& r > 0
    &&& box_low(cx, r) <= x < cx + r
    &&& box_low(cy, r) <= y < cy + r
}

/// The mathematical model of a raster image: its atom sequence in storage
/// order (top row first) and its dimensions.
#[verifier::reject_recursive_types(A)]
pub struct RasterView<A> {
    pub atoms: Seq<A>,
    pub width: nat,
    pub height: nat,
}

impl<A> RasterView<A> {
    /// The canvas invariant: the buffer holds exactly `width * height`
    /// atoms (which therefore fit in a machine word).
    pub open spec fn wf(self) -> bool {
        &&& self.atoms.len() == self.width * self.height
        &&& self.width * self.height <= usize::MAX
    }

    /// Whether coordinate `(x, y)` addresses a cell of the canvas.
    pub open spec fn in_bounds(self, x: int, y: int) -> bool {
        0 <= x < self.width && 0 <= y < self.height
    }

    /// The storage index of coordinate `(x, y)`: bottom-left origin over
    /// top-down storage.
    pub open spec fn idx(self, x: int, y: int) -> int {
        x + (self.height - y - 1) * self.width
    }

    /// The atom stored at coordinate `(x, y)`.
    pub open spec fn at(self, x: int, y: int) -> A {
        self.atoms[self.idx(x, y)]
    }

    /// The model after writing `v` at coordinate `(x, y)`.
    pub open spec fn write(self, x: int, y: int, v: A) -> RasterView<A> {
        RasterView { atoms: self.atoms.update(self.idx(x, y), v), ..self }
    }
}

/// The point parameter `t` steps from `p` toward `q` in `d` unit increments:
/// `p + (q - p) * (t / d)`, truncated toward `p`. The absolute value of the
/// span is taken first, so the arithmetic never goes negative.
pub open spec fn interp(p: int, q: int, t: int, d: int) -> int {
    if q >= p {
        p + (q - p) * t / d
    } else {
        p - (p - q) * t / d
    }
}

/// The cell that parametric stepping rasterizes at step `t` of the segment
/// from `a` to `b`. For coincident endpoints (distance zero) the step stays
/// at `a`.
pub open spec fn step_point(a: Coord, b: Coord, t: int) -> (int, int) {
    let d = spec_dist(a, b) as int;
    if d == 0 {
        (a.x as int, a.y as int)
    } else {
        (interp(a.x as int, b.x as int, t, d), interp(a.y as int, b.y as int, t, d))
    }
}

/// The cells set by `draw_line`: every stepped cell of the segment, plus the
/// endpoint `b` itself.
pub open spec fn line_covers(a: Coord, b: Coord, x: int, y: int) -> bool {
    ||| (x == b.x && y == b.y)
    ||| exists|t: int| 0 <= t <= spec_dist(a, b) && #[trigger] step_point(a, b, t) == (x, y)
}

/// The cells stepped by the first `n` iterations of the line loop.
pub open spec fn covered_until(a: Coord, b: Coord, n: int, x: int, y: int) -> bool {
    exists|t: int| 0 <= t < n && #[trigger] step_point(a, b, t) == (x, y)
}

/// The footprint of the circle stamped at step `t` of the segment from `a`
/// to `b`.
pub open spec fn stamp_covers(a: Coord, b: Coord, t: int, thickness: int, x: int, y: int) -> bool {
    circle_covers(step_point(a, b, t).0, step_point(a, b, t).1, thickness, x, y)
}

/// The cells set by `draw_line_with_thickness`: every cell of a circle
/// stamped at some step of the segment, plus the endpoint `b` itself.
pub open spec fn thick_covers(a: Coord, b: Coord, thickness: int, x: int, y: int) -> bool {
    ||| (x == b.x && y == b.y)
    ||| exists|t: int|
        0 <= t <= spec_dist(a, b) && #[trigger] stamp_covers(a, b, t, thickness, x, y)
}

/// The cells stamped by the first `n` iterations of the thick-line loop.
pub open spec fn stamped_until(a: Coord, b: Coord, n: int, thickness: int, x: int, y: int) -> bool {
    exists|t: int| 0 <= t < n && #[trigger] stamp_covers(a, b, t, thickness, x, y)
}

/// Bounds and endpoints of the interpolation: it stays between `p` and `q`,
/// starts at `p`, and ends at `q`.
pub proof fn lemma_interp_props(p: int, q: int, t: int, d: int)
    requires
        0 <= t <= d,
        1 <= d,
    ensures
        p <= q ==> p <= interp(p, q, t, d) <= q,
        q <= p ==> q <= interp(p, q, t, d) <= p,
        t == 0 ==> interp(p, q, t, d) == p,
        t == d ==> interp(p, q, t, d) == q,
{
    let delta = if q >= p {
        q - p
    } else {
        p - q
    };
    lemma_mul_nonnegative(delta, t);
    lemma_div_pos_is_pos(delta * t, d);
    lemma_mul_inequality(t, d, delta);
    lemma_mul_is_commutative(t, delta);
    lemma_mul_is_commutative(d, delta);
    lemma_div_is_ordered(delta * t, delta * d, d);
    lemma_div_multiples_vanish(delta, d);
    assert(0 <= delta * t / d <= delta);
    if t == 0 {
        assert(delta * t == 0) by (nonlinear_arith)
            requires
                t == 0,
        ;
        lemma_div_of0(d);
    }
    if t == d {
        assert(delta * d / d == delta);
    }
}

/// Within a `w * h` canvas the taxicab span of two in-bounds coordinates is
/// below `w * h`, hence below the machine word bound.
pub proof fn lemma_span_in_canvas(w: int, h: int, dx: int, dy: int)
    requires
        1 <= w,
        1 <= h,
        0 <= dx < w,
        0 <= dy < h,
    ensures
        dx + dy < w * h,
{
    assert(dx + dy < w * h) by (nonlinear_arith)
        requires
            1 <= w,
            1 <= h,
            0 <= dx < w,
            0 <= dy < h,
    ;
}

/// `x + (h - y - 1) * w` stays within a `w * h` buffer for any in-bounds
/// coordinate.
pub proof fn lemma_idx_in_range(w: int, h: int, x: int, y: int)
    requires
        0 <= x < w,
        0 <= y < h,
    ensures
        0 <= x + (h - y - 1) * w,
        x + (h - y - 1) * w < w * h,
{
    assert(0 <= x + (h - y - 1) * w && x + (h - y - 1) * w < w * h) by (nonlinear_arith)
        requires
            0 <= x < w,
            0 <= y < h,
    ;
}

/// Distinct in-bounds coordinates map to distinct storage indices.
pub proof fn lemma_idx_injective(w: int, h: int, x1: int, y1: int, x2: int, y2: int)
    requires
        0 <= x1 < w,
        0 <= y1 < h,
        0 <= x2 < w,
        0 <= y2 < h,
        x1 + (h - y1 - 1) * w == x2 + (h - y2 - 1) * w,
    ensures
        x1 == x2,
        y1 == y2,
{
    assert(x1 == x2 && y1 == y2) by (nonlinear_arith)
        requires
            0 <= x1 < w,
            0 <= y1 < h,
            0 <= x2 < w,
            0 <= y2 < h,
            x1 + (h - y1 - 1) * w == x2 + (h - y2 - 1) * w,
    ;
}

/// Executable interpolation along one axis: the `usize` counterpart of
/// `interp`, computed in 128-bit arithmetic so the product cannot overflow.
fn interp_exec(p: usize, q: usize, t: usize, d: usize) -> (r: usize)
    requires
        1 <= d,
        t <= d,
    ensures
        r == interp(p as int, q as int, t as int, d as int),
        p <= q ==> p <= r <= q,
        q <= p ==> q <= r <= p,
{
    proof {
        lemma_interp_props(p as int, q as int, t as int, d as int);
    }
    if q >= p {
        let delta: u128 = (q - p) as u128;
        proof {
            assert(delta * (t as u128) <= 0xFFFF_FFFF_FFFF_FFFFu128 * 0xFFFF_FFFF_FFFF_FFFFu128)
                by (nonlinear_arith)
                requires
                    delta <= 0xFFFF_FFFF_FFFF_FFFF,
                    t <= 0xFFFF_FFFF_FFFF_FFFF,
            ;
        }
        let quot: u128 = delta * (t as u128) / (d as u128);
        p + (quot as usize)
    } else {
        let delta: u128 = (p - q) as u128;
        proof {
            assert(delta * (t as u128) <= 0xFFFF_FFFF_FFFF_FFFFu128 * 0xFFFF_FFFF_FFFF_FFFFu128)
                by (nonlinear_arith)
                requires
                    delta <= 0xFFFF_FFFF_FFFF_FFFF,
                    t <= 0xFFFF_FFFF_FFFF_FFFF,
            ;
        }
        let quot: u128 = delta * (t as u128) / (d as u128);
        p - (quot as usize)
    }
}

/// A segment with coincident endpoints covers exactly the one cell at those
/// endpoints: rasterizing it sets a single pixel.
pub proof fn lemma_coincident_line_covers(a: Coord, x: int, y: int)
    ensures
        line_covers(a, a, x, y) <==> (x == a.x && y == a.y),
{
    lemma_dist_zero_iff(a, a);
    if line_covers(a, a, x, y) && !(x == a.x && y == a.y) {
        let t = choose|t: int|
            0 <= t <= spec_dist(a, a) && #[trigger] step_point(a, a, t) == (x, y);
        assert(step_point(a, a, t) == (a.x as int, a.y as int));
    }
}

/// After writing `v` at the in-bounds coordinate `(x, y)` of a well-formed
/// canvas, reading `(x, y)` yields `v`, every other cell is unchanged, and
/// the canvas stays well-formed.
pub proof fn lemma_get_after_write<A>(r: RasterView<A>, x: int, y: int, v: A)
    requires
        r.wf(),
        r.in_bounds(x, y),
    ensures
        r.write(x, y, v).wf(),
        r.write(x, y, v).at(x, y) == v,
        forall|px: int, py: int|
            r.in_bounds(px, py) && !(px == x && py == y) ==> r.write(x, y, v).at(px, py) == r.at(
                px,
                py,
            ),
{
    lemma_idx_in_range(r.width as int, r.height as int, x, y);
    assert forall|px: int, py: int|
        r.in_bounds(px, py) && !(px == x && py == y) implies r.write(x, y, v).at(px, py) == r.at(
        px,
        py,
    ) by {
        lemma_idx_in_range(r.width as int, r.height as int, px, py);
        if r.idx(px, py) == r.idx(x, y) {
            lemma_idx_injective(r.width as int, r.height as int, px, py, x, y);
        }
    }
}

/// The minimal contract a raster image supplies: construction with a
/// background atom, its dimensions, and its atom sequence. Bounds-checked
/// coordinate access comes as default behavior layered on top.
pub trait PpmFormat: Sized {
    type Atom: Copy;

    /// The mathematical model of the image.
    spec fn raster(&self) -> RasterView<Self::Atom>;

    fn new(width: usize, height: usize, bg_color: Self::Atom) -> (img: Self)
        requires
            width * height <= usize::MAX,
        ensures
            img.raster().wf(),
            img.raster().width == width,
            img.raster().height == height,
            forall|i: int|
                0 <= i < img.raster().atoms.len() ==> img.raster().atoms[i] == bg_color,
    ;

    fn width(&self) -> (w: usize)
        ensures
            w == self.raster().width,
    ;

    fn height(&self) -> (h: usize)
        ensures
            h == self.raster().height,
    ;

    fn atoms(&self) -> (a: &Vec<Self::Atom>)
        ensures
            a@ == self.raster().atoms,
    ;

    fn atoms_mut(&mut self) -> (a: &mut Vec<Self::Atom>)
        ensures
            a@ == old(self).raster().atoms,
            final(self).raster().atoms == final(a)@,
            final(self).raster().width == old(self).raster().width,
            final(self).raster().height == old(self).raster().height,
    ;

    /// The atom at `(x, y)` with the origin at the bottom left, or `None`
    /// when the coordinate is out of bounds. Never panics on bad input.
    fn get(&self, x: usize, y: usize) -> (r: Option<&Self::Atom>)
        requires
            self.raster().wf(),
        ensures
            r is Some <==> self.raster().in_bounds(x as int, y as int),
            r matches Some(p) ==> *p == self.raster().at(x as int, y as int),
    {
        let w = self.width();
        let h = self.height();
        if x >= w || y >= h {
            return None;
        }
        proof {
            lemma_idx_in_range(w as int, h as int, x as int, y as int);
        }
        let i: usize = x + (h - y - 1) * w;
        Some(&self.atoms()[i])
    }

    /// Mutable access to the atom at `(x, y)` with the origin at the bottom
    /// left, or `None` when the coordinate is out of bounds. Never panics on
    /// bad input.
    fn get_mut(&mut self, x: usize, y: usize) -> (r: Option<&mut Self::Atom>)
        requires
            old(self).raster().wf(),
        ensures
            r is Some <==> old(self).raster().in_bounds(x as int, y as int),
            r is None ==> final(self).raster() == old(self).raster(),
            r is Some ==> *r.unwrap() == old(self).raster().at(x as int, y as int)
                && final(self).raster() == old(self).raster().write(
                x as int,
                y as int,
                *final(r.unwrap()),
            ),
    {
        let w = self.width();
        let h = self.height();
        if x >= w || y >= h {
            return None;
        }
        proof {
            lemma_idx_in_range(w as int, h as int, x as int, y as int);
        }
        let i: usize = x + (h - y - 1) * w;
        let a = self.atoms_mut();
        Some(&mut a[i])
    }

    /// Writes `v` at the in-bounds coordinate `(x, y)`.
    fn set(&mut self, x: usize, y: usize, v: Self::Atom)
        requires
            old(self).raster().wf(),
            old(self).raster().in_bounds(x as int, y as int),
        ensures
            final(self).raster() == old(self).raster().write(x as int, y as int, v),
    {
        let w = self.width();
        let h = self.height();
        proof {
            lemma_idx_in_range(w as int, h as int, x as int, y as int);
        }
        let i: usize = x + (h - y - 1) * w;
        let a = self.atoms_mut();
        a.set(i, v);
    }

    /// Fills a square, taxicab-metric footprint around `center`: for each
    /// offset pair in `[-radius / 2, radius / 2)` the targeted cell is set to
    /// `col`, with coordinates clamped to zero on the low side. The caller
    /// must keep the footprint inside the canvas on the high side.
    fn draw_circle(&mut self, center: Coord, radius: usize, col: Self::Atom)
        requires
            old(self).raster().wf(),
            radius / 2 > 0 ==> center.x + radius / 2 <= old(self).raster().width && center.y
                + radius / 2 <= old(self).raster().height,
        ensures
            final(self).raster().wf(),
            final(self).raster().width == old(self).raster().width,
            final(self).raster().height == old(self).raster().height,
            forall|px: int, py: int|
                old(self).raster().in_bounds(px, py) ==> final(self).raster().at(px, py) == (
                if circle_covers(center.x as int, center.y as int, radius as int, px, py) {
                    col
                } else {
                    old(self).raster().at(px, py)
                }),
    {
        let r: usize = radius / 2;
        if r == 0 {
            return ;
        }
        let w = self.width();
        let h = self.height();
        let x0: usize = if center.x >= r {
            center.x - r
        } else {
            0
        };
        let y0: usize = if center.y >= r {
            center.y - r
        } else {
            0
        };
        let x_end: usize = center.x + r;
        let y_end: usize = center.y + r;
        let mut x: usize = x0;
        while x < x_end
            invariant
                self.raster().wf(),
                self.raster().width == old(self).raster().width,
                self.raster().height == old(self).raster().height,
                w == self.raster().width,
                h == self.raster().height,
                r == radius / 2,
                r > 0,
                x0 == box_low(center.x as int, r as int),
                y0 == box_low(center.y as int, r as int),
                x_end == center.x + r,
                y_end == center.y + r,
                x_end <= w,
                y_end <= h,
                x0 <= x <= x_end,
                forall|px: int, py: int|
                    old(self).raster().in_bounds(px, py) ==> #[trigger] self.raster().at(px, py)
                        == (if circle_covers(center.x as int, center.y as int, radius as int, px,
                        py) && px < x {
                        col
                    } else {
                        old(self).raster().at(px, py)
                    }),
            decreases x_end - x,
        {
            let mut y: usize = y0;
            while y < y_end
                invariant
                    self.raster().wf(),
                    self.raster().width == old(self).raster().width,
                    self.raster().height == old(self).raster().height,
                    w == self.raster().width,
                    h == self.raster().height,
                    r == radius / 2,
                    r > 0,
                    x0 == box_low(center.x as int, r as int),
                    y0 == box_low(center.y as int, r as int),
                    x_end == center.x + r,
                    y_end == center.y + r,
                    x_end <= w,
                    y_end <= h,
                    x0 <= x < x_end,
                    y0 <= y <= y_end,
                    forall|px: int, py: int|
                        old(self).raster().in_bounds(px, py) ==> #[trigger] self.raster().at(
                            px,
                            py,
                        ) == (if circle_covers(center.x as int, center.y as int, radius as int,
                        px, py) && (px < x || (px == x && py < y)) {
                            col
                        } else {
                            old(self).raster().at(px, py)
                        }),
                decreases y_end - y,
            {
                let ghost prev = self.raster();
                self.set(x, y, col);
                proof {
                    lemma_idx_in_range(w as int, h as int, x as int, y as int);
                    assert forall|px: int, py: int|
                        old(self).raster().in_bounds(px, py) implies #[trigger] self.raster().at(
                        px,
                        py,
                    ) == (if circle_covers(center.x as int, center.y as int, radius as int, px, py)
                        && (px < x || (px == x && py < y + 1)) {
                        col
                    } else {
                        old(self).raster().at(px, py)
                    }) by {
                        lemma_idx_in_range(w as int, h as int, px, py);
                        assert(prev.at(px, py) == (if circle_covers(center.x as int,
                        center.y as int, radius as int, px, py) && (px < x || (px == x && py < y)) {
                            col
                        } else {
                            old(self).raster().at(px, py)
                        }));
                        if px == x && py == y {
                            assert(circle_covers(
                                center.x as int,
                                center.y as int,
                                radius as int,
                                x as int,
                                y as int,
                            ));
                            assert(self.raster().at(px, py) == col);
                        } else {
                            if prev.idx(px, py) == prev.idx(x as int, y as int) {
                                lemma_idx_injective(
                                    w as int,
                                    h as int,
                                    px,
                                    py,
                                    x as int,
                                    y as int,
                                );
                            }
                            assert(self.raster().at(px, py) == prev.at(px, py));
                        }
                    }
                }
                y = y + 1;
            }
            x = x + 1;
        }
    }

    /// Rasterizes the segment from `a` to `b` by parametric stepping: the
    /// parameter runs from zero to the rounded Euclidean distance in unit
    /// increments, each step sets the interpolated cell, and the endpoint
    /// `b` is set explicitly afterwards. Coincident endpoints set exactly
    /// that one cell.
    fn draw_line(&mut self, a: Coord, b: Coord, col: Self::Atom)
        requires
            old(self).raster().wf(),
            old(self).raster().in_bounds(a.x as int, a.y as int),
            old(self).raster().in_bounds(b.x as int, b.y as int),
        ensures
            final(self).raster().wf(),
            final(self).raster().width == old(self).raster().width,
            final(self).raster().height == old(self).raster().height,
            forall|px: int, py: int|
                old(self).raster().in_bounds(px, py) ==> final(self).raster().at(px, py) == (
                if line_covers(a, b, px, py) {
                    col
                } else {
                    old(self).raster().at(px, py)
                }),
    {
        let w = self.width();
        let h = self.height();
        proof {
            lemma_span_in_canvas(
                w as int,
                h as int,
                abs_diff(a.x as int, b.x as int),
                abs_diff(a.y as int, b.y as int),
            );
            lemma_dist_le_sum(a, b);
            lemma_dist_zero_iff(a, b);
        }
        let d: usize = a.distance(b);
        if d == 0 {
            let ghost prev = self.raster();
            self.set(b.x, b.y, col);
            proof {
                lemma_idx_in_range(w as int, h as int, b.x as int, b.y as int);
                assert forall|px: int, py: int|
                    old(self).raster().in_bounds(px, py) implies #[trigger] self.raster().at(
                    px,
                    py,
                ) == (if line_covers(a, b, px, py) {
                    col
                } else {
                    old(self).raster().at(px, py)
                }) by {
                    lemma_idx_in_range(w as int, h as int, px, py);
                    lemma_idx_in_range(w as int, h as int, b.x as int, b.y as int);
                    if px == b.x && py == b.y {
                        assert(self.raster().at(px, py) == col);
                        assert(line_covers(a, b, px, py));
                    } else {
                        if prev.idx(px, py) == prev.idx(b.x as int, b.y as int) {
                            lemma_idx_injective(
                                w as int,
                                h as int,
                                px,
                                py,
                                b.x as int,
                                b.y as int,
                            );
                        }
                        assert(self.raster().at(px, py) == old(self).raster().at(px, py));
                        if line_covers(a, b, px, py) {
                            let s = choose|s: int|
                                0 <= s <= spec_dist(a, b) && #[trigger] step_point(a, b, s) == (
                                px,
                                py,
                                );
                            assert(step_point(a, b, s) == (a.x as int, a.y as int));
                            assert(false);
                        }
                    }
                }
            }
            return ;
        }
        let mut t: usize = 0;
        while t <= d
            invariant
                self.raster().wf(),
                self.raster().width == old(self).raster().width,
                self.raster().height == old(self).raster().height,
                w == self.raster().width,
                h == self.raster().height,
                a.x < w,
                a.y < h,
                b.x < w,
                b.y < h,
                1 <= d < usize::MAX,
                d == spec_dist(a, b),
                t <= d + 1,
                forall|px: int, py: int|
                    old(self).raster().in_bounds(px, py) ==> #[trigger] self.raster().at(px, py)
                        == (if covered_until(a, b, t as int, px, py) {
                        col
                    } else {
                        old(self).raster().at(px, py)
                    }),
            decreases d + 1 - t,
        {
            let xi: usize = interp_exec(a.x, b.x, t, d);
            let yi: usize = interp_exec(a.y, b.y, t, d);
            let ghost prev = self.raster();
            self.set(xi, yi, col);
            proof {
                lemma_idx_in_range(w as int, h as int, xi as int, yi as int);
                assert(step_point(a, b, t as int) == (xi as int, yi as int));
                assert forall|px: int, py: int|
                    old(self).raster().in_bounds(px, py) implies #[trigger] self.raster().at(
                    px,
                    py,
                ) == (if covered_until(a, b, t as int + 1, px, py) {
                    col
                } else {
                    old(self).raster().at(px, py)
                }) by {
                    lemma_idx_in_range(w as int, h as int, px, py);
                    assert(prev.at(px, py) == (if covered_until(a, b, t as int, px, py) {
                        col
                    } else {
                        old(self).raster().at(px, py)
                    }));
                    if px == xi && py == yi {
                        assert(covered_until(a, b, t as int + 1, px, py));
                        assert(self.raster().at(px, py) == col);
                    } else {
                        if prev.idx(px, py) == prev.idx(xi as int, yi as int) {
                            lemma_idx_injective(w as int, h as int, px, py, xi as int, yi as int);
                        }
                        assert(self.raster().at(px, py) == prev.at(px, py));
                        if covered_until(a, b, t as int + 1, px, py) {
                            let s = choose|s: int|
                                0 <= s < t as int + 1 && #[trigger] step_point(a, b, s) == (
                                px,
                                py,
                                );
                            assert(s != t as int);
                            assert(covered_until(a, b, t as int, px, py));
                        }
                        if covered_until(a, b, t as int, px, py) {
                            let s = choose|s: int|
                                0 <= s < t as int && #[trigger] step_point(a, b, s) == (px, py);
                            assert(0 <= s < t as int + 1 && step_point(a, b, s) == (px, py));
                            assert(covered_until(a, b, t as int + 1, px, py));
                        }
                    }
                }
            }
            t = t + 1;
        }
        let ghost prev = self.raster();
        self.set(b.x, b.y, col);
        proof {
            lemma_idx_in_range(w as int, h as int, b.x as int, b.y as int);
            assert forall|px: int, py: int|
                old(self).raster().in_bounds(px, py) implies #[trigger] self.raster().at(px, py)
                == (if line_covers(a, b, px, py) {
                col
            } else {
                old(self).raster().at(px, py)
            }) by {
                lemma_idx_in_range(w as int, h as int, px, py);
                lemma_idx_in_range(w as int, h as int, b.x as int, b.y as int);
                assert(prev.at(px, py) == (if covered_until(a, b, d as int + 1, px, py) {
                    col
                } else {
                    old(self).raster().at(px, py)
                }));
                if px == b.x && py == b.y {
                    assert(self.raster().at(px, py) == col);
                    assert(line_covers(a, b, px, py));
                } else {
                    if prev.idx(px, py) == prev.idx(b.x as int, b.y as int) {
                        lemma_idx_injective(w as int, h as int, px, py, b.x as int, b.y as int);
                    }
                    assert(self.raster().at(px, py) == prev.at(px, py));
                    if covered_until(a, b, d as int + 1, px, py) {
                        let s = choose|s: int|
                            0 <= s < d as int + 1 && #[trigger] step_point(a, b, s) == (px, py);
                        assert(0 <= s <= spec_dist(a, b) && step_point(a, b, s) == (px, py));
                        assert(line_covers(a, b, px, py));
                    }
                    if line_covers(a, b, px, py) {
                        let s = choose|s: int|
                            0 <= s <= spec_dist(a, b) && #[trigger] step_point(a, b, s) == (
                            px,
                            py,
                            );
                        assert(0 <= s < d as int + 1);
                        assert(covered_until(a, b, d as int + 1, px, py));
                    }
                }
            }
        }
    }

    /// Rasterizes the segment from `a` to `b` as `draw_line` does, but at
    /// each step stamps a `draw_circle` footprint of the given thickness
    /// instead of a single cell, producing a thick stroke. The endpoint `b`
    /// is set explicitly afterwards.
    fn draw_line_with_thickness(&mut self, a: Coord, b: Coord, col: Self::Atom, thickness: usize)
        requires
            old(self).raster().wf(),
            old(self).raster().in_bounds(a.x as int, a.y as int),
            old(self).raster().in_bounds(b.x as int, b.y as int),
            thickness / 2 > 0 ==> a.x + thickness / 2 <= old(self).raster().width && b.x
                + thickness / 2 <= old(self).raster().width && a.y + thickness / 2 <= old(
                self,
            ).raster().height && b.y + thickness / 2 <= old(self).raster().height,
        ensures
            final(self).raster().wf(),
            final(self).raster().width == old(self).raster().width,
            final(self).raster().height == old(self).raster().height,
            forall|px: int, py: int|
                old(self).raster().in_bounds(px, py) ==> final(self).raster().at(px, py) == (
                if thick_covers(a, b, thickness as int, px, py) {
                    col
                } else {
                    old(self).raster().at(px, py)
                }),
    {
        let w = self.width();
        let h = self.height();
        proof {
            lemma_span_in_canvas(
                w as int,
                h as int,
                abs_diff(a.x as int, b.x as int),
                abs_diff(a.y as int, b.y as int),
            );
            lemma_dist_le_sum(a, b);
            lemma_dist_zero_iff(a, b);
        }
        let d: usize = a.distance(b);
        if d == 0 {
            self.draw_circle(a, thickness, col);
            let ghost mid = self.raster();
            self.set(b.x, b.y, col);
            proof {
                lemma_idx_in_range(w as int, h as int, b.x as int, b.y as int);
                assert(step_point(a, b, 0) == (a.x as int, a.y as int));
                assert forall|px: int, py: int|
                    old(self).raster().in_bounds(px, py) implies #[trigger] self.raster().at(
                    px,
                    py,
                ) == (if thick_covers(a, b, thickness as int, px, py) {
                    col
                } else {
                    old(self).raster().at(px, py)
                }) by {
                    lemma_idx_in_range(w as int, h as int, px, py);
                    if px == b.x && py == b.y {
                        assert(self.raster().at(px, py) == col);
                        assert(thick_covers(a, b, thickness as int, px, py));
                    } else {
                        if mid.idx(px, py) == mid.idx(b.x as int, b.y as int) {
                            lemma_idx_injective(
                                w as int,
                                h as int,
                                px,
                                py,
                                b.x as int,
                                b.y as int,
                            );
                        }
                        assert(self.raster().at(px, py) == mid.at(px, py));
                        if circle_covers(a.x as int, a.y as int, thickness as int, px, py) {
                            assert(stamp_covers(a, b, 0, thickness as int, px, py));
                            assert(thick_covers(a, b, thickness as int, px, py));
                        } else {
                            if thick_covers(a, b, thickness as int, px, py) {
                                let s = choose|s: int|
                                    0 <= s <= spec_dist(a, b) && #[trigger] stamp_covers(
                                        a,
                                        b,
                                        s,
                                        thickness as int,
                                        px,
                                        py,
                                    );
                                assert(s == 0);
                                assert(false);
                            }
                        }
                    }
                }
            }
            return ;
        }
        let mut t: usize = 0;
        while t <= d
            invariant
                self.raster().wf(),
                self.raster().width == old(self).raster().width,
                self.raster().height == old(self).raster().height,
                w == self.raster().width,
                h == self.raster().height,
                a.x < w,
                a.y < h,
                b.x < w,
                b.y < h,
                thickness / 2 > 0 ==> a.x + thickness / 2 <= w && b.x + thickness / 2 <= w && a.y
                    + thickness / 2 <= h && b.y + thickness / 2 <= h,
                1 <= d < usize::MAX,
                d == spec_dist(a, b),
                t <= d + 1,
                forall|px: int, py: int|
                    old(self).raster().in_bounds(px, py) ==> #[trigger] self.raster().at(px, py)
                        == (if stamped_until(a, b, t as int, thickness as int, px, py) {
                        col
                    } else {
                        old(self).raster().at(px, py)
                    }),
            decreases d + 1 - t,
        {
            let xi: usize = interp_exec(a.x, b.x, t, d);
            let yi: usize = interp_exec(a.y, b.y, t, d);
            let ghost prev = self.raster();
            self.draw_circle(Coord { x: xi, y: yi }, thickness, col);
            proof {
                assert(step_point(a, b, t as int) == (xi as int, yi as int));
                assert forall|px: int, py: int|
                    old(self).raster().in_bounds(px, py) implies #[trigger] self.raster().at(
                    px,
                    py,
                ) == (if stamped_until(a, b, t as int + 1, thickness as int, px, py) {
                    col
                } else {
                    old(self).raster().at(px, py)
                }) by {
                    assert(prev.at(px, py) == (if stamped_until(
                        a,
                        b,
                        t as int,
                        thickness as int,
                        px,
                        py,
                    ) {
                        col
                    } else {
                        old(self).raster().at(px, py)
                    }));
                    if circle_covers(xi as int, yi as int, thickness as int, px, py) {
                        assert(stamp_covers(a, b, t as int, thickness as int, px, py));
                        assert(stamped_until(a, b, t as int + 1, thickness as int, px, py));
                        assert(self.raster().at(px, py) == col);
                    } else {
                        assert(self.raster().at(px, py) == prev.at(px, py));
                        if stamped_until(a, b, t as int + 1, thickness as int, px, py) {
                            let s = choose|s: int|
                                0 <= s < t as int + 1 && #[trigger] stamp_covers(
                                    a,
                                    b,
                                    s,
                                    thickness as int,
                                    px,
                                    py,
                                );
                            assert(s != t as int);
                            assert(stamped_until(a, b, t as int, thickness as int, px, py));
                        }
                        if stamped_until(a, b, t as int, thickness as int, px, py) {
                            let s = choose|s: int|
                                0 <= s < t as int && #[trigger] stamp_covers(
                                    a,
                                    b,
                                    s,
                                    thickness as int,
                                    px,
                                    py,
                                );
                            assert(0 <= s < t as int + 1 && stamp_covers(
                                a,
                                b,
                                s,
                                thickness as int,
                                px,
                                py,
                            ));
                            assert(stamped_until(a, b, t as int + 1, thickness as int, px, py));
                        }
                    }
                }
            }
            t = t + 1;
        }
        let ghost prev = self.raster();
        self.set(b.x, b.y, col);
        proof {
            lemma_idx_in_range(w as int, h as int, b.x as int, b.y as int);
            assert forall|px: int, py: int|
                old(self).raster().in_bounds(px, py) implies #[trigger] self.raster().at(px, py)
                == (if thick_covers(a, b, thickness as int, px, py) {
                col
            } else {
                old(self).raster().at(px, py)
            }) by {
                lemma_idx_in_range(w as int, h as int, px, py);
                assert(prev.at(px, py) == (if stamped_until(
                    a,
                    b,
                    d as int + 1,
                    thickness as int,
                    px,
                    py,
                ) {
                    col
                } else {
                    old(self).raster().at(px, py)
                }));
                if px == b.x && py == b.y {
                    assert(self.raster().at(px, py) == col);
                    assert(thick_covers(a, b, thickness as int, px, py));
                } else {
                    if prev.idx(px, py) == prev.idx(b.x as int, b.y as int) {
                        lemma_idx_injective(w as int, h as int, px, py, b.x as int, b.y as int);
                    }
                    assert(self.raster().at(px, py) == prev.at(px, py));
                    if stamped_until(a, b, d as int + 1, thickness as int, px, py) {
                        let s = choose|s: int|
                            0 <= s < d as int + 1 && #[trigger] stamp_covers(
                                a,
                                b,
                                s,
                                thickness as int,
                                px,
                                py,
                            );
                        assert(0 <= s <= spec_dist(a, b) && stamp_covers(
                            a,
                            b,
                            s,
                            thickness as int,
                            px,
                            py,
                        ));
                        assert(thick_covers(a, b, thickness as int, px, py));
                    }
                    if thick_covers(a, b, thickness as int, px, py) {
                        let s = choose|s: int|
                            0 <= s <= spec_dist(a, b) && #[trigger] stamp_covers(
                                a,
                                b,
                                s,
                                thickness as int,
                                px,
                                py,
                            );
                        assert(0 <= s < d as int + 1);
                        assert(stamped_until(a, b, d as int + 1, thickness as int, px, py));
                    }
                }
            }
        }
    }
}

} // verus!
