//! Rasterisation of sampled functions, the axis overlay and the redraw cycle.
use crate::fixed::{floor_div, lemma_round_div_gap};
use crate::point::{abs_int, lemma_lerp_bounds, lemma_lerp_step_abs, lerp, line_points, Point};
use crate::screen::{blank, paint, screen_bytes, ScreenBuf};
use crate::viewport::{lemma_scale_bounds, Viewport, MAX_DIM};
use vstd::arithmetic::div_mod::{lemma_div_is_ordered, lemma_div_multiples_vanish};
use vstd::arithmetic::power2::pow2;
use vstd::arithmetic::div_mod::lemma_fundamental_div_mod;
use vstd::prelude::*;

verus! {

/// Tick marks stand on every `TICK_SPACING`-th row and column.
pub const TICK_SPACING: u32 = 5;

/// `b` after plotting `p` under `v`: its pixel is painted when it lies on
/// the grid, and nothing changes otherwise.
pub open spec fn plot(b: Seq<u8>, v: Viewport, p: Point) -> Seq<u8> {
    let c = v.col_of(p.x as int);
    let r = v.row_of(p.y as int);
    if v.in_grid(c, r) {
        paint(b, r * v.dim + c)
    } else {
        b
    }
}

/// `b` after plotting each of `pts` in order.
pub open spec fn plot_all(b: Seq<u8>, v: Viewport, pts: Seq<Point>) -> Seq<u8>
    decreases pts.len(),
{
    if pts.len() == 0 {
        b
    } else {
        plot(plot_all(b, v, pts.drop_last()), v, pts.last())
    }
}

/// The points `(x_i, ys[i])` of a real function sampled at the viewport's
/// sample positions `x_i`.
pub open spec fn real_points(v: Viewport, ys: Seq<i64>) -> Seq<Point> {
    Seq::new(ys.len(), |i: int| Point { x: v.samples(ys.len())[i], y: ys[i] })
}

/// Where the `i`-th segment of a curve starts: the previous point, or the
/// first point itself for the first segment.
pub open spec fn segment_start(zs: Seq<Point>, i: int) -> Point {
    if i == 0 {
        zs[0]
    } else {
        zs[i - 1]
    }
}

/// `b` after drawing the first `k` segments of the curve through `zs`, each
/// as `n` interpolated points.
pub open spec fn curve_upto(b: Seq<u8>, v: Viewport, zs: Seq<Point>, n: nat, k: nat) -> Seq<u8>
    decreases k,
{
    if k == 0 {
        b
    } else {
        plot_all(
            curve_upto(b, v, zs, n, (k - 1) as nat),
            v,
            line_points(segment_start(zs, k - 1), zs[k - 1], n),
        )
    }
}

pub open spec fn curve(b: Seq<u8>, v: Viewport, zs: Seq<Point>, n: nat) -> Seq<u8> {
    curve_upto(b, v, zs, n, zs.len())
}

/// Whether pixel `(c, r)` belongs to the axis overlay: the two lines through
/// the pixel of the origin, and the tick marks beside them.
pub open spec fn on_axes(v: Viewport, c: int, r: int) -> bool {
    let ox = v.col_of(0);
    let oy = v.row_of(0);
    ||| c == ox
    ||| r == oy
    ||| (c == ox - 1 || c == ox + 1) && r % (TICK_SPACING as int) == 0
    ||| (r == oy - 1 || r == oy + 1) && c % (TICK_SPACING as int) == 0
}

/// Whether sample index `i` of the frame belongs to a pixel of the overlay.
pub open spec fn byte_on_axes(v: Viewport, i: int) -> bool {
    on_axes(v, (i / 3) % (v.dim as int), (i / 3) / (v.dim as int))
}

/// `b` with the first `p` pixels of the axis overlay painted.
pub open spec fn axes_upto(b: Seq<u8>, v: Viewport, p: int) -> Seq<u8> {
    Seq::new(b.len(), |i: int| if i / 3 < p && byte_on_axes(v, i) { 0u8 } else { b[i] })
}

/// `b` with the axis overlay painted.
pub open spec fn axes(b: Seq<u8>, v: Viewport) -> Seq<u8> {
    Seq::new(b.len(), |i: int| if byte_on_axes(v, i) { 0u8 } else { b[i] })
}

/// The frame of a full redraw: cleared, the curve through `zs`, then the
/// axes when enabled.
pub open spec fn redraw(b: Seq<u8>, v: Viewport, zs: Seq<Point>, n: nat) -> Seq<u8> {
    let c = curve(blank(b.len()), v, zs, n);
    if v.axis_enabled {
        axes(c, v)
    } else {
        c
    }
}

proof fn lemma_plot_len(b: Seq<u8>, v: Viewport, p: Point)
    requires
        v.wf(),
        b.len() == 3 * v.dim * v.dim,
    ensures
        plot(b, v, p).len() == b.len(),
{
    let c = v.col_of(p.x as int);
    let r = v.row_of(p.y as int);
    if v.in_grid(c, r) {
        let d = v.dim as int;
        assert(3 * (r * d + c) + 2 < 3 * d * d) by (nonlinear_arith)
            requires
                0 <= c < d,
                0 <= r < d,
        ;
    }
}

proof fn lemma_plot_all_len(b: Seq<u8>, v: Viewport, pts: Seq<Point>)
    requires
        v.wf(),
        b.len() == 3 * v.dim * v.dim,
    ensures
        plot_all(b, v, pts).len() == b.len(),
    decreases pts.len(),
{
    if pts.len() > 0 {
        lemma_plot_all_len(b, v, pts.drop_last());
        lemma_plot_len(plot_all(b, v, pts.drop_last()), v, pts.last());
    }
}

proof fn lemma_curve_upto_len(b: Seq<u8>, v: Viewport, zs: Seq<Point>, n: nat, k: nat)
    requires
        v.wf(),
        b.len() == 3 * v.dim * v.dim,
    ensures
        curve_upto(b, v, zs, n, k).len() == b.len(),
    decreases k,
{
    if k > 0 {
        lemma_curve_upto_len(b, v, zs, n, (k - 1) as nat);
        lemma_plot_all_len(
            curve_upto(b, v, zs, n, (k - 1) as nat),
            v,
            line_points(segment_start(zs, k - 1), zs[k - 1], n),
        );
    }
}

/// A redraw does not depend on what the frame held before: redrawing any two
/// frames of the same size gives the same bytes, and redrawing twice gives
/// what redrawing once gave.
pub proof fn lemma_redraw_idempotent(b1: Seq<u8>, b2: Seq<u8>, v: Viewport, zs: Seq<Point>, n: nat)
    requires
        v.wf(),
        b1.len() == 3 * v.dim * v.dim,
        b2.len() == b1.len(),
    ensures
        redraw(b1, v, zs, n) == redraw(b2, v, zs, n),
        redraw(redraw(b1, v, zs, n), v, zs, n) == redraw(b1, v, zs, n),
{
    lemma_curve_upto_len(blank(b1.len()), v, zs, n, zs.len());
}

/// Two function-space offsets at most `s` units apart land at most
/// `s * zoom / UNIT + 1` pixels apart, rounded down.
proof fn lemma_offset_gap(v: Viewport, d1: int, d2: int, s: int)
    requires
        v.wf(),
        abs_int(d2 - d1) <= s,
    ensures
        abs_int(v.offset_px(d2) - v.offset_px(d1)) <= floor_div(s * v.scale(), pow2(32) as int) + 1,
{
    lemma_scale_bounds(v);
    let q = pow2(32) as int;
    let (lo, hi) = if d1 <= d2 { (d1, d2) } else { (d2, d1) };
    let k = (hi - lo) * v.scale();
    assert(hi * v.scale() == lo * v.scale() + k && 0 <= k <= s * v.scale()) by (nonlinear_arith)
        requires
            lo <= hi,
            hi - lo <= s,
            k == (hi - lo) * v.scale(),
            v.scale() >= 1,
    ;
    lemma_round_div_gap(lo * v.scale(), k, q);
    lemma_div_is_ordered(k, s * v.scale(), q);
}

/// The point painted after the `j`-th point of the line from `a` to `b`:
/// the next point of the line, or, after the last one, `b` itself, where
/// the next segment of a curve starts.
pub open spec fn next_line_point(a: Point, b: Point, n: nat, j: int) -> Point {
    if j + 1 < n {
        line_points(a, b, n)[j + 1]
    } else {
        b
    }
}

/// Consecutive points of a drawn line from `a` to `b`, and its last point
/// and `b`, land on pixels at most one interpolation step apart on each
/// axis: the step `|b - a| / n + 1` units, times the zoom factor, in pixels,
/// plus one for rounding.
pub proof fn lemma_line_pixel_step(v: Viewport, a: Point, b: Point, n: nat, i: int)
    requires
        v.wf(),
        n > 0,
        0 <= i < n,
    ensures
        abs_int(v.col_of(next_line_point(a, b, n, i).x as int) - v.col_of(line_points(a, b, n)[i].x as int))
            <= floor_div((floor_div(abs_int(b.x - a.x), n as int) + 1) * v.scale(), pow2(32) as int) + 1,
        abs_int(v.row_of(next_line_point(a, b, n, i).y as int) - v.row_of(line_points(a, b, n)[i].y as int))
            <= floor_div((floor_div(abs_int(b.y - a.y), n as int) + 1) * v.scale(), pow2(32) as int) + 1,
{
    let pts = line_points(a, b, n);
    lemma_lerp_bounds(a.x as int, b.x as int, n as int, i);
    lemma_lerp_bounds(a.x as int, b.x as int, n as int, i + 1);
    lemma_lerp_bounds(a.y as int, b.y as int, n as int, i);
    lemma_lerp_bounds(a.y as int, b.y as int, n as int, i + 1);
    let next = next_line_point(a, b, n, i);
    if i + 1 == n {
        lemma_div_multiples_vanish(b.x - a.x, n as int);
        lemma_div_multiples_vanish(b.y - a.y, n as int);
        assert(n * (b.x - a.x) == (i + 1) * (b.x - a.x));
        assert(n * (b.y - a.y) == (i + 1) * (b.y - a.y));
    }
    assert(next.x == lerp(a.x as int, b.x as int, n as int, i + 1));
    assert(next.y == lerp(a.y as int, b.y as int, n as int, i + 1));
    lemma_lerp_step_abs(a.x as int, b.x as int, n as int, i);
    lemma_lerp_step_abs(a.y as int, b.y as int, n as int, i);
    assert(pts[i].x == lerp(a.x as int, b.x as int, n as int, i));
    assert(pts[i].y == lerp(a.y as int, b.y as int, n as int, i));
    lemma_offset_gap(
        v,
        pts[i].x - v.center.x,
        next.x - v.center.x,
        floor_div(abs_int(b.x - a.x), n as int) + 1,
    );
    lemma_offset_gap(
        v,
        pts[i].y - v.center.y,
        next.y - v.center.y,
        floor_div(abs_int(b.y - a.y), n as int) + 1,
    );
}

/// A plotter: a viewport, the number of samples per redraw, and the frame.
pub struct Grapher {
    pub view: Viewport,
    pub precision: u32,
    pub buf: ScreenBuf,
}

impl Grapher {
    pub open spec fn wf(&self) -> bool {
        &&& self.view.wf()
        &&& self.precision > 0
        &&& self.buf.wf(self.view.dim as nat)
    }

    pub open spec fn frame(&self) -> Seq<u8> {
        screen_bytes(self.buf)
    }

    /// Same viewport and precision; the frame may differ.
    pub open spec fn same_settings(&self, other: &Grapher) -> bool {
        &&& self.view == other.view
        &&& self.precision == other.precision
    }

    /// A `dim x dim` plotter taking `precision` samples per redraw, with the
    /// viewport at the origin, zoom 1, no axes, and a blank frame.
    pub fn new(dim: u32, precision: u32) -> (r: Grapher)
        requires
            0 < dim <= MAX_DIM,
            precision > 0,
        ensures
            r.wf(),
            r.view == (Viewport { center: Point { x: 0, y: 0 }, zoom_exp: 0, axis_enabled: false, dim }),
            r.precision == precision,
            r.frame() == blank((3 * dim * dim) as nat),
    {
        Grapher { view: Viewport::new(dim), precision, buf: ScreenBuf::new(dim) }
    }

    /// Plots the function-space point `(x, y)`; a point whose pixel falls
    /// off the grid leaves the frame as it was.
    pub fn set_pixel(&mut self, x: i64, y: i64)
        requires
            old(self).wf(),
        ensures
            final(self).wf(),
            final(self).same_settings(old(self)),
            final(self).frame() == plot(old(self).frame(), old(self).view, Point { x, y }),
            !old(self).view.in_grid(old(self).view.col_of(x as int), old(self).view.row_of(y as int))
                ==> final(self).frame() == old(self).frame(),
    {
        let (c, r) = self.view.map_point(x, y);
        if 0 <= c && c < self.view.dim as i128 && 0 <= r && r < self.view.dim as i128 {
            self.buf.set_black(c as u32, r as u32);
        }
    }

    /// Plots each of `pts` in order.
    fn plot_points(&mut self, pts: &Vec<Point>)
        requires
            old(self).wf(),
        ensures
            final(self).wf(),
            final(self).same_settings(old(self)),
            final(self).frame() == plot_all(old(self).frame(), old(self).view, pts@),
    {
        let mut i: usize = 0;
        while i < pts.len()
            invariant
                self.wf(),
                self.same_settings(old(self)),
                i <= pts.len(),
                self.frame() == plot_all(old(self).frame(), old(self).view, pts@.take(i as int)),
            decreases pts.len() - i,
        {
            let p = pts[i];
            self.set_pixel(p.x, p.y);
            proof {
                assert(pts@.take(i + 1).drop_last() =~= pts@.take(i as int));
            }
            i = i + 1;
        }
        proof {
            assert(pts@.take(i as int) =~= pts@);
        }
    }

    /// Draws the straight line from `a` towards `b` as `precision` points
    /// `a + i / precision * (b - a)`, `i` in `[0, precision)`.
    pub fn draw_line(&mut self, a: Point, b: Point)
        requires
            old(self).wf(),
        ensures
            final(self).wf(),
            final(self).same_settings(old(self)),
            final(self).frame() == plot_all(
                old(self).frame(),
                old(self).view,
                line_points(a, b, old(self).precision as nat),
            ),
    {
        let pts = a.interpolate(&b, self.precision);
        self.plot_points(&pts);
    }

    /// Plots a real function from its values `ys[i] = f(x_i)` at the
    /// viewport's sample positions `x_i`, one isolated point each.
    pub fn draw_re_func(&mut self, ys: &Vec<i64>)
        requires
            old(self).wf(),
            ys.len() == old(self).precision,
        ensures
            final(self).wf(),
            final(self).same_settings(old(self)),
            final(self).frame() == plot_all(old(self).frame(), old(self).view, real_points(old(self).view, ys@)),
    {
        let xs = self.view.sample_points(self.precision);
        let mut pts: Vec<Point> = Vec::new();
        let mut i: usize = 0;
        while i < ys.len()
            invariant
                xs@ == self.view.samples(ys.len() as nat),
                i <= ys.len(),
                pts@ == real_points(self.view, ys@).take(i as int),
            decreases ys.len() - i,
        {
            pts.push(Point { x: xs[i], y: ys[i] });
            proof {
                assert(pts@ =~= real_points(self.view, ys@).take(i + 1));
            }
            i = i + 1;
        }
        proof {
            assert(pts@ =~= real_points(self.view, ys@));
        }
        self.plot_points(&pts);
    }

    /// Draws the curve through the values `zs[i] = f(t_i)` of a complex
    /// function (real part as x, imaginary part as y), joining each point to
    /// the one before by `draw_line`.
    pub fn draw_re_z_func(&mut self, zs: &Vec<Point>)
        requires
            old(self).wf(),
        ensures
            final(self).wf(),
            final(self).same_settings(old(self)),
            final(self).frame() == curve(old(self).frame(), old(self).view, zs@, old(self).precision as nat),
    {
        let mut i: usize = 0;
        while i < zs.len()
            invariant
                self.wf(),
                self.same_settings(old(self)),
                i <= zs.len(),
                self.frame() == curve_upto(old(self).frame(), old(self).view, zs@, old(self).precision as nat, i as nat),
            decreases zs.len() - i,
        {
            let prev = if i == 0 { zs[0] } else { zs[i - 1] };
            self.draw_line(prev, zs[i]);
            i = i + 1;
        }
    }

    /// Draws the axis overlay: the vertical and horizontal lines through the
    /// pixel of the function-space origin, with tick marks one pixel to
    /// either side on every `TICK_SPACING`-th row and column.
    pub fn draw_axes(&mut self)
        requires
            old(self).wf(),
        ensures
            final(self).wf(),
            final(self).same_settings(old(self)),
            final(self).frame() == axes(old(self).frame(), old(self).view),
    {
        let (ox, oy) = self.view.map_point(0, 0);
        let dim = self.view.dim;
        let ghost v = self.view;
        let ghost d = dim as int;
        assert(0 < d * d <= 4096 * 4096) by (nonlinear_arith)
            requires
                0 < d <= 4096,
        ;
        let total: u32 = dim * dim;
        let mut p: u32 = 0;
        while p < total
            invariant
                self.wf(),
                self.same_settings(old(self)),
                v == self.view,
                dim == v.dim,
                d == dim as int,
                0 < d,
                total == d * d,
                p <= total,
                ox == v.col_of(0),
                oy == v.row_of(0),
                self.frame() == axes_upto(old(self).frame(), v, p as int),
            decreases total - p,
        {
            let col = p % dim;
            let row = p / dim;
            proof {
                lemma_fundamental_div_mod(p as int, d);
                assert(col == p as int % d && row == p as int / d);
                assert(row < d) by (nonlinear_arith)
                    requires
                        p == d * row + col,
                        p < d * d,
                        0 <= col,
                        0 < d,
                ;
            }
            let c = col as i128;
            let r = row as i128;
            let hit = c == ox || r == oy || ((c + 1 == ox || c - 1 == ox) && row % TICK_SPACING == 0)
                || ((r + 1 == oy || r - 1 == oy) && col % TICK_SPACING == 0);
            let ghost before = self.frame();
            if hit {
                self.buf.set_black(col, row);
            }
            proof {
                assert(row * d + col == p) by (nonlinear_arith)
                    requires
                        p == d * row + col,
                ;
                assert(hit == on_axes(v, col as int, row as int));
                assert(3 * d * d == 3 * (d * d)) by (nonlinear_arith);
                assert(3 * p + 2 < before.len());
                let after = axes_upto(old(self).frame(), v, p + 1);
                assert forall|i: int| 0 <= i < before.len() implies #[trigger] self.frame()[i] == after[i] by {
                    let prior = axes_upto(old(self).frame(), v, p as int);
                    assert(before[i] == prior[i]);
                    if i / 3 == p {
                        assert(3 * p <= i < 3 * p + 3);
                        assert(byte_on_axes(v, i) == hit);
                        assert(prior[i] == old(self).frame()[i]);
                        if hit {
                            assert(self.frame() == paint(before, p as int));
                            assert(self.frame()[i] == 0);
                        } else {
                            assert(self.frame() == before);
                        }
                    } else {
                        assert(i < 3 * p || i >= 3 * p + 3);
                        if hit {
                            assert(self.frame() == paint(before, p as int));
                        }
                        assert(self.frame()[i] == before[i]);
                    }
                }
                assert(self.frame() =~= after);
            }
            p = p + 1;
        }
        proof {
            assert(self.frame() =~= axes(old(self).frame(), v)) by {
                assert forall|i: int| 0 <= i < self.frame().len() implies #[trigger] (i / 3) < d * d by {
                    assert(i / 3 < d * d) by (nonlinear_arith)
                        requires
                            0 <= i < 3 * d * d,
                    ;
                }
            }
        }
    }

    /// A full redraw from the values `zs` of a complex function: clear the
    /// frame, draw the curve, then the axes when they are enabled.
    pub fn update_plot(&mut self, zs: &Vec<Point>)
        requires
            old(self).wf(),
        ensures
            final(self).wf(),
            final(self).same_settings(old(self)),
            final(self).frame() == redraw(old(self).frame(), old(self).view, zs@, old(self).precision as nat),
    {
        self.buf.clear();
        self.draw_re_z_func(zs);
        if self.view.axis_enabled {
            self.draw_axes();
        }
    }
}

} // verus!
