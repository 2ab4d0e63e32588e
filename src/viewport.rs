//! The viewport: which part of function space is shown, and how it maps onto
//! the pixel grid.
use crate::fixed::{floor_div, pow2_i128, round_div, round_div_i128};
use crate::point::{abs_int, Point};
use vstd::arithmetic::div_mod::{lemma_div_is_ordered, lemma_div_multiples_vanish_fancy};
use vstd::arithmetic::power2::{lemma2_to64, lemma_pow2_adds, lemma_pow2_strictly_increases, lemma_pow2_unfold, pow2};
use vstd::prelude::*;

verus! {

/// The zoom factor is `2^zoom_exp`, with `zoom_exp` kept in
/// `[-MAX_ZOOM_EXP, MAX_ZOOM_EXP]`, so it never reaches zero.
pub const MAX_ZOOM_EXP: i32 = 16;

/// The largest side of the pixel grid.
pub const MAX_DIM: u32 = 4096;

/// The largest magnitude of a center coordinate; pans stop there.
pub const MAX_CENTER: i64 = 0x100_0000_0000;

/// A pan moves the center by this many pixels' worth at zoom 1, i.e. by
/// `PAN_STEP / zoom_factor` function-space units.
pub const PAN_STEP: i64 = 10;

/// What the interaction loop does after a key.
#[derive(Clone, Copy, Debug, PartialEq, Eq, Structural)]
pub enum Control {
    Redraw,
    Quit,
}

/// Keeps a center coordinate within `[-MAX_CENTER, MAX_CENTER]`.
pub open spec fn clamp_center(c: int) -> int {
    if c < -MAX_CENTER {
        -MAX_CENTER as int
    } else if c > MAX_CENTER {
        MAX_CENTER as int
    } else {
        c
    }
}

/// The control decision for a key: `k` quits, anything else redraws.
pub open spec fn control_of(key: char) -> Control {
    if key == 'k' {
        Control::Quit
    } else {
        Control::Redraw
    }
}

#[derive(Clone, Copy, Debug)]
pub struct Viewport {
    pub center: Point,
    pub zoom_exp: i32,
    pub axis_enabled: bool,
    /// Side of the square pixel grid.
    pub dim: u32,
}

impl Viewport {
    pub open spec fn wf(&self) -> bool {
        &&& -MAX_ZOOM_EXP <= self.zoom_exp <= MAX_ZOOM_EXP
        &&& 0 < self.dim <= MAX_DIM
        &&& -MAX_CENTER <= self.center.x <= MAX_CENTER
        &&& -MAX_CENTER <= self.center.y <= MAX_CENTER
    }

    /// `2^32` times the pixels per fixed-point unit: `zoom_factor * 2^16`.
    pub open spec fn scale(&self) -> int {
        pow2((self.zoom_exp + 16) as nat) as int
    }

    /// Fixed-point units per pixel: `UNIT / zoom_factor`.
    pub open spec fn step(&self) -> int {
        pow2((16 - self.zoom_exp) as nat) as int
    }

    /// A function-space offset `d` (in units) as a whole number of pixels:
    /// `d / UNIT * zoom_factor`, rounded half up.
    pub open spec fn offset_px(&self, d: int) -> int {
        round_div(d * self.scale(), pow2(32) as int)
    }

    /// The pixel column of function-space `x`.
    pub open spec fn col_of(&self, x: int) -> int {
        self.dim / 2 + self.offset_px(x - self.center.x)
    }

    /// The pixel row of function-space `y`; rows grow downwards.
    pub open spec fn row_of(&self, y: int) -> int {
        self.dim / 2 - self.offset_px(y - self.center.y)
    }

    pub open spec fn in_grid(&self, col: int, row: int) -> bool {
        0 <= col < self.dim && 0 <= row < self.dim
    }

    /// `dim / zoom_factor` in units: the visible width of function space,
    /// and the half-width of the sampling window.
    pub open spec fn span(&self) -> int {
        self.dim * self.step()
    }

    /// The `i`-th of `n` samples spread over
    /// `[center.x - span, center.x + span)`, the last one excluded.
    pub open spec fn sample_x(&self, n: int, i: int) -> int {
        self.center.x - self.span() + floor_div(i * (2 * self.span()), n)
    }

    pub open spec fn samples(&self, n: nat) -> Seq<i64> {
        Seq::new(n, |i: int| self.sample_x(n as int, i) as i64)
    }

    /// How far one pan key moves the center, in units.
    pub open spec fn pan_step(&self) -> int {
        PAN_STEP * self.step()
    }

    pub open spec fn with_center(&self, x: int, y: int) -> Viewport {
        Viewport { center: Point { x: clamp_center(x) as i64, y: clamp_center(y) as i64 }, ..*self }
    }

    /// The viewport after one key press.
    pub open spec fn after_key(&self, key: char) -> Viewport {
        if key == 'z' {
            if self.zoom_exp < MAX_ZOOM_EXP {
                Viewport { zoom_exp: (self.zoom_exp + 1) as i32, ..*self }
            } else {
                *self
            }
        } else if key == 'x' {
            if self.zoom_exp > -MAX_ZOOM_EXP {
                Viewport { zoom_exp: (self.zoom_exp - 1) as i32, ..*self }
            } else {
                *self
            }
        } else if key == 'w' {
            self.with_center(self.center.x as int, self.center.y + self.pan_step())
        } else if key == 'a' {
            self.with_center(self.center.x - self.pan_step(), self.center.y as int)
        } else if key == 's' {
            self.with_center(self.center.x as int, self.center.y - self.pan_step())
        } else if key == 'd' {
            self.with_center(self.center.x + self.pan_step(), self.center.y as int)
        } else if key == 'e' {
            Viewport { axis_enabled: !self.axis_enabled, ..*self }
        } else if key == 'r' {
            Viewport { center: Point { x: 0, y: 0 }, zoom_exp: 0, ..*self }
        } else {
            *self
        }
    }
}

proof fn lemma_pow2_bounds(e: nat)
    requires
        e <= 32,
    ensures
        1 <= pow2(e) <= 0x1_0000_0000,
{
    lemma2_to64();
    if e < 32 {
        lemma_pow2_strictly_increases(e, 32);
    }
    if e > 0 {
        lemma_pow2_strictly_increases(0, e);
    }
}

pub proof fn lemma_scale_bounds(v: Viewport)
    requires
        v.wf(),
    ensures
        1 <= v.scale() <= 0x1_0000_0000,
        1 <= v.step() <= 0x1_0000_0000,
        v.scale() * v.step() == 0x1_0000_0000,
        pow2(32) == 0x1_0000_0000,
{
    lemma_pow2_bounds((v.zoom_exp + 16) as nat);
    lemma_pow2_bounds((16 - v.zoom_exp) as nat);
    lemma_pow2_adds((v.zoom_exp + 16) as nat, (16 - v.zoom_exp) as nat);
    lemma2_to64();
}

impl Viewport {
    /// The initial viewport: centered on the origin, zoom 1, no axes.
    pub fn new(dim: u32) -> (r: Viewport)
        requires
            0 < dim <= MAX_DIM,
        ensures
            r.wf(),
            r == (Viewport { center: Point { x: 0, y: 0 }, zoom_exp: 0, axis_enabled: false, dim }),
    {
        Viewport { center: Point::new(0, 0), zoom_exp: 0, axis_enabled: false, dim }
    }

    fn scale_exec(&self) -> (r: i128)
        requires
            self.wf(),
        ensures
            r == self.scale(),
    {
        pow2_i128((self.zoom_exp + 16) as u32)
    }

    fn step_exec(&self) -> (r: i128)
        requires
            self.wf(),
        ensures
            r == self.step(),
    {
        pow2_i128((16 - self.zoom_exp) as u32)
    }

    fn offset_px_exec(&self, d: i128) -> (r: i128)
        requires
            self.wf(),
            -0x2_0000_0000_0000_0000 <= d <= 0x2_0000_0000_0000_0000,
        ensures
            r == self.offset_px(d as int),
            -0x10_0000_0000_0000_0000_0000_0000 <= r <= 0x10_0000_0000_0000_0000_0000_0000,
    {
        let s = self.scale_exec();
        proof {
            lemma_scale_bounds(*self);
            assert(-0x2_0000_0000_0000_0000 * 0x1_0000_0000 <= d * s <= 0x2_0000_0000_0000_0000 * 0x1_0000_0000) by (nonlinear_arith)
                requires
                    -0x2_0000_0000_0000_0000 <= d <= 0x2_0000_0000_0000_0000,
                    1 <= s <= 0x1_0000_0000,
            ;
        }
        round_div_i128(d * s, 0x1_0000_0000)
    }

    /// The pixel `(column, row)` of a function-space point, before clipping.
    /// `center` lands on `(dim / 2, dim / 2)`.
    pub fn map_point(&self, x: i64, y: i64) -> (r: (i128, i128))
        requires
            self.wf(),
        ensures
            r.0 == self.col_of(x as int),
            r.1 == self.row_of(y as int),
    {
        let half = (self.dim / 2) as i128;
        let ox = self.offset_px_exec(x as i128 - self.center.x as i128);
        let oy = self.offset_px_exec(y as i128 - self.center.y as i128);
        (half + ox, half - oy)
    }

    /// The function-space point that the pixel `(col, row)` stands for.
    pub fn to_function_space(&self, col: u32, row: u32) -> (r: Point)
        requires
            self.wf(),
            col < self.dim,
            row < self.dim,
        ensures
            r.x == self.center.x + (col - self.dim / 2) * self.step(),
            r.y == self.center.y - (row - self.dim / 2) * self.step(),
    {
        let step = self.step_exec();
        let half = (self.dim / 2) as i128;
        proof {
            lemma_scale_bounds(*self);
            assert(-0x1000 * 0x1_0000_0000 <= (col - half) * step <= 0x1000 * 0x1_0000_0000) by (nonlinear_arith)
                requires
                    -0x1000 <= col - half <= 0x1000,
                    1 <= step <= 0x1_0000_0000,
            ;
            assert(-0x1000 * 0x1_0000_0000 <= (row - half) * step <= 0x1000 * 0x1_0000_0000) by (nonlinear_arith)
                requires
                    -0x1000 <= row - half <= 0x1000,
                    1 <= step <= 0x1_0000_0000,
            ;
        }
        let x = self.center.x as i128 + (col as i128 - half) * step;
        let y = self.center.y as i128 - (row as i128 - half) * step;
        Point { x: x as i64, y: y as i64 }
    }

    /// The `n` sample positions spread evenly over
    /// `[center.x - dim / zoom_factor, center.x + dim / zoom_factor)`.
    pub fn sample_points(&self, n: u32) -> (r: Vec<i64>)
        requires
            self.wf(),
            n > 0,
        ensures
            r@ == self.samples(n as nat),
    {
        let step = self.step_exec();
        proof {
            lemma_scale_bounds(*self);
            assert(0 < self.dim * step <= 0x1000 * 0x1_0000_0000) by (nonlinear_arith)
                requires
                    1 <= self.dim <= 0x1000,
                    1 <= step,
                    step <= 0x1_0000_0000,
            ;
        }
        let span: i128 = self.dim as i128 * step;
        let start: i128 = self.center.x as i128 - span;
        let mut r: Vec<i64> = Vec::new();
        let mut i: u32 = 0;
        while i < n
            invariant
                self.wf(),
                i <= n,
                span == self.span(),
                0 < span <= 0x1000 * 0x1_0000_0000,
                start == self.center.x - span,
                r@ == self.samples(n as nat).take(i as int),
            decreases n - i,
        {
            proof {
                assert(0 <= i * (2 * span) <= n * (2 * span) <= 0x1_0000_0000 * 0x2000 * 0x1_0000_0000) by (nonlinear_arith)
                    requires
                        0 <= i < n <= 0x1_0000_0000,
                        0 < span <= 0x1000 * 0x1_0000_0000,
                ;
                lemma_div_is_ordered(i * (2 * span), n * (2 * span), n as int);
                vstd::arithmetic::div_mod::lemma_div_multiples_vanish(2 * span, n as int);
                assert(n * (2 * span) == (n as int) * (2 * span));
                lemma_div_is_ordered(0, i * (2 * span), n as int);
            }
            let x: i128 = start + (i as i128 * (2 * span)) / n as i128;
            r.push(x as i64);
            proof {
                assert(r@ =~= self.samples(n as nat).take(i + 1));
            }
            i = i + 1;
        }
        proof {
            assert(r@ =~= self.samples(n as nat));
        }
        r
    }

    /// Applies one key: `z`/`x` double/halve the zoom factor (within its
    /// bounds), `w`/`a`/`s`/`d` pan up/left/down/right by `PAN_STEP / zoom`,
    /// `e` toggles the axes, `r` resets zoom and center, `k` asks to quit,
    /// and any other key changes nothing.
    pub fn handle_key(&mut self, key: char) -> (r: Control)
        requires
            old(self).wf(),
        ensures
            *final(self) == old(self).after_key(key),
            final(self).wf(),
            r == control_of(key),
    {
        proof {
            lemma_scale_bounds(*self);
        }
        let pan: i128 = PAN_STEP as i128 * self.step_exec();
        let cx = self.center.x as i128;
        let cy = self.center.y as i128;
        if key == 'z' {
            if self.zoom_exp < MAX_ZOOM_EXP {
                self.zoom_exp = self.zoom_exp + 1;
            }
        } else if key == 'x' {
            if self.zoom_exp > -MAX_ZOOM_EXP {
                self.zoom_exp = self.zoom_exp - 1;
            }
        } else if key == 'w' {
            self.center.y = clamp_center_exec(cy + pan);
        } else if key == 'a' {
            self.center.x = clamp_center_exec(cx - pan);
        } else if key == 's' {
            self.center.y = clamp_center_exec(cy - pan);
        } else if key == 'd' {
            self.center.x = clamp_center_exec(cx + pan);
        } else if key == 'e' {
            self.axis_enabled = !self.axis_enabled;
        } else if key == 'r' {
            self.zoom_exp = 0;
            self.center = Point::new(0, 0);
        }
        if key == 'k' {
            Control::Quit
        } else {
            Control::Redraw
        }
    }
}

fn clamp_center_exec(c: i128) -> (r: i64)
    ensures
        r == clamp_center(c as int),
{
    if c < -MAX_CENTER as i128 {
        -MAX_CENTER
    } else if c > MAX_CENTER as i128 {
        MAX_CENTER
    } else {
        c as i64
    }
}

/// The viewport after a sequence of key presses, in order.
pub open spec fn after_keys(v: Viewport, keys: Seq<char>) -> Viewport
    decreases keys.len(),
{
    if keys.len() == 0 {
        v
    } else {
        after_keys(v, keys.drop_last()).after_key(keys.last())
    }
}

/// Rounding `n / q` and `2n / q` keeps the sign of `n`, and the second is
/// never nearer zero.
proof fn lemma_round_doubling(n: int, q: int)
    requires
        q > 0,
    ensures
        n >= 0 ==> 0 <= round_div(n, q) <= round_div(2 * n, q),
        n < 0 ==> round_div(2 * n, q) <= round_div(n, q) <= 0,
{
    lemma_div_multiples_vanish_fancy(0, 0, 2 * q);
    lemma_div_multiples_vanish_fancy(0, 2 * q - 1, 2 * q);
    if n >= 0 {
        lemma_div_is_ordered(0, 2 * n + q, 2 * q);
        lemma_div_is_ordered(2 * n + q, 2 * (2 * n) + q, 2 * q);
    } else {
        lemma_div_is_ordered(2 * (2 * n) + q, 2 * n + q, 2 * q);
        lemma_div_is_ordered(2 * n + q, 2 * q - 1, 2 * q);
    }
}

/// The center of the viewport lands on the middle pixel `(dim / 2, dim / 2)`.
pub proof fn lemma_center_maps_to_middle(v: Viewport)
    requires
        v.wf(),
    ensures
        v.col_of(v.center.x as int) == v.dim / 2,
        v.row_of(v.center.y as int) == v.dim / 2,
{
    lemma_scale_bounds(v);
    lemma_div_multiples_vanish_fancy(0, 0x1_0000_0000, 0x2_0000_0000);
}

/// Mapping a pixel to function space and back gives the same pixel.
pub proof fn lemma_pixel_round_trip(v: Viewport, col: int, row: int)
    requires
        v.wf(),
        v.in_grid(col, row),
    ensures
        v.col_of(v.center.x + (col - v.dim / 2) * v.step()) == col,
        v.row_of(v.center.y - (row - v.dim / 2) * v.step()) == row,
{
    lemma_scale_bounds(v);
    let q = 0x1_0000_0000int;
    let mx = col - v.dim / 2;
    let my = -(row - v.dim / 2);
    assert((mx * v.step()) * v.scale() == mx * q) by (nonlinear_arith)
        requires
            v.scale() * v.step() == q,
    ;
    assert((my * v.step()) * v.scale() == my * q) by (nonlinear_arith)
        requires
            v.scale() * v.step() == q,
    ;
    assert(-((row - v.dim / 2) * v.step()) == my * v.step()) by (nonlinear_arith)
        requires
            my == -(row - v.dim / 2),
    ;
    lemma_div_multiples_vanish_fancy(mx, q, 2 * q);
    lemma_div_multiples_vanish_fancy(my, q, 2 * q);
    assert(2 * (mx * q) + q == 2 * q * mx + q);
    assert(2 * (my * q) + q == 2 * q * my + q);
}

/// Zooming in halves the visible width of function space, and moves the
/// pixel of any fixed point no nearer to the middle pixel, on either axis.
pub proof fn lemma_zoom_in(v: Viewport, p: Point)
    requires
        v.wf(),
        v.zoom_exp < MAX_ZOOM_EXP,
    ensures
        2 * v.after_key('z').span() == v.span(),
        abs_int(v.after_key('z').col_of(p.x as int) - v.dim / 2) >= abs_int(v.col_of(p.x as int) - v.dim / 2),
        abs_int(v.after_key('z').row_of(p.y as int) - v.dim / 2) >= abs_int(v.row_of(p.y as int) - v.dim / 2),
{
    let w = v.after_key('z');
    lemma_pow2_unfold((16 - v.zoom_exp) as nat);
    lemma_pow2_unfold((w.zoom_exp + 16) as nat);
    assert(v.step() == 2 * w.step());
    assert(w.scale() == 2 * v.scale());
    assert(2 * (v.dim * w.step()) == v.dim * (2 * w.step())) by (nonlinear_arith);
    let dx = p.x - v.center.x;
    let dy = p.y - v.center.y;
    assert(dx * w.scale() == 2 * (dx * v.scale())) by (nonlinear_arith)
        requires
            w.scale() == 2 * v.scale(),
    ;
    assert(dy * w.scale() == 2 * (dy * v.scale())) by (nonlinear_arith)
        requires
            w.scale() == 2 * v.scale(),
    ;
    lemma_pow2_bounds(32);
    lemma_round_doubling(dx * v.scale(), pow2(32) as int);
    lemma_round_doubling(dy * v.scale(), pow2(32) as int);
}

/// After any keys followed by `r`, the zoom factor is 1 and the center is
/// the origin.
pub proof fn lemma_reset_restores(v: Viewport, keys: Seq<char>)
    ensures
        after_keys(v, keys.push('r')).zoom_exp == 0,
        after_keys(v, keys.push('r')).center == (Point { x: 0, y: 0 }),
{
    assert(keys.push('r').drop_last() =~= keys);
}

} // verus!
