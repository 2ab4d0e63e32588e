//! The framebuffer: a square RGB image held in the image crate's buffer.
use image::{Rgb, RgbImage};
use crate::viewport::MAX_DIM;
use vstd::prelude::*;

verus! {

/// A `width x height` RGB image; its samples are `screen_bytes`.
#[verifier::external_body]
pub struct ScreenBuf {
    buf: RgbImage,
}

/// The samples of the image, row by row, three bytes (red, green, blue) per
/// pixel: pixel `(x, y)` starts at `3 * (y * width + x)`.
pub uninterp spec fn screen_bytes(s: ScreenBuf) -> Seq<u8>;

/// The width of the image in pixels.
pub uninterp spec fn screen_width(s: ScreenBuf) -> nat;

/// The height of the image in pixels.
pub uninterp spec fn screen_height(s: ScreenBuf) -> nat;

/// The background byte: white.
pub const BACKGROUND: u8 = 255;

/// `b` with the pixel at flat index `p` painted black.
pub open spec fn paint(b: Seq<u8>, p: int) -> Seq<u8> {
    b.update(3 * p, 0).update(3 * p + 1, 0).update(3 * p + 2, 0)
}

/// `len` background bytes.
pub open spec fn blank(len: nat) -> Seq<u8> {
    Seq::new(len, |i: int| BACKGROUND)
}

impl ScreenBuf {
    /// The image is `dim x dim`.
    pub open spec fn wf(&self, dim: nat) -> bool {
        &&& screen_width(*self) == dim
        &&& screen_height(*self) == dim
        &&& screen_bytes(*self).len() == 3 * dim * dim
    }

    /// Relies on `ImageBuffer::new`: a `width x height` image of
    /// `3 * width * height` zero bytes; it panics only when that length
    /// overflows `usize`.
    #[verifier::external_body]
    fn zeroed(width: u32, height: u32) -> (r: ScreenBuf)
        requires
            3 * width * height <= usize::MAX,
        ensures
            screen_width(r) == width,
            screen_height(r) == height,
            screen_bytes(r) == Seq::new((3 * width * height) as nat, |i: int| 0u8),
    {
        ScreenBuf { buf: RgbImage::new(width, height) }
    }

    /// Relies on `ImageBuffer`'s `DerefMut` (the whole sample vector) and
    /// `slice::fill`: every sample becomes `value`.
    #[verifier::external_body]
    fn fill(&mut self, value: u8)
        ensures
            screen_width(*final(self)) == screen_width(*old(self)),
            screen_height(*final(self)) == screen_height(*old(self)),
            screen_bytes(*final(self)) == Seq::new(screen_bytes(*old(self)).len(), |i: int| value),
    {
        self.buf.fill(value)
    }

    /// Relies on `ImageBuffer::put_pixel`: the three samples of pixel `(x, y)`,
    /// from index `3 * (y * width + x)` on, become `r, g, b`; it panics
    /// outside the image.
    #[verifier::external_body]
    fn put_pixel(&mut self, x: u32, y: u32, r: u8, g: u8, b: u8)
        requires
            x < screen_width(*old(self)),
            y < screen_height(*old(self)),
        ensures
            screen_width(*final(self)) == screen_width(*old(self)),
            screen_height(*final(self)) == screen_height(*old(self)),
            screen_bytes(*final(self)) == ({
                let k = 3 * (y * screen_width(*old(self)) + x);
                screen_bytes(*old(self)).update(k, r).update(k + 1, g).update(k + 2, b)
            }),
    {
        self.buf.put_pixel(x, y, Rgb([r, g, b]))
    }

    /// Relies on `ImageBuffer::as_raw`: a copy of the sample vector.
    #[verifier::external_body]
    fn raw_bytes(&self) -> (r: Vec<u8>)
        ensures
            r@ == screen_bytes(*self),
    {
        self.buf.as_raw().clone()
    }

    /// A `dim x dim` image cleared to the background.
    pub fn new(dim: u32) -> (r: ScreenBuf)
        requires
            0 < dim <= MAX_DIM,
        ensures
            r.wf(dim as nat),
            screen_bytes(r) == blank((3 * dim * dim) as nat),
    {
        assert(3 * dim * dim <= 3 * 4096 * 4096) by (nonlinear_arith)
            requires
                dim <= 4096,
        ;
        let mut s = ScreenBuf::zeroed(dim, dim);
        s.fill(BACKGROUND);
        proof {
            assert(screen_bytes(s) =~= blank((3 * dim * dim) as nat));
        }
        s
    }

    /// Sets every pixel to the background.
    pub fn clear(&mut self)
        ensures
            screen_width(*final(self)) == screen_width(*old(self)),
            screen_height(*final(self)) == screen_height(*old(self)),
            screen_bytes(*final(self)) == blank(screen_bytes(*old(self)).len()),
    {
        self.fill(BACKGROUND);
        proof {
            assert(screen_bytes(*self) =~= blank(screen_bytes(*old(self)).len()));
        }
    }

    /// Paints pixel `(col, row)` black.
    pub fn set_black(&mut self, col: u32, row: u32)
        requires
            col < screen_width(*old(self)),
            row < screen_height(*old(self)),
            screen_bytes(*old(self)).len() == 3 * screen_width(*old(self)) * screen_height(*old(self)),
        ensures
            screen_width(*final(self)) == screen_width(*old(self)),
            screen_height(*final(self)) == screen_height(*old(self)),
            screen_bytes(*final(self)) == paint(screen_bytes(*old(self)), row * screen_width(*old(self)) + col),
            screen_bytes(*final(self)).len() == screen_bytes(*old(self)).len(),
    {
        let ghost w = screen_width(*self) as int;
        let ghost h = screen_height(*self) as int;
        assert(3 * (row * w + col) + 2 < 3 * w * h) by (nonlinear_arith)
            requires
                0 <= col < w,
                0 <= row < h,
        ;
        self.put_pixel(col, row, 0, 0, 0);
    }

    /// The samples, row by row, three bytes per pixel.
    pub fn bytes(&self) -> (r: Vec<u8>)
        ensures
            r@ == screen_bytes(*self),
    {
        self.raw_bytes()
    }
}

} // verus!
