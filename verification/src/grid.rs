//! The pixel grid that every dithering pass mutates in place: a row-major
//! two-dimensional array of pixels, each pixel a fixed number of 8-bit
//! channels.

use vstd::arithmetic::div_mod::lemma_fundamental_div_mod_converse;
use vstd::prelude::*;

verus! {

/// Error raised when a grid cannot be built or a pass cannot run.
#[derive(Clone, Copy, Debug, PartialEq, Eq, Structural)]
pub enum DitherError {
    /// The grid has zero width or zero height; neighbor-offset arithmetic
    /// needs at least one pixel in each axis.
    EmptyGrid,
    /// A pixel must have at least one channel.
    ZeroChannels,
    /// The requested dimensions do not fit in memory (`width * height *
    /// channels` overflows `usize`).
    TooLarge,
}

/// A mutable 2D grid of pixels, `width x height`, row-major, with
/// `channels` bytes per pixel. The flat byte index of channel `c` of the
/// pixel at `(x, y)` is `(y * width + x) * channels + c`.
pub struct PixelGrid {
    pub width: usize,
    pub height: usize,
    pub channels: usize,
    pub data: Vec<u8>,
}

/// Flat index of the first channel of the pixel at `(x, y)`.
pub open spec fn pixel_base(w: int, ch: int, x: int, y: int) -> int {
    (y * w + x) * ch
}

/// The channel values of the pixel at `(x, y)` in a flat grid `g`.
pub open spec fn pixel_at(g: Seq<u8>, w: int, ch: int, x: int, y: int) -> Seq<u8> {
    g.subrange(pixel_base(w, ch, x, y), pixel_base(w, ch, x, y) + ch)
}

/// Every channel of every pixel is exactly 0 or 255.
pub open spec fn all_bilevel(g: Seq<u8>) -> bool {
    forall|i: int| 0 <= i < g.len() ==> g[i] == 0 || g[i] == 255
}

/// A pixel base together with its channels stays inside the grid's data.
pub proof fn lemma_pixel_base_bounds(w: int, h: int, ch: int, x: int, y: int)
    requires
        0 <= x < w,
        0 <= y < h,
        ch >= 1,
    ensures
        0 <= y * w,
        y * w + x <= (y * w + x) * ch,
        (y * w + x) * ch + ch <= w * h * ch,
        y * w + x < w * h,
{
    assert(0 <= y * w && y * w + x <= (y * w + x) * ch && (y * w + x) * ch + ch <= w * h * ch && y
        * w + x < w * h)
        by (nonlinear_arith)
        requires
            0 <= x < w,
            0 <= y < h,
            ch >= 1,
    ;
}

/// A raster position `n = y * w + x` with `x < w` decomposes uniquely.
pub proof fn lemma_raster_index(x: int, y: int, w: int)
    requires
        0 <= x < w,
        0 <= y,
    ensures
        (y * w + x) % w == x,
        (y * w + x) / w == y,
{
    lemma_fundamental_div_mod_converse(y * w + x, w, y, x);
}

impl PixelGrid {
    /// The structural invariant: at least one channel per pixel and a data
    /// buffer of exactly `width * height * channels` bytes.
    pub open spec fn wf(&self) -> bool {
        &&& self.channels >= 1
        &&& self.data.len() == self.width * self.height * self.channels
    }

    /// Builds a grid with every channel of every pixel set to `fill`.
    /// Succeeds exactly when `channels` is positive and the byte count
    /// fits in `usize`.
    pub fn new(width: usize, height: usize, channels: usize, fill: u8) -> (result: Result<
        PixelGrid,
        DitherError,
    >)
        ensures
            result is Ok <==> (channels >= 1 && width * height * channels <= usize::MAX),
            match result {
                Ok(g) => {
                    &&& g.wf()
                    &&& g.width == width
                    &&& g.height == height
                    &&& g.channels == channels
                    &&& forall|i: int| 0 <= i < g.data@.len() ==> g.data@[i] == fill
                },
                Err(e) => {
                    &&& (e == DitherError::ZeroChannels || e == DitherError::TooLarge)
                    &&& (e == DitherError::ZeroChannels <==> channels == 0)
                },
            },
    {
        if channels == 0 {
            return Err(DitherError::ZeroChannels);
        }
        proof {
            assert(width * height <= width * height * channels) by (nonlinear_arith)
                requires
                    channels >= 1,
            ;
        }
        let pixels = match width.checked_mul(height) {
            Some(p) => p,
            None => {
                return Err(DitherError::TooLarge);
            },
        };
        let len = match pixels.checked_mul(channels) {
            Some(l) => l,
            None => {
                return Err(DitherError::TooLarge);
            },
        };
        let mut data: Vec<u8> = Vec::new();
        let mut i: usize = 0;
        while i < len
            invariant
                i <= len,
                data@.len() == i,
                forall|k: int| 0 <= k < i ==> data@[k] == fill,
            decreases len - i,
        {
            data.push(fill);
            i = i + 1;
        }
        Ok(PixelGrid { width, height, channels, data })
    }

    /// Reads channel `c` of the pixel at `(x, y)`.
    pub fn get(&self, x: usize, y: usize, c: usize) -> (v: u8)
        requires
            self.wf(),
            x < self.width,
            y < self.height,
            c < self.channels,
        ensures
            v == self.data@[pixel_base(
                self.width as int,
                self.channels as int,
                x as int,
                y as int,
            ) + c],
    {
        proof {
            lemma_pixel_base_bounds(
                self.width as int,
                self.height as int,
                self.channels as int,
                x as int,
                y as int,
            );
        }
        let idx = (y * self.width + x) * self.channels + c;
        self.data[idx]
    }

    /// Writes channel `c` of the pixel at `(x, y)`.
    pub fn set(&mut self, x: usize, y: usize, c: usize, v: u8)
        requires
            old(self).wf(),
            x < old(self).width,
            y < old(self).height,
            c < old(self).channels,
        ensures
            final(self).wf(),
            final(self).width == old(self).width,
            final(self).height == old(self).height,
            final(self).channels == old(self).channels,
            final(self).data@ == old(self).data@.update(
                pixel_base(old(self).width as int, old(self).channels as int, x as int, y as int)
                    + c,
                v,
            ),
    {
        proof {
            lemma_pixel_base_bounds(
                self.width as int,
                self.height as int,
                self.channels as int,
                x as int,
                y as int,
            );
        }
        let idx = (y * self.width + x) * self.channels + c;
        self.data.set(idx, v);
    }
}

} // verus!
