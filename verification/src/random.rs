//! Stochastic threshold dithering: every pixel independently draws one
//! uniform random byte and thresholds each of its channels against it. The
//! caller-supplied color map is accepted for interface uniformity but
//! deliberately ignored. Two calls on identical input are free to differ;
//! the contract states only what holds of every outcome: the shape is kept
//! and the result is some per-pixel thresholding by a sequence of bytes.

use crate::color_map::ColorMap;
use crate::grid::all_bilevel;
use crate::grid::DitherError;
use crate::grid::PixelGrid;
use vstd::arithmetic::div_mod::lemma_fundamental_div_mod_converse;
use vstd::arithmetic::div_mod::lemma_multiply_divide_lt;
use vstd::prelude::*;

verus! {

/// Relies on rand::random: one byte drawn uniformly at random. Nothing can
/// be promised of its value.
#[verifier::external_body]
fn random_byte() -> u8 {
    rand::random()
}

/// One channel thresholded against the dither byte `r`: the channel becomes
/// 255 exactly when `channel + (r - 127)` exceeds 127.
pub open spec fn random_threshold_chan(c: u8, r: u8) -> u8 {
    if c + r - 127 > 127 {
        255u8
    } else {
        0u8
    }
}

/// A full stochastic pass over a flat grid, given the byte `rs[p]` drawn
/// for pixel `p`: channel `i` belongs to pixel `i / ch`.
pub open spec fn random_threshold_spec(g: Seq<u8>, ch: int, rs: Seq<u8>) -> Seq<u8> {
    Seq::new(g.len(), |i: int| random_threshold_chan(g[i], rs[i / ch]))
}

/// Thresholds every channel of one pixel against the dither byte `r`.
pub fn random_threshold_pixel(pixel: &mut Vec<u8>, r: u8)
    ensures
        final(pixel)@.len() == old(pixel)@.len(),
        forall|k: int|
            0 <= k < old(pixel)@.len() ==> final(pixel)@[k] == random_threshold_chan(
                old(pixel)@[k],
                r,
            ),
{
    let n = pixel.len();
    let mut i: usize = 0;
    while i < n
        invariant
            n == old(pixel)@.len(),
            pixel@.len() == n,
            i <= n,
            forall|k: int| 0 <= k < i ==> pixel@[k] == random_threshold_chan(old(pixel)@[k], r),
            forall|k: int| i <= k < n ==> pixel@[k] == old(pixel)@[k],
        decreases n - i,
    {
        let v: i32 = pixel[i] as i32 + r as i32 - 127;
        let nv: u8 = if v > 127 {
            255
        } else {
            0
        };
        pixel.set(i, nv);
        i = i + 1;
    }
}

/// Dithers the grid in place by drawing one random byte per pixel and
/// thresholding each channel against it. The supplied color map is ignored
/// by design. Fails exactly when the grid has zero width or height, leaving
/// it untouched. Whatever bytes were drawn, the result is bilevel and equals
/// the per-pixel thresholding of the input by some sequence of bytes.
pub fn dither_random_threshold<M: ColorMap>(grid: &mut PixelGrid, _color_map: &M) -> (result:
    Result<(), DitherError>)
    requires
        old(grid).wf(),
    ensures
        final(grid).wf(),
        final(grid).width == old(grid).width,
        final(grid).height == old(grid).height,
        final(grid).channels == old(grid).channels,
        old(grid).width >= 1 && old(grid).height >= 1 ==> result == Ok::<(), DitherError>(())
            && all_bilevel(final(grid).data@) && (exists|rs: Seq<u8>|
            rs.len() == old(grid).width * old(grid).height && final(grid).data@
                == random_threshold_spec(old(grid).data@, old(grid).channels as int, rs)),
        old(grid).width == 0 || old(grid).height == 0 ==> result == Err::<(), DitherError>(
            DitherError::EmptyGrid,
        ) && final(grid).data@ == old(grid).data@,
{
    if grid.width == 0 || grid.height == 0 {
        return Err(DitherError::EmptyGrid);
    }
    let ghost g0 = old(grid).data@;
    let ghost ch = old(grid).channels as int;
    let width = grid.width;
    let height = grid.height;
    let channels = grid.channels;
    proof {
        assert(width * height <= width * height * channels) by (nonlinear_arith)
            requires
                channels >= 1,
                width >= 1,
                height >= 1,
        ;
    }
    let n_px = width * height;
    let ghost mut rs: Seq<u8> = Seq::empty();
    let mut p: usize = 0;
    while p < n_px
        invariant
            p <= n_px,
            n_px == width * height,
            width == grid.width,
            height == grid.height,
            channels == grid.channels,
            grid.wf(),
            grid.width == old(grid).width,
            grid.height == old(grid).height,
            grid.channels == old(grid).channels,
            ch == grid.channels as int,
            grid.data@.len() == g0.len(),
            rs.len() == p,
            forall|i: int|
                0 <= i < p * ch ==> grid.data@[i] == random_threshold_chan(g0[i], rs[i / ch]),
            forall|i: int| p * ch <= i < g0.len() ==> grid.data@[i] == g0[i],
        decreases n_px - p,
    {
        let r = random_byte();
        proof {
            assert((p * ch + channels) <= g0.len() && p * ch + channels == (p + 1) * ch && p * ch
                >= 0) by (nonlinear_arith)
                requires
                    0 <= p < width * height,
                    ch == channels,
                    channels >= 1,
                    g0.len() == width * height * channels,
            ;
        }
        let mut c: usize = 0;
        while c < channels
            invariant
                c <= channels,
                p < n_px,
                n_px == width * height,
                width == grid.width,
                height == grid.height,
                channels == grid.channels,
                grid.wf(),
                grid.width == old(grid).width,
                grid.height == old(grid).height,
                grid.channels == old(grid).channels,
                ch == grid.channels as int,
                grid.data@.len() == g0.len(),
                p * ch + channels <= g0.len(),
                rs.len() == p,
                forall|i: int|
                    0 <= i < p * ch ==> grid.data@[i] == random_threshold_chan(g0[i], rs[i / ch]),
                forall|i: int|
                    p * ch <= i < p * ch + c ==> grid.data@[i] == random_threshold_chan(g0[i], r),
                forall|i: int| p * ch + c <= i < g0.len() ==> grid.data@[i] == g0[i],
            decreases channels - c,
        {
            let idx = p * channels + c;
            let v: i32 = grid.data[idx] as i32 + r as i32 - 127;
            let nv: u8 = if v > 127 {
                255
            } else {
                0
            };
            grid.data.set(idx, nv);
            c = c + 1;
        }
        proof {
            rs = rs.push(r);
            assert forall|i: int| 0 <= i < (p + 1) * ch implies grid.data@[i]
                == random_threshold_chan(g0[i], rs[i / ch]) by {
                assert((p + 1) * ch == p * ch + ch);
                if i < p * ch {
                    lemma_multiply_divide_lt(i, ch, p as int);
                    assert(0 <= i / ch < p) by {
                        vstd::arithmetic::div_mod::lemma_div_basics_4(i, ch);
                    }
                } else {
                    lemma_fundamental_div_mod_converse(i, ch, p as int, i - p * ch);
                    assert(i / ch == p as int);
                    assert(rs[p as int] == r);
                }
            }
        }
        p = p + 1;
    }
    proof {
        assert(n_px * ch == g0.len()) by (nonlinear_arith)
            requires
                n_px == width * height,
                ch == channels,
                g0.len() == width * height * channels,
        ;
        assert(grid.data@ =~= random_threshold_spec(g0, ch, rs));
        assert forall|i: int| 0 <= i < grid.data@.len() implies grid.data@[i] == 0
            || grid.data@[i] == 255 by {
            assert(grid.data@[i] == random_threshold_spec(g0, ch, rs)[i]);
        }
        assert(rs.len() == old(grid).width * old(grid).height);
    }
    Ok(())
}

} // verus!
