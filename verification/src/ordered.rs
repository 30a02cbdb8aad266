//! Ordered (Bayer) dithering: every channel is thresholded independently
//! against a fixed 8x8 pattern indexed by the pixel coordinates modulo 8.
//! No error is propagated, and the caller-supplied color map is accepted
//! for interface uniformity but deliberately ignored: thresholding always
//! targets the bilevel palette. This asymmetry is part of the contract.

use crate::color_map::ColorMap;
use crate::grid::all_bilevel;
use crate::grid::pixel_base;
use crate::grid::DitherError;
use crate::grid::PixelGrid;
use vstd::arithmetic::div_mod::lemma_fundamental_div_mod_converse;
use vstd::arithmetic::div_mod::lemma_mod_multiples_vanish;
use vstd::prelude::*;

verus! {

/// The 8x8 Bayer threshold pattern, row-major with the first index the
/// x coordinate modulo 8: entry `(xm, ym)` sits at `xm * 8 + ym`. Each
/// input channel is scaled to 0..63 before being compared with it.
pub open spec fn bayer_matrix() -> Seq<u8> {
    seq![
        0u8, 32u8, 8u8, 40u8, 2u8, 34u8, 10u8, 42u8,
        48u8, 16u8, 56u8, 24u8, 50u8, 18u8, 58u8, 26u8,
        12u8, 44u8, 4u8, 36u8, 14u8, 46u8, 6u8, 38u8,
        60u8, 28u8, 52u8, 20u8, 62u8, 30u8, 54u8, 22u8,
        3u8, 35u8, 11u8, 43u8, 1u8, 33u8, 9u8, 41u8,
        51u8, 19u8, 59u8, 27u8, 49u8, 17u8, 57u8, 25u8,
        15u8, 47u8, 7u8, 39u8, 13u8, 45u8, 5u8, 37u8,
        63u8, 31u8, 55u8, 23u8, 61u8, 29u8, 53u8, 21u8,
    ]
}

/// One channel thresholded at pattern position `(xm, ym)`: the channel is
/// scaled to 0..63 by dropping its two low bits, and becomes 255 exactly
/// when the scaled value exceeds the pattern entry.
pub open spec fn bayer_chan(c: u8, xm: int, ym: int) -> u8 {
    if c / 4 > bayer_matrix()[xm * 8 + ym] {
        255u8
    } else {
        0u8
    }
}

/// A full Bayer pass over a flat grid: channel `i` belongs to pixel
/// `i / ch`, which sits at column `(i / ch) % w` and row `(i / ch) / w`.
pub open spec fn bayer_spec(g: Seq<u8>, w: int, ch: int) -> Seq<u8> {
    Seq::new(
        g.len(),
        |i: int| bayer_chan(g[i], ((i / ch) % w) % 8, ((i / ch) / w) % 8),
    )
}

/// The Bayer output channel of the pixel at `(x, y)`.
pub open spec fn bayer_value_at(g: Seq<u8>, w: int, ch: int, x: int, y: int, c: int) -> u8 {
    bayer_spec(g, w, ch)[pixel_base(w, ch, x, y) + c]
}

/// Builds the executable 8x8 Bayer pattern.
fn bayer_pattern() -> (pat: Vec<u8>)
    ensures
        pat@ == bayer_matrix(),
{
    let mut pat: Vec<u8> = Vec::new();
    pat.push(0);
    pat.push(32);
    pat.push(8);
    pat.push(40);
    pat.push(2);
    pat.push(34);
    pat.push(10);
    pat.push(42);
    pat.push(48);
    pat.push(16);
    pat.push(56);
    pat.push(24);
    pat.push(50);
    pat.push(18);
    pat.push(58);
    pat.push(26);
    pat.push(12);
    pat.push(44);
    pat.push(4);
    pat.push(36);
    pat.push(14);
    pat.push(46);
    pat.push(6);
    pat.push(38);
    pat.push(60);
    pat.push(28);
    pat.push(52);
    pat.push(20);
    pat.push(62);
    pat.push(30);
    pat.push(54);
    pat.push(22);
    pat.push(3);
    pat.push(35);
    pat.push(11);
    pat.push(43);
    pat.push(1);
    pat.push(33);
    pat.push(9);
    pat.push(41);
    pat.push(51);
    pat.push(19);
    pat.push(59);
    pat.push(27);
    pat.push(49);
    pat.push(17);
    pat.push(57);
    pat.push(25);
    pat.push(15);
    pat.push(47);
    pat.push(7);
    pat.push(39);
    pat.push(13);
    pat.push(45);
    pat.push(5);
    pat.push(37);
    pat.push(63);
    pat.push(31);
    pat.push(55);
    pat.push(23);
    pat.push(61);
    pat.push(29);
    pat.push(53);
    pat.push(21);
    proof {
        assert(pat@ =~= bayer_matrix());
    }
    pat
}

/// Dithers the grid in place against the fixed Bayer pattern. The supplied
/// color map is ignored by design. Fails exactly when the grid has zero
/// width or height, leaving it untouched.
pub fn dither_bayer<M: ColorMap>(grid: &mut PixelGrid, _color_map: &M) -> (result: Result<
    (),
    DitherError,
>)
    requires
        old(grid).wf(),
    ensures
        final(grid).wf(),
        final(grid).width == old(grid).width,
        final(grid).height == old(grid).height,
        final(grid).channels == old(grid).channels,
        old(grid).width >= 1 && old(grid).height >= 1 ==> result == Ok::<(), DitherError>(())
            && final(grid).data@ == bayer_spec(
            old(grid).data@,
            old(grid).width as int,
            old(grid).channels as int,
        ) && all_bilevel(final(grid).data@),
        old(grid).width == 0 || old(grid).height == 0 ==> result == Err::<(), DitherError>(
            DitherError::EmptyGrid,
        ) && final(grid).data@ == old(grid).data@,
{
    if grid.width == 0 || grid.height == 0 {
        return Err(DitherError::EmptyGrid);
    }
    let ghost g0 = old(grid).data@;
    let ghost w = old(grid).width as int;
    let ghost ch = old(grid).channels as int;
    let pat = bayer_pattern();
    let width = grid.width;
    let height = grid.height;
    let channels = grid.channels;
    proof {
        assert(width * height <= width * height * channels) by (nonlinear_arith)
            requires
                channels >= 1,
                width >= 1,
                height >= 1,
        ;
    }
    let n_px = width * height;
    let mut p: usize = 0;
    while p < n_px
        invariant
            p <= n_px,
            n_px == width * height,
            width == grid.width,
            height == grid.height,
            channels == grid.channels,
            grid.wf(),
            grid.width == old(grid).width,
            grid.height == old(grid).height,
            grid.channels == old(grid).channels,
            w == grid.width as int,
            ch == grid.channels as int,
            width >= 1,
            height >= 1,
            grid.data@.len() == g0.len(),
            pat@ == bayer_matrix(),
            forall|i: int| 0 <= i < p * ch ==> grid.data@[i] == bayer_spec(g0, w, ch)[i],
            forall|i: int| p * ch <= i < g0.len() ==> grid.data@[i] == g0[i],
        decreases n_px - p,
    {
        let xm = (p % width) % 8;
        let ym = (p / width) % 8;
        proof {
            assert(xm < 8 && ym < 8);
            assert(bayer_matrix().len() == 64);
            assert(pat@.len() == 64);
        }
        let t = pat[xm * 8 + ym];
        proof {
            assert((p * ch + channels) <= g0.len() && p * ch + channels <= (p + 1) * ch
                && p * ch >= 0) by (nonlinear_arith)
                requires
                    0 <= p < width * height,
                    ch == channels,
                    channels >= 1,
                    g0.len() == width * height * channels,
            ;
        }
        let mut c: usize = 0;
        while c < channels
            invariant
                c <= channels,
                p < n_px,
                n_px == width * height,
                width == grid.width,
                height == grid.height,
                channels == grid.channels,
                grid.wf(),
                grid.width == old(grid).width,
                grid.height == old(grid).height,
                grid.channels == old(grid).channels,
                w == grid.width as int,
                ch == grid.channels as int,
                width >= 1,
                height >= 1,
                grid.data@.len() == g0.len(),
                p * ch + channels <= g0.len(),
                xm == ((p as int) % w) % 8,
                ym == ((p as int) / w) % 8,
                t == bayer_matrix()[xm as int * 8 + ym as int],
                forall|i: int| 0 <= i < p * ch ==> grid.data@[i] == bayer_spec(g0, w, ch)[i],
                forall|i: int|
                    p * ch <= i < p * ch + c ==> grid.data@[i] == bayer_chan(
                        g0[i],
                        xm as int,
                        ym as int,
                    ),
                forall|i: int| p * ch + c <= i < g0.len() ==> grid.data@[i] == g0[i],
            decreases channels - c,
        {
            let idx = p * channels + c;
            let v = grid.data[idx];
            let scaled = v >> 2u8;
            proof {
                assert(v >> 2u8 == v / 4) by (bit_vector);
            }
            let nv: u8 = if scaled > t {
                255
            } else {
                0
            };
            grid.data.set(idx, nv);
            c = c + 1;
        }
        proof {
            assert((p + 1) * ch == p * ch + ch) by (nonlinear_arith);
            assert forall|i: int| p * ch <= i < (p + 1) * ch implies grid.data@[i] == bayer_spec(
                g0,
                w,
                ch,
            )[i] by {
                lemma_fundamental_div_mod_converse(i, ch, p as int, i - p * ch);
                assert(i / ch == p as int);
            }
            assert forall|i: int| 0 <= i < (p + 1) * ch implies grid.data@[i] == bayer_spec(
                g0,
                w,
                ch,
            )[i] by {
            }
        }
        p = p + 1;
    }
    proof {
        assert(n_px * ch == g0.len()) by (nonlinear_arith)
            requires
                n_px == width * height,
                ch == channels,
                g0.len() == width * height * channels,
        ;
        assert(grid.data@ =~= bayer_spec(g0, w, ch));
        assert forall|i: int| 0 <= i < grid.data@.len() implies grid.data@[i] == 0
            || grid.data@[i] == 255 by {
            assert(grid.data@[i] == bayer_spec(g0, w, ch)[i]);
        }
    }
    Ok(())
}

/// Determinism: a Bayer pass is a mathematical function of the input grid
/// alone, so identical inputs give byte-identical output on every run.
pub proof fn lemma_bayer_deterministic(g1: Seq<u8>, g2: Seq<u8>, w: int, ch: int)
    requires
        g1 == g2,
    ensures
        bayer_spec(g1, w, ch) == bayer_spec(g2, w, ch),
{
}

/// For a grid of one constant tone, the Bayer output is periodic with
/// period 8 in both axes: the decision at `(x, y)` depends only on the
/// channel value and on `(x % 8, y % 8)`.
pub proof fn lemma_bayer_periodic(
    g: Seq<u8>,
    w: int,
    h: int,
    ch: int,
    v: u8,
    x: int,
    y: int,
    c: int,
)
    requires
        w >= 1,
        h >= 1,
        ch >= 1,
        g.len() == w * h * ch,
        forall|i: int| 0 <= i < g.len() ==> g[i] == v,
        0 <= x,
        0 <= y,
        0 <= c < ch,
        x + 8 < w,
        y + 8 < h,
    ensures
        bayer_value_at(g, w, ch, x + 8, y, c) == bayer_value_at(g, w, ch, x, y, c),
        bayer_value_at(g, w, ch, x, y + 8, c) == bayer_value_at(g, w, ch, x, y, c),
{
    crate::grid::lemma_pixel_base_bounds(w, h, ch, x, y);
    crate::grid::lemma_pixel_base_bounds(w, h, ch, x + 8, y);
    crate::grid::lemma_pixel_base_bounds(w, h, ch, x, y + 8);
    let i0 = pixel_base(w, ch, x, y) + c;
    let i1 = pixel_base(w, ch, x + 8, y) + c;
    let i2 = pixel_base(w, ch, x, y + 8) + c;
    lemma_fundamental_div_mod_converse(i0, ch, y * w + x, c);
    lemma_fundamental_div_mod_converse(i1, ch, y * w + (x + 8), c);
    lemma_fundamental_div_mod_converse(i2, ch, (y + 8) * w + x, c);
    crate::grid::lemma_raster_index(x, y, w);
    crate::grid::lemma_raster_index(x + 8, y, w);
    crate::grid::lemma_raster_index(x, y + 8, w);
    lemma_mod_multiples_vanish(1, x, 8);
    lemma_mod_multiples_vanish(1, y, 8);
    assert(g[i0] == v && g[i1] == v && g[i2] == v);
}

} // verus!
