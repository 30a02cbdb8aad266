//! The error-diffusion engine shared by Floyd–Steinberg, Atkinson and
//! Sierra-Lite: a single row-major raster pass that quantizes each pixel
//! through the color map, scales the quantization residual by the kernel's
//! divisor (integer division truncating toward zero), and adds the weighted
//! residual to the not-yet-visited neighbors of the kernel, saturating each
//! channel at 0 and 255. Neighbors outside the grid are skipped silently.

use crate::color_map::ColorMap;
use crate::grid::all_bilevel;
use crate::grid::lemma_pixel_base_bounds;
use crate::grid::lemma_raster_index;
use crate::grid::pixel_at;
use crate::grid::pixel_base;
use crate::grid::DitherError;
use crate::grid::PixelGrid;
use vstd::arithmetic::div_mod::lemma_div_basics_4;
use vstd::arithmetic::div_mod::lemma_div_nonincreasing;
use vstd::prelude::*;

verus! {

/// One entry of a diffusion kernel: the neighbor at offset `(dx, dy)` from
/// the current pixel receives `weight` times the scaled residual.
#[derive(Clone, Copy)]
pub struct Tap {
    pub dx: i32,
    pub dy: i32,
    pub weight: i32,
}

/// Saturates an integer into the byte range.
pub open spec fn clamp_byte(v: int) -> u8 {
    if v < 0 {
        0u8
    } else if v > 255 {
        255u8
    } else {
        v as u8
    }
}

/// Integer division truncating toward zero, the residual scaling rule of
/// every diffusion kernel (`-255 / 8` is `-31`, not `-32`).
pub open spec fn tdiv(a: int, d: int) -> int {
    if a >= 0 {
        a / d
    } else {
        -((-a) / d)
    }
}

/// The mathematical values of an executable error vector.
pub open spec fn err_ints(s: Seq<i32>) -> Seq<int> {
    s.map_values(|v: i32| v as int)
}

/// Overwrites `vals.len()` bytes of `g` starting at `base`.
pub open spec fn write_channels(g: Seq<u8>, base: int, vals: Seq<u8>) -> Seq<u8> {
    Seq::new(g.len(), |i: int| if base <= i < base + vals.len() {
        vals[i - base]
    } else {
        g[i]
    })
}

/// Adds `err[c] * weight` to the `err.len()` bytes starting at `base`,
/// saturating each at 0 and 255.
pub open spec fn diffuse_channels(g: Seq<u8>, base: int, err: Seq<int>, weight: int) -> Seq<u8> {
    Seq::new(g.len(), |i: int| if base <= i < base + err.len() {
        clamp_byte(g[i] + err[i - base] * weight)
    } else {
        g[i]
    })
}

/// Whether the neighbor addressed by `t` from `(x, y)` lies inside the grid.
pub open spec fn tap_in_bounds(w: int, h: int, x: int, y: int, t: Tap) -> bool {
    &&& 0 <= x + t.dx < w
    &&& 0 <= y + t.dy < h
}

/// One kernel entry applied at `(x, y)`: diffuses into the neighbor when it
/// is in bounds and does nothing otherwise.
pub open spec fn apply_tap(
    g: Seq<u8>,
    w: int,
    h: int,
    ch: int,
    x: int,
    y: int,
    err: Seq<int>,
    t: Tap,
) -> Seq<u8> {
    if tap_in_bounds(w, h, x, y, t) {
        diffuse_channels(g, pixel_base(w, ch, x + t.dx, y + t.dy), err, t.weight as int)
    } else {
        g
    }
}

/// The kernel entries applied at `(x, y)`, in order.
pub open spec fn apply_taps(
    g: Seq<u8>,
    w: int,
    h: int,
    ch: int,
    x: int,
    y: int,
    err: Seq<int>,
    taps: Seq<Tap>,
) -> Seq<u8>
    decreases taps.len(),
{
    if taps.len() == 0 {
        g
    } else {
        apply_taps(
            apply_tap(g, w, h, ch, x, y, err, taps[0]),
            w,
            h,
            ch,
            x,
            y,
            err,
            taps.drop_first(),
        )
    }
}

/// The scaled quantization residual of one pixel: per channel, the old value
/// minus the quantized value, divided (truncating toward zero) by `div`.
pub open spec fn pixel_error(old_p: Seq<u8>, new_p: Seq<u8>, div: int) -> Seq<int> {
    Seq::new(old_p.len(), |c: int| tdiv(old_p[c] - new_p[c], div))
}

/// One full per-pixel step at `(x, y)`: quantize through the map, then
/// diffuse the scaled residual through the kernel.
pub open spec fn dither_pixel_spec<M: ColorMap>(
    g: Seq<u8>,
    m: &M,
    w: int,
    h: int,
    ch: int,
    x: int,
    y: int,
    taps: Seq<Tap>,
    div: int,
) -> Seq<u8> {
    let old_p = pixel_at(g, w, ch, x, y);
    let new_p = m.map_spec(old_p);
    let written = write_channels(g, pixel_base(w, ch, x, y), new_p);
    apply_taps(written, w, h, ch, x, y, pixel_error(old_p, new_p, div), taps)
}

/// The grid after the first `n` pixels of the raster scan have been
/// processed (pixel `k` sits at `(k % w, k / w)`).
pub open spec fn dither_prefix_spec<M: ColorMap>(
    g: Seq<u8>,
    m: &M,
    w: int,
    h: int,
    ch: int,
    taps: Seq<Tap>,
    div: int,
    n: nat,
) -> Seq<u8>
    decreases n,
{
    if n == 0 {
        g
    } else {
        let prev = dither_prefix_spec(g, m, w, h, ch, taps, div, (n - 1) as nat);
        dither_pixel_spec(prev, m, w, h, ch, (n - 1) as int % w, (n - 1) as int / w, taps, div)
    }
}

/// The grid after one complete raster pass of error diffusion.
pub open spec fn dither_pass_spec<M: ColorMap>(
    g: Seq<u8>,
    m: &M,
    w: int,
    h: int,
    ch: int,
    taps: Seq<Tap>,
    div: int,
) -> Seq<u8> {
    dither_prefix_spec(g, m, w, h, ch, taps, div, (w * h) as nat)
}

/// Bounds under which the engine's neighbor and residual arithmetic cannot
/// overflow; every shipped kernel satisfies them.
pub open spec fn taps_ok(taps: Seq<Tap>) -> bool {
    forall|j: int|
        0 <= j < taps.len() ==> {
            &&& -8 <= (#[trigger] taps[j]).dx <= 8
            &&& 0 <= taps[j].dy <= 8
            &&& 0 <= taps[j].weight <= 16
        }
}

/// Every entry points at a pixel visited strictly later in the raster scan:
/// a row below, or further right in the same row.
pub open spec fn causal_taps(taps: Seq<Tap>) -> bool {
    forall|j: int|
        0 <= j < taps.len() ==> ((#[trigger] taps[j]).dy > 0 || (taps[j].dy == 0 && taps[j].dx
            > 0))
}

/// The total weight a kernel distributes.
pub open spec fn taps_weight_sum(taps: Seq<Tap>) -> int
    decreases taps.len(),
{
    if taps.len() == 0 {
        0
    } else {
        taps[0].weight + taps_weight_sum(taps.drop_first())
    }
}

/// Saturates a signed channel sum into a byte.
fn clamp_channel(v: i32) -> (r: u8)
    ensures
        r == clamp_byte(v as int),
{
    if v < 0 {
        0
    } else if v > 255 {
        255
    } else {
        v as u8
    }
}

/// Divides a residual by the kernel divisor, truncating toward zero.
fn scale_residual(a: i32, d: u32) -> (q: i32)
    requires
        1 <= d,
        -255 <= a <= 255,
    ensures
        q == tdiv(a as int, d as int),
        -255 <= q <= 255,
{
    if a >= 0 {
        let m: u32 = (a as u32) / d;
        proof {
            lemma_div_nonincreasing(a as int, d as int);
            lemma_div_basics_4(a as int, d as int);
        }
        m as i32
    } else {
        let n: u32 = ((-a) as u32) / d;
        proof {
            lemma_div_nonincreasing(-a as int, d as int);
            lemma_div_basics_4(-a as int, d as int);
        }
        -(n as i32)
    }
}

/// Appending a kernel entry applies it after the earlier ones.
proof fn lemma_apply_taps_snoc(
    g: Seq<u8>,
    w: int,
    h: int,
    ch: int,
    x: int,
    y: int,
    err: Seq<int>,
    taps: Seq<Tap>,
    t: Tap,
)
    ensures
        apply_taps(g, w, h, ch, x, y, err, taps.push(t)) == apply_tap(
            apply_taps(g, w, h, ch, x, y, err, taps),
            w,
            h,
            ch,
            x,
            y,
            err,
            t,
        ),
    decreases taps.len(),
{
    assert(apply_taps(g, w, h, ch, x, y, err, taps.push(t)) == apply_taps(
        apply_tap(g, w, h, ch, x, y, err, taps.push(t)[0]),
        w,
        h,
        ch,
        x,
        y,
        err,
        taps.push(t).drop_first(),
    ));
    if taps.len() == 0 {
        assert(taps.push(t).drop_first() =~= Seq::<Tap>::empty());
        assert(taps.push(t)[0] == t);
    } else {
        assert(taps.push(t)[0] == taps[0]);
        assert(taps.push(t).drop_first() =~= taps.drop_first().push(t));
        lemma_apply_taps_snoc(
            apply_tap(g, w, h, ch, x, y, err, taps[0]),
            w,
            h,
            ch,
            x,
            y,
            err,
            taps.drop_first(),
            t,
        );
    }
}

/// Reads the channel values of the pixel at `(x, y)`.
fn read_pixel(grid: &PixelGrid, x: usize, y: usize) -> (px: Vec<u8>)
    requires
        grid.wf(),
        x < grid.width,
        y < grid.height,
    ensures
        px@ == pixel_at(
            grid.data@,
            grid.width as int,
            grid.channels as int,
            x as int,
            y as int,
        ),
        px@.len() == grid.channels,
{
    proof {
        lemma_pixel_base_bounds(
            grid.width as int,
            grid.height as int,
            grid.channels as int,
            x as int,
            y as int,
        );
    }
    let base = (y * grid.width + x) * grid.channels;
    let mut px: Vec<u8> = Vec::new();
    let mut c: usize = 0;
    while c < grid.channels
        invariant
            grid.wf(),
            x < grid.width,
            y < grid.height,
            base == pixel_base(grid.width as int, grid.channels as int, x as int, y as int),
            base + grid.channels <= grid.data@.len(),
            c <= grid.channels,
            px@.len() == c,
            forall|k: int| 0 <= k < c ==> px@[k] == grid.data@[base + k],
        decreases grid.channels - c,
    {
        px.push(grid.data[base + c]);
        c = c + 1;
    }
    proof {
        assert(px@ =~= pixel_at(
            grid.data@,
            grid.width as int,
            grid.channels as int,
            x as int,
            y as int,
        ));
    }
    px
}

/// Overwrites the pixel at `(x, y)` with the given channel values.
fn write_pixel(grid: &mut PixelGrid, x: usize, y: usize, px: &Vec<u8>)
    requires
        old(grid).wf(),
        x < old(grid).width,
        y < old(grid).height,
        px@.len() == old(grid).channels,
    ensures
        final(grid).wf(),
        final(grid).width == old(grid).width,
        final(grid).height == old(grid).height,
        final(grid).channels == old(grid).channels,
        final(grid).data@ == write_channels(
            old(grid).data@,
            pixel_base(old(grid).width as int, old(grid).channels as int, x as int, y as int),
            px@,
        ),
{
    proof {
        lemma_pixel_base_bounds(
            old(grid).width as int,
            old(grid).height as int,
            old(grid).channels as int,
            x as int,
            y as int,
        );
    }
    let base = (y * grid.width + x) * grid.channels;
    let mut c: usize = 0;
    while c < grid.channels
        invariant
            grid.wf(),
            grid.width == old(grid).width,
            grid.height == old(grid).height,
            grid.channels == old(grid).channels,
            px@.len() == grid.channels,
            base == pixel_base(grid.width as int, grid.channels as int, x as int, y as int),
            base + grid.channels <= grid.data@.len(),
            c <= grid.channels,
            grid.data@.len() == old(grid).data@.len(),
            forall|i: int| 0 <= i < base ==> grid.data@[i] == old(grid).data@[i],
            forall|k: int| 0 <= k < c ==> grid.data@[base + k] == px@[k],
            forall|i: int| base + c <= i < grid.data@.len() ==> grid.data@[i] == old(grid).data@[i],
        decreases grid.channels - c,
    {
        grid.data.set(base + c, px[c]);
        c = c + 1;
    }
    proof {
        assert(grid.data@ =~= write_channels(
            old(grid).data@,
            pixel_base(old(grid).width as int, old(grid).channels as int, x as int, y as int),
            px@,
        ));
    }
}

/// Adds the weighted residual into the pixel at `(nx, ny)`, saturating each
/// channel.
fn diffuse_into(grid: &mut PixelGrid, nx: usize, ny: usize, err: &Vec<i32>, weight: i32)
    requires
        old(grid).wf(),
        nx < old(grid).width,
        ny < old(grid).height,
        err@.len() == old(grid).channels,
        forall|k: int| 0 <= k < err@.len() ==> -255 <= #[trigger] err@[k] <= 255,
        0 <= weight <= 16,
    ensures
        final(grid).wf(),
        final(grid).width == old(grid).width,
        final(grid).height == old(grid).height,
        final(grid).channels == old(grid).channels,
        final(grid).data@ == diffuse_channels(
            old(grid).data@,
            pixel_base(old(grid).width as int, old(grid).channels as int, nx as int, ny as int),
            err_ints(err@),
            weight as int,
        ),
{
    proof {
        lemma_pixel_base_bounds(
            old(grid).width as int,
            old(grid).height as int,
            old(grid).channels as int,
            nx as int,
            ny as int,
        );
    }
    let base = (ny * grid.width + nx) * grid.channels;
    let mut c: usize = 0;
    while c < grid.channels
        invariant
            grid.wf(),
            grid.width == old(grid).width,
            grid.height == old(grid).height,
            grid.channels == old(grid).channels,
            err@.len() == grid.channels,
            forall|k: int| 0 <= k < err@.len() ==> -255 <= #[trigger] err@[k] <= 255,
            0 <= weight <= 16,
            base == pixel_base(grid.width as int, grid.channels as int, nx as int, ny as int),
            base + grid.channels <= grid.data@.len(),
            c <= grid.channels,
            grid.data@.len() == old(grid).data@.len(),
            forall|i: int| 0 <= i < base ==> grid.data@[i] == old(grid).data@[i],
            forall|k: int|
                0 <= k < c ==> grid.data@[base + k] == clamp_byte(
                    old(grid).data@[base + k] + err_ints(err@)[k] * weight,
                ),
            forall|i: int| base + c <= i < grid.data@.len() ==> grid.data@[i] == old(grid).data@[i],
        decreases grid.channels - c,
    {
        let e = err[c];
        proof {
            assert(-4080 <= e * weight <= 4080) by (nonlinear_arith)
                requires
                    -255 <= e <= 255,
                    0 <= weight <= 16,
            ;
        }
        let v: i32 = grid.data[base + c] as i32 + e * weight;
        let clamped = clamp_channel(v);
        grid.data.set(base + c, clamped);
        c = c + 1;
    }
    proof {
        assert(grid.data@ =~= diffuse_channels(
            old(grid).data@,
            pixel_base(old(grid).width as int, old(grid).channels as int, nx as int, ny as int),
            err_ints(err@),
            weight as int,
        ));
    }
}

/// Applying a kernel never changes the length of the grid.
proof fn lemma_apply_taps_len(
    g: Seq<u8>,
    w: int,
    h: int,
    ch: int,
    x: int,
    y: int,
    err: Seq<int>,
    taps: Seq<Tap>,
)
    ensures
        apply_taps(g, w, h, ch, x, y, err, taps).len() == g.len(),
    decreases taps.len(),
{
    if taps.len() > 0 {
        lemma_apply_taps_len(
            apply_tap(g, w, h, ch, x, y, err, taps[0]),
            w,
            h,
            ch,
            x,
            y,
            err,
            taps.drop_first(),
        );
    }
}

/// A raster prefix never changes the length of the grid.
proof fn lemma_prefix_len<M: ColorMap>(
    g: Seq<u8>,
    m: &M,
    w: int,
    h: int,
    ch: int,
    taps: Seq<Tap>,
    div: int,
    n: nat,
)
    ensures
        dither_prefix_spec(g, m, w, h, ch, taps, div, n).len() == g.len(),
    decreases n,
{
    if n > 0 {
        lemma_prefix_len(g, m, w, h, ch, taps, div, (n - 1) as nat);
        let prev = dither_prefix_spec(g, m, w, h, ch, taps, div, (n - 1) as nat);
        let x = (n - 1) as int % w;
        let y = (n - 1) as int / w;
        let old_p = pixel_at(prev, w, ch, x, y);
        let new_p = m.map_spec(old_p);
        lemma_apply_taps_len(
            write_channels(prev, pixel_base(w, ch, x, y), new_p),
            w,
            h,
            ch,
            x,
            y,
            pixel_error(old_p, new_p, div),
            taps,
        );
    }
}

/// A causal kernel applied at `(x, y)` leaves every byte of every pixel up
/// to and including `(x, y)` untouched.
proof fn lemma_apply_taps_frame(
    g: Seq<u8>,
    w: int,
    h: int,
    ch: int,
    x: int,
    y: int,
    err: Seq<int>,
    taps: Seq<Tap>,
)
    requires
        causal_taps(taps),
        0 <= x < w,
        0 <= y < h,
        ch >= 1,
    ensures
        apply_taps(g, w, h, ch, x, y, err, taps).len() == g.len(),
        forall|i: int|
            0 <= i < (y * w + x + 1) * ch && i < g.len() ==> apply_taps(
                g,
                w,
                h,
                ch,
                x,
                y,
                err,
                taps,
            )[i] == g[i],
    decreases taps.len(),
{
    lemma_apply_taps_len(g, w, h, ch, x, y, err, taps);
    if taps.len() > 0 {
        let t = taps[0];
        assert(t.dy > 0 || (t.dy == 0 && t.dx > 0));
        assert(causal_taps(taps.drop_first())) by {
            assert forall|j: int| 0 <= j < taps.drop_first().len() implies ((#[trigger] taps.drop_first()[j]).dy
                > 0 || (taps.drop_first()[j].dy == 0 && taps.drop_first()[j].dx > 0)) by {
                assert(taps.drop_first()[j] == taps[j + 1]);
            }
        }
        if tap_in_bounds(w, h, x, y, t) {
            assert(((y + t.dy) * w + (x + t.dx)) * ch >= (y * w + x + 1) * ch) by (nonlinear_arith)
                requires
                    t.dy > 0 || (t.dy == 0 && t.dx > 0),
                    0 <= x < w,
                    0 <= y,
                    ch >= 1,
                    0 <= x + t.dx < w,
                    0 <= y + t.dy,
            ;
        }
        let g1 = apply_tap(g, w, h, ch, x, y, err, t);
        lemma_apply_taps_frame(g1, w, h, ch, x, y, err, taps.drop_first());
        assert forall|i: int| 0 <= i < (y * w + x + 1) * ch && i < g.len() implies apply_taps(
            g,
            w,
            h,
            ch,
            x,
            y,
            err,
            taps,
        )[i] == g[i] by {
            assert(g1.len() == g.len());
            assert(g1[i] == g[i]);
            assert(apply_taps(g1, w, h, ch, x, y, err, taps.drop_first())[i] == g1[i]);
        }
    }
}

/// Every byte before position `k` is 0 or 255.
spec fn bilevel_upto(s: Seq<u8>, k: int) -> bool {
    forall|i: int| 0 <= i < k && i < s.len() ==> (s[i] == 0 || s[i] == 255)
}

/// Bilevel closure for error diffusion, pixel prefix by pixel prefix: once
/// a pixel has been visited and quantized by a bilevel map, a causal kernel
/// never writes to it again.
proof fn lemma_prefix_bilevel<M: ColorMap>(
    g: Seq<u8>,
    m: &M,
    w: int,
    h: int,
    ch: int,
    taps: Seq<Tap>,
    div: int,
    n: nat,
)
    requires
        m.is_bilevel(),
        causal_taps(taps),
        g.len() == w * h * ch,
        w >= 1,
        h >= 1,
        ch >= 1,
        n <= w * h,
    ensures
        dither_prefix_spec(g, m, w, h, ch, taps, div, n).len() == g.len(),
        bilevel_upto(dither_prefix_spec(g, m, w, h, ch, taps, div, n), n * ch),
    decreases n,
{
    lemma_prefix_len(g, m, w, h, ch, taps, div, n);
    if n > 0 {
        lemma_prefix_bilevel(g, m, w, h, ch, taps, div, (n - 1) as nat);
        let prev = dither_prefix_spec(g, m, w, h, ch, taps, div, (n - 1) as nat);
        let cur = dither_prefix_spec(g, m, w, h, ch, taps, div, n);
        let nm1 = (n - 1) as int;
        let x = nm1 % w;
        let y = nm1 / w;
        vstd::arithmetic::div_mod::lemma_mod_division_less_than_divisor(nm1, w);
        lemma_div_basics_4(nm1, w);
        vstd::arithmetic::div_mod::lemma_fundamental_div_mod(nm1, w);
        assert(y < h) by (nonlinear_arith)
            requires
                nm1 == w * y + x,
                0 <= x < w,
                0 <= y,
                nm1 < w * h,
                w >= 1,
        ;
        assert(y * w + x == nm1);
        lemma_pixel_base_bounds(w, h, ch, x, y);
        let base = pixel_base(w, ch, x, y);
        let old_p = pixel_at(prev, w, ch, x, y);
        let new_p = m.map_spec(old_p);
        m.lemma_map_spec_len(old_p);
        m.lemma_bilevel(old_p);
        let written = write_channels(prev, base, new_p);
        let errv = pixel_error(old_p, new_p, div);
        lemma_apply_taps_frame(written, w, h, ch, x, y, errv, taps);
        assert((y * w + x + 1) * ch == n * ch);
        assert(base == nm1 * ch);
        assert(old_p.len() == ch);
        assert(new_p.len() == ch);
        assert(n * ch == nm1 * ch + ch) by (nonlinear_arith)
            requires
                n == nm1 + 1,
        ;
        assert(cur == apply_taps(written, w, h, ch, x, y, errv, taps));
        assert(bilevel_upto(prev, nm1 * ch));
        assert forall|i: int| 0 <= i < n * ch && i < cur.len() implies (cur[i] == 0 || cur[i]
            == 255) by {
            assert(cur[i] == written[i]);
            if i < nm1 * ch {
                assert(written[i] == prev[i]);
            } else {
                assert(written[i] == new_p[i - base]);
            }
        }
        assert(bilevel_upto(cur, n * ch));
    } else {
        assert(dither_prefix_spec(g, m, w, h, ch, taps, div, n) == g);
        assert(n * ch == 0);
        assert(bilevel_upto(g, 0));
    }
}

/// Bilevel closure: a full error-diffusion pass with any causal kernel and
/// a strictly bilevel color map leaves every channel of every pixel at
/// exactly 0 or 255.
pub proof fn lemma_bilevel_closure<M: ColorMap>(
    g: Seq<u8>,
    m: &M,
    w: int,
    h: int,
    ch: int,
    taps: Seq<Tap>,
    div: int,
)
    requires
        m.is_bilevel(),
        causal_taps(taps),
        g.len() == w * h * ch,
        w >= 1,
        h >= 1,
        ch >= 1,
    ensures
        all_bilevel(dither_pass_spec(g, m, w, h, ch, taps, div)),
{
    assert(w * h >= 0) by (nonlinear_arith)
        requires
            w >= 1,
            h >= 1,
    ;
    lemma_prefix_bilevel(g, m, w, h, ch, taps, div, (w * h) as nat);
}

/// Determinism: an error-diffusion pass is a mathematical function of the
/// input grid, the color map, and the kernel, so identical inputs give
/// byte-identical output on every run. (The stochastic threshold pass gives
/// no such promise.)
pub proof fn lemma_diffusion_deterministic<M: ColorMap>(
    g1: Seq<u8>,
    g2: Seq<u8>,
    m: &M,
    w: int,
    h: int,
    ch: int,
    taps: Seq<Tap>,
    div: int,
)
    requires
        g1 == g2,
    ensures
        dither_pass_spec(g1, m, w, h, ch, taps, div) == dither_pass_spec(g2, m, w, h, ch, taps, div),
{
}

/// Error-mass accounting: Sierra-Lite distributes its full divisor of 4,
/// while Atkinson distributes 6 of its divisor 8, deliberately discarding
/// the remaining 2/8; Floyd–Steinberg distributes its full divisor of 16.
/// All three kernels are causal, and from any interior pixel (at least one
/// column in from the left, two from the right, two rows from the bottom)
/// every neighbor is in bounds, so the full kernel weight is propagated.
pub proof fn lemma_error_mass(w: int, h: int, x: int, y: int)
    requires
        1 <= x,
        x + 2 < w,
        0 <= y,
        y + 2 < h,
    ensures
        taps_weight_sum(sierra_lite_kernel()) == 4,
        taps_weight_sum(atkinson_kernel()) == 6,
        taps_weight_sum(floyd_steinberg_kernel()) == 16,
        causal_taps(sierra_lite_kernel()),
        causal_taps(atkinson_kernel()),
        causal_taps(floyd_steinberg_kernel()),
        forall|j: int|
            0 <= j < sierra_lite_kernel().len() ==> tap_in_bounds(
                w,
                h,
                x,
                y,
                #[trigger] sierra_lite_kernel()[j],
            ),
        forall|j: int|
            0 <= j < atkinson_kernel().len() ==> tap_in_bounds(
                w,
                h,
                x,
                y,
                #[trigger] atkinson_kernel()[j],
            ),
        forall|j: int|
            0 <= j < floyd_steinberg_kernel().len() ==> tap_in_bounds(
                w,
                h,
                x,
                y,
                #[trigger] floyd_steinberg_kernel()[j],
            ),
{
    reveal_with_fuel(taps_weight_sum, 8);
}

/// One raster step of error diffusion at `(x, y)`: quantizes that pixel
/// through the color map and diffuses its scaled residual into the in-bounds
/// kernel neighbors.
pub fn diffuse_pixel<M: ColorMap>(
    grid: &mut PixelGrid,
    map: &M,
    x: usize,
    y: usize,
    taps: &Vec<Tap>,
    div: u32,
)
    requires
        old(grid).wf(),
        x < old(grid).width,
        y < old(grid).height,
        taps_ok(taps@),
        div >= 1,
    ensures
        final(grid).wf(),
        final(grid).width == old(grid).width,
        final(grid).height == old(grid).height,
        final(grid).channels == old(grid).channels,
        final(grid).data@ == dither_pixel_spec(
            old(grid).data@,
            map,
            old(grid).width as int,
            old(grid).height as int,
            old(grid).channels as int,
            x as int,
            y as int,
            taps@,
            div as int,
        ),
{
    let ghost w = old(grid).width as int;
    let ghost h = old(grid).height as int;
    let ghost ch = old(grid).channels as int;
    let old_px = read_pixel(grid, x, y);
    let mut new_px = read_pixel(grid, x, y);
    map.map_color(&mut new_px);
    proof {
        map.lemma_map_spec_len(old_px@);
    }
    write_pixel(grid, x, y, &new_px);
    let ghost g1 = grid.data@;
    let channels = grid.channels;
    let mut err: Vec<i32> = Vec::new();
    let mut c: usize = 0;
    while c < channels
        invariant
            c <= channels,
            err@.len() == c,
            old_px@.len() == channels,
            new_px@.len() == channels,
            div >= 1,
            forall|k: int|
                0 <= k < c ==> #[trigger] err@[k] == tdiv(
                    old_px@[k] - new_px@[k],
                    div as int,
                ),
            forall|k: int| 0 <= k < c ==> -255 <= #[trigger] err@[k] <= 255,
        decreases channels - c,
    {
        let diff: i32 = old_px[c] as i32 - new_px[c] as i32;
        let q = scale_residual(diff, div);
        err.push(q);
        c = c + 1;
    }
    let ghost errs = pixel_error(old_px@, new_px@, div as int);
    proof {
        assert(err_ints(err@) =~= errs);
    }
    let n = taps.len();
    let mut j: usize = 0;
    while j < n
        invariant
            j <= n,
            n == taps@.len(),
            grid.wf(),
            grid.width == old(grid).width,
            grid.height == old(grid).height,
            grid.channels == old(grid).channels,
            w == grid.width as int,
            h == grid.height as int,
            ch == grid.channels as int,
            x < grid.width,
            y < grid.height,
            taps_ok(taps@),
            err@.len() == grid.channels,
            forall|k: int| 0 <= k < err@.len() ==> -255 <= #[trigger] err@[k] <= 255,
            err_ints(err@) == errs,
            errs.len() == grid.channels,
            grid.data@ == apply_taps(g1, w, h, ch, x as int, y as int, errs, taps@.take(j as int)),
        decreases n - j,
    {
        let t = taps[j];
        let mut ok: bool = true;
        let mut nx: usize = 0;
        let mut ny: usize = 0;
        if t.dx >= 0 {
            let d = t.dx as usize;
            if d < grid.width - x {
                nx = x + d;
            } else {
                ok = false;
            }
        } else {
            let d = (-t.dx) as usize;
            if d <= x {
                nx = x - d;
            } else {
                ok = false;
            }
        }
        if t.dy >= 0 {
            let d = t.dy as usize;
            if d < grid.height - y {
                ny = y + d;
            } else {
                ok = false;
            }
        } else {
            let d = (-t.dy) as usize;
            if d <= y {
                ny = y - d;
            } else {
                ok = false;
            }
        }
        proof {
            assert(ok <==> tap_in_bounds(w, h, x as int, y as int, taps@[j as int]));
            assert(ok ==> nx as int == x + taps@[j as int].dx && ny as int == y + taps@[j as int].dy);
        }
        if ok {
            diffuse_into(grid, nx, ny, &err, t.weight);
        }
        proof {
            assert(taps@.take(j as int).push(taps@[j as int]) =~= taps@.take(j as int + 1));
            lemma_apply_taps_snoc(
                g1,
                w,
                h,
                ch,
                x as int,
                y as int,
                errs,
                taps@.take(j as int),
                taps@[j as int],
            );
        }
        j = j + 1;
    }
    proof {
        assert(taps@.take(n as int) =~= taps@);
    }
}

/// One complete raster pass: every pixel in row-major order, top to bottom,
/// left to right.
fn error_diffusion<M: ColorMap>(grid: &mut PixelGrid, map: &M, taps: &Vec<Tap>, div: u32)
    requires
        old(grid).wf(),
        old(grid).width >= 1,
        old(grid).height >= 1,
        taps_ok(taps@),
        div >= 1,
    ensures
        final(grid).wf(),
        final(grid).width == old(grid).width,
        final(grid).height == old(grid).height,
        final(grid).channels == old(grid).channels,
        final(grid).data@ == dither_pass_spec(
            old(grid).data@,
            map,
            old(grid).width as int,
            old(grid).height as int,
            old(grid).channels as int,
            taps@,
            div as int,
        ),
{
    let ghost g0 = old(grid).data@;
    let ghost w = old(grid).width as int;
    let ghost h = old(grid).height as int;
    let ghost ch = old(grid).channels as int;
    let width = grid.width;
    let height = grid.height;
    let mut y: usize = 0;
    while y < height
        invariant
            y <= height,
            width == grid.width,
            height == grid.height,
            grid.wf(),
            grid.width == old(grid).width,
            grid.height == old(grid).height,
            grid.channels == old(grid).channels,
            w == grid.width as int,
            h == grid.height as int,
            ch == grid.channels as int,
            taps_ok(taps@),
            div >= 1,
            grid.data@ == dither_prefix_spec(g0, map, w, h, ch, taps@, div as int, (y * width) as nat),
        decreases height - y,
    {
        let mut x: usize = 0;
        while x < width
            invariant
                x <= width,
                y < height,
                width == grid.width,
                height == grid.height,
                grid.wf(),
                grid.width == old(grid).width,
                grid.height == old(grid).height,
                grid.channels == old(grid).channels,
                w == grid.width as int,
                h == grid.height as int,
                ch == grid.channels as int,
                taps_ok(taps@),
                div >= 1,
                grid.data@ == dither_prefix_spec(
                    g0,
                    map,
                    w,
                    h,
                    ch,
                    taps@,
                    div as int,
                    (y * width + x) as nat,
                ),
            decreases width - x,
        {
            let ghost before = grid.data@;
            diffuse_pixel(grid, map, x, y, taps, div);
            proof {
                lemma_raster_index(x as int, y as int, w);
                assert((y * width + x + 1) as nat != 0);
                assert((((y * width + x + 1) as nat) - 1) as nat == (y * width + x) as nat);
                assert(grid.data@ == dither_prefix_spec(
                    g0,
                    map,
                    w,
                    h,
                    ch,
                    taps@,
                    div as int,
                    (y * width + x + 1) as nat,
                ));
            }
            x = x + 1;
        }
        proof {
            assert(y * width + width == (y + 1) * width) by (nonlinear_arith);
        }
        y = y + 1;
    }
    proof {
        assert(height * width == w * h) by (nonlinear_arith)
            requires
                w == width as int,
                h == height as int,
        ;
    }
}

/// The Atkinson kernel: six forward neighbors, each with weight 1, divisor
/// 8 — six eighths of the residual are distributed and the remaining two
/// eighths are deliberately discarded.
pub open spec fn atkinson_kernel() -> Seq<Tap> {
    seq![
        Tap { dx: 1, dy: 0, weight: 1 },
        Tap { dx: 2, dy: 0, weight: 1 },
        Tap { dx: -1i32, dy: 1, weight: 1 },
        Tap { dx: 0, dy: 1, weight: 1 },
        Tap { dx: 1, dy: 1, weight: 1 },
        Tap { dx: 0, dy: 2, weight: 1 },
    ]
}

/// The Sierra-Lite kernel: three forward neighbors with weights 2, 1, 1,
/// divisor 4 — the residual is fully distributed.
pub open spec fn sierra_lite_kernel() -> Seq<Tap> {
    seq![
        Tap { dx: 1, dy: 0, weight: 2 },
        Tap { dx: -1i32, dy: 1, weight: 1 },
        Tap { dx: 0, dy: 1, weight: 1 },
    ]
}

/// The Floyd–Steinberg kernel: four forward neighbors with weights 7, 3, 5,
/// 1, divisor 16 — the residual is fully distributed.
pub open spec fn floyd_steinberg_kernel() -> Seq<Tap> {
    seq![
        Tap { dx: 1, dy: 0, weight: 7 },
        Tap { dx: -1i32, dy: 1, weight: 3 },
        Tap { dx: 0, dy: 1, weight: 5 },
        Tap { dx: 1, dy: 1, weight: 1 },
    ]
}

/// Builds the executable Atkinson kernel.
pub fn atkinson_taps() -> (taps: Vec<Tap>)
    ensures
        taps@ == atkinson_kernel(),
{
    let mut taps: Vec<Tap> = Vec::new();
    taps.push(Tap { dx: 1, dy: 0, weight: 1 });
    taps.push(Tap { dx: 2, dy: 0, weight: 1 });
    taps.push(Tap { dx: -1i32, dy: 1, weight: 1 });
    taps.push(Tap { dx: 0, dy: 1, weight: 1 });
    taps.push(Tap { dx: 1, dy: 1, weight: 1 });
    taps.push(Tap { dx: 0, dy: 2, weight: 1 });
    proof {
        assert(taps@ =~= atkinson_kernel());
    }
    taps
}

/// Builds the executable Sierra-Lite kernel.
pub fn sierra_lite_taps() -> (taps: Vec<Tap>)
    ensures
        taps@ == sierra_lite_kernel(),
{
    let mut taps: Vec<Tap> = Vec::new();
    taps.push(Tap { dx: 1, dy: 0, weight: 2 });
    taps.push(Tap { dx: -1i32, dy: 1, weight: 1 });
    taps.push(Tap { dx: 0, dy: 1, weight: 1 });
    proof {
        assert(taps@ =~= sierra_lite_kernel());
    }
    taps
}

/// Builds the executable Floyd–Steinberg kernel.
pub fn floyd_steinberg_taps() -> (taps: Vec<Tap>)
    ensures
        taps@ == floyd_steinberg_kernel(),
{
    let mut taps: Vec<Tap> = Vec::new();
    taps.push(Tap { dx: 1, dy: 0, weight: 7 });
    taps.push(Tap { dx: -1i32, dy: 1, weight: 3 });
    taps.push(Tap { dx: 0, dy: 1, weight: 5 });
    taps.push(Tap { dx: 1, dy: 1, weight: 1 });
    proof {
        assert(taps@ =~= floyd_steinberg_kernel());
    }
    taps
}

/// Dithers the grid in place with the Atkinson kernel (divisor 8). Fails
/// exactly when the grid has zero width or height, leaving it untouched.
pub fn dither_atkinson<M: ColorMap>(grid: &mut PixelGrid, color_map: &M) -> (result: Result<
    (),
    DitherError,
>)
    requires
        old(grid).wf(),
    ensures
        final(grid).wf(),
        final(grid).width == old(grid).width,
        final(grid).height == old(grid).height,
        final(grid).channels == old(grid).channels,
        old(grid).width >= 1 && old(grid).height >= 1 ==> result == Ok::<(), DitherError>(())
            && final(grid).data@ == dither_pass_spec(
            old(grid).data@,
            color_map,
            old(grid).width as int,
            old(grid).height as int,
            old(grid).channels as int,
            atkinson_kernel(),
            8,
        ),
        old(grid).width == 0 || old(grid).height == 0 ==> result == Err::<(), DitherError>(
            DitherError::EmptyGrid,
        ) && final(grid).data@ == old(grid).data@,
{
    if grid.width == 0 || grid.height == 0 {
        return Err(DitherError::EmptyGrid);
    }
    let taps = atkinson_taps();
    proof {
        assert(taps_ok(taps@));
    }
    error_diffusion(grid, color_map, &taps, 8);
    Ok(())
}

/// Dithers the grid in place with the Sierra-Lite kernel (divisor 4). Fails
/// exactly when the grid has zero width or height, leaving it untouched.
pub fn dither_sierra_lite<M: ColorMap>(grid: &mut PixelGrid, color_map: &M) -> (result: Result<
    (),
    DitherError,
>)
    requires
        old(grid).wf(),
    ensures
        final(grid).wf(),
        final(grid).width == old(grid).width,
        final(grid).height == old(grid).height,
        final(grid).channels == old(grid).channels,
        old(grid).width >= 1 && old(grid).height >= 1 ==> result == Ok::<(), DitherError>(())
            && final(grid).data@ == dither_pass_spec(
            old(grid).data@,
            color_map,
            old(grid).width as int,
            old(grid).height as int,
            old(grid).channels as int,
            sierra_lite_kernel(),
            4,
        ),
        old(grid).width == 0 || old(grid).height == 0 ==> result == Err::<(), DitherError>(
            DitherError::EmptyGrid,
        ) && final(grid).data@ == old(grid).data@,
{
    if grid.width == 0 || grid.height == 0 {
        return Err(DitherError::EmptyGrid);
    }
    let taps = sierra_lite_taps();
    proof {
        assert(taps_ok(taps@));
    }
    error_diffusion(grid, color_map, &taps, 4);
    Ok(())
}

/// Dithers the grid in place with the canonical Floyd–Steinberg kernel
/// (divisor 16). Fails exactly when the grid has zero width or height,
/// leaving it untouched.
pub fn dither_floyd_steinberg<M: ColorMap>(grid: &mut PixelGrid, color_map: &M) -> (result: Result<
    (),
    DitherError,
>)
    requires
        old(grid).wf(),
    ensures
        final(grid).wf(),
        final(grid).width == old(grid).width,
        final(grid).height == old(grid).height,
        final(grid).channels == old(grid).channels,
        old(grid).width >= 1 && old(grid).height >= 1 ==> result == Ok::<(), DitherError>(())
            && final(grid).data@ == dither_pass_spec(
            old(grid).data@,
            color_map,
            old(grid).width as int,
            old(grid).height as int,
            old(grid).channels as int,
            floyd_steinberg_kernel(),
            16,
        ),
        old(grid).width == 0 || old(grid).height == 0 ==> result == Err::<(), DitherError>(
            DitherError::EmptyGrid,
        ) && final(grid).data@ == old(grid).data@,
{
    if grid.width == 0 || grid.height == 0 {
        return Err(DitherError::EmptyGrid);
    }
    let taps = floyd_steinberg_taps();
    proof {
        assert(taps_ok(taps@));
    }
    error_diffusion(grid, color_map, &taps, 16);
    Ok(())
}

} // verus!
