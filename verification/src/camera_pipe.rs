use vstd::prelude::*;

use crate::runtime::{xrgb_of_rgb, RgbFrame};
use crate::wire::{push_u32, u32_le};

verus! {

/// Width and height of the frames on the older, fixed-size pipe.
pub const LEGACY_WIDTH: u32 = 1920;

pub const LEGACY_HEIGHT: u32 = 1080;

/// The BGRX bytes of row `y` of an RGB picture `w` pixels wide.
pub open spec fn bgrx_row(pixels: Seq<u8>, w: nat, y: nat) -> Seq<u8> {
    xrgb_of_rgb(pixels.subrange((y * w * 3) as int, ((y + 1) * w * 3) as int))
}

/// The last `n` rows of a picture `h` rows high, as BGRX, bottom row first.
pub open spec fn rows_bottom_up(pixels: Seq<u8>, w: nat, h: nat, n: nat) -> Seq<u8>
    decreases n,
{
    if n == 0 || n > h {
        Seq::empty()
    } else {
        rows_bottom_up(pixels, w, h, (n - 1) as nat) + bgrx_row(pixels, w, (h - n) as nat)
    }
}

/// One frame for the virtual camera's pipe: on the newer pipe the width and
/// height first; then the byte count of the pixels; then the pixels as BGRX,
/// bottom row first. Numbers are 32-bit little-endian.
pub open spec fn pipe_bytes(frame: RgbFrame, sized: bool) -> Seq<u8> {
    let w = frame.width;
    let h = frame.height;
    (if sized { u32_le(w) + u32_le(h) } else { Seq::empty() }) + u32_le(((w as int) * (h as int) * 4) as u32)
        + rows_bottom_up(frame.pixels@, w as nat, h as nat, h as nat)
}

proof fn lemma_xrgb_step(s: Seq<u8>, x: int)
    requires
        0 <= x,
        3 * (x + 1) <= s.len(),
    ensures
        xrgb_of_rgb(s.take(3 * (x + 1))) == xrgb_of_rgb(s.take(3 * x)) + seq![s[3 * x + 2], s[3 * x + 1], s[3 * x], 0u8],
{
    let t = s.take(3 * (x + 1));
    assert(t.take(3 * x) =~= s.take(3 * x));
}

fn push_bgrx_row(out: &mut Vec<u8>, pixels: &Vec<u8>, start: usize, w: usize)
    requires
        start + 3 * w <= pixels@.len(),
    ensures
        final(out)@ == old(out)@ + xrgb_of_rgb(pixels@.subrange(start as int, start + 3 * w)),
{
    let ghost row = pixels@.subrange(start as int, start + 3 * w);
    let n = pixels.len();
    let mut x: usize = 0;
    while x < w
        invariant
            n == pixels@.len(),
            start + 3 * w <= pixels@.len(),
            row == pixels@.subrange(start as int, start + 3 * w),
            x <= w,
            out@ == old(out)@ + xrgb_of_rgb(row.take(3 * x)),
        decreases w - x,
    {
        let i = start + 3 * x;
        proof {
            lemma_xrgb_step(row, x as int);
        }
        out.push(pixels[i + 2]);
        out.push(pixels[i + 1]);
        out.push(pixels[i]);
        out.push(0);
        x = x + 1;
        assert(out@ =~= old(out)@ + xrgb_of_rgb(row.take(3 * x)));
    }
    assert(row.take(3 * w) =~= row);
}

/// Lays out a picture for the virtual camera's pipe.
pub fn pipe_frame(frame: &RgbFrame, sized: bool) -> (r: Vec<u8>)
    requires
        frame.wf(),
        (frame.width as int) * (frame.height as int) * 4 <= u32::MAX,
    ensures
        r@ == pipe_bytes(*frame, sized),
{
    let w = frame.width;
    let h = frame.height;
    let mut out: Vec<u8> = Vec::new();
    if sized {
        push_u32(&mut out, w);
        push_u32(&mut out, h);
    }
    proof {
        assert((w as int) * (h as int) * 3 <= (w as int) * (h as int) * 4) by (nonlinear_arith)
            requires w >= 0, h >= 0;
    }
    let size: u32 = w * h * 4;
    push_u32(&mut out, size);
    let ghost head = out@;
    let wu = w as usize;
    let hu = h as usize;
    let mut k: usize = 0;
    while k < hu
        invariant
            frame.wf(),
            wu == frame.width,
            hu == frame.height,
            (wu as int) * (hu as int) * 3 <= u32::MAX,
            k <= hu,
            out@ == head + rows_bottom_up(frame.pixels@, wu as nat, hu as nat, k as nat),
        decreases hu - k,
    {
        let y = hu - 1 - k;
        proof {
            assert((y as int) * (wu as int) * 3 + 3 * (wu as int) <= (hu as int) * (wu as int) * 3) by (nonlinear_arith)
                requires y + 1 <= hu, wu >= 0;
            assert((hu as int) * (wu as int) * 3 == (wu as int) * (hu as int) * 3) by (nonlinear_arith);
            assert(((y + 1) as int) * (wu as int) * 3 == (y as int) * (wu as int) * 3 + 3 * (wu as int)) by (nonlinear_arith);
        }
        let start = y * wu * 3;
        push_bgrx_row(&mut out, &frame.pixels, start, wu);
        k = k + 1;
        assert(out@ =~= head + rows_bottom_up(frame.pixels@, wu as nat, hu as nat, k as nat));
    }
    out
}

} // verus!
