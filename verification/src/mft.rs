use vstd::prelude::*;

use crate::runtime::RgbFrame;

verus! {

/// `v` limited to 0..=255.
pub open spec fn clamp_u8(v: int) -> u8 {
    if v < 0 {
        0
    } else if v > 255 {
        255
    } else {
        v as u8
    }
}

/// Division by 256 rounding toward zero, as `/` on Rust integers does.
pub open spec fn div256_toward_zero(a: int) -> int {
    if a >= 0 { a / 256 } else { -((-a) / 256) }
}

/// BT.601 studio-range luma of an RGB pixel.
pub open spec fn luma(r: int, g: int, b: int) -> u8 {
    clamp_u8((66 * r + 129 * g + 25 * b + 128) / 256 + 16)
}

/// BT.601 blue-difference chroma of an RGB pixel.
pub open spec fn chroma_u(r: int, g: int, b: int) -> u8 {
    clamp_u8(div256_toward_zero(-38 * r - 74 * g + 112 * b + 128) + 128)
}

/// BT.601 red-difference chroma of an RGB pixel.
pub open spec fn chroma_v(r: int, g: int, b: int) -> u8 {
    clamp_u8(div256_toward_zero(112 * r - 94 * g - 18 * b + 128) + 128)
}

/// Byte `i` of the NV12 picture made from RGB pixels `px` of size `w` by `h`:
/// first a luma byte per pixel, then for each even row pair and even column
/// the U and V of the pixel at that even row and column (zero where that
/// pixel has no right or lower neighbour).
pub open spec fn nv12_byte(px: Seq<u8>, w: int, h: int, i: int) -> u8 {
    let n = w * h;
    if i < n {
        luma(px[3 * i] as int, px[3 * i + 1] as int, px[3 * i + 2] as int)
    } else {
        let j = i - n;
        let row = j / w;
        let col = j % w;
        let x = col - col % 2;
        let y = 2 * row;
        if x + 1 < w && y + 1 < h {
            let p = y * w + x;
            let (r, g, b) = (px[3 * p] as int, px[3 * p + 1] as int, px[3 * p + 2] as int);
            if col % 2 == 0 {
                chroma_u(r, g, b)
            } else {
                chroma_v(r, g, b)
            }
        } else {
            0
        }
    }
}

/// The NV12 picture (`w * h * 3 / 2` bytes) made from an RGB frame.
pub open spec fn nv12_of(px: Seq<u8>, w: int, h: int) -> Seq<u8> {
    Seq::new((w * h * 3 / 2) as nat, |i: int| nv12_byte(px, w, h, i))
}

fn clamp_exec(v: i32) -> (r: u8)
    ensures
        r == clamp_u8(v as int),
{
    if v < 0 {
        0
    } else if v > 255 {
        255
    } else {
        v as u8
    }
}

fn div256_toward_zero_exec(a: i32) -> (r: i32)
    requires
        -100000000 <= a <= 100000000,
    ensures
        r == div256_toward_zero(a as int),
{
    if a >= 0 {
        a / 256
    } else {
        -((-a) / 256)
    }
}

/// Floor division by 256.
fn div256_floor_exec(a: i32) -> (r: i32)
    requires
        -100000000 <= a <= 100000000,
    ensures
        r == (a as int) / 256,
{
    if a >= 0 {
        a / 256
    } else {
        let q = -((-a + 255) / 256);
        assert(q == (a as int) / 256) by (nonlinear_arith)
            requires a < 0, q == -((-a + 255) / 256);
        q
    }
}

fn nv12_byte_exec(px: &Vec<u8>, w: usize, h: usize, i: usize) -> (r: u8)
    requires
        0 < w,
        0 < h,
        w * h * 3 <= usize::MAX,
        px@.len() == w * h * 3,
        i < w * h * 3 / 2,
    ensures
        r == nv12_byte(px@, w as int, h as int, i as int),
{
    let n = w * h;
    if i < n {
        let r = px[3 * i] as i32;
        let g = px[3 * i + 1] as i32;
        let b = px[3 * i + 2] as i32;
        clamp_exec((66 * r + 129 * g + 25 * b + 128) / 256 + 16)
    } else {
        let j = i - n;
        let row = j / w;
        let col = j % w;
        let x = col - col % 2;
        if x + 1 < w && 2 * row + 1 < h {
            let y = 2 * row;
            assert(y * w + x + 1 < w * h) by (nonlinear_arith)
                requires y + 1 < h, x + 1 < w, w > 0;
            let p = y * w + x;
            let r = px[3 * p] as i32;
            let g = px[3 * p + 1] as i32;
            let b = px[3 * p + 2] as i32;
            if col % 2 == 0 {
                clamp_exec(div256_toward_zero_exec(-38 * r - 74 * g + 112 * b + 128) + 128)
            } else {
                clamp_exec(div256_toward_zero_exec(112 * r - 94 * g - 18 * b + 128) + 128)
            }
        } else {
            0
        }
    }
}

/// Converts an RGB frame to NV12 for the encoders.
pub fn rgb_to_nv12(rgb: &RgbFrame) -> (r: Vec<u8>)
    requires
        rgb.wf(),
    ensures
        r@ == nv12_of(rgb.pixels@, rgb.width as int, rgb.height as int),
{
    let w = rgb.width as usize;
    let h = rgb.height as usize;
    if w == 0 || h == 0 {
        let r: Vec<u8> = Vec::new();
        assert(r@ =~= nv12_of(rgb.pixels@, rgb.width as int, rgb.height as int)) by {
            assert(w * h == 0) by (nonlinear_arith)
                requires w == 0 || h == 0;
        }
        return r;
    }
    let plen = rgb.pixels.len();
    assert(w * h <= w * h * 3) by (nonlinear_arith)
        requires w > 0, h > 0;
    assert(w * h * 3 == plen);
    let len = w * h * 3 / 2;
    let mut data: Vec<u8> = Vec::new();
    let mut i: usize = 0;
    while i < len
        invariant
            0 < w,
            0 < h,
            w == rgb.width,
            h == rgb.height,
            w * h * 3 <= usize::MAX,
            rgb.pixels@.len() == w * h * 3,
            len == w * h * 3 / 2,
            i <= len,
            data@ == nv12_of(rgb.pixels@, w as int, h as int).take(i as int),
        decreases len - i,
    {
        let b = nv12_byte_exec(&rgb.pixels, w, h, i);
        data.push(b);
        i = i + 1;
        assert(data@ =~= nv12_of(rgb.pixels@, w as int, h as int).take(i as int));
    }
    assert(data@ =~= nv12_of(rgb.pixels@, w as int, h as int));
    data
}

/// Byte `k` of the RGB frame made from an NV12 picture of size `w` by `h`.
pub open spec fn rgb_byte(data: Seq<u8>, w: int, h: int, k: int) -> u8 {
    let p = k / 3;
    let x = p % w;
    let y = p / w;
    let yy = data[p] as int - 16;
    let i = w * h + (y / 2) * w + (x / 2) * 2;
    let u = data[i] as int - 128;
    let v = data[i + 1] as int - 128;
    if k % 3 == 0 {
        clamp_u8((298 * yy + 409 * v + 128) / 256)
    } else if k % 3 == 1 {
        clamp_u8((298 * yy - 100 * u - 208 * v + 128) / 256)
    } else {
        clamp_u8((298 * yy + 516 * u + 128) / 256)
    }
}

pub open spec fn rgb_of_nv12(data: Seq<u8>, w: int, h: int) -> Seq<u8> {
    Seq::new((w * h * 3) as nat, |k: int| rgb_byte(data, w, h, k))
}

/// Even dimensions and exactly `w * h * 3 / 2` bytes.
pub open spec fn nv12_size_ok(data: Seq<u8>, w: u32, h: u32) -> bool {
    w % 2 == 0 && h % 2 == 0 && data.len() == (w as int) * (h as int) * 3 / 2
}

proof fn lemma_chroma_index(w: int, h: int, x: int, y: int)
    requires
        0 <= x < w,
        0 <= y < h,
        w % 2 == 0,
        h % 2 == 0,
    ensures
        w * h + (y / 2) * w + (x / 2) * 2 + 1 < w * h * 3 / 2,
{
    let hh = h / 2;
    let yh = y / 2;
    let xh = x / 2;
    assert(yh <= hh - 1);
    assert(xh * 2 <= w - 2);
    assert(yh * w <= (hh - 1) * w) by (nonlinear_arith)
        requires yh <= hh - 1, w > 0;
    assert((hh - 1) * w == hh * w - w) by (nonlinear_arith);
    assert(w * h == 2 * (hh * w)) by (nonlinear_arith)
        requires h == 2 * hh;
    assert(w * h * 3 / 2 == w * h + hh * w) by (nonlinear_arith)
        requires w * h == 2 * (hh * w);
}

fn rgb_byte_exec(data: &[u8], w: usize, h: usize, k: usize) -> (r: u8)
    requires
        w % 2 == 0,
        h % 2 == 0,
        0 < w,
        0 < h,
        w * h * 3 <= usize::MAX,
        data@.len() == w * h * 3 / 2,
        k < w * h * 3,
    ensures
        r == rgb_byte(data@, w as int, h as int, k as int),
{
    let p = k / 3;
    let x = p % w;
    let y = p / w;
    assert(y < h) by (nonlinear_arith)
        requires y == p / w, p < w * h, w > 0;
    proof {
        lemma_chroma_index(w as int, h as int, x as int, y as int);
    }
    let i = w * h + (y / 2) * w + (x / 2) * 2;
    let yy = data[p] as i32 - 16;
    let u = data[i] as i32 - 128;
    let v = data[i + 1] as i32 - 128;
    if k % 3 == 0 {
        clamp_exec(div256_floor_exec(298 * yy + 409 * v + 128))
    } else if k % 3 == 1 {
        clamp_exec(div256_floor_exec(298 * yy - 100 * u - 208 * v + 128))
    } else {
        clamp_exec(div256_floor_exec(298 * yy + 516 * u + 128))
    }
}

/// Converts a decoder's NV12 picture to RGB; the size must be even both
/// ways and match the data.
pub fn nv12_to_rgb(data: &[u8], w: u32, h: u32) -> (r: Result<RgbFrame, String>)
    requires
        data@.len() <= isize::MAX,
    ensures
        match r {
            Ok(f) => nv12_size_ok(data@, w, h) && f.width == w && f.height == h && f.wf()
                && f.pixels@ == rgb_of_nv12(data@, w as int, h as int),
            Err(e) => !nv12_size_ok(data@, w, h) && e@ == "디코더 NV12 크기 불일치"@,
        },
{
    let wu = w as usize;
    let hu = h as usize;
    assert(wu * hu <= 0xffff_ffffu64 * 0xffff_ffffu64) by (nonlinear_arith)
        requires wu <= 0xffff_ffffusize, hu <= 0xffff_ffffusize;
    if w % 2 != 0 || h % 2 != 0 || (data.len() as u128) != (wu as u128) * (hu as u128) * 3 / 2 {
        return Err(String::from_str("디코더 NV12 크기 불일치"));
    }
    assert(wu * hu * 3 <= usize::MAX) by (nonlinear_arith)
        requires data@.len() == wu * hu * 3 / 2, data@.len() <= isize::MAX, wu % 2 == 0, isize::MAX * 2 < usize::MAX;
    let total = wu * hu * 3;
    let mut pixels: Vec<u8> = Vec::new();
    if wu == 0 || hu == 0 {
        assert(wu * hu == 0) by (nonlinear_arith)
            requires wu == 0 || hu == 0;
        assert(pixels@ =~= rgb_of_nv12(data@, w as int, h as int));
        return Ok(RgbFrame { width: w, height: h, pixels });
    }
    let mut k: usize = 0;
    while k < total
        invariant
            wu == w,
            hu == h,
            w % 2 == 0,
            h % 2 == 0,
            0 < wu,
            0 < hu,
            total == wu * hu * 3,
            total <= usize::MAX,
            data@.len() == wu * hu * 3 / 2,
            k <= total,
            pixels@ == rgb_of_nv12(data@, w as int, h as int).take(k as int),
        decreases total - k,
    {
        let b = rgb_byte_exec(data, wu, hu, k);
        pixels.push(b);
        k = k + 1;
        assert(pixels@ =~= rgb_of_nv12(data@, w as int, h as int).take(k as int));
    }
    assert(pixels@ =~= rgb_of_nv12(data@, w as int, h as int));
    Ok(RgbFrame { width: w, height: h, pixels })
}

/// The picture an encoder is tried with before it is offered: NV12 of `w`
/// by `h` with luma 64 everywhere and neutral chroma.
pub fn probe_picture(w: u32, h: u32) -> (r: Vec<u8>)
    requires
        (w as int) * (h as int) * 3 <= usize::MAX,
    ensures
        r@.len() == (w as int) * (h as int) * 3 / 2,
        forall|i: int| 0 <= i < (w as int) * (h as int) ==> #[trigger] r@[i] == 64,
        forall|i: int| (w as int) * (h as int) <= i < r@.len() ==> #[trigger] r@[i] == 128,
{
    let luma = w as usize * h as usize;
    let total = luma * 3 / 2;
    let mut r: Vec<u8> = Vec::new();
    let mut i: usize = 0;
    while i < total
        invariant
            luma == (w as int) * (h as int),
            total == luma * 3 / 2,
            i <= total,
            r@.len() == i,
            forall|k: int| 0 <= k < i && k < luma ==> #[trigger] r@[k] == 64,
            forall|k: int| luma <= k < i ==> #[trigger] r@[k] == 128,
        decreases total - i,
    {
        if i < luma {
            r.push(64);
        } else {
            r.push(128);
        }
        i = i + 1;
    }
    r
}


/// Two integers differ by at most `d`.
pub open spec fn within(a: int, b: int, d: int) -> bool {
    a - d <= b <= a + d
}

/// One pixel taken to luma and the two chroma differences and back comes
/// out within 5 of itself in each channel.
proof fn lemma_pixel_round_trip(r: int, g: int, b: int)
    requires
        0 <= r <= 255,
        0 <= g <= 255,
        0 <= b <= 255,
    ensures
        ({
            let yy = luma(r, g, b) as int - 16;
            let u = chroma_u(r, g, b) as int - 128;
            let v = chroma_v(r, g, b) as int - 128;
            &&& within(r, clamp_u8((298 * yy + 409 * v + 128) / 256) as int, 5)
            &&& within(g, clamp_u8((298 * yy - 100 * u - 208 * v + 128) / 256) as int, 5)
            &&& within(b, clamp_u8((298 * yy + 516 * u + 128) / 256) as int, 5)
        }),
{
    let ly = (66 * r + 129 * g + 25 * b + 128) / 256;
    let cu = div256_toward_zero(-38 * r - 74 * g + 112 * b + 128);
    let cv = div256_toward_zero(112 * r - 94 * g - 18 * b + 128);
    assert(0 <= ly <= 219);
    assert(-112 <= cu <= 112);
    assert(-112 <= cv <= 112);
    assert(luma(r, g, b) as int == ly + 16);
    assert(chroma_u(r, g, b) as int == cu + 128);
    assert(chroma_v(r, g, b) as int == cv + 128);
    assert(256 * ly <= 66 * r + 129 * g + 25 * b + 128 < 256 * ly + 256);
    assert(256 * cu - 255 <= -38 * r - 74 * g + 112 * b + 128 <= 256 * cu + 255);
    assert(256 * cv - 255 <= 112 * r - 94 * g - 18 * b + 128 <= 256 * cv + 255);
    let rr = (298 * ly + 409 * cv + 128) / 256;
    let gg = (298 * ly - 100 * cu - 208 * cv + 128) / 256;
    let bb = (298 * ly + 516 * cu + 128) / 256;
    assert(within(r, rr, 5));
    assert(within(g, gg, 5));
    assert(within(b, bb, 5));
}


/// Byte `k` of an RGB frame `w` pixels wide taken from the top-left pixel of
/// its 2 by 2 block instead: the same channel of that pixel.
pub open spec fn block_corner(k: int, w: int) -> int {
    let p = k / 3;
    let x = p % w;
    let y = p / w;
    3 * ((y - y % 2) * w + (x - x % 2)) + k % 3
}

/// Every 2 by 2 block of the frame is of one colour.
pub open spec fn uniform_blocks(px: Seq<u8>, w: int, h: int) -> bool {
    forall|k: int| 0 <= k < w * h * 3 ==> #[trigger] px[k] == px[block_corner(k, w)]
}

proof fn lemma_block_indices(w: int, h: int, k: int)
    requires
        w > 0,
        h > 0,
        w % 2 == 0,
        h % 2 == 0,
        0 <= k < w * h * 3,
    ensures
        ({
            let p = k / 3;
            let x = p % w;
            let y = p / w;
            let j = (y / 2) * w + (x / 2) * 2;
            let corner = (2 * (y / 2)) * w + (x / 2) * 2;
            &&& 0 <= p < w * h
            &&& k == 3 * p + k % 3
            &&& 0 <= x < w
            &&& 0 <= y < h
            &&& j / w == y / 2
            &&& j % w == (x / 2) * 2
            &&& (j + 1) / w == y / 2
            &&& (j + 1) % w == (x / 2) * 2 + 1
            &&& (x / 2) * 2 + 1 < w
            &&& 2 * (y / 2) + 1 < h
            &&& 0 <= corner
            &&& corner + 1 < w * h
            &&& w * h + j + 1 < w * h * 3 / 2
            &&& block_corner(3 * p, w) == 3 * corner
            &&& block_corner(3 * p + 1, w) == 3 * corner + 1
            &&& block_corner(3 * p + 2, w) == 3 * corner + 2
        }),
{
    let p = k / 3;
    let x = p % w;
    let y = p / w;
    let j = (y / 2) * w + (x / 2) * 2;
    let corner = (2 * (y / 2)) * w + (x / 2) * 2;
    assert(0 <= p < w * h);
    vstd::arithmetic::div_mod::lemma_fundamental_div_mod(p, w);
    assert(0 <= x < w) by {
        vstd::arithmetic::div_mod::lemma_mod_bound(p, w);
    }
    assert(0 <= y < h) by {
        vstd::arithmetic::div_mod::lemma_div_pos_is_pos(p, w);
        if y >= h {
            assert(w * y >= w * h) by (nonlinear_arith)
                requires y >= h, w > 0;
        }
    }
    assert(p == y * w + x) by (nonlinear_arith)
        requires p == w * (p / w) + p % w, x == p % w, y == p / w;
    assert((x / 2) * 2 + 1 < w);
    assert(2 * (y / 2) + 1 < h);
    vstd::arithmetic::div_mod::lemma_fundamental_div_mod_converse(j, w, y / 2, (x / 2) * 2);
    vstd::arithmetic::div_mod::lemma_fundamental_div_mod_converse(j + 1, w, y / 2, (x / 2) * 2 + 1);
    assert(0 <= corner) by (nonlinear_arith)
        requires corner == (2 * (y / 2)) * w + (x / 2) * 2, y >= 0, x >= 0, w > 0;
    assert(corner + 1 < w * h) by (nonlinear_arith)
        requires corner == (2 * (y / 2)) * w + (x / 2) * 2, 2 * (y / 2) + 1 < h, (x / 2) * 2 + 1 < w,
            y >= 0, x >= 0, w > 0;
    let hh = h / 2;
    assert(w * h == 2 * (hh * w)) by (nonlinear_arith)
        requires h == 2 * hh;
    assert(w * h * 3 / 2 == w * h + hh * w);
    assert(j + 1 < hh * w) by (nonlinear_arith)
        requires j == (y / 2) * w + (x / 2) * 2, y / 2 <= hh - 1, (x / 2) * 2 + 1 < w, y >= 0, x >= 0, w > 0;
    assert(y - y % 2 == 2 * (y / 2));
    assert(x - x % 2 == (x / 2) * 2);
    assert((3 * p) / 3 == p && (3 * p + 1) / 3 == p && (3 * p + 2) / 3 == p);
    assert((3 * p) % 3 == 0 && (3 * p + 1) % 3 == 1 && (3 * p + 2) % 3 == 2);
}


/// The two NV12 conversions agree on the picture layout: a frame of even size
/// whose 2 by 2 blocks are each of one colour, converted to NV12 and back,
/// comes out the same size with every byte within 5 of where it started.
/// (Luma is kept per pixel and each block shares one blue-difference and one
/// red-difference byte, in that order.)
pub proof fn lemma_nv12_round_trip(frame: RgbFrame)
    requires
        frame.wf(),
        frame.width % 2 == 0,
        frame.height % 2 == 0,
        uniform_blocks(frame.pixels@, frame.width as int, frame.height as int),
    ensures
        ({
            let (px, w, h) = (frame.pixels@, frame.width as int, frame.height as int);
            let data = nv12_of(px, w, h);
            let back = rgb_of_nv12(data, w, h);
            &&& nv12_size_ok(data, frame.width, frame.height)
            &&& back.len() == px.len()
            &&& forall|k: int| 0 <= k < px.len() ==> within(px[k] as int, #[trigger] back[k] as int, 5)
        }),
{
    let (px, w, h) = (frame.pixels@, frame.width as int, frame.height as int);
    let data = nv12_of(px, w, h);
    let back = rgb_of_nv12(data, w, h);
    assert forall|k: int| 0 <= k < px.len() implies within(px[k] as int, #[trigger] back[k] as int, 5) by {
        assert(w > 0 && h > 0) by (nonlinear_arith)
            requires 0 <= k < w * h * 3, w >= 0, h >= 0;
        lemma_block_indices(w, h, k);
        let p = k / 3;
        let x = p % w;
        let y = p / w;
        let j = (y / 2) * w + (x / 2) * 2;
        let corner = (2 * (y / 2)) * w + (x / 2) * 2;
        let n = w * h;
        let i = n + j;
        assert(i == w * h + (y / 2) * w + (x / 2) * 2);
        assert(data[p] == nv12_byte(px, w, h, p));
        assert(data[i] == nv12_byte(px, w, h, i));
        assert(data[i + 1] == nv12_byte(px, w, h, i + 1));
        assert(px[3 * p] == px[3 * corner]);
        assert(px[3 * p + 1] == px[3 * corner + 1]);
        assert(px[3 * p + 2] == px[3 * corner + 2]);
        let (r, g, b) = (px[3 * p] as int, px[3 * p + 1] as int, px[3 * p + 2] as int);
        assert(data[p] == luma(r, g, b));
        assert(data[i] == chroma_u(r, g, b));
        assert(data[i + 1] == chroma_v(r, g, b));
        assert(back[k] == rgb_byte(data, w, h, k));
        lemma_pixel_round_trip(r, g, b);
    }
}

} // verus!
