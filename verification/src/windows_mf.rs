use vstd::prelude::*;

use crate::capability::{classify_device, spec_classify_device, CaptureMode, DeviceKind, FrameRate, PixelFormat, TransportCodec};
use crate::wire::push_all;

verus! {

/// The two 32-bit halves (high, low) of a packed 64-bit attribute, such as
/// a frame size (width, height) or a frame rate (numerator, denominator).
/// Splits a Media Foundation packed pair (frame size or frame rate): the
/// high 32 bits first, then the low 32 bits.
pub fn unpack_pair(value: u64) -> (r: (u32, u32))
    ensures
        r.0 == value / 0x1_0000_0000,
        r.1 == value % 0x1_0000_0000,
{
    let high = (value >> 32) as u32;
    let low = value as u32;
    assert(high == value / 0x1_0000_0000 && low == value % 0x1_0000_0000) by (bit_vector)
        requires high == (value >> 32) as u32, low == value as u32;
    (high, low)
}

/// The device kind as far as name and link suggest it.
/// A native media type as a capture mode, from its packed frame size and
/// frame rate; a type with a zero size or rate term is no usable mode.
pub open spec fn spec_native_mode(size: u64, rate: u64, format: PixelFormat, index: u32, openable: bool) -> Option<CaptureMode> {
    let width = (size / 0x1_0000_0000) as u32;
    let height = (size % 0x1_0000_0000) as u32;
    let numerator = (rate / 0x1_0000_0000) as u32;
    let denominator = (rate % 0x1_0000_0000) as u32;
    if width == 0 || height == 0 || numerator == 0 || denominator == 0 {
        None
    } else {
        Some(CaptureMode {
            width,
            height,
            fps: FrameRate { numerator, denominator },
            format,
            native_type_index: index,
            verified_openable: openable,
        })
    }
}

pub fn native_mode(size: u64, rate: u64, format: PixelFormat, index: u32, openable: bool) -> (r: Option<CaptureMode>)
    ensures
        r == spec_native_mode(size, rate, format, index, openable),
{
    let (width, height) = unpack_pair(size);
    let (numerator, denominator) = unpack_pair(rate);
    if width == 0 || height == 0 || numerator == 0 || denominator == 0 {
        return None;
    }
    Some(CaptureMode {
        width,
        height,
        fps: FrameRate::new(numerator, denominator),
        format,
        native_type_index: index,
        verified_openable: openable,
    })
}

/// The native type found again at a mode's index is still that mode: same
/// size, frame rate and format.
pub fn native_type_matches(size: u64, rate: u64, format: PixelFormat, mode: &CaptureMode) -> (r: bool)
    ensures
        r == (size / 0x1_0000_0000 == mode.width && size % 0x1_0000_0000 == mode.height
            && rate / 0x1_0000_0000 == mode.fps.numerator && rate % 0x1_0000_0000 == mode.fps.denominator
            && format == mode.format),
{
    let (width, height) = unpack_pair(size);
    let (numerator, denominator) = unpack_pair(rate);
    width == mode.width && height == mode.height && numerator == mode.fps.numerator && denominator
        == mode.fps.denominator && format == mode.format
}

/// The device's bitstream that is taken as it is: a compressed input format
/// whose codec is the transport codec, or any MJPEG input.
pub open spec fn spec_native_stream(format: PixelFormat, transport: TransportCodec) -> Option<TransportCodec> {
    match TransportCodec::spec_from_input(format) {
        Some(c) => if format.spec_compressed() && (c == transport || format == PixelFormat::Mjpeg) {
            Some(c)
        } else {
            None
        },
        None => None,
    }
}

pub fn native_stream(format: PixelFormat, transport: TransportCodec) -> (r: Option<TransportCodec>)
    ensures
        r == spec_native_stream(format, transport),
{
    match TransportCodec::from_input(format) {
        Some(c) => if format.compressed() && (c == transport || format == PixelFormat::Mjpeg) {
            Some(c)
        } else {
            None
        },
        None => None,
    }
}

/// The device kind guessed from name and link only; no device property is
/// trusted for it.
pub fn conservative_kind(name: &str, symbolic_link: &str) -> (r: DeviceKind)
    ensures
        r == spec_classify_device(name@, symbolic_link@),
{
    classify_device(name, symbolic_link)
}

/// Bytes between the starts of two rows of a converted frame.
pub open spec fn pitch_of(stride: i32) -> int {
    if stride < 0 { -(stride as int) } else { stride as int }
}

/// Source row of output row `y`: a negative stride means bottom-up rows.
pub open spec fn source_row(stride: i32, height: int, y: int) -> int {
    if stride < 0 { height - 1 - y } else { y }
}

/// The 4-byte pixels of a frame that the converter wrote with rows `stride`
/// bytes apart, as tightly packed top-down rows.
pub open spec fn packed_rows(data: Seq<u8>, stride: i32, width: u32, height: u32) -> Seq<u8> {
    let row = (width as int) * 4;
    Seq::new(
        (row * height) as nat,
        |k: int| data[source_row(stride, height as int, k / row) * pitch_of(stride) + k % row],
    )
}

/// The converter's rows cover every pixel and the buffer holds them all.
pub open spec fn rows_fit(data: Seq<u8>, stride: i32, width: u32) -> bool {
    pitch_of(stride) >= (width as int) * 4
}

pub open spec fn spec_pack_rows(data: Seq<u8>, stride: i32, width: u32, height: u32) -> Result<Seq<u8>, Seq<char>> {
    if !rows_fit(data, stride, width) || data.len() < pitch_of(stride) * height {
        Err("잘린 RGB 프레임"@)
    } else {
        Ok(packed_rows(data, stride, width, height))
    }
}

proof fn lemma_row_slot(row: int, y: int, c: int)
    requires
        row > 0,
        y >= 0,
        0 <= c < row,
    ensures
        (y * row + c) / row == y,
        (y * row + c) % row == c,
{
    assert((y * row + c) / row == y && (y * row + c) % row == c) by (nonlinear_arith)
        requires row > 0, y >= 0, 0 <= c < row;
}

/// Packs the rows of a converted frame tightly, top row first.
/// Copies the rows of a captured 4-byte-per-pixel buffer into one tight
/// picture, top row first: a negative stride means the buffer holds the
/// rows bottom-up, `|stride|` bytes apart.
pub fn pack_rows(data: &[u8], stride: i32, width: u32, height: u32) -> (r: Result<Vec<u8>, String>)
    requires
        data@.len() <= isize::MAX,
    ensures
        match (r, spec_pack_rows(data@, stride, width, height)) {
            (Ok(v), Ok(expected)) => v@ == expected,
            (Err(e), Err(msg)) => e@ == msg,
            _ => false,
        },
{
    let pitch: u64 = if stride < 0 { (-(stride as i64)) as u64 } else { stride as u64 };
    let row: u64 = width as u64 * 4;
    assert((pitch as u128) * (height as u128) <= 0x1_0000_0000u128 * 0xffff_ffffu128) by (nonlinear_arith)
        requires pitch <= 0x1_0000_0000u64, height <= 0xffff_ffffu32;
    if pitch < row || (data.len() as u128) < (pitch as u128) * (height as u128) {
        return Err(String::from_str("잘린 RGB 프레임"));
    }
    let h = height as usize;
    let p = pitch as usize;
    let rw = row as usize;
    assert(p * h <= data@.len());
    let ghost expected = packed_rows(data@, stride, width, height);
    let mut pixels: Vec<u8> = Vec::new();
    if rw == 0 {
        assert(expected.len() == 0) by {
            assert((rw as int) * (height as int) == 0) by (nonlinear_arith)
                requires rw == 0;
        }
        assert(pixels@ =~= expected);
        return Ok(pixels);
    }
    let mut y: usize = 0;
    while y < h
        invariant
            rw == (width as int) * 4,
            rw > 0,
            p == pitch_of(stride),
            p >= rw,
            h == height,
            p * h <= data@.len(),
            data@.len() <= isize::MAX,
            expected == packed_rows(data@, stride, width, height),
            y <= h,
            pixels@ == expected.take(y * rw),
        decreases h - y,
    {
        let sy: usize = if stride < 0 { h - 1 - y } else { y };
        assert(sy * p + rw <= p * h) by (nonlinear_arith)
            requires sy < h, rw <= p;
        let start = sy * p;
        let ghost before = pixels@;
        push_all(&mut pixels, &data[start..start + rw]);
        proof {
            assert(y * rw + rw <= h * rw) by (nonlinear_arith)
                requires y < h, rw > 0;
            assert((y + 1) * rw == y * rw + rw) by (nonlinear_arith);
            assert forall|k: int| y * rw <= k < (y + 1) * rw implies #[trigger] expected[k] == pixels@[k] by {
                lemma_row_slot(rw as int, y as int, k - y * rw);
                assert(k == y * rw + (k - y * rw));
            }
            assert((y + 1) * rw == y * rw + rw) by (nonlinear_arith);
        }
        y = y + 1;
        assert(pixels@ =~= expected.take(y * rw));
    }
    assert(h * rw == expected.len()) by (nonlinear_arith)
        requires expected.len() == rw * h;
    assert(pixels@ =~= expected);
    Ok(pixels)
}

} // verus!
