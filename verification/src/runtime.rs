use std::sync::atomic::{AtomicBool, Ordering};
use std::sync::Arc;
use vstd::prelude::*;

use crate::capability::{CaptureDevice, CaptureMode, DeviceKind, FrameRate, PixelFormat};
use crate::wire::{push_all, push_u32, read_u32, u32_at, u32_le, lemma_u32_round_trip};

verus! {

/// A background task: raising `stop` asks it to end; it raises `done` when
/// it has ended.
pub struct Running {
    pub stop: Arc<AtomicBool>,
    pub done: Arc<AtomicBool>,
}

impl Running {
    /// Asks the task to end; it checks the flag between frames.
    pub fn stop(&self) {
        self.stop.store(true, Ordering::Relaxed);
    }
}

/// A picture as 8-bit RGB triples, row by row.
#[derive(Debug, Clone, PartialEq, Eq)]
pub struct RgbFrame {
    pub width: u32,
    pub height: u32,
    pub pixels: Vec<u8>,
}

impl RgbFrame {
    /// Exactly three bytes per pixel.
    pub open spec fn wf(&self) -> bool {
        self.pixels@.len() == (self.width as int) * (self.height as int) * 3
    }
}

/// RGB bytes of BGRX pixels: each 4-byte pixel gives its bytes 2, 1 and 0.
pub open spec fn rgb_of_xrgb(data: Seq<u8>) -> Seq<u8>
    decreases data.len(),
{
    if data.len() < 4 {
        Seq::empty()
    } else {
        let n = data.len() as int;
        rgb_of_xrgb(data.take(n - 4)) + seq![data[n - 2], data[n - 3], data[n - 4]]
    }
}

/// BGRX bytes of RGB pixels: each 3-byte pixel gives blue, green, red, zero.
pub open spec fn xrgb_of_rgb(data: Seq<u8>) -> Seq<u8>
    decreases data.len(),
{
    if data.len() < 3 {
        Seq::empty()
    } else {
        let n = data.len() as int;
        xrgb_of_rgb(data.take(n - 3)) + seq![data[n - 1], data[n - 2], data[n - 3], 0u8]
    }
}

/// A frame size that the wire and the decoders accept: 1 to 8192 each way.
pub open spec fn frame_size_valid(w: u32, h: u32) -> bool {
    0 < w <= 8192 && 0 < h <= 8192
}

pub open spec fn spec_rgb_from_xrgb(data: Seq<u8>, w: u32, h: u32) -> Result<Seq<u8>, Seq<char>> {
    if !frame_size_valid(w, h) || data.len() != (w as int) * (h as int) * 4 {
        Err("잘못된 XRGB 프레임 크기"@)
    } else {
        Ok(rgb_of_xrgb(data))
    }
}

proof fn lemma_rgb_of_xrgb_len(data: Seq<u8>, p: nat)
    requires
        data.len() == 4 * p,
    ensures
        rgb_of_xrgb(data).len() == 3 * p,
    decreases p,
{
    if p > 0 {
        lemma_rgb_of_xrgb_len(data.take(data.len() - 4), (p - 1) as nat);
    }
}

proof fn lemma_xrgb_of_rgb_len(data: Seq<u8>, p: nat)
    requires
        data.len() == 3 * p,
    ensures
        xrgb_of_rgb(data).len() == 4 * p,
    decreases p,
{
    if p > 0 {
        lemma_xrgb_of_rgb_len(data.take(data.len() - 3), (p - 1) as nat);
    }
}

/// Turns a BGRX frame into RGB, checking that the size is usable and that
/// `data` holds exactly `w * h` pixels.
pub fn rgb_from_xrgb(data: &[u8], w: u32, h: u32) -> (r: Result<RgbFrame, String>)
    ensures
        match (r, spec_rgb_from_xrgb(data@, w, h)) {
            (Ok(f), Ok(px)) => f.width == w && f.height == h && f.pixels@ == px && f.wf(),
            (Err(e), Err(msg)) => e@ == msg,
            _ => false,
        },
{
    if w == 0 || h == 0 || w > 8192 || h > 8192 {
        return Err(String::from_str("잘못된 XRGB 프레임 크기"));
    }
    assert((w as usize) * (h as usize) <= 8192 * 8192) by (nonlinear_arith)
        requires w <= 8192, h <= 8192;
    let count: usize = w as usize * h as usize;
    if data.len() != count * 4 {
        return Err(String::from_str("잘못된 XRGB 프레임 크기"));
    }
    let mut pixels: Vec<u8> = Vec::new();
    let mut p: usize = 0;
    while p < count
        invariant
            data@.len() == 4 * count,
            count <= 8192 * 8192,
            p <= count,
            pixels@ == rgb_of_xrgb(data@.take(4 * p)),
        decreases count - p,
    {
        let i = 4 * p;
        pixels.push(data[i + 2]);
        pixels.push(data[i + 1]);
        pixels.push(data[i]);
        assert(data@.take(4 * (p + 1)).take(4 * p) =~= data@.take(4 * p));
        p = p + 1;
        assert(pixels@ =~= rgb_of_xrgb(data@.take(4 * p)));
    }
    assert(data@.take(4 * count) =~= data@);
    proof {
        lemma_rgb_of_xrgb_len(data@, count as nat);
    }
    Ok(RgbFrame { width: w, height: h, pixels })
}

/// BGRX bytes of a frame, four per pixel with the last one zero.
pub fn xrgb_from_rgb(frame: &RgbFrame) -> (r: Vec<u8>)
    requires
        frame.wf(),
    ensures
        r@ == xrgb_of_rgb(frame.pixels@),
{
    let count: usize = frame.pixels.len() / 3;
    assert(frame.pixels@.len() == 3 * count) by (nonlinear_arith)
        requires frame.pixels@.len() == (frame.width as int) * (frame.height as int) * 3, count == frame.pixels@.len() / 3;
    let mut out: Vec<u8> = Vec::new();
    let mut p: usize = 0;
    while p < count
        invariant
            frame.pixels@.len() == 3 * count,
            3 * count <= usize::MAX,
            p <= count,
            out@ == xrgb_of_rgb(frame.pixels@.take(3 * p)),
        decreases count - p,
    {
        let i = 3 * p;
        out.push(frame.pixels[i + 2]);
        out.push(frame.pixels[i + 1]);
        out.push(frame.pixels[i]);
        out.push(0);
        assert(frame.pixels@.take(3 * (p + 1)).take(3 * p) =~= frame.pixels@.take(3 * p));
        p = p + 1;
        assert(out@ =~= xrgb_of_rgb(frame.pixels@.take(3 * p)));
    }
    assert(frame.pixels@.take(3 * count) =~= frame.pixels@);
    out
}

proof fn lemma_xrgb_round_trip_seq(px: Seq<u8>, p: nat)
    requires
        px.len() == 3 * p,
    ensures
        rgb_of_xrgb(xrgb_of_rgb(px)) == px,
    decreases p,
{
    if p > 0 {
        let n = px.len() as int;
        let front = px.take(n - 3);
        lemma_xrgb_round_trip_seq(front, (p - 1) as nat);
        lemma_xrgb_of_rgb_len(front, (p - 1) as nat);
        let x = xrgb_of_rgb(px);
        assert(x == xrgb_of_rgb(front) + seq![px[n - 1], px[n - 2], px[n - 3], 0u8]);
        assert(x.take(x.len() - 4) =~= xrgb_of_rgb(front));
        assert(rgb_of_xrgb(x) =~= px);
    }
}

/// Converting a frame to BGRX and back gives the same frame.
pub proof fn lemma_xrgb_round_trip(frame: RgbFrame)
    requires
        frame.wf(),
        frame_size_valid(frame.width, frame.height),
    ensures
        xrgb_of_rgb(frame.pixels@).len() == (frame.width as int) * (frame.height as int) * 4,
        spec_rgb_from_xrgb(xrgb_of_rgb(frame.pixels@), frame.width, frame.height) == Ok::<Seq<u8>, Seq<char>>(frame.pixels@),
{
    let p = (frame.width as int) * (frame.height as int);
    assert(p >= 0) by (nonlinear_arith)
        requires frame.width >= 0, frame.height >= 0, p == (frame.width as int) * (frame.height as int);
    lemma_xrgb_of_rgb_len(frame.pixels@, p as nat);
    lemma_xrgb_round_trip_seq(frame.pixels@, p as nat);
}

/// What the JPEG encoder of the `image` crate writes for these RGB pixels
/// at this quality, or the text of its error.
pub uninterp spec fn jpeg_encoding(pixels: Seq<u8>, width: u32, height: u32, quality: u8) -> Result<Seq<u8>, Seq<char>>;

/// Calls `image::codecs::jpeg::JpegEncoder::new_with_quality(..).encode(..)`
/// on 8-bit RGB pixels; its result is named `jpeg_encoding`. The encoder
/// panics unless there are exactly three bytes per pixel.
#[verifier::external_body]
fn jpeg_encode_rgb(pixels: &[u8], width: u32, height: u32, quality: u8) -> (r: Result<Vec<u8>, String>)
    requires
        pixels@.len() == (width as int) * (height as int) * 3,
    ensures
        match r {
            Ok(v) => jpeg_encoding(pixels@, width, height, quality) == Ok::<Seq<u8>, Seq<char>>(v@),
            Err(e) => jpeg_encoding(pixels@, width, height, quality) == Err::<Seq<u8>, Seq<char>>(e@),
        },
{
    let mut data = Vec::new();
    let result = image::codecs::jpeg::JpegEncoder::new_with_quality(&mut data, quality).encode(
        pixels,
        width,
        height,
        image::ExtendedColorType::Rgb8,
    );
    match result {
        Ok(()) => Ok(data),
        Err(e) => Err(e.to_string()),
    }
}

/// Encodes a frame as JPEG at the given quality (1 to 100; others are clamped).
pub fn encode_jpeg(rgb: &RgbFrame, quality: u8) -> (r: Result<Vec<u8>, String>)
    requires
        rgb.wf(),
    ensures
        match r {
            Ok(v) => jpeg_encoding(rgb.pixels@, rgb.width, rgb.height, quality) == Ok::<Seq<u8>, Seq<char>>(v@),
            Err(e) => jpeg_encoding(rgb.pixels@, rgb.width, rgb.height, quality) == Err::<Seq<u8>, Seq<char>>(e@),
        },
{
    jpeg_encode_rgb(rgb.pixels.as_slice(), rgb.width, rgb.height, quality)
}

/// What `image::imageops::resize` with `FilterType::Triangle` gives for an
/// RGB picture of `width` by `height` resized to `new_width` by `new_height`.
pub uninterp spec fn triangle_resize(pixels: Seq<u8>, width: u32, height: u32, new_width: u32, new_height: u32) -> Seq<u8>;

/// Calls `image::imageops::resize(.., FilterType::Triangle)` on an 8-bit RGB
/// picture; its pixels are named `triangle_resize`. The `image` source shows
/// that the result has the new size, three bytes per pixel, and is a copy
/// when the size does not change. Its buffers must fit in memory: the
/// intermediate one holds `width * new_height` four-channel `f32` pixels.
#[verifier::external_body]
fn resize_rgb(pixels: &[u8], width: u32, height: u32, new_width: u32, new_height: u32) -> (r: Vec<u8>)
    requires
        pixels@.len() == (width as int) * (height as int) * 3,
        new_width >= 1,
        new_height >= 1,
        (new_width as int) * (new_height as int) * 3 <= isize::MAX,
        (width as int) * (new_height as int) * 16 <= isize::MAX,
    ensures
        r@ == triangle_resize(pixels@, width, height, new_width, new_height),
        r@.len() == (new_width as int) * (new_height as int) * 3,
        new_width == width && new_height == height ==> r@ == pixels@,
{
    let image = image::RgbImage::from_raw(width, height, pixels.to_vec()).unwrap();
    image::imageops::resize(&image, new_width, new_height, image::imageops::FilterType::Triangle).into_raw()
}

/// The picture resized to `new_width` by `new_height` with the triangle
/// filter.
pub fn resize_frame(frame: &RgbFrame, new_width: u32, new_height: u32) -> (r: RgbFrame)
    requires
        frame.wf(),
        new_width >= 1,
        new_height >= 1,
        (new_width as int) * (new_height as int) * 3 <= isize::MAX,
        (frame.width as int) * (new_height as int) * 16 <= isize::MAX,
    ensures
        r.wf(),
        r.width == new_width,
        r.height == new_height,
        r.pixels@ == triangle_resize(frame.pixels@, frame.width, frame.height, new_width, new_height),
        new_width == frame.width && new_height == frame.height ==> r.pixels@ == frame.pixels@,
{
    let pixels = resize_rgb(frame.pixels.as_slice(), frame.width, frame.height, new_width, new_height);
    RgbFrame { width: new_width, height: new_height, pixels }
}

/// The built-in moving test pattern: 640×480 XRGB at 30 fps, no hardware.
pub open spec fn is_test_device(d: CaptureDevice) -> bool {
    &&& d.symbolic_link@ == "cambridge:test-pattern"@
    &&& d.name@ == "테스트 패턴 (실제 장치 아님)"@
    &&& d.kind == DeviceKind::VideoCaptureDevice
    &&& d.probe_error is None
    &&& d.modes@ == seq![CaptureMode {
            width: 640,
            height: 480,
            fps: FrameRate { numerator: 30, denominator: 1 },
            format: PixelFormat::Xrgb8888,
            native_type_index: 0,
            verified_openable: true,
        }]
}

/// The built-in moving test pattern, offered as a device; no hardware.
pub fn test_device() -> (d: CaptureDevice)
    ensures
        is_test_device(d),
{
    let mut modes: Vec<CaptureMode> = Vec::new();
    modes.push(CaptureMode {
        width: 640,
        height: 480,
        fps: FrameRate::new(30, 1),
        format: PixelFormat::Xrgb8888,
        native_type_index: 0,
        verified_openable: true,
    });
    assert(modes@ =~= seq![CaptureMode {
            width: 640,
            height: 480,
            fps: FrameRate { numerator: 30, denominator: 1 },
            format: PixelFormat::Xrgb8888,
            native_type_index: 0,
            verified_openable: true,
        }]);
    CaptureDevice {
        symbolic_link: String::from_str("cambridge:test-pattern"),
        name: String::from_str("테스트 패턴 (실제 장치 아님)"),
        kind: DeviceKind::VideoCaptureDevice,
        modes,
        probe_error: None,
    }
}

/// Byte `k` of the test pattern: BGRX pixels whose blue runs along the row,
/// shifted by `phase`, whose green follows the row number, and whose red is
/// constant.
pub open spec fn pattern_byte(width: u32, phase: u32, k: int) -> u8 {
    let p = k / 4;
    let x = p % (width as int);
    let y = p / (width as int);
    let c = k % 4;
    if c == 0 {
        (((x + phase) % 0x1_0000_0000) % 256) as u8
    } else if c == 1 {
        (y % 256) as u8
    } else if c == 2 {
        180
    } else {
        0
    }
}

/// One frame of the moving test pattern, as BGRX.
pub fn test_pattern(width: u32, height: u32, phase: u32) -> (r: Vec<u8>)
    requires
        (width as int) * (height as int) * 4 <= usize::MAX,
    ensures
        r@ == Seq::new(((width as int) * (height as int) * 4) as nat, |k: int| pattern_byte(width, phase, k)),
{
    let ghost expected = Seq::new(((width as int) * (height as int) * 4) as nat, |k: int| pattern_byte(width, phase, k));
    let count = width as usize * height as usize;
    let mut out: Vec<u8> = Vec::new();
    let mut p: usize = 0;
    while p < count
        invariant
            count == (width as int) * (height as int),
            count * 4 <= usize::MAX,
            expected == Seq::new(((width as int) * (height as int) * 4) as nat, |k: int| pattern_byte(width, phase, k)),
            p <= count,
            out@ == expected.take(4 * p),
        decreases count - p,
    {
        proof {
            assert(width > 0 && (p as int) / (width as int) < height) by (nonlinear_arith)
                requires p < count, count == (width as int) * (height as int);
        }
        let x = (p % width as usize) as u32;
        let y = (p / width as usize) as u32;
        proof {
            assert forall|c: int| 0 <= c < 4 implies (4 * p + c) / 4 == p && #[trigger] ((4 * p + c) % 4) == c by {
                assert((4 * p + c) / 4 == p && (4 * p + c) % 4 == c) by (nonlinear_arith)
                    requires 0 <= c < 4, p >= 0;
            }
            assert(x == (p as int) % (width as int) && y == (p as int) / (width as int));
        }
        out.push((x.wrapping_add(phase) % 256) as u8);
        out.push((y % 256) as u8);
        out.push(180);
        out.push(0);
        proof {
            assert((x.wrapping_add(phase) % 256) as u8 == (((x + phase) % 0x1_0000_0000) % 256) as u8) by (bit_vector)
                requires x <= u32::MAX, phase <= u32::MAX;
        }
        p = p + 1;
        assert(out@ =~= expected.take(4 * p));
    }
    out
}

/// Size and frame rate a sender produces from its input mode: the size
/// divided by `output_divisor` (taken as 1 to 4) and rounded down to even
/// numbers, at least 2; the frame rate lowered to `fps_limit` when that is
/// set (nonzero) and below the input rate. Rates are compared exactly as
/// fractions, which for 32-bit terms agrees with comparing them as `f64`.
pub open spec fn spec_sender_output(mode: CaptureMode, output_divisor: u32, fps_limit: u32) -> (u32, u32, FrameRate) {
    let divisor: u32 = if output_divisor < 1 { 1 } else if output_divisor > 4 { 4 } else { output_divisor };
    let w = mode.width / divisor / 2 * 2;
    let h = mode.height / divisor / 2 * 2;
    let den: int = if mode.fps.denominator == 0 { 1 } else { mode.fps.denominator as int };
    (
        if w < 2 { 2 } else { w as u32 },
        if h < 2 { 2 } else { h as u32 },
        if fps_limit > 0 && (fps_limit as int) * den < mode.fps.numerator {
            FrameRate { numerator: fps_limit, denominator: 1 }
        } else {
            mode.fps
        },
    )
}

pub fn sender_output(mode: &CaptureMode, output_divisor: u32, fps_limit: u32) -> (r: (u32, u32, FrameRate))
    ensures
        r == spec_sender_output(*mode, output_divisor, fps_limit),
{
    let divisor: u32 = if output_divisor < 1 { 1 } else if output_divisor > 4 { 4 } else { output_divisor };
    let w0 = mode.width / divisor / 2 * 2;
    let h0 = mode.height / divisor / 2 * 2;
    let w = if w0 < 2 { 2 } else { w0 };
    let h = if h0 < 2 { 2 } else { h0 };
    let den: u64 = if mode.fps.denominator == 0 { 1 } else { mode.fps.denominator as u64 };
    let limit = fps_limit as u64;
    proof {
        assert(limit * den <= 0xffff_ffffu64 * 0xffff_ffffu64) by (nonlinear_arith)
            requires limit <= 0xffff_ffffu64, den <= 0xffff_ffffu64;
    }
    let fps = if fps_limit > 0 && limit * den < mode.fps.numerator as u64 {
        FrameRate::new(fps_limit, 1)
    } else {
        mode.fps
    };
    (w, h, fps)
}

/// One frame period in units of 100 ns; a zero numerator counts as one.
pub open spec fn spec_frame_interval(fps: FrameRate) -> int {
    let num: int = if fps.numerator == 0 { 1 } else { fps.numerator as int };
    10000000 * (fps.denominator as int) / num
}

pub fn frame_interval_100ns(fps: FrameRate) -> (r: i64)
    ensures
        r == spec_frame_interval(fps),
{
    let num: i64 = if fps.numerator == 0 { 1 } else { fps.numerator as i64 };
    let scaled: i64 = 10000000i64 * fps.denominator as i64;
    proof {
        assert(scaled / num <= scaled) by (nonlinear_arith)
            requires scaled >= 0, num >= 1;
        assert(scaled / num >= 0) by (nonlinear_arith)
            requires scaled >= 0, num >= 1;
    }
    scaled / num
}

/// Largest codec configuration that a frame may carry.
pub const MAX_CODEC_CONFIG: usize = 65536;

#[derive(Debug, Clone, Copy, PartialEq, Eq, Structural)]
pub enum CodecPayloadError {
    /// Shorter than the 4-byte configuration length.
    TooShort,
    /// The configuration is longer than 64 KiB or than the payload.
    BadConfigLength,
}

/// A compressed frame's payload: the configuration's length (4 bytes,
/// little-endian), the configuration, then the bitstream.
pub open spec fn codec_payload(config: Seq<u8>, data: Seq<u8>) -> Seq<u8> {
    u32_le(config.len() as u32) + config + data
}

pub fn pack_codec_payload(config: &[u8], data: &[u8]) -> (r: Vec<u8>)
    ensures
        r@ == codec_payload(config@, data@),
{
    let mut payload: Vec<u8> = Vec::new();
    push_u32(&mut payload, config.len() as u32);
    push_all(&mut payload, config);
    push_all(&mut payload, data);
    payload
}

pub open spec fn spec_split_codec_payload(p: Seq<u8>) -> Result<(Seq<u8>, Seq<u8>), CodecPayloadError> {
    if p.len() < 4 {
        Err(CodecPayloadError::TooShort)
    } else if u32_at(p, 0) > MAX_CODEC_CONFIG || u32_at(p, 0) + 4 > p.len() {
        Err(CodecPayloadError::BadConfigLength)
    } else {
        Ok((p.subrange(4, 4 + u32_at(p, 0)), p.subrange(4 + u32_at(p, 0), p.len() as int)))
    }
}

/// Splits a compressed frame's payload into configuration and bitstream.
pub fn split_codec_payload(payload: &[u8]) -> (r: Result<(&[u8], &[u8]), CodecPayloadError>)
    ensures
        match (r, spec_split_codec_payload(payload@)) {
            (Ok((c, d)), Ok((ec, ed))) => c@ == ec && d@ == ed,
            (Err(e), Err(ee)) => e == ee,
            _ => false,
        },
{
    if payload.len() < 4 {
        return Err(CodecPayloadError::TooShort);
    }
    let length = read_u32(payload, 0) as usize;
    if length > MAX_CODEC_CONFIG || length + 4 > payload.len() {
        return Err(CodecPayloadError::BadConfigLength);
    }
    Ok((&payload[4..4 + length], &payload[4 + length..payload.len()]))
}

/// Splitting a packed payload gives back its configuration and bitstream.
pub proof fn lemma_codec_payload_round_trip(config: Seq<u8>, data: Seq<u8>)
    requires
        config.len() <= MAX_CODEC_CONFIG,
    ensures
        spec_split_codec_payload(codec_payload(config, data)) == Ok::<(Seq<u8>, Seq<u8>), CodecPayloadError>((config, data)),
{
    let p = codec_payload(config, data);
    assert(p.subrange(0, 4) =~= u32_le(config.len() as u32));
    lemma_u32_round_trip(config.len() as u32, p, 0);
    assert(p.subrange(4, 4 + config.len() as int) =~= config);
    assert(p.subrange(4 + config.len() as int, p.len() as int) =~= data);
}

} // verus!
