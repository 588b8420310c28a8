use vstd::prelude::*;

use crate::capability::{CaptureMode, FrameRate, TransportCodec};
use crate::net::{elapsed, elapsed_nanos};
use crate::pipeline::{sender_work, SenderWork};
use crate::protocol::{FrameHeader, FLAG_KEYFRAME};
use crate::receiver::{is_keyframe_request, keyframe_request_bytes, IDLE_TIMEOUT};
use crate::runtime::{frame_interval_100ns, sender_output, spec_frame_interval, spec_sender_output};
use crate::transport::{spec_decode_hello, HandshakeError, ReceiverHello};

verus! {

/// How often a sender pings its receiver (1 s).
pub const PING_INTERVAL: u64 = 1000000000;

/// How often an encoder is asked for a keyframe (1 s).
pub const KEYFRAME_INTERVAL: u64 = 1000000000;

/// How often the local preview is refreshed (66 ms).
pub const PREVIEW_INTERVAL: u64 = 66000000;

/// Why a sender refuses to start.
#[derive(Debug, Clone, Copy, PartialEq, Eq, Structural)]
pub enum SenderRefusal {
    /// The output would be larger or faster than the selected input.
    OutputExceedsInput,
    /// A compressed stream sent without an encoder must keep the input's
    /// size and frame rate.
    PassthroughNeedsSourceFormat,
}

/// What a sender produces: size, frame rate, and whether the size is the
/// input's own.
#[derive(Debug, Clone, Copy, PartialEq, Eq, Structural)]
pub struct OutputPlan {
    pub width: u32,
    pub height: u32,
    pub fps: FrameRate,
    pub full_size: bool,
}

pub open spec fn is_compressed_codec(codec: TransportCodec) -> bool {
    codec == TransportCodec::H264 || codec == TransportCodec::Hevc || codec == TransportCodec::Av1
}

pub open spec fn spec_sender_plan(
    mode: CaptureMode,
    codec: TransportCodec,
    has_encoder: bool,
    output_divisor: u32,
    fps_limit: u32,
) -> Result<OutputPlan, SenderRefusal> {
    let (w, h, fps) = spec_sender_output(mode, output_divisor, fps_limit);
    let full_size = w == mode.width && h == mode.height;
    if !mode.spec_allows_output(w, h, fps) {
        Err(SenderRefusal::OutputExceedsInput)
    } else if !has_encoder && is_compressed_codec(codec) && (!full_size || fps != mode.fps) {
        Err(SenderRefusal::PassthroughNeedsSourceFormat)
    } else {
        Ok(OutputPlan { width: w, height: h, fps, full_size })
    }
}

/// Checks the sender's settings before anything is opened and gives the
/// output it will produce.
pub fn sender_plan(
    mode: &CaptureMode,
    codec: TransportCodec,
    has_encoder: bool,
    output_divisor: u32,
    fps_limit: u32,
) -> (r: Result<OutputPlan, SenderRefusal>)
    ensures
        r == spec_sender_plan(*mode, codec, has_encoder, output_divisor, fps_limit),
{
    let (w, h, fps) = sender_output(mode, output_divisor, fps_limit);
    let full_size = w == mode.width && h == mode.height;
    if !mode.allows_output(w, h, fps) {
        return Err(SenderRefusal::OutputExceedsInput);
    }
    let compressed = match codec {
        TransportCodec::H264 | TransportCodec::Hevc | TransportCodec::Av1 => true,
        _ => false,
    };
    if !has_encoder && compressed && (!full_size || fps != mode.fps) {
        return Err(SenderRefusal::PassthroughNeedsSourceFormat);
    }
    Ok(OutputPlan { width: w, height: h, fps, full_size })
}

/// A sender never produces more than its input, and a compressed stream
/// without an encoder is the input's own stream.
pub proof fn lemma_plan_within_input(mode: CaptureMode, codec: TransportCodec, has_encoder: bool, output_divisor: u32, fps_limit: u32)
    ensures
        spec_sender_plan(mode, codec, has_encoder, output_divisor, fps_limit) matches Ok(p) ==> p.width <= mode.width
            && p.height <= mode.height && p.fps.spec_at_most(mode.fps),
        spec_sender_plan(mode, codec, has_encoder, output_divisor, fps_limit) matches Ok(p) ==> (!has_encoder
            && is_compressed_codec(codec) ==> p.full_size && p.fps == mode.fps),
{
}

pub open spec fn spec_capture_codec(mode: CaptureMode, plan: OutputPlan, codec: TransportCodec, has_encoder: bool) -> TransportCodec {
    if (plan.width != mode.width || plan.height != mode.height || plan.fps != mode.fps) && has_encoder {
        TransportCodec::Xrgb8888
    } else {
        codec
    }
}

/// The format to ask the device for: raw pixels when an encoder must
/// resize or drop frames, else the transport codec itself.
pub fn capture_codec(mode: &CaptureMode, plan: &OutputPlan, codec: TransportCodec, has_encoder: bool) -> (r: TransportCodec)
    ensures
        r == spec_capture_codec(*mode, *plan, codec, has_encoder),
{
    if (plan.width != mode.width || plan.height != mode.height || plan.fps != mode.fps) && has_encoder {
        TransportCodec::Xrgb8888
    } else {
        codec
    }
}

/// What a packet from the receiver means to a sender streaming `codec`.
#[derive(Debug, Clone, Copy, PartialEq, Eq, Structural)]
pub enum ReceiverReply {
    /// The receiver lost frames and asks for a keyframe.
    KeyframeRequest,
    /// A hello that lists `codec`: the receiver is there.
    Ready,
    /// A hello without `codec`.
    CodecUnsupported,
    /// Not a hello this sender understands.
    Invalid(HandshakeError),
}

pub open spec fn spec_receiver_reply(packet: Seq<u8>, codec: TransportCodec) -> ReceiverReply {
    if packet == keyframe_request_bytes() {
        ReceiverReply::KeyframeRequest
    } else {
        match spec_decode_hello(packet) {
            Ok((_, codecs)) => if codecs.contains(codec) {
                ReceiverReply::Ready
            } else {
                ReceiverReply::CodecUnsupported
            },
            Err(e) => ReceiverReply::Invalid(e),
        }
    }
}

pub fn receiver_reply(packet: &[u8], codec: TransportCodec) -> (r: ReceiverReply)
    ensures
        r == spec_receiver_reply(packet@, codec),
{
    if is_keyframe_request(packet) {
        return ReceiverReply::KeyframeRequest;
    }
    match ReceiverHello::decode(packet) {
        Ok(hello) => if lists_codec(&hello.codecs, codec) {
            ReceiverReply::Ready
        } else {
            ReceiverReply::CodecUnsupported
        },
        Err(e) => ReceiverReply::Invalid(e),
    }
}

fn lists_codec(codecs: &Vec<TransportCodec>, codec: TransportCodec) -> (r: bool)
    ensures
        r == codecs@.contains(codec),
{
    let mut i: usize = 0;
    while i < codecs.len()
        invariant
            i <= codecs@.len(),
            forall|k: int| 0 <= k < i ==> codecs@[k] != codec,
        decreases codecs@.len() - i,
    {
        if codecs[i] == codec {
            assert(codecs@[i as int] == codec);
            return true;
        }
        i = i + 1;
    }
    false
}

/// The receiver answered less than `IDLE_TIMEOUT` ago.
pub open spec fn spec_receiver_active(seen: Option<u64>, now: u64) -> bool {
    match seen {
        Some(t) => elapsed(t, now) < IDLE_TIMEOUT,
        None => false,
    }
}

/// Network encoding runs only while the receiver keeps answering.
pub fn receiver_active(seen: Option<u64>, now: u64) -> (r: bool)
    ensures
        r == spec_receiver_active(seen, now),
{
    match seen {
        Some(t) => elapsed_nanos(t, now) < IDLE_TIMEOUT,
        None => false,
    }
}

/// More than `interval` has passed since `last`.
pub open spec fn spec_due(last: u64, now: u64, interval: u64) -> bool {
    elapsed(last, now) > interval
}

/// Whether more than `interval` nanoseconds passed since `last`: a ping is
/// due after `PING_INTERVAL`, a preview refresh after `PREVIEW_INTERVAL`.
pub fn due(last: u64, now: u64, interval: u64) -> (r: bool)
    ensures
        r == spec_due(last, now, interval),
{
    elapsed_nanos(last, now) > interval
}

/// Whether a periodic keyframe is due: `KEYFRAME_INTERVAL` or more since the last.
pub fn keyframe_due(last: u64, now: u64) -> (r: bool)
    ensures
        r == (elapsed(last, now) >= KEYFRAME_INTERVAL),
{
    elapsed_nanos(last, now) >= KEYFRAME_INTERVAL
}

/// Lets through at most one frame per frame period of the output rate.
pub struct FramePacer {
    next: i64,
}

impl View for FramePacer {
    type V = i64;

    /// The earliest timestamp that is let through next.
    closed spec fn view(&self) -> i64 {
        self.next
    }
}

impl FramePacer {
    pub fn new() -> (r: Self)
        ensures
            r@ == i64::MIN,
    {
        FramePacer { next: i64::MIN }
    }

    /// Whether the frame at `timestamp` (100 ns units) is sent; a sent frame
    /// holds back all frames of the next period.
    pub fn pass(&mut self, timestamp: i64, fps: FrameRate) -> (r: bool)
        requires
            timestamp + spec_frame_interval(fps) <= i64::MAX,
        ensures
            r == (timestamp >= old(self)@),
            r ==> final(self)@ == timestamp + spec_frame_interval(fps),
            !r ==> final(self)@ == old(self)@,
    {
        if timestamp < self.next {
            return false;
        }
        let interval = frame_interval_100ns(fps);
        self.next = timestamp + interval;
        true
    }
}

/// Two frames that both pass are at least one frame period apart.
pub proof fn lemma_pacing(next: i64, first: i64, second: i64, fps: FrameRate)
    requires
        first >= next,
        first + spec_frame_interval(fps) <= i64::MAX,
        second >= first + spec_frame_interval(fps),
    ensures
        second - first >= spec_frame_interval(fps),
        spec_frame_interval(fps) >= 0,
{
    let num: int = if fps.numerator == 0 { 1 } else { fps.numerator as int };
    assert(10000000 * (fps.denominator as int) / num >= 0) by (nonlinear_arith)
        requires num >= 1, fps.denominator >= 0;
}

/// Whether a picture must be decoded: for the preview, or to send anything
/// but the device's own JPEG at full size.
pub open spec fn spec_needs_picture(preview_due: bool, active: bool, native_jpeg: bool, codec: TransportCodec, full_size: bool) -> bool {
    preview_due || (active && !(native_jpeg && codec == TransportCodec::Jpeg && full_size))
}

pub fn needs_picture(preview_due: bool, active: bool, native_jpeg: bool, codec: TransportCodec, full_size: bool) -> (r: bool)
    ensures
        r == spec_needs_picture(preview_due, active, native_jpeg, codec, full_size),
{
    preview_due || (active && !(native_jpeg && codec == TransportCodec::Jpeg && full_size))
}

/// How a frame without an encoder becomes a payload.
#[derive(Debug, Clone, Copy, PartialEq, Eq, Structural)]
pub enum RawPayload {
    /// The device's JPEG, sent as it is.
    DeviceJpeg,
    /// The picture encoded as JPEG.
    EncodeJpeg,
    /// The picture as XRGB pixels.
    Xrgb,
    /// No encoder for this codec: the sender stops.
    Unsupported,
}

pub open spec fn spec_raw_payload(codec: TransportCodec, native_jpeg: bool, full_size: bool) -> RawPayload {
    if codec == TransportCodec::Jpeg {
        if native_jpeg && full_size { RawPayload::DeviceJpeg } else { RawPayload::EncodeJpeg }
    } else if codec == TransportCodec::Xrgb8888 {
        RawPayload::Xrgb
    } else {
        RawPayload::Unsupported
    }
}

pub fn raw_payload(codec: TransportCodec, native_jpeg: bool, full_size: bool) -> (r: RawPayload)
    ensures
        r == spec_raw_payload(codec, native_jpeg, full_size),
{
    match codec {
        TransportCodec::Jpeg => if native_jpeg && full_size { RawPayload::DeviceJpeg } else { RawPayload::EncodeJpeg },
        TransportCodec::Xrgb8888 => RawPayload::Xrgb,
        _ => RawPayload::Unsupported,
    }
}

/// The device delivers a compressed bitstream other than JPEG, which is
/// sent on without decoding.
pub fn compressed_source(native_codec: Option<TransportCodec>) -> (r: bool)
    ensures
        r == (native_codec matches Some(c) && c != TransportCodec::Jpeg),
{
    match native_codec {
        Some(c) => c != TransportCodec::Jpeg,
        None => false,
    }
}

/// The header of a frame as a sender sends it; the length is the payload's
/// length as a 32-bit number.
pub fn frame_header(
    codec: TransportCodec,
    keyframe: bool,
    width: u32,
    height: u32,
    fps: FrameRate,
    frame_id: u64,
    timestamp_100ns: i64,
    payload_len: usize,
) -> (r: FrameHeader)
    ensures
        r == (FrameHeader {
            codec,
            flags: if keyframe { FLAG_KEYFRAME } else { 0 },
            width,
            height,
            fps_numerator: fps.numerator,
            fps_denominator: fps.denominator,
            frame_id,
            timestamp_100ns,
            payload_len: payload_len as u32,
        }),
        r.spec_keyframe() == keyframe,
{
    let r = FrameHeader {
        codec,
        flags: if keyframe { FLAG_KEYFRAME } else { 0 },
        width,
        height,
        fps_numerator: fps.numerator,
        fps_denominator: fps.denominator,
        frame_id,
        timestamp_100ns,
        payload_len: payload_len as u32,
    };
    assert(1u16 & 1u16 != 0) by (bit_vector);
    assert(0u16 & 1u16 == 0) by (bit_vector);
    r
}

/// What a sender remembers between frames: the last frame id used, when the
/// receiver last answered and was last pinged, and, for the device that is
/// open, the pacing, whether an encoder and a local decoder are open, and
/// when a keyframe was last forced and the preview last refreshed.
#[derive(Debug, Clone, Copy, PartialEq, Eq, Structural)]
pub struct SessionState {
    pub last_id: u64,
    pub seen: Option<u64>,
    pub last_ping: Option<u64>,
    pub pace_next: i64,
    pub encoder_open: bool,
    pub local_decoder_open: bool,
    pub last_keyframe: Option<u64>,
    pub last_preview: Option<u64>,
}

/// Never happened, or more than `interval` ago.
pub open spec fn overdue(last: Option<u64>, now: u64, interval: u64) -> bool {
    match last {
        Some(t) => elapsed(t, now) > interval,
        None => true,
    }
}

/// A keyframe is forced when none was, or `KEYFRAME_INTERVAL` or more ago.
pub open spec fn keyframe_overdue(last: Option<u64>, now: u64) -> bool {
    match last {
        Some(t) => elapsed(t, now) >= KEYFRAME_INTERVAL,
        None => true,
    }
}

/// The state with the device's part forgotten, as after opening it again.
pub open spec fn restarted(s: SessionState) -> SessionState {
    SessionState {
        pace_next: i64::MIN,
        encoder_open: false,
        local_decoder_open: false,
        last_keyframe: None,
        last_preview: None,
        ..s
    }
}

/// How a sender answers a packet from its receiver.
#[derive(Debug, Clone, Copy, PartialEq, Eq, Structural)]
pub enum ReplyAction {
    /// Ask the open encoder for a keyframe.
    ForceKeyframe,
    /// A keyframe request with no encoder open: nothing to do.
    Nothing,
    /// The receiver takes this codec: it counts as answering now.
    Ready,
    /// The receiver lacks this codec: report it.
    CodecUnsupported,
    /// Not a hello this sender understands: report the error.
    Invalid(HandshakeError),
}

pub open spec fn spec_on_reply(s: SessionState, packet: Seq<u8>, codec: TransportCodec, now: u64) -> (SessionState, ReplyAction) {
    match spec_receiver_reply(packet, codec) {
        ReceiverReply::KeyframeRequest => (s, if s.encoder_open { ReplyAction::ForceKeyframe } else { ReplyAction::Nothing }),
        ReceiverReply::Ready => (SessionState { seen: Some(now), ..s }, ReplyAction::Ready),
        ReceiverReply::CodecUnsupported => (s, ReplyAction::CodecUnsupported),
        ReceiverReply::Invalid(e) => (s, ReplyAction::Invalid(e)),
    }
}

/// What to do with a frame of a compressed device stream: send it under
/// `send_id` while the receiver answers, and open the local decoder for the
/// preview at a keyframe.
#[derive(Debug, Clone, Copy, PartialEq, Eq, Structural)]
pub struct CompressedStep {
    pub send_id: Option<u64>,
    pub open_local_decoder: bool,
}

pub open spec fn spec_on_compressed(s: SessionState, now: u64, keyframe: bool) -> (SessionState, CompressedStep) {
    let active = spec_receiver_active(s.seen, now);
    let open = !s.local_decoder_open && keyframe;
    (
        SessionState {
            last_id: if active { (s.last_id + 1) as u64 } else { s.last_id },
            local_decoder_open: s.local_decoder_open || keyframe,
            ..s
        },
        CompressedStep { send_id: if active { Some((s.last_id + 1) as u64) } else { None }, open_local_decoder: open },
    )
}

/// What to do with a decoded picture.
#[derive(Debug, Clone, Copy, PartialEq, Eq, Structural)]
pub enum PictureRoute {
    /// The receiver is not answering: close the encoder, send nothing.
    Idle,
    /// Too early after the last sent frame: send nothing.
    Skip,
    /// Encode the picture (resized to the output size first when `resize`),
    /// opening the encoder first when `open_encoder` and asking it for a
    /// keyframe when `force_keyframe`.
    Encode { open_encoder: bool, force_keyframe: bool, resize: bool },
    /// Send the picture without an encoder, resized first when `resize`.
    Raw { payload: RawPayload, resize: bool },
}

/// The frame is let through: not before `pace_next`, and with room to add
/// one frame period to its timestamp.
pub open spec fn paced(pace_next: i64, timestamp: i64, fps: FrameRate) -> bool {
    timestamp >= pace_next && timestamp + spec_frame_interval(fps) <= i64::MAX
}

pub open spec fn spec_on_picture(
    s: SessionState,
    now: u64,
    timestamp: i64,
    plan: OutputPlan,
    codec: TransportCodec,
    native_jpeg: bool,
    has_encoder: bool,
    preview_due: bool,
) -> (SessionState, PictureRoute) {
    let s1 = if preview_due { SessionState { last_preview: Some(now), ..s } } else { s };
    if !spec_receiver_active(s.seen, now) {
        (SessionState { encoder_open: false, ..s1 }, PictureRoute::Idle)
    } else if !paced(s.pace_next, timestamp, plan.fps) {
        (s1, PictureRoute::Skip)
    } else {
        let s2 = SessionState { pace_next: (timestamp + spec_frame_interval(plan.fps)) as i64, ..s1 };
        if has_encoder {
            let force = keyframe_overdue(s.last_keyframe, now);
            (
                SessionState {
                    encoder_open: true,
                    last_keyframe: if force { Some(now) } else { s.last_keyframe },
                    ..s2
                },
                PictureRoute::Encode { open_encoder: !s.encoder_open, force_keyframe: force, resize: !plan.full_size },
            )
        } else {
            (s2, PictureRoute::Raw { payload: spec_raw_payload(codec, native_jpeg, plan.full_size), resize: !plan.full_size })
        }
    }
}

/// The frame-by-frame decisions of a sender: frame ids, pings, the
/// receiver's answers, pacing, the encoder's lifetime and its keyframes.
pub struct SenderSession {
    state: SessionState,
}

impl View for SenderSession {
    type V = SessionState;

    closed spec fn view(&self) -> SessionState {
        self.state
    }
}

impl SenderSession {
    pub fn new() -> (r: Self)
        ensures
            r@ == (SessionState {
                last_id: 0,
                seen: None,
                last_ping: None,
                pace_next: i64::MIN,
                encoder_open: false,
                local_decoder_open: false,
                last_keyframe: None,
                last_preview: None,
            }),
    {
        SenderSession {
            state: SessionState {
                last_id: 0,
                seen: None,
                last_ping: None,
                pace_next: i64::MIN,
                encoder_open: false,
                local_decoder_open: false,
                last_keyframe: None,
                last_preview: None,
            },
        }
    }

    /// The device was opened again: pacing, encoder, local decoder, keyframe
    /// and preview timing start over; frame ids and the receiver carry on.
    pub fn restart(&mut self)
        ensures
            final(self)@ == restarted(old(self)@),
    {
        self.state = SessionState {
            pace_next: i64::MIN,
            encoder_open: false,
            local_decoder_open: false,
            last_keyframe: None,
            last_preview: None,
            ..self.state
        };
    }

    /// Whether a frame id is left to give out.
    pub fn ids_left(&self) -> (r: bool)
        ensures
            r == (self@.last_id < u64::MAX),
    {
        self.state.last_id < u64::MAX
    }

    /// The next frame id: one more than the last.
    pub fn take_frame_id(&mut self) -> (id: u64)
        requires
            old(self)@.last_id < u64::MAX,
        ensures
            id == old(self)@.last_id + 1,
            final(self)@ == (SessionState { last_id: id, ..old(self)@ }),
    {
        self.state.last_id = self.state.last_id + 1;
        self.state.last_id
    }

    /// Whether to ping the receiver now (more than `PING_INTERVAL` after the
    /// last ping); a ping that is due counts as sent.
    pub fn ping_due(&mut self, now: u64) -> (r: bool)
        ensures
            r == overdue(old(self)@.last_ping, now, PING_INTERVAL),
            r ==> final(self)@ == (SessionState { last_ping: Some(now), ..old(self)@ }),
            !r ==> final(self)@ == old(self)@,
    {
        let due_now = match self.state.last_ping {
            Some(t) => due(t, now, PING_INTERVAL),
            None => true,
        };
        if due_now {
            self.state.last_ping = Some(now);
        }
        due_now
    }

    /// The receiver answers the sender within `IDLE_TIMEOUT` of `now`.
    pub fn active(&self, now: u64) -> (r: bool)
        ensures
            r == spec_receiver_active(self@.seen, now),
    {
        receiver_active(self.state.seen, now)
    }

    /// Takes a packet from the receiver.
    pub fn on_reply(&mut self, packet: &[u8], codec: TransportCodec, now: u64) -> (r: ReplyAction)
        ensures
            (final(self)@, r) == spec_on_reply(old(self)@, packet@, codec, now),
    {
        match receiver_reply(packet, codec) {
            ReceiverReply::KeyframeRequest => if self.state.encoder_open {
                ReplyAction::ForceKeyframe
            } else {
                ReplyAction::Nothing
            },
            ReceiverReply::Ready => {
                self.state.seen = Some(now);
                ReplyAction::Ready
            },
            ReceiverReply::CodecUnsupported => ReplyAction::CodecUnsupported,
            ReceiverReply::Invalid(e) => ReplyAction::Invalid(e),
        }
    }

    /// Takes a frame of the device's own compressed stream.
    pub fn on_compressed(&mut self, now: u64, keyframe: bool) -> (r: CompressedStep)
        requires
            old(self)@.last_id < u64::MAX,
        ensures
            (final(self)@, r) == spec_on_compressed(old(self)@, now, keyframe),
    {
        let active = receiver_active(self.state.seen, now);
        let open = !self.state.local_decoder_open && keyframe;
        let send_id = if active {
            self.state.last_id = self.state.last_id + 1;
            Some(self.state.last_id)
        } else {
            None
        };
        if keyframe {
            self.state.local_decoder_open = true;
        }
        CompressedStep { send_id, open_local_decoder: open }
    }

    /// The local decoder failed and was closed.
    pub fn local_decoder_failed(&mut self)
        ensures
            final(self)@ == (SessionState { local_decoder_open: false, ..old(self)@ }),
    {
        self.state.local_decoder_open = false;
    }

    /// The encoder failed and was closed.
    pub fn encoder_failed(&mut self)
        ensures
            final(self)@ == (SessionState { encoder_open: false, ..old(self)@ }),
    {
        self.state.encoder_open = false;
    }

    /// Whether the preview is due for a refresh (more than
    /// `PREVIEW_INTERVAL` after the last one).
    pub fn preview_due(&self, now: u64) -> (r: bool)
        ensures
            r == overdue(self@.last_preview, now, PREVIEW_INTERVAL),
    {
        match self.state.last_preview {
            Some(t) => due(t, now, PREVIEW_INTERVAL),
            None => true,
        }
    }

    /// Takes a decoded picture with its capture timestamp (100 ns units).
    pub fn on_picture(
        &mut self,
        now: u64,
        timestamp: i64,
        plan: &OutputPlan,
        codec: TransportCodec,
        native_jpeg: bool,
        has_encoder: bool,
        preview_due: bool,
    ) -> (r: PictureRoute)
        ensures
            (final(self)@, r) == spec_on_picture(old(self)@, now, timestamp, *plan, codec, native_jpeg, has_encoder, preview_due),
    {
        let s = self.state;
        if preview_due {
            self.state.last_preview = Some(now);
        }
        if sender_work(receiver_active(s.seen, now)) == SenderWork::CapturePreviewAndLocalCameraOnly {
            self.state.encoder_open = false;
            return PictureRoute::Idle;
        }
        let interval = frame_interval_100ns(plan.fps);
        proof {
            let num: int = if plan.fps.numerator == 0 { 1 } else { plan.fps.numerator as int };
            assert(10000000 * (plan.fps.denominator as int) / num >= 0) by (nonlinear_arith)
                requires num >= 1, plan.fps.denominator >= 0;
        }
        if timestamp < s.pace_next || timestamp > i64::MAX - interval {
            return PictureRoute::Skip;
        }
        self.state.pace_next = timestamp + interval;
        if has_encoder {
            let force = match s.last_keyframe {
                Some(t) => keyframe_due(t, now),
                None => true,
            };
            self.state.encoder_open = true;
            if force {
                self.state.last_keyframe = Some(now);
            }
            PictureRoute::Encode { open_encoder: !s.encoder_open, force_keyframe: force, resize: !plan.full_size }
        } else {
            PictureRoute::Raw { payload: raw_payload(codec, native_jpeg, plan.full_size), resize: !plan.full_size }
        }
    }
}

/// Frame ids only grow; while the receiver is silent the encoder is closed
/// and nothing is sent; a keyframe is forced at most once per
/// `KEYFRAME_INTERVAL`; and sent pictures are at least one frame period apart.
pub proof fn lemma_session_steps(
    s: SessionState,
    now: u64,
    timestamp: i64,
    plan: OutputPlan,
    codec: TransportCodec,
    native_jpeg: bool,
    has_encoder: bool,
    preview_due: bool,
    keyframe: bool,
)
    requires
        s.last_id < u64::MAX,
    ensures
        ({
            let (t, step) = spec_on_compressed(s, now, keyframe);
            &&& t.last_id >= s.last_id
            &&& step.send_id matches Some(id) ==> id > s.last_id && t.last_id == id
            &&& step.send_id is Some <==> spec_receiver_active(s.seen, now)
        }),
        ({
            let (t, route) = spec_on_picture(s, now, timestamp, plan, codec, native_jpeg, has_encoder, preview_due);
            &&& !spec_receiver_active(s.seen, now) ==> route == PictureRoute::Idle && !t.encoder_open
            &&& (route matches PictureRoute::Encode { force_keyframe, .. } && force_keyframe) ==> keyframe_overdue(s.last_keyframe, now) && t.last_keyframe == Some(now)
            &&& (route is Encode || route is Raw) ==> timestamp >= s.pace_next && t.pace_next == timestamp + spec_frame_interval(plan.fps)
            &&& t.last_id == s.last_id
        }),
{
}

} // verus!
