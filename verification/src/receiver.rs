use vstd::prelude::*;

use crate::capability::TransportCodec;
use crate::net::{elapsed, elapsed_nanos, lan_peer, spec_lan_peer, Endpoint};
use crate::protocol::{FrameHeader, VERSION};
use crate::reassembly::{frames_wf, spec_push, FrameModel, Reassembler, FRAME_TIMEOUT};
use crate::transport::{parse_fragment, spec_parse_fragment, FragmentError, ReceiverHello};
use crate::runtime::{spec_split_codec_payload, split_codec_payload, CodecPayloadError};

verus! {

/// "CBP2": a sender's ping, which a receiver answers with its hello.
pub const PING: [u8; 4] = [0x43, 0x42, 0x50, 0x32];

/// "CBK2": a receiver's request for a keyframe.
pub const KEYFRAME_REQUEST: [u8; 4] = [0x43, 0x42, 0x4b, 0x32];

/// Without a shown frame for this long (3 s), a receiver is idle and another
/// sender may take it over; likewise a sender stops encoding for a receiver
/// that has not answered for this long.
pub const IDLE_TIMEOUT: u64 = 3000000000;

/// When more frame headers than this wait for their frames, all are dropped.
pub const MAX_PENDING_HEADERS: usize = 6;

pub open spec fn ping_bytes() -> Seq<u8> {
    seq![0x43u8, 0x42u8, 0x50u8, 0x32u8]
}

pub open spec fn keyframe_request_bytes() -> Seq<u8> {
    seq![0x43u8, 0x42u8, 0x4bu8, 0x32u8]
}

/// The packet is exactly a ping.
pub fn is_ping(packet: &[u8]) -> (r: bool)
    ensures
        r == (packet@ == ping_bytes()),
{
    if packet.len() == 4 && packet[0] == 0x43 && packet[1] == 0x42 && packet[2] == 0x50 && packet[3] == 0x32 {
        assert(packet@ =~= ping_bytes());
        true
    } else {
        false
    }
}

/// The packet is exactly a keyframe request.
pub fn is_keyframe_request(packet: &[u8]) -> (r: bool)
    ensures
        r == (packet@ == keyframe_request_bytes()),
{
    if packet.len() == 4 && packet[0] == 0x43 && packet[1] == 0x42 && packet[2] == 0x4b && packet[3] == 0x32 {
        assert(packet@ =~= keyframe_request_bytes());
        true
    } else {
        false
    }
}

/// No frame has been shown for longer than `IDLE_TIMEOUT`.
pub open spec fn spec_receiver_idle(last_frame: u64, now: u64) -> bool {
    elapsed(last_frame, now) > IDLE_TIMEOUT
}

pub fn receiver_idle(last_frame: u64, now: u64) -> (r: bool)
    ensures
        r == spec_receiver_idle(last_frame, now),
{
    elapsed_nanos(last_frame, now) > IDLE_TIMEOUT
}

/// How a receiver answers a ping.
#[derive(Debug, Clone, Copy, PartialEq, Eq, Structural)]
pub enum PingReply {
    /// Another sender holds the receiver, which is not idle.
    Ignore,
    /// The current sender pinged again: send the hello.
    Answer,
    /// A new sender takes the receiver: forget all frame state, then send the hello.
    AnswerNewPeer,
}

pub open spec fn spec_ping_reply(peer: Option<Endpoint>, from: Endpoint, idle: bool) -> PingReply {
    if peer == Some(from) {
        PingReply::Answer
    } else if peer is None || idle {
        PingReply::AnswerNewPeer
    } else {
        PingReply::Ignore
    }
}

/// A receiver serves one sender at a time: the first to ping, or a new one
/// once the receiver is idle.
pub fn ping_reply(peer: Option<Endpoint>, from: Endpoint, idle: bool) -> (r: PingReply)
    ensures
        r == spec_ping_reply(peer, from, idle),
{
    match peer {
        Some(p) => if p == from {
            PingReply::Answer
        } else if idle {
            PingReply::AnswerNewPeer
        } else {
            PingReply::Ignore
        },
        None => PingReply::AnswerNewPeer,
    }
}

/// While a receiver shows frames from one sender, pings from anyone else are
/// ignored; a receiver with no sender, or an idle one, takes the new sender.
pub proof fn lemma_one_sender_at_a_time(peer: Option<Endpoint>, from: Endpoint, idle: bool)
    ensures
        peer is Some && peer != Some(from) && !idle ==> spec_ping_reply(peer, from, idle) == PingReply::Ignore,
        (peer is None || idle) && peer != Some(from) ==> spec_ping_reply(peer, from, idle) == PingReply::AnswerNewPeer,
        spec_ping_reply(peer, from, idle) != PingReply::Ignore ==> peer is None || peer == Some(from) || idle,
{
}

/// The hello a receiver announces: JPEG and XRGB, which it always decodes,
/// then the compressed codecs whose decoders opened, in the given order.
pub fn receiver_hello(decodable: &[TransportCodec]) -> (r: ReceiverHello)
    ensures
        r.version == VERSION,
        r.codecs@ == seq![TransportCodec::Jpeg, TransportCodec::Xrgb8888] + decodable@,
{
    let mut codecs: Vec<TransportCodec> = Vec::new();
    codecs.push(TransportCodec::Jpeg);
    codecs.push(TransportCodec::Xrgb8888);
    let mut i: usize = 0;
    while i < decodable.len()
        invariant
            i <= decodable@.len(),
            codecs@ == seq![TransportCodec::Jpeg, TransportCodec::Xrgb8888] + decodable@.take(i as int),
        decreases decodable@.len() - i,
    {
        codecs.push(decodable[i]);
        i = i + 1;
        assert(codecs@ =~= seq![TransportCodec::Jpeg, TransportCodec::Xrgb8888] + decodable@.take(i as int));
    }
    assert(decodable@.take(decodable@.len() as int) =~= decodable@);
    ReceiverHello { version: VERSION, codecs }
}

/// A frame header that came with the first fragment of its frame, kept until
/// the frame is complete.
#[derive(Debug, Clone, Copy, PartialEq, Eq, Structural)]
pub struct PendingHeader {
    pub frame_id: u64,
    pub header: FrameHeader,
    pub arrived: u64,
}

/// Headers of frames in flight, at most one per frame.
pub struct HeaderTable {
    entries: Vec<PendingHeader>,
}

/// Arrived less than `FRAME_TIMEOUT` before `now`.
pub open spec fn header_fresh(e: PendingHeader, now: u64) -> bool {
    elapsed(e.arrived, now) < FRAME_TIMEOUT
}

/// The entries that are still fresh at `now`, in order.
pub open spec fn fresh_headers(s: Seq<PendingHeader>, now: u64) -> Seq<PendingHeader>
    decreases s.len(),
{
    if s.len() == 0 {
        s
    } else if header_fresh(s.last(), now) {
        fresh_headers(s.drop_last(), now).push(s.last())
    } else {
        fresh_headers(s.drop_last(), now)
    }
}

/// The entries of other frames than `id`, in order.
pub open spec fn without_frame(s: Seq<PendingHeader>, id: u64) -> Seq<PendingHeader>
    decreases s.len(),
{
    if s.len() == 0 {
        s
    } else if s.last().frame_id != id {
        without_frame(s.drop_last(), id).push(s.last())
    } else {
        without_frame(s.drop_last(), id)
    }
}

/// The header kept for frame `id`.
pub open spec fn header_for(s: Seq<PendingHeader>, id: u64) -> Option<FrameHeader>
    decreases s.len(),
{
    if s.len() == 0 {
        None
    } else if s.last().frame_id == id {
        Some(s.last().header)
    } else {
        header_for(s.drop_last(), id)
    }
}

/// No frame has two entries.
pub open spec fn distinct_frames(s: Seq<PendingHeader>) -> bool {
    forall|i: int, j: int| 0 <= i < j < s.len() ==> s[i].frame_id != s[j].frame_id
}

/// The table after a header for frame `id` arrives at `now`: a table that
/// already holds more than `MAX_PENDING_HEADERS` entries is emptied first,
/// and a header of the same frame is replaced.
pub open spec fn spec_insert_header(s: Seq<PendingHeader>, id: u64, header: FrameHeader, now: u64) -> Seq<PendingHeader> {
    let base = if s.len() > MAX_PENDING_HEADERS { Seq::empty() } else { s };
    without_frame(base, id).push(PendingHeader { frame_id: id, header, arrived: now })
}

proof fn lemma_fresh_members(s: Seq<PendingHeader>, now: u64)
    ensures
        fresh_headers(s, now).len() <= s.len(),
        forall|i: int| 0 <= i < fresh_headers(s, now).len() ==> exists|k: int| 0 <= k < s.len() && #[trigger] fresh_headers(s, now)[i] == s[k],
        distinct_frames(s) ==> distinct_frames(fresh_headers(s, now)),
    decreases s.len(),
{
    if s.len() > 0 {
        let t = s.drop_last();
        lemma_fresh_members(t, now);
        let f = fresh_headers(t, now);
        assert forall|i: int| 0 <= i < fresh_headers(s, now).len() implies exists|k: int| 0 <= k < s.len() && #[trigger] fresh_headers(s, now)[i] == s[k] by {
            if i < f.len() {
                let k = choose|k: int| 0 <= k < t.len() && f[i] == t[k];
                assert(s[k] == t[k]);
            } else {
                assert(fresh_headers(s, now)[i] == s[s.len() - 1]);
            }
        }
        if distinct_frames(s) {
            assert(distinct_frames(t));
            if header_fresh(s.last(), now) {
                assert forall|i: int, j: int| 0 <= i < j < fresh_headers(s, now).len() implies fresh_headers(s, now)[i].frame_id != fresh_headers(s, now)[j].frame_id by {
                    if j == f.len() {
                        let k = choose|k: int| 0 <= k < t.len() && f[i] == t[k];
                        assert(s[k] == t[k]);
                    }
                }
            }
        }
    }
}

proof fn lemma_without_members(s: Seq<PendingHeader>, id: u64)
    ensures
        without_frame(s, id).len() <= s.len(),
        forall|i: int| 0 <= i < without_frame(s, id).len() ==> exists|k: int| 0 <= k < s.len() && #[trigger] without_frame(s, id)[i] == s[k],
        forall|i: int| 0 <= i < without_frame(s, id).len() ==> (#[trigger] without_frame(s, id)[i]).frame_id != id,
        distinct_frames(s) ==> distinct_frames(without_frame(s, id)),
        header_for(without_frame(s, id), id) is None,
    decreases s.len(),
{
    if s.len() > 0 {
        let t = s.drop_last();
        lemma_without_members(t, id);
        let f = without_frame(t, id);
        assert forall|i: int| 0 <= i < without_frame(s, id).len() implies exists|k: int| 0 <= k < s.len() && #[trigger] without_frame(s, id)[i] == s[k] by {
            if i < f.len() {
                let k = choose|k: int| 0 <= k < t.len() && f[i] == t[k];
                assert(s[k] == t[k]);
            } else {
                assert(without_frame(s, id)[i] == s[s.len() - 1]);
            }
        }
        if distinct_frames(s) {
            assert(distinct_frames(t));
            if s.last().frame_id != id {
                assert forall|i: int, j: int| 0 <= i < j < without_frame(s, id).len() implies without_frame(s, id)[i].frame_id != without_frame(s, id)[j].frame_id by {
                    if j == f.len() {
                        let k = choose|k: int| 0 <= k < t.len() && f[i] == t[k];
                        assert(s[k] == t[k]);
                    }
                }
            }
        }
        if s.last().frame_id != id {
            assert(without_frame(s, id).drop_last() =~= f);
        }
    }
}

proof fn lemma_insert_wf(s: Seq<PendingHeader>, id: u64, header: FrameHeader, now: u64)
    requires
        distinct_frames(s),
    ensures
        distinct_frames(spec_insert_header(s, id, header, now)),
        header_for(spec_insert_header(s, id, header, now), id) == Some(header),
        spec_insert_header(s, id, header, now).len() <= MAX_PENDING_HEADERS + 1,
{
    let base = if s.len() > MAX_PENDING_HEADERS { Seq::<PendingHeader>::empty() } else { s };
    lemma_without_members(base, id);
    let w = without_frame(base, id);
    let r = spec_insert_header(s, id, header, now);
    assert(r.drop_last() =~= w);
    assert forall|i: int, j: int| 0 <= i < j < r.len() implies r[i].frame_id != r[j].frame_id by {
        if j == w.len() {
            assert(r[i] == w[i]);
        } else {
            assert(r[i] == w[i] && r[j] == w[j]);
        }
    }
}

impl View for HeaderTable {
    type V = Seq<PendingHeader>;

    closed spec fn view(&self) -> Seq<PendingHeader> {
        self.entries@
    }
}

impl HeaderTable {
    /// No frame has two headers, and there are never more than
    /// `MAX_PENDING_HEADERS + 1`.
    pub open spec fn wf(&self) -> bool {
        distinct_frames(self@) && self@.len() <= MAX_PENDING_HEADERS + 1
    }

    pub fn new() -> (r: Self)
        ensures
            r.wf(),
            r@ == Seq::<PendingHeader>::empty(),
    {
        HeaderTable { entries: Vec::new() }
    }

    pub fn len(&self) -> (r: usize)
        ensures
            r == self@.len(),
    {
        self.entries.len()
    }

    pub fn clear(&mut self)
        ensures
            final(self).wf(),
            final(self)@ == Seq::<PendingHeader>::empty(),
    {
        self.entries = Vec::new();
    }

    /// Drops the headers that arrived `FRAME_TIMEOUT` or more before `now`.
    pub fn keep_fresh(&mut self, now: u64)
        requires
            old(self).wf(),
        ensures
            final(self).wf(),
            final(self)@ == fresh_headers(old(self)@, now),
    {
        let mut kept: Vec<PendingHeader> = Vec::new();
        let mut i: usize = 0;
        while i < self.entries.len()
            invariant
                i <= self.entries@.len(),
                kept@ == fresh_headers(self.entries@.take(i as int), now),
            decreases self.entries@.len() - i,
        {
            let e = self.entries[i];
            assert(self.entries@.take(i + 1).drop_last() =~= self.entries@.take(i as int));
            if elapsed_nanos(e.arrived, now) < FRAME_TIMEOUT {
                kept.push(e);
            }
            i = i + 1;
        }
        assert(self.entries@.take(self.entries@.len() as int) =~= self.entries@);
        proof {
            lemma_fresh_members(self.entries@, now);
        }
        self.entries = kept;
    }

    fn remove_frame(&mut self, id: u64) -> (found: Option<FrameHeader>)
        requires
            distinct_frames(old(self)@),
        ensures
            found == header_for(old(self)@, id),
            final(self)@ == without_frame(old(self)@, id),
            final(self)@.len() <= old(self)@.len(),
            distinct_frames(final(self)@),
    {
        let mut kept: Vec<PendingHeader> = Vec::new();
        let mut found: Option<FrameHeader> = None;
        let mut i: usize = 0;
        while i < self.entries.len()
            invariant
                i <= self.entries@.len(),
                kept@ == without_frame(self.entries@.take(i as int), id),
                found == header_for(self.entries@.take(i as int), id),
            decreases self.entries@.len() - i,
        {
            let e = self.entries[i];
            assert(self.entries@.take(i + 1).drop_last() =~= self.entries@.take(i as int));
            if e.frame_id != id {
                kept.push(e);
            } else {
                found = Some(e.header);
            }
            i = i + 1;
        }
        assert(self.entries@.take(self.entries@.len() as int) =~= self.entries@);
        proof {
            lemma_without_members(self.entries@, id);
        }
        self.entries = kept;
        found
    }

    /// Keeps the header of frame `id`, which arrived at `now`.
    pub fn insert(&mut self, id: u64, header: FrameHeader, now: u64)
        requires
            old(self).wf(),
        ensures
            final(self).wf(),
            final(self)@ == spec_insert_header(old(self)@, id, header, now),
    {
        proof {
            lemma_insert_wf(self@, id, header, now);
        }
        if self.entries.len() > MAX_PENDING_HEADERS {
            self.entries = Vec::new();
        }
        let _ = self.remove_frame(id);
        self.entries.push(PendingHeader { frame_id: id, header, arrived: now });
        assert(self@ =~= spec_insert_header(old(self)@, id, header, now));
    }

    /// Removes and returns the header of frame `id`.
    pub fn take(&mut self, id: u64) -> (r: Option<FrameHeader>)
        requires
            old(self).wf(),
        ensures
            final(self).wf(),
            r == header_for(old(self)@, id),
            final(self)@ == without_frame(old(self)@, id),
    {
        self.remove_frame(id)
    }
}

/// A header kept for a frame is found again when the frame completes, unless
/// it expired or the table was emptied in between; once taken it is gone.
pub proof fn lemma_header_found_again(s: Seq<PendingHeader>, id: u64, header: FrameHeader, now: u64, later: u64)
    requires
        distinct_frames(s),
        elapsed(now, later) < FRAME_TIMEOUT,
    ensures
        header_for(fresh_headers(spec_insert_header(s, id, header, now), later), id) == Some(header),
        header_for(without_frame(spec_insert_header(s, id, header, now), id), id) is None,
{
    let r = spec_insert_header(s, id, header, now);
    lemma_insert_wf(s, id, header, now);
    lemma_without_members(r, id);
    assert(r.drop_last() == without_frame(if s.len() > MAX_PENDING_HEADERS { Seq::<PendingHeader>::empty() } else { s }, id));
    assert(fresh_headers(r, later) == fresh_headers(r.drop_last(), later).push(r.last()));
}

/// The decoder that is open: codec and frame size.
#[derive(Debug, Clone, Copy, PartialEq, Eq, Structural)]
pub struct DecoderKey {
    pub codec: TransportCodec,
    pub width: u32,
    pub height: u32,
}

/// What a receiver knows between frames: the last frame it showed, the
/// decoder it has open, and whether it waits for a keyframe.
#[derive(Debug, Clone, Copy, PartialEq, Eq, Structural)]
pub struct GateState {
    pub latest: Option<u64>,
    pub decoder: Option<DecoderKey>,
    pub waiting_keyframe: bool,
}

/// What to do with a completed frame.
#[derive(Debug, Clone, Copy, PartialEq, Eq, Structural)]
pub enum GateAction {
    /// Not newer than the last shown frame: drop it.
    Stale,
    /// Decode the payload as JPEG.
    DecodeJpeg,
    /// Convert the payload from XRGB.
    DecodeXrgb,
    /// A compressed payload shorter than the 4-byte configuration length
    /// field: drop it.
    Truncated,
    /// The configuration length is impossible: report it and drop the frame.
    BadConfig,
    /// The decoder needs a keyframe: ask the sender for one and drop the frame.
    RequestKeyframe,
    /// Open a decoder with the frame's configuration, then decode the frame.
    OpenDecoder,
    /// Decode the frame with the open decoder.
    Decode,
}

/// The decoder is open exactly when no keyframe is awaited.
pub open spec fn gate_wf(g: GateState) -> bool {
    g.waiting_keyframe == (g.decoder is None)
}

pub open spec fn closed_decoder(g: GateState) -> GateState {
    GateState { decoder: None, waiting_keyframe: true, ..g }
}

/// The next state and the action for a completed frame with header `h` and
/// payload `payload`.
pub open spec fn spec_route(g: GateState, h: FrameHeader, payload: Seq<u8>) -> (GateState, GateAction) {
    if g.latest is Some && h.frame_id <= g.latest.unwrap() {
        (g, GateAction::Stale)
    } else if h.codec == TransportCodec::Jpeg {
        (g, GateAction::DecodeJpeg)
    } else if h.codec == TransportCodec::Xrgb8888 {
        (g, GateAction::DecodeXrgb)
    } else {
        match spec_split_codec_payload(payload) {
            Err(CodecPayloadError::TooShort) => (g, GateAction::Truncated),
            Err(CodecPayloadError::BadConfigLength) => (g, GateAction::BadConfig),
            Ok(_) => {
                let key = DecoderKey { codec: h.codec, width: h.width, height: h.height };
                let g1 = if g.decoder != Some(key) { closed_decoder(g) } else { g };
                let g2 = if g.latest is Some && h.frame_id > g.latest.unwrap() + 1 {
                    closed_decoder(g1)
                } else {
                    g1
                };
                if g2.waiting_keyframe && !h.spec_keyframe() {
                    (g2, GateAction::RequestKeyframe)
                } else if g2.decoder is None {
                    (g2, GateAction::OpenDecoder)
                } else {
                    (GateState { waiting_keyframe: false, ..g2 }, GateAction::Decode)
                }
            },
        }
    }
}

/// Decides, frame by frame, what a receiver shows and decodes. Frames are
/// shown in increasing order of id, and a decoder starts at a keyframe.
pub struct FrameGate {
    state: GateState,
}

impl View for FrameGate {
    type V = GateState;

    closed spec fn view(&self) -> GateState {
        self.state
    }
}

impl FrameGate {
    pub fn new() -> (r: Self)
        ensures
            gate_wf(r@),
            r@ == (GateState { latest: None, decoder: None, waiting_keyframe: true }),
    {
        FrameGate { state: GateState { latest: None, decoder: None, waiting_keyframe: true } }
    }

    /// Forgets everything, as for a new sender.
    pub fn reset(&mut self)
        ensures
            gate_wf(final(self)@),
            final(self)@ == (GateState { latest: None, decoder: None, waiting_keyframe: true }),
    {
        self.state = GateState { latest: None, decoder: None, waiting_keyframe: true };
    }

    /// The decoder that should be open, if any.
    pub fn decoder(&self) -> (r: Option<DecoderKey>)
        ensures
            r == self@.decoder,
    {
        self.state.decoder
    }

    /// Takes a completed frame and says what to do with it.
    pub fn route(&mut self, h: &FrameHeader, payload: &[u8]) -> (r: GateAction)
        requires
            gate_wf(old(self)@),
        ensures
            gate_wf(final(self)@),
            (final(self)@, r) == spec_route(old(self)@, *h, payload@),
    {
        let g = self.state;
        if let Some(latest) = g.latest {
            if h.frame_id <= latest {
                return GateAction::Stale;
            }
        }
        if h.codec == TransportCodec::Jpeg {
            return GateAction::DecodeJpeg;
        }
        if h.codec == TransportCodec::Xrgb8888 {
            return GateAction::DecodeXrgb;
        }
        match split_codec_payload(payload) {
            Err(CodecPayloadError::TooShort) => GateAction::Truncated,
            Err(CodecPayloadError::BadConfigLength) => GateAction::BadConfig,
            Ok(_) => {
                let key = DecoderKey { codec: h.codec, width: h.width, height: h.height };
                let matches = match g.decoder {
                    Some(k) => k == key,
                    None => false,
                };
                if !matches {
                    self.state = GateState { decoder: None, waiting_keyframe: true, ..self.state };
                }
                if let Some(latest) = g.latest {
                    if h.frame_id > latest + 1 {
                        self.state = GateState { decoder: None, waiting_keyframe: true, ..self.state };
                    }
                }
                if self.state.waiting_keyframe && !h.keyframe() {
                    GateAction::RequestKeyframe
                } else if self.state.decoder.is_none() {
                    GateAction::OpenDecoder
                } else {
                    self.state = GateState { waiting_keyframe: false, ..self.state };
                    GateAction::Decode
                }
            },
        }
    }

    /// A decoder for `key` was opened after `OpenDecoder`.
    pub fn decoder_opened(&mut self, key: DecoderKey)
        ensures
            gate_wf(final(self)@),
            final(self)@ == (GateState { decoder: Some(key), waiting_keyframe: false, ..old(self)@ }),
    {
        self.state = GateState { decoder: Some(key), waiting_keyframe: false, ..self.state };
    }

    /// The decoder failed: it is closed and the next keyframe awaited.
    pub fn decoder_failed(&mut self)
        ensures
            gate_wf(final(self)@),
            final(self)@ == closed_decoder(old(self)@),
    {
        self.state = GateState { decoder: None, waiting_keyframe: true, ..self.state };
    }

    /// Frame `frame_id` was consumed: later frames must be newer.
    pub fn consumed(&mut self, frame_id: u64)
        requires
            gate_wf(old(self)@),
        ensures
            gate_wf(final(self)@),
            final(self)@ == (GateState { latest: Some(frame_id), ..old(self)@ }),
    {
        self.state = GateState { latest: Some(frame_id), ..self.state };
    }

    /// A decoded picture of `width` by `height` for frame `h` is shown only
    /// if its size is the one the header announced.
    pub fn decoded(&mut self, h: &FrameHeader, width: u32, height: u32) -> (shown: bool)
        requires
            gate_wf(old(self)@),
        ensures
            gate_wf(final(self)@),
            shown == (width == h.width && height == h.height),
            shown ==> final(self)@ == (GateState { latest: Some(h.frame_id), ..old(self)@ }),
            !shown ==> final(self)@ == old(self)@,
    {
        if width == h.width && height == h.height {
            self.consumed(h.frame_id);
            true
        } else {
            false
        }
    }
}

/// Frames are never shown out of order: any frame not dropped as stale is
/// newer than the last one shown.
pub proof fn lemma_frames_move_forward(g: GateState, h: FrameHeader, payload: Seq<u8>)
    ensures
        spec_route(g, h, payload).1 != GateAction::Stale ==> g.latest is None || g.latest.unwrap() < h.frame_id,
        g.latest is Some && h.frame_id <= g.latest.unwrap() ==> spec_route(g, h, payload) == (g, GateAction::Stale),
        spec_route(g, h, payload).0.latest == g.latest,
{
}

/// A decoder is only opened at a keyframe, and after a lost frame nothing
/// but a keyframe is decoded: the receiver asks for one instead.
pub proof fn lemma_decoding_starts_at_keyframes(g: GateState, h: FrameHeader, payload: Seq<u8>)
    requires
        gate_wf(g),
    ensures
        spec_route(g, h, payload).1 == GateAction::OpenDecoder ==> h.spec_keyframe(),
        spec_route(g, h, payload).1 == GateAction::Decode ==> g.decoder == Some(
            DecoderKey { codec: h.codec, width: h.width, height: h.height },
        ) && (g.latest is None || h.frame_id == g.latest.unwrap() + 1),
        (h.codec != TransportCodec::Jpeg && h.codec != TransportCodec::Xrgb8888 && spec_split_codec_payload(payload) is Ok
            && g.latest is Some && h.frame_id > g.latest.unwrap() + 1 && !h.spec_keyframe())
            ==> spec_route(g, h, payload).1 == GateAction::RequestKeyframe,
        gate_wf(spec_route(g, h, payload).0),
{
}

/// Once a frame is lost, or while a keyframe is awaited, every compressed
/// frame that is not a keyframe is answered with a keyframe request and
/// neither decoded nor shown; the state it leaves still awaits a keyframe and
/// still remembers the same last shown frame, so this repeats until a
/// keyframe arrives.
pub proof fn lemma_waits_for_keyframe(g: GateState, h: FrameHeader, payload: Seq<u8>)
    requires
        gate_wf(g),
        g.waiting_keyframe || (g.latest is Some && h.frame_id > g.latest.unwrap() + 1),
        h.codec != TransportCodec::Jpeg,
        h.codec != TransportCodec::Xrgb8888,
        spec_split_codec_payload(payload) is Ok,
        g.latest is None || h.frame_id > g.latest.unwrap(),
        !h.spec_keyframe(),
    ensures
        spec_route(g, h, payload) == (closed_decoder(g), GateAction::RequestKeyframe),
        closed_decoder(g).waiting_keyframe,
        closed_decoder(g).latest == g.latest,
{
}

/// What a receiver holds between packets, as plain values: its sender, when
/// it last showed a frame, the frames being reassembled, the headers waiting
/// for their frames, and the frame gate.
pub struct ReceiverModel {
    pub peer: Option<Endpoint>,
    pub last_frame: u64,
    pub frames: Seq<FrameModel>,
    pub headers: Seq<PendingHeader>,
    pub gate: GateState,
}

/// What one packet came to.
pub enum PacketOutcome {
    /// Not from the private LAN, from another sender, or a ping to ignore.
    Ignored,
    /// A ping to answer with the hello.
    Hello,
    /// A fragment that could not be read.
    Report(FragmentError),
    /// A fragment was taken; no frame is complete yet, or its header is gone.
    Pending,
    /// A frame is complete: its header, its payload, and what to do with it.
    Frame(FrameHeader, Seq<u8>, GateAction),
}

/// What one packet comes to, for the program to act on.
pub enum PacketStep {
    Ignored,
    Hello,
    Report(FragmentError),
    Pending,
    Frame { header: FrameHeader, data: Vec<u8>, action: GateAction },
}

pub open spec fn packet_outcome(step: PacketStep) -> PacketOutcome {
    match step {
        PacketStep::Ignored => PacketOutcome::Ignored,
        PacketStep::Hello => PacketOutcome::Hello,
        PacketStep::Report(e) => PacketOutcome::Report(e),
        PacketStep::Pending => PacketOutcome::Pending,
        PacketStep::Frame { header, data, action } => PacketOutcome::Frame(header, data@, action),
    }
}

pub open spec fn fresh_gate() -> GateState {
    GateState { latest: None, decoder: None, waiting_keyframe: true }
}

/// The next state and the outcome of a packet from `from` at `now`.
pub open spec fn spec_on_packet(m: ReceiverModel, from: Endpoint, packet: Seq<u8>, now: u64) -> (ReceiverModel, PacketOutcome) {
    if !spec_lan_peer(from.ip) {
        (m, PacketOutcome::Ignored)
    } else if packet == ping_bytes() {
        match spec_ping_reply(m.peer, from, spec_receiver_idle(m.last_frame, now)) {
            PingReply::Ignore => (m, PacketOutcome::Ignored),
            PingReply::Answer => (m, PacketOutcome::Hello),
            PingReply::AnswerNewPeer => (
                ReceiverModel {
                    peer: Some(from),
                    frames: Seq::empty(),
                    headers: Seq::empty(),
                    gate: fresh_gate(),
                    ..m
                },
                PacketOutcome::Hello,
            ),
        }
    } else if m.peer != Some(from) {
        (m, PacketOutcome::Ignored)
    } else {
        match spec_parse_fragment(packet) {
            Err(e) => (m, PacketOutcome::Report(e)),
            Ok((f, header)) => {
                let kept = fresh_headers(m.headers, now);
                let headers = match header {
                    Some(h) => spec_insert_header(kept, f.frame_id, h, now),
                    None => kept,
                };
                let (frames, r) = spec_push(m.frames, f.frame_id, f.index, f.count, f.expected_frame_bytes as usize, f.data, now);
                match r {
                    Ok(Some(data)) => match header_for(headers, f.frame_id) {
                        Some(h) => {
                            let (gate, action) = spec_route(m.gate, h, data);
                            (
                                ReceiverModel { frames, headers: without_frame(headers, f.frame_id), gate, ..m },
                                PacketOutcome::Frame(h, data, action),
                            )
                        },
                        None => (
                            ReceiverModel { frames, headers: without_frame(headers, f.frame_id), ..m },
                            PacketOutcome::Pending,
                        ),
                    },
                    _ => (ReceiverModel { frames, headers, ..m }, PacketOutcome::Pending),
                }
            },
        }
    }
}

/// A receiver's packet-by-packet decisions: which sender it serves,
/// reassembly, frame headers, and the frame gate.
pub struct ReceiverSession {
    peer: Option<Endpoint>,
    last_frame: u64,
    assembler: Reassembler,
    headers: HeaderTable,
    gate: FrameGate,
}

impl View for ReceiverSession {
    type V = ReceiverModel;

    closed spec fn view(&self) -> ReceiverModel {
        ReceiverModel {
            peer: self.peer,
            last_frame: self.last_frame,
            frames: self.assembler@,
            headers: self.headers@,
            gate: self.gate@,
        }
    }
}

impl ReceiverSession {
    /// What every session keeps: each part's own invariant.
    pub open spec fn wf(&self) -> bool {
        &&& frames_wf(self@.frames)
        &&& distinct_frames(self@.headers)
        &&& self@.headers.len() <= MAX_PENDING_HEADERS + 1
        &&& gate_wf(self@.gate)
    }

    /// A session with no sender, as if a frame had just been shown at `now`.
    pub fn new(now: u64) -> (r: Self)
        ensures
            r.wf(),
            r@ == (ReceiverModel {
                peer: None,
                last_frame: now,
                frames: Seq::empty(),
                headers: Seq::empty(),
                gate: fresh_gate(),
            }),
    {
        ReceiverSession {
            peer: None,
            last_frame: now,
            assembler: Reassembler::new(),
            headers: HeaderTable::new(),
            gate: FrameGate::new(),
        }
    }

    /// No frame has been shown for longer than `IDLE_TIMEOUT`.
    pub fn idle(&self, now: u64) -> (r: bool)
        ensures
            r == spec_receiver_idle(self@.last_frame, now),
    {
        receiver_idle(self.last_frame, now)
    }

    /// The decoder that should be open, if any.
    pub fn decoder(&self) -> (r: Option<DecoderKey>)
        ensures
            r == self@.gate.decoder,
    {
        self.gate.decoder()
    }

    /// Takes one packet from `from` at `now`.
    pub fn on_packet(&mut self, from: Endpoint, packet: &[u8], now: u64) -> (r: PacketStep)
        requires
            old(self).wf(),
        ensures
            final(self).wf(),
            (final(self)@, packet_outcome(r)) == spec_on_packet(old(self)@, from, packet@, now),
    {
        if !lan_peer(from.ip) {
            return PacketStep::Ignored;
        }
        if is_ping(packet) {
            return match ping_reply(self.peer, from, receiver_idle(self.last_frame, now)) {
                PingReply::Ignore => PacketStep::Ignored,
                PingReply::Answer => PacketStep::Hello,
                PingReply::AnswerNewPeer => {
                    self.peer = Some(from);
                    self.assembler = Reassembler::new();
                    self.headers = HeaderTable::new();
                    self.gate = FrameGate::new();
                    PacketStep::Hello
                },
            };
        }
        let same = match self.peer {
            Some(p) => p == from,
            None => false,
        };
        if !same {
            return PacketStep::Ignored;
        }
        let (fragment, header) = match parse_fragment(packet) {
            Ok(v) => v,
            Err(e) => return PacketStep::Report(e),
        };
        self.headers.keep_fresh(now);
        if let Some(h) = header {
            self.headers.insert(fragment.frame_id, h, now);
        }
        let pushed = self.assembler.push(
            fragment.frame_id,
            fragment.index,
            fragment.count,
            fragment.expected_frame_bytes as usize,
            fragment.data,
            now,
        );
        match pushed {
            Ok(Some(data)) => match self.headers.take(fragment.frame_id) {
                Some(h) => {
                    let action = self.gate.route(&h, &data);
                    PacketStep::Frame { header: h, data, action }
                },
                None => PacketStep::Pending,
            },
            _ => PacketStep::Pending,
        }
    }

    /// A decoder for `key` was opened after `OpenDecoder`.
    pub fn decoder_opened(&mut self, key: DecoderKey)
        requires
            old(self).wf(),
        ensures
            final(self).wf(),
            final(self)@ == (ReceiverModel {
                gate: GateState { decoder: Some(key), waiting_keyframe: false, ..old(self)@.gate },
                ..old(self)@
            }),
    {
        self.gate.decoder_opened(key);
    }

    /// The decoder failed: it is closed and the next keyframe awaited.
    pub fn decoder_failed(&mut self)
        requires
            old(self).wf(),
        ensures
            final(self).wf(),
            final(self)@ == (ReceiverModel { gate: closed_decoder(old(self)@.gate), ..old(self)@ }),
    {
        self.gate.decoder_failed();
    }

    /// Frame `frame_id` went into the decoder without giving a picture.
    pub fn consumed(&mut self, frame_id: u64)
        requires
            old(self).wf(),
        ensures
            final(self).wf(),
            final(self)@ == (ReceiverModel { gate: GateState { latest: Some(frame_id), ..old(self)@.gate }, ..old(self)@ }),
    {
        self.gate.consumed(frame_id);
    }

    /// A decoded picture of `width` by `height` for frame `h` is shown, at
    /// `now`, only if its size is the one the header announced.
    pub fn shown(&mut self, h: &FrameHeader, width: u32, height: u32, now: u64) -> (r: bool)
        requires
            old(self).wf(),
        ensures
            final(self).wf(),
            r == (width == h.width && height == h.height),
            r ==> final(self)@ == (ReceiverModel {
                last_frame: now,
                gate: GateState { latest: Some(h.frame_id), ..old(self)@.gate },
                ..old(self)@
            }),
            !r ==> final(self)@ == old(self)@,
    {
        let r = self.gate.decoded(h, width, height);
        if r {
            self.last_frame = now;
        }
        r
    }
}

} // verus!
