use vstd::prelude::*;

use crate::capability::{lemma_codec_id_round_trip, TransportCodec};
use crate::net::{elapsed, elapsed_nanos, private_lan, spec_private_lan, Endpoint};
use crate::reassembly::{
    complete_delivery, created_by, deliver, frames_wf, index_of, lemma_reassembles_in_any_order, max_chunks, FrameModel,
    ReassemblyError, UDP_PAYLOAD,
};
use crate::protocol::{
    header_bytes, lemma_header_round_trip, spec_decode, spec_encode, FrameHeader, ProtocolError,
    HEADER_LEN, MAX_FRAME_BYTES, VERSION,
};
use crate::wire::{lemma_u16_bytes, lemma_u16_round_trip, lemma_u32_round_trip, lemma_u64_round_trip, push_all, push_u16, push_u32, push_u64, read_u16, read_u32, read_u64, u16_at, u16_le, u32_at, u32_le, u64_at, u64_le};

verus! {

pub const VIDEO_PORT: u16 = 45831;

pub const DISCOVERY_PORT: u16 = 45832;

/// "CBH2": the first four bytes of a receiver hello.
pub const HELLO_MAGIC: [u8; 4] = [0x43, 0x42, 0x48, 0x32];

/// "CBF2": the first four bytes of every fragment.
pub const FRAGMENT_MAGIC: [u8; 4] = [0x43, 0x42, 0x46, 0x32];

pub const FRAGMENT_HEADER_LEN: usize = 28;

pub open spec fn hello_magic() -> Seq<u8> {
    seq![0x43u8, 0x42u8, 0x48u8, 0x32u8]
}

pub open spec fn fragment_magic() -> Seq<u8> {
    seq![0x43u8, 0x42u8, 0x46u8, 0x32u8]
}

/// A receiver's announcement of its protocol version and decodable codecs.
#[derive(Debug, Clone, PartialEq, Eq)]
pub struct ReceiverHello {
    pub version: u16,
    pub codecs: Vec<TransportCodec>,
}

#[derive(Debug, Clone, Copy, PartialEq, Eq, Structural)]
pub enum HandshakeError {
    Malformed,
    VersionMismatch { peer: u16, local: u16 },
    UnsupportedCodec(u8),
    NoCommonCodec,
}

/// Wire numbers of a list of codecs.
pub open spec fn codec_ids(codecs: Seq<TransportCodec>) -> Seq<u8> {
    Seq::new(codecs.len(), |i: int| codecs[i].spec_id())
}

/// At most 255 codecs are announced; the count byte says how many.
pub open spec fn announced(n: nat) -> nat {
    if n > 255 { 255 } else { n }
}

pub open spec fn hello_bytes(version: u16, codecs: Seq<TransportCodec>) -> Seq<u8> {
    let n = announced(codecs.len());
    hello_magic() + u16_le(version) + seq![n as u8] + codec_ids(codecs.take(n as int))
}

/// Codecs of a list of wire numbers, up to the first number that names none.
pub open spec fn codecs_of_ids(ids: Seq<u8>) -> Result<Seq<TransportCodec>, u8>
    decreases ids.len(),
{
    if ids.len() == 0 {
        Ok(Seq::empty())
    } else {
        match codecs_of_ids(ids.drop_last()) {
            Err(e) => Err(e),
            Ok(prefix) => match TransportCodec::spec_from_id(ids.last()) {
                Some(c) => Ok(prefix.push(c)),
                None => Err(ids.last()),
            },
        }
    }
}

pub open spec fn spec_decode_hello(b: Seq<u8>) -> Result<(u16, Seq<TransportCodec>), HandshakeError> {
    if b.len() < 7 || b.subrange(0, 4) != hello_magic() {
        Err(HandshakeError::Malformed)
    } else if u16_at(b, 4) != VERSION {
        Err(HandshakeError::VersionMismatch { peer: u16_at(b, 4), local: VERSION })
    } else if b.len() != 7 + b[6] {
        Err(HandshakeError::Malformed)
    } else {
        match codecs_of_ids(b.subrange(7, b.len() as int)) {
            Ok(codecs) => Ok((u16_at(b, 4), codecs)),
            Err(id) => Err(HandshakeError::UnsupportedCodec(id)),
        }
    }
}

proof fn lemma_codecs_of_ids_error_persists(ids: Seq<u8>, i: int)
    requires
        0 <= i <= ids.len(),
        codecs_of_ids(ids.take(i)) is Err,
    ensures
        codecs_of_ids(ids) == codecs_of_ids(ids.take(i)),
    decreases ids.len() - i,
{
    if i < ids.len() {
        assert(ids.take(i + 1).drop_last() =~= ids.take(i));
        lemma_codecs_of_ids_error_persists(ids, i + 1);
    } else {
        assert(ids.take(i) =~= ids);
    }
}

fn check_magic4(b: &[u8], m0: u8, m1: u8, m2: u8, m3: u8) -> (r: bool)
    requires
        b@.len() >= 4,
    ensures
        r == (b@.subrange(0, 4) == seq![m0, m1, m2, m3]),
{
    let r = b[0] == m0 && b[1] == m1 && b[2] == m2 && b[3] == m3;
    if r {
        assert(b@.subrange(0, 4) =~= seq![m0, m1, m2, m3]);
    } else {
        assert(!(b@.subrange(0, 4) =~= seq![m0, m1, m2, m3]));
    }
    r
}

impl ReceiverHello {
    /// Magic, version, the number of codecs (at most 255) and their wire numbers.
    pub fn encode(&self) -> (r: Vec<u8>)
        ensures
            r@ == hello_bytes(self.version, self.codecs@),
    {
        let mut bytes: Vec<u8> = Vec::new();
        bytes.push(0x43);
        bytes.push(0x42);
        bytes.push(0x48);
        bytes.push(0x32);
        push_u16(&mut bytes, self.version);
        let n: usize = if self.codecs.len() > 255 { 255 } else { self.codecs.len() };
        bytes.push(n as u8);
        let ghost head = bytes@;
        let mut i: usize = 0;
        while i < n
            invariant
                n <= self.codecs@.len(),
                n == announced(self.codecs@.len() as nat),
                i <= n,
                bytes@ == head + codec_ids(self.codecs@.take(i as int)),
            decreases n - i,
        {
            bytes.push(self.codecs[i].id());
            i = i + 1;
            assert(codec_ids(self.codecs@.take(i as int)) =~= codec_ids(self.codecs@.take(i - 1)).push(
                self.codecs@[i - 1].spec_id(),
            ));
        }
        assert(bytes@ =~= hello_bytes(self.version, self.codecs@));
        bytes
    }

    /// Reads a hello; the whole input must be exactly one hello.
    pub fn decode(bytes: &[u8]) -> (r: Result<ReceiverHello, HandshakeError>)
        ensures
            match (r, spec_decode_hello(bytes@)) {
                (Ok(h), Ok((version, codecs))) => h.version == version && h.codecs@ == codecs,
                (Err(e), Err(expected)) => e == expected,
                _ => false,
            },
    {
        if bytes.len() < 7 || !check_magic4(bytes, 0x43, 0x42, 0x48, 0x32) {
            return Err(HandshakeError::Malformed);
        }
        assert(bytes@.subrange(0, 4) == hello_magic());
        let version = read_u16(bytes, 4);
        if version != VERSION {
            return Err(HandshakeError::VersionMismatch { peer: version, local: VERSION });
        }
        let count = bytes[6] as usize;
        if bytes.len() != 7 + count {
            return Err(HandshakeError::Malformed);
        }
        let ghost ids = bytes@.subrange(7, bytes@.len() as int);
        let mut codecs: Vec<TransportCodec> = Vec::new();
        let mut i: usize = 0;
        while i < count
            invariant
                bytes@.len() == 7 + count,
                7 + count <= usize::MAX,
                count == bytes@[6],
                bytes@.subrange(0, 4) == hello_magic(),
                u16_at(bytes@, 4) == VERSION,
                ids == bytes@.subrange(7, bytes@.len() as int),
                i <= count,
                codecs_of_ids(ids.take(i as int)) == Ok::<Seq<TransportCodec>, u8>(codecs@),
            decreases count - i,
        {
            let id = bytes[7 + i];
            assert(ids.take(i + 1).drop_last() =~= ids.take(i as int));
            assert(ids.take(i + 1).last() == id);
            match TransportCodec::from_id(id) {
                Some(c) => codecs.push(c),
                None => {
                    assert(codecs_of_ids(ids.take(i + 1)) == Err::<Seq<TransportCodec>, u8>(id));
                    proof {
                        lemma_codecs_of_ids_error_persists(ids, i + 1);
                    }
                    return Err(HandshakeError::UnsupportedCodec(id));
                },
            }
            i = i + 1;
        }
        assert(ids.take(count as int) =~= ids);
        Ok(ReceiverHello { version, codecs })
    }
}

proof fn lemma_codecs_of_own_ids(codecs: Seq<TransportCodec>)
    ensures
        codecs_of_ids(codec_ids(codecs)) == Ok::<Seq<TransportCodec>, u8>(codecs),
    decreases codecs.len(),
{
    if codecs.len() > 0 {
        let ids = codec_ids(codecs);
        assert(ids.drop_last() =~= codec_ids(codecs.drop_last()));
        assert(ids.last() == codecs.last().spec_id());
        lemma_codecs_of_own_ids(codecs.drop_last());
        lemma_codec_id_round_trip(codecs.last(), ids.last());
        assert(codecs.drop_last().push(codecs.last()) =~= codecs);
        assert(codecs_of_ids(ids) == Ok::<Seq<TransportCodec>, u8>(codecs.drop_last().push(codecs.last())));
    } else {
        assert(codecs =~= Seq::<TransportCodec>::empty());
    }
}

/// A receiver's hello reads back as the same hello when it carries this
/// protocol version and at most 255 codecs (the count is one byte).
pub proof fn lemma_hello_round_trip(codecs: Seq<TransportCodec>)
    requires
        codecs.len() <= 255,
    ensures
        spec_decode_hello(hello_bytes(VERSION, codecs)) == Ok::<(u16, Seq<TransportCodec>), HandshakeError>((VERSION, codecs)),
{
    let b = hello_bytes(VERSION, codecs);
    let n = codecs.len();
    assert(codecs.take(n as int) =~= codecs);
    assert(b.subrange(0, 4) =~= hello_magic());
    assert(b.subrange(4, 6) =~= u16_le(VERSION));
    lemma_u16_round_trip(VERSION, b, 4);
    assert(b[6] == n as u8);
    assert(b.subrange(7, b.len() as int) =~= codec_ids(codecs));
    lemma_codecs_of_own_ids(codecs);
}

proof fn lemma_ids_of_codecs(ids: Seq<u8>)
    requires
        codecs_of_ids(ids) is Ok,
    ensures
        codec_ids(codecs_of_ids(ids).unwrap()) == ids,
        codecs_of_ids(ids).unwrap().len() == ids.len(),
    decreases ids.len(),
{
    if ids.len() > 0 {
        lemma_ids_of_codecs(ids.drop_last());
        let c = codecs_of_ids(ids).unwrap();
        let p = codecs_of_ids(ids.drop_last()).unwrap();
        let last = TransportCodec::spec_from_id(ids.last()).unwrap();
        lemma_codec_id_round_trip(last, ids.last());
        assert(c == p.push(last));
        assert forall|i: int| 0 <= i < ids.len() implies #[trigger] codec_ids(c)[i] == ids[i] by {
            if i < ids.len() - 1 {
                assert(c[i] == p[i]);
                assert(codec_ids(p)[i] == ids.drop_last()[i]);
            }
        }
        assert(codec_ids(c) =~= ids);
    } else {
        assert(codec_ids(codecs_of_ids(ids).unwrap()) =~= ids);
    }
}

/// A hello that reads back is written again as exactly the same bytes.
pub proof fn lemma_hello_bytes_read_back(b: Seq<u8>)
    requires
        spec_decode_hello(b) is Ok,
    ensures
        hello_bytes(spec_decode_hello(b).unwrap().0, spec_decode_hello(b).unwrap().1) == b,
{
    let (version, codecs) = spec_decode_hello(b).unwrap();
    let ids = b.subrange(7, b.len() as int);
    lemma_ids_of_codecs(ids);
    lemma_u16_bytes(b, 4);
    assert(codecs.len() == b[6]);
    assert(codecs.take(codecs.len() as int) =~= codecs);
    assert(hello_bytes(version, codecs) =~= b.subrange(0, 4) + b.subrange(4, 6) + seq![b[6]] + ids);
    assert(hello_bytes(version, codecs) =~= b);
}

/// The codec that `negotiate` settles on: the first of `preferred` that the
/// peer announced.
pub open spec fn first_common(preferred: Seq<TransportCodec>, offered: Seq<TransportCodec>) -> Option<TransportCodec>
    decreases preferred.len(),
{
    if preferred.len() == 0 {
        None
    } else if offered.contains(preferred[0]) {
        Some(preferred[0])
    } else {
        first_common(preferred.drop_first(), offered)
    }
}

/// The sender's first acceptable choice wins: the negotiated codec is some
/// `preferred[k]` that the peer offers while no earlier `preferred[j]` is
/// offered; and there is none exactly when the peer offers no preferred codec.
pub proof fn lemma_first_choice_wins(preferred: Seq<TransportCodec>, offered: Seq<TransportCodec>)
    ensures
        first_common(preferred, offered) matches Some(c) ==> exists|k: int|
            0 <= k < preferred.len() && #[trigger] preferred[k] == c && offered.contains(c)
                && forall|j: int| 0 <= j < k ==> !offered.contains(#[trigger] preferred[j]),
        first_common(preferred, offered) is None <==> forall|k: int|
            0 <= k < preferred.len() ==> !offered.contains(#[trigger] preferred[k]),
    decreases preferred.len(),
{
    if preferred.len() > 0 {
        let rest = preferred.drop_first();
        lemma_first_choice_wins(rest, offered);
        if !offered.contains(preferred[0]) {
            if let Some(c) = first_common(rest, offered) {
                let k = choose|k: int|
                    0 <= k < rest.len() && #[trigger] rest[k] == c && offered.contains(c)
                        && forall|j: int| 0 <= j < k ==> !offered.contains(#[trigger] rest[j]);
                assert(preferred[k + 1] == c);
                assert forall|j: int| 0 <= j < k + 1 implies !offered.contains(#[trigger] preferred[j]) by {
                    if j > 0 {
                        assert(preferred[j] == rest[j - 1]);
                    }
                }
            } else {
                assert forall|k: int| 0 <= k < preferred.len() implies !offered.contains(#[trigger] preferred[k]) by {
                    if k > 0 {
                        assert(preferred[k] == rest[k - 1]);
                    }
                }
            }
            assert((forall|k: int| 0 <= k < preferred.len() ==> !offered.contains(#[trigger] preferred[k]))
                ==> (forall|k: int| 0 <= k < rest.len() ==> !offered.contains(#[trigger] rest[k]))) by {
                if forall|k: int| 0 <= k < preferred.len() ==> !offered.contains(#[trigger] preferred[k]) {
                    assert forall|k: int| 0 <= k < rest.len() implies !offered.contains(#[trigger] rest[k]) by {
                        assert(rest[k] == preferred[k + 1]);
                    }
                }
            }
        } else {
            assert(preferred[0] == preferred[0]);
        }
    }
}

/// The first codec of `preferred` that the peer can decode.
pub fn negotiate(preferred: &[TransportCodec], peer: &ReceiverHello) -> (r: Result<TransportCodec, HandshakeError>)
    ensures
        match first_common(preferred@, peer.codecs@) {
            Some(c) => r == Ok::<TransportCodec, HandshakeError>(c),
            None => r == Err::<TransportCodec, HandshakeError>(HandshakeError::NoCommonCodec),
        },
{
    let mut i: usize = 0;
    assert(preferred@.skip(0) =~= preferred@);
    while i < preferred.len()
        invariant
            i <= preferred@.len(),
            first_common(preferred@, peer.codecs@) == first_common(preferred@.skip(i as int), peer.codecs@),
        decreases preferred@.len() - i,
    {
        let c = preferred[i];
        let mut j: usize = 0;
        let mut found = false;
        while j < peer.codecs.len() && !found
            invariant
                j <= peer.codecs@.len(),
                found ==> peer.codecs@.contains(c),
                !found ==> forall|k: int| 0 <= k < j ==> peer.codecs@[k] != c,
            decreases peer.codecs@.len() - j,
        {
            if peer.codecs[j] == c {
                found = true;
            }
            j = j + 1;
        }
        assert(preferred@.skip(i as int)[0] == c);
        assert(preferred@.skip(i as int).drop_first() =~= preferred@.skip(i + 1));
        if found {
            return Ok(c);
        }
        i = i + 1;
    }
    Err(HandshakeError::NoCommonCodec)
}

/// How long a receiver stays current after its last announcement, in
/// nanoseconds (6 s).
pub const LEASE_TTL: u64 = 6000000000;

/// The receiver a sender currently streams to: the last private-LAN endpoint
/// that announced itself, while its announcement is fresh.
pub struct ReceiverLease {
    endpoint: Option<Endpoint>,
    last_seen: Option<u64>,
    ttl: u64,
}

/// The endpoint that holds the lease at `now`, if its last announcement is
/// less than `ttl` old.
pub open spec fn lease_holder(endpoint: Option<Endpoint>, last_seen: Option<u64>, ttl: u64, now: u64) -> Option<Endpoint> {
    match (endpoint, last_seen) {
        (Some(e), Some(seen)) => if elapsed(seen, now) < ttl { Some(e) } else { None },
        _ => None,
    }
}

impl ReceiverLease {
    pub closed spec fn endpoint(&self) -> Option<Endpoint> {
        self.endpoint
    }

    pub closed spec fn last_seen(&self) -> Option<u64> {
        self.last_seen
    }

    pub closed spec fn ttl(&self) -> u64 {
        self.ttl
    }

    /// Records an announcement from `endpoint` at `now`. Only private-LAN
    /// addresses are accepted; the answer says whether it was.
    pub fn update(&mut self, endpoint: Endpoint, now: u64) -> (r: bool)
        ensures
            r == spec_private_lan(endpoint.ip),
            final(self).ttl() == old(self).ttl(),
            r ==> final(self).endpoint() == Some(endpoint) && final(self).last_seen() == Some(now),
            !r ==> final(self).endpoint() == old(self).endpoint() && final(self).last_seen() == old(self).last_seen(),
    {
        if !private_lan(endpoint.ip) {
            return false;
        }
        self.endpoint = Some(endpoint);
        self.last_seen = Some(now);
        true
    }

    /// The current receiver at `now`, if any.
    pub fn active(&self, now: u64) -> (r: Option<Endpoint>)
        ensures
            r == lease_holder(self.endpoint(), self.last_seen(), self.ttl(), now),
    {
        match (self.endpoint, self.last_seen) {
            (Some(e), Some(seen)) => if elapsed_nanos(seen, now) < self.ttl { Some(e) } else { None },
            _ => None,
        }
    }
}

impl Default for ReceiverLease {
    fn default() -> (r: Self)
        ensures
            r.endpoint() is None,
            r.last_seen() is None,
            r.ttl() == LEASE_TTL,
    {
        ReceiverLease { endpoint: None, last_seen: None, ttl: LEASE_TTL }
    }
}

/// A receiver that announced itself from the private LAN at `seen` is the
/// active receiver exactly while less than `ttl` nanoseconds have passed.
pub proof fn lemma_lease_window(endpoint: Endpoint, seen: u64, ttl: u64, now: u64)
    requires
        spec_private_lan(endpoint.ip),
    ensures
        lease_holder(Some(endpoint), Some(seen), ttl, now) == (if elapsed(seen, now) < ttl {
            Some(endpoint)
        } else {
            None
        }),
{
}

/// One received fragment of a frame; `data` borrows from the packet.
#[derive(Debug, Clone)]
pub struct Fragment<'a> {
    pub frame_id: u64,
    pub index: u32,
    pub count: u32,
    pub expected_frame_bytes: u32,
    pub data: &'a [u8],
}

/// The fields of a fragment as plain values.
#[verifier::ext_equal]
pub struct FragmentView {
    pub frame_id: u64,
    pub index: u32,
    pub count: u32,
    pub expected_frame_bytes: u32,
    pub data: Seq<u8>,
}

impl<'a> Fragment<'a> {
    pub open spec fn view_fields(&self) -> FragmentView {
        FragmentView {
            frame_id: self.frame_id,
            index: self.index,
            count: self.count,
            expected_frame_bytes: self.expected_frame_bytes,
            data: self.data@,
        }
    }
}

/// Why a frame could not be split or a fragment could not be read.
#[derive(Debug, Clone, Copy, PartialEq, Eq, Structural)]
pub enum FragmentError {
    /// The payload's length differs from the header's `payload_len`.
    PayloadLengthMismatch,
    /// The frame header cannot be written or read.
    Header(ProtocolError),
    /// Shorter than a fragment header, or without the fragment magic.
    BadFragment,
    /// A fragment of another protocol version.
    VersionMismatch(u16),
    /// The fragment says it holds a frame header but is too short for one.
    TruncatedHeader,
}

/// Payload bytes in the first fragment, which also carries the frame header.
pub open spec fn first_capacity() -> nat {
    (UDP_PAYLOAD - FRAGMENT_HEADER_LEN - HEADER_LEN) as nat
}

/// Payload bytes in every later fragment.
pub open spec fn other_capacity() -> nat {
    (UDP_PAYLOAD - FRAGMENT_HEADER_LEN) as nat
}

/// Number of fragments for a payload of `len` bytes (at least one).
pub open spec fn fragment_count(len: nat) -> nat {
    if len <= first_capacity() {
        1
    } else {
        1 + ((len - first_capacity()) + other_capacity() - 1) as nat / other_capacity()
    }
}

/// Where fragment `i`'s share of the payload starts.
pub open spec fn chunk_start(i: nat) -> nat {
    if i == 0 {
        0
    } else {
        first_capacity() + (i - 1) as nat * other_capacity()
    }
}

/// Where fragment `i`'s share of a `len`-byte payload ends.
pub open spec fn chunk_end(i: nat, len: nat) -> nat {
    let cap = if i == 0 { first_capacity() } else { other_capacity() };
    if chunk_start(i) + cap < len { chunk_start(i) + cap } else { len }
}

/// The 28-byte fragment header.
pub open spec fn fragment_header_bytes(frame_id: u64, index: u32, count: u32, expected: u32, has_header: bool) -> Seq<u8> {
    fragment_magic() + u16_le(VERSION) + u16_le(if has_header { 1u16 } else { 0u16 }) + u64_le(frame_id)
        + u32_le(index) + u32_le(count) + u32_le(expected)
}

/// Fragment `i` of `count`: fragment header, the frame header in the first
/// fragment only, then the fragment's share of the payload.
pub open spec fn fragment_packet(h: FrameHeader, payload: Seq<u8>, i: nat, count: nat) -> Seq<u8> {
    fragment_header_bytes(h.frame_id, i as u32, count as u32, h.payload_len, i == 0) + (if i == 0 {
        header_bytes(h)
    } else {
        Seq::empty()
    }) + payload.subrange(chunk_start(i) as int, chunk_end(i, payload.len()) as int)
}

pub open spec fn spec_fragments(h: FrameHeader, payload: Seq<u8>) -> Result<Seq<Seq<u8>>, FragmentError> {
    if payload.len() != h.payload_len {
        Err(FragmentError::PayloadLengthMismatch)
    } else {
        match spec_encode(h) {
            Err(e) => Err(FragmentError::Header(e)),
            Ok(_) => {
                let count = fragment_count(payload.len());
                Ok(Seq::new(count, |i: int| fragment_packet(h, payload, i as nat, count)))
            },
        }
    }
}

proof fn lemma_chunk_bounds(i: nat, len: nat)
    requires
        i < fragment_count(len),
    ensures
        chunk_start(i) <= chunk_end(i, len) <= len,
        i + 1 < fragment_count(len) ==> chunk_end(i, len) == chunk_start(i + 1),
        i + 1 == fragment_count(len) ==> chunk_end(i, len) == len,
{
    let f = first_capacity();
    let o = other_capacity();
    if len > f {
        let r = (len - f) as nat;
        let c = ((r + o - 1) as nat / o) as nat;
        assert(c * o >= r) by (nonlinear_arith)
            requires c == (r + o - 1) as nat / o, o == 1172, r > 0;
        assert((c - 1) * o < r) by (nonlinear_arith)
            requires c == (r + o - 1) as nat / o, o == 1172, r > 0;
        assert(c >= 1) by (nonlinear_arith)
            requires c == (r + o - 1) as nat / o, o == 1172, r > 0;
        if i > 0 {
            let a: int = i - 1;
            let b: int = c - 1;
            assert(a * o <= b * o) by (nonlinear_arith)
                requires a <= b, o == 1172;
            assert(a * o + o == i * o) by (nonlinear_arith)
                requires a == i - 1;
            if i + 1 == fragment_count(len) {
                assert((i - 1) as nat * o + o >= r) by (nonlinear_arith)
                    requires i - 1 == c - 1, c * o >= r;
            } else {
                assert(i as nat * o <= (c - 1) * o) by (nonlinear_arith)
                    requires i <= c - 1, o == 1172;
            }
        } else {
            if i + 1 < fragment_count(len) {
                assert(f < len);
            }
        }
    }
}

/// Splits a frame into UDP-sized fragments; the first one also carries the
/// frame header.
pub fn fragments(header: &FrameHeader, payload: &[u8]) -> (r: Result<Vec<Vec<u8>>, FragmentError>)
    ensures
        match (r, spec_fragments(*header, payload@)) {
            (Ok(packets), Ok(expected)) => packets@.map_values(|p: Vec<u8>| p@) == expected,
            (Err(e), Err(expected)) => e == expected,
            _ => false,
        },
{
    if payload.len() != header.payload_len as usize {
        return Err(FragmentError::PayloadLengthMismatch);
    }
    let wire_header = match header.encode() {
        Ok(w) => w,
        Err(e) => return Err(FragmentError::Header(e)),
    };
    let len = payload.len();
    assert(len <= MAX_FRAME_BYTES);
    let first_cap: usize = UDP_PAYLOAD - (FRAGMENT_HEADER_LEN + HEADER_LEN);
    let other_cap: usize = UDP_PAYLOAD - FRAGMENT_HEADER_LEN;
    let remaining: usize = if len > first_cap { len - first_cap } else { 0 };
    let count: usize = 1 + (remaining + other_cap - 1) / other_cap;
    assert(count == fragment_count(len as nat));
    assert(count <= 200000);
    let ghost expected = Seq::new(count as nat, |i: int| fragment_packet(*header, payload@, i as nat, count as nat));
    let mut result: Vec<Vec<u8>> = Vec::new();
    let mut offset: usize = 0;
    let mut index: usize = 0;
    while index < count
        invariant
            len == payload@.len(),
            len <= MAX_FRAME_BYTES,
            count == fragment_count(len as nat),
            count <= 200000,
            first_cap == first_capacity(),
            other_cap == other_capacity(),
            wire_header@ == header_bytes(*header),
            expected == Seq::new(count as nat, |i: int| fragment_packet(*header, payload@, i as nat, count as nat)),
            index <= count,
            index < count ==> offset == chunk_start(index as nat),
            result@.len() == index,
            forall|k: int| 0 <= k < index ==> (#[trigger] result@[k])@ == expected[k],
        decreases count - index,
    {
        proof {
            lemma_chunk_bounds(index as nat, len as nat);
        }
        let capacity = if index == 0 { first_cap } else { other_cap };
        let end = if offset + capacity < len { offset + capacity } else { len };
        let mut packet: Vec<u8> = Vec::new();
        packet.push(0x43);
        packet.push(0x42);
        packet.push(0x46);
        packet.push(0x32);
        push_u16(&mut packet, VERSION);
        push_u16(&mut packet, if index == 0 { 1u16 } else { 0u16 });
        push_u64(&mut packet, header.frame_id);
        push_u32(&mut packet, index as u32);
        push_u32(&mut packet, count as u32);
        push_u32(&mut packet, header.payload_len);
        let ghost with_fragment_header = packet@;
        assert(with_fragment_header =~= fragment_header_bytes(header.frame_id, index as u32, count as u32, header.payload_len, index == 0));
        if index == 0 {
            push_all(&mut packet, &wire_header);
        }
        let ghost with_headers = packet@;
        let chunk = &payload[offset..end];
        push_all(&mut packet, chunk);
        assert(packet@ =~= expected[index as int]);
        offset = end;
        result.push(packet);
        index = index + 1;
    }
    assert(result@.map_values(|p: Vec<u8>| p@) =~= expected);
    Ok(result)
}

pub open spec fn spec_parse_fragment(p: Seq<u8>) -> Result<(FragmentView, Option<FrameHeader>), FragmentError> {
    if p.len() < FRAGMENT_HEADER_LEN || p.subrange(0, 4) != fragment_magic() {
        Err(FragmentError::BadFragment)
    } else if u16_at(p, 4) != VERSION {
        Err(FragmentError::VersionMismatch(u16_at(p, 4)))
    } else {
        let has_header = u16_at(p, 6) & 1 != 0;
        let offset: int = if has_header { 76 } else { 28 };
        let view = FragmentView {
            frame_id: u64_at(p, 8),
            index: u32_at(p, 16),
            count: u32_at(p, 20),
            expected_frame_bytes: u32_at(p, 24),
            data: p.subrange(offset, p.len() as int),
        };
        if !has_header {
            Ok((view, None))
        } else if p.len() < 76 {
            Err(FragmentError::TruncatedHeader)
        } else {
            match spec_decode(p.subrange(28, 76)) {
                Ok(h) => Ok((view, Some(h))),
                Err(e) => Err(FragmentError::Header(e)),
            }
        }
    }
}

/// Reads a fragment, and the frame header when the fragment carries one.
pub fn parse_fragment(packet: &[u8]) -> (r: Result<(Fragment<'_>, Option<FrameHeader>), FragmentError>)
    ensures
        match (r, spec_parse_fragment(packet@)) {
            (Ok((f, h)), Ok((fv, eh))) => f.view_fields() == fv && h == eh,
            (Err(e), Err(expected)) => e == expected,
            _ => false,
        },
{
    if packet.len() < FRAGMENT_HEADER_LEN || !check_magic4(packet, 0x43, 0x42, 0x46, 0x32) {
        return Err(FragmentError::BadFragment);
    }
    let version = read_u16(packet, 4);
    if version != VERSION {
        return Err(FragmentError::VersionMismatch(version));
    }
    let has_header = read_u16(packet, 6) & 1 != 0;
    let frame_id = read_u64(packet, 8);
    let index = read_u32(packet, 16);
    let count = read_u32(packet, 20);
    let expected_frame_bytes = read_u32(packet, 24);
    let mut offset: usize = FRAGMENT_HEADER_LEN;
    let header = if has_header {
        if packet.len() < offset + HEADER_LEN {
            return Err(FragmentError::TruncatedHeader);
        }
        let value = match FrameHeader::decode(&packet[offset..offset + HEADER_LEN]) {
            Ok(v) => v,
            Err(e) => return Err(FragmentError::Header(e)),
        };
        offset = offset + HEADER_LEN;
        Some(value)
    } else {
        None
    };
    let data = &packet[offset..packet.len()];
    Ok((Fragment { frame_id, index, count, expected_frame_bytes, data }, header))
}

/// Every fragment of a frame fits in one UDP payload and reads back as its
/// frame id, position, count and expected size, with the frame header in the
/// first fragment only; the fragments' shares of the payload are consecutive
/// and together cover it exactly.
pub proof fn lemma_fragments_read_back(h: FrameHeader, payload: Seq<u8>, i: nat)
    requires
        spec_fragments(h, payload) is Ok,
        i < fragment_count(payload.len()),
    ensures
        ({
            let count = fragment_count(payload.len());
            let packet = spec_fragments(h, payload).unwrap()[i as int];
            &&& spec_fragments(h, payload).unwrap().len() == count
            &&& packet.len() <= UDP_PAYLOAD
            &&& spec_parse_fragment(packet) == Ok::<(FragmentView, Option<FrameHeader>), FragmentError>((
                FragmentView {
                    frame_id: h.frame_id,
                    index: i as u32,
                    count: count as u32,
                    expected_frame_bytes: h.payload_len,
                    data: payload.subrange(chunk_start(i) as int, chunk_end(i, payload.len()) as int),
                },
                if i == 0 { Some(h) } else { None },
            ))
        }),
        chunk_start(0) == 0,
        chunk_start(i) <= chunk_end(i, payload.len()) <= payload.len(),
        i + 1 < fragment_count(payload.len()) ==> chunk_end(i, payload.len()) == chunk_start(i + 1),
        i + 1 == fragment_count(payload.len()) ==> chunk_end(i, payload.len()) == payload.len(),
{
    let len = payload.len();
    let count = fragment_count(len);
    lemma_chunk_bounds(i, len);
    assert(count <= 200000);
    let packet = fragment_packet(h, payload, i, count);
    assert(spec_fragments(h, payload).unwrap()[i as int] == packet);
    let data = payload.subrange(chunk_start(i) as int, chunk_end(i, len) as int);
    if i == 0 {
        assert(first_capacity() == 1124);
        lemma_header_round_trip(h);
        lemma_parse_built_fragment(h.frame_id, i as u32, count as u32, h.payload_len, Some(h), data);
    } else {
        assert(other_capacity() == 1172);
        lemma_parse_built_fragment(h.frame_id, i as u32, count as u32, h.payload_len, None, data);
    }
}

#[verifier::spinoff_prover]
proof fn lemma_parse_built_fragment(
    frame_id: u64,
    index: u32,
    count: u32,
    expected: u32,
    header: Option<FrameHeader>,
    data: Seq<u8>,
)
    requires
        header matches Some(h) ==> spec_encode(h) is Ok,
    ensures
        ({
            let packet = fragment_header_bytes(frame_id, index, count, expected, header is Some) + (
            match header {
                Some(h) => header_bytes(h),
                None => Seq::empty(),
            }) + data;
            spec_parse_fragment(packet) == Ok::<(FragmentView, Option<FrameHeader>), FragmentError>((
                FragmentView { frame_id, index, count, expected_frame_bytes: expected, data },
                header,
            ))
        }),
{
    let fh = fragment_header_bytes(frame_id, index, count, expected, header is Some);
    let mid = match header {
        Some(h) => header_bytes(h),
        None => Seq::empty(),
    };
    let packet = fh + mid + data;
    let flag: u16 = if header is Some { 1 } else { 0 };
    assert(packet.subrange(0, 4) =~= fragment_magic());
    assert(packet.subrange(4, 6) =~= u16_le(VERSION));
    lemma_u16_round_trip(VERSION, packet, 4);
    assert(packet.subrange(6, 8) =~= u16_le(flag));
    lemma_u16_round_trip(flag, packet, 6);
    assert(1u16 & 1u16 != 0u16) by (bit_vector);
    assert(0u16 & 1u16 == 0u16) by (bit_vector);
    assert(packet.subrange(8, 16) =~= u64_le(frame_id));
    lemma_u64_round_trip(frame_id, packet, 8);
    assert(packet.subrange(16, 20) =~= u32_le(index));
    lemma_u32_round_trip(index, packet, 16);
    assert(packet.subrange(20, 24) =~= u32_le(count));
    lemma_u32_round_trip(count, packet, 20);
    assert(packet.subrange(24, 28) =~= u32_le(expected));
    lemma_u32_round_trip(expected, packet, 24);
    match header {
        Some(h) => {
            lemma_header_round_trip(h);
            assert(packet.subrange(28, 76) =~= header_bytes(h));
            assert(packet.subrange(76, packet.len() as int) =~= data);
        },
        None => {
            assert(packet.subrange(28, packet.len() as int) =~= data);
        },
    }
}

/// The consecutive shares of `payload` that its fragments carry, in order.
pub open spec fn payload_shares(payload: Seq<u8>) -> Seq<Seq<u8>> {
    Seq::new(
        fragment_count(payload.len()),
        |i: int| payload.subrange(chunk_start(i as nat) as int, chunk_end(i as nat, payload.len()) as int),
    )
}

proof fn lemma_shares_flatten(payload: Seq<u8>, k: nat)
    requires
        k < fragment_count(payload.len()),
    ensures
        payload_shares(payload).skip(k as int).flatten() == payload.subrange(chunk_start(k) as int, payload.len() as int),
    decreases fragment_count(payload.len()) - k,
{
    let len = payload.len();
    let parts = payload_shares(payload);
    let s = parts.skip(k as int);
    lemma_chunk_bounds(k, len);
    assert(s.first() == parts[k as int]);
    if k + 1 == fragment_count(len) {
        assert(s.drop_first() =~= Seq::<Seq<u8>>::empty());
        assert(s.drop_first().flatten() == Seq::<u8>::empty());
        assert(s.flatten() =~= payload.subrange(chunk_start(k) as int, len as int));
    } else {
        lemma_shares_flatten(payload, k + 1);
        assert(s.drop_first() =~= parts.skip(k + 1 as int));
        assert(s.flatten() =~= payload.subrange(chunk_start(k) as int, len as int));
    }
}

/// A frame crosses the network whole: each fragment that `fragments` makes
/// reads back as the frame's id, its position, the fragment count, the
/// payload length and its share of the payload; and when every fragment
/// arrives once, in any order, at a reassembler that holds no piece of the
/// frame, the last arrival hands back exactly the payload; the shares joined
/// in fragment order are the payload.
#[verifier::spinoff_prover]
#[verifier::rlimit(30)]
pub proof fn lemma_sent_frame_arrives(
    h: FrameHeader,
    payload: Seq<u8>,
    order: Seq<u32>,
    frames: Seq<FrameModel>,
    now: u64,
)
    requires
        spec_fragments(h, payload) is Ok,
        order.len() == fragment_count(payload.len()),
        forall|i: int| 0 <= i < order.len() ==> #[trigger] order[i] < order.len(),
        forall|i: int, j: int| 0 <= i < j < order.len() ==> #[trigger] order[i] != #[trigger] order[j],
        frames_wf(frames),
        created_by(frames, now),
        index_of(frames, h.frame_id) is None,
    ensures
        forall|i: int| 0 <= i < order.len() ==> (#[trigger] spec_parse_fragment(spec_fragments(h, payload).unwrap()[i]) matches Ok((f, _))
            && f.frame_id == h.frame_id && f.index == i && f.count == order.len() && f.expected_frame_bytes == h.payload_len
            && f.data == payload_shares(payload)[i]),
        payload_shares(payload).flatten() == payload,
        deliver(frames, h.frame_id, payload_shares(payload), order, h.payload_len as usize, now, order.len() as int).1.last()
            == Ok::<Option<Seq<u8>>, ReassemblyError>(Some(payload)),
{
    let len = payload.len();
    let count = fragment_count(len);
    let parts = payload_shares(payload);
    lemma_header_round_trip(h);
    assert forall|i: int| 0 <= i < order.len() implies (#[trigger] spec_parse_fragment(spec_fragments(h, payload).unwrap()[i]) matches Ok((f, _))
        && f.frame_id == h.frame_id && f.index == i && f.count == order.len() && f.expected_frame_bytes == h.payload_len
        && f.data == payload_shares(payload)[i]) by {
        lemma_fragments_read_back(h, payload, i as nat);
    }
    assert(len <= MAX_FRAME_BYTES);
    assert(count <= max_chunks()) by {
        if len > first_capacity() {
            let r = (len - first_capacity()) as nat;
            assert(((r + other_capacity() - 1) as nat / other_capacity()) <= (MAX_FRAME_BYTES + 1171) / 1172) by (nonlinear_arith)
                requires r <= MAX_FRAME_BYTES, other_capacity() == 1172;
        }
    }
    assert forall|i: int| 0 <= i < parts.len() implies #[trigger] parts[i].len() <= UDP_PAYLOAD by {
        lemma_chunk_bounds(i as nat, len);
    }
    lemma_shares_flatten(payload, 0);
    assert(parts.skip(0) =~= parts);
    assert(payload.subrange(0, len as int) =~= payload);
    assert(complete_delivery(parts, order, h.payload_len as usize));
    lemma_reassembles_in_any_order(frames, h.frame_id, parts, order, h.payload_len as usize, now);
}

} // verus!
