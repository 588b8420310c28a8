use vstd::prelude::*;

use crate::capability::{lemma_codec_id_round_trip, TransportCodec};
use crate::wire::{
    i64_at, i64_le, lemma_i64_round_trip, lemma_u16_round_trip, lemma_u32_round_trip,
    lemma_u64_round_trip, lemma_u16_bytes, lemma_u32_bytes, lemma_u64_bytes, push_i64, push_u16, push_u32, push_u64, read_i64, read_u16, read_u32,
    read_u64, u16_at, u16_le, u32_at, u32_le, u64_at, u64_le,
};

verus! {

/// "CBR2": the first four bytes of every frame header.
pub const MAGIC: [u8; 4] = [0x43, 0x42, 0x52, 0x32];

pub const VERSION: u16 = 2;

pub const HEADER_LEN: usize = 48;

pub const FLAG_KEYFRAME: u16 = 1;

pub const FLAG_CONFIG: u16 = 2;

/// Largest frame payload that is sent or accepted: 128 MiB.
pub const MAX_FRAME_BYTES: usize = 134217728;

pub open spec fn magic_bytes() -> Seq<u8> {
    seq![0x43u8, 0x42u8, 0x52u8, 0x32u8]
}

/// The fixed-size header in front of every frame on the wire.
#[derive(Debug, Clone, Copy, PartialEq, Eq, Structural)]
pub struct FrameHeader {
    pub codec: TransportCodec,
    pub flags: u16,
    pub width: u32,
    pub height: u32,
    pub fps_numerator: u32,
    pub fps_denominator: u32,
    pub frame_id: u64,
    pub timestamp_100ns: i64,
    pub payload_len: u32,
}

#[derive(Debug, Clone, Copy, PartialEq, Eq, Structural)]
pub enum ProtocolError {
    TooShort,
    BadMagic,
    VersionMismatch(u16),
    UnsupportedCodec(u8),
    InvalidDimensions,
    FrameTooLarge,
}

/// Size and frame rate are usable: both sides 1 to 8192, both fps terms nonzero.
pub open spec fn dimensions_valid(h: FrameHeader) -> bool {
    &&& 0 < h.width <= 8192
    &&& 0 < h.height <= 8192
    &&& h.fps_numerator != 0
    &&& h.fps_denominator != 0
}

/// The 48 header bytes: magic, version, codec, a zero byte, flags, two zero
/// bytes, then width, height, fps numerator and denominator, frame id,
/// timestamp and payload length, all little-endian.
pub open spec fn header_bytes(h: FrameHeader) -> Seq<u8> {
    magic_bytes() + u16_le(VERSION) + seq![h.codec.spec_id(), 0u8] + u16_le(h.flags) + seq![
        0u8,
        0u8,
    ] + u32_le(h.width) + u32_le(h.height) + u32_le(h.fps_numerator) + u32_le(h.fps_denominator)
        + u64_le(h.frame_id) + i64_le(h.timestamp_100ns) + u32_le(h.payload_len)
}

pub open spec fn spec_encode(h: FrameHeader) -> Result<Seq<u8>, ProtocolError> {
    if !dimensions_valid(h) {
        Err(ProtocolError::InvalidDimensions)
    } else if h.payload_len > MAX_FRAME_BYTES {
        Err(ProtocolError::FrameTooLarge)
    } else {
        Ok(header_bytes(h))
    }
}

/// The header that the first 48 bytes of `b` hold (codec already known).
pub open spec fn header_fields(b: Seq<u8>, codec: TransportCodec) -> FrameHeader {
    FrameHeader {
        codec,
        flags: u16_at(b, 8),
        width: u32_at(b, 12),
        height: u32_at(b, 16),
        fps_numerator: u32_at(b, 20),
        fps_denominator: u32_at(b, 24),
        frame_id: u64_at(b, 28),
        timestamp_100ns: i64_at(b, 36),
        payload_len: u32_at(b, 44),
    }
}

pub open spec fn spec_decode(b: Seq<u8>) -> Result<FrameHeader, ProtocolError> {
    if b.len() < HEADER_LEN {
        Err(ProtocolError::TooShort)
    } else if b.subrange(0, 4) != magic_bytes() {
        Err(ProtocolError::BadMagic)
    } else if u16_at(b, 4) != VERSION {
        Err(ProtocolError::VersionMismatch(u16_at(b, 4)))
    } else if TransportCodec::spec_from_id(b[6]) is None {
        Err(ProtocolError::UnsupportedCodec(b[6]))
    } else {
        let h = header_fields(b, TransportCodec::spec_from_id(b[6]).unwrap());
        if !dimensions_valid(h) {
            Err(ProtocolError::InvalidDimensions)
        } else if h.payload_len > MAX_FRAME_BYTES {
            Err(ProtocolError::FrameTooLarge)
        } else {
            Ok(h)
        }
    }
}

fn check_magic(b: &[u8]) -> (r: bool)
    requires
        b@.len() >= 4,
    ensures
        r == (b@.subrange(0, 4) == magic_bytes()),
{
    let r = b[0] == 0x43 && b[1] == 0x42 && b[2] == 0x52 && b[3] == 0x32;
    if r {
        assert(b@.subrange(0, 4) =~= magic_bytes());
    } else {
        assert(!(b@.subrange(0, 4) =~= magic_bytes()));
    }
    r
}

impl FrameHeader {
    /// The 48 wire bytes of a header whose size, frame rate and payload
    /// length are acceptable.
    pub fn encode(&self) -> (r: Result<[u8; 48], ProtocolError>)
        ensures
            match (r, spec_encode(*self)) {
                (Ok(bytes), Ok(expected)) => bytes@ == expected,
                (Err(e), Err(expected)) => e == expected,
                _ => false,
            },
    {
        if self.width == 0 || self.height == 0 || self.width > 8192 || self.height > 8192
            || self.fps_numerator == 0 || self.fps_denominator == 0
        {
            return Err(ProtocolError::InvalidDimensions);
        }
        if self.payload_len as usize > MAX_FRAME_BYTES {
            return Err(ProtocolError::FrameTooLarge);
        }
        let mut v: Vec<u8> = Vec::new();
        v.push(0x43);
        v.push(0x42);
        v.push(0x52);
        v.push(0x32);
        push_u16(&mut v, VERSION);
        v.push(self.codec.id());
        v.push(0);
        push_u16(&mut v, self.flags);
        v.push(0);
        v.push(0);
        push_u32(&mut v, self.width);
        push_u32(&mut v, self.height);
        push_u32(&mut v, self.fps_numerator);
        push_u32(&mut v, self.fps_denominator);
        push_u64(&mut v, self.frame_id);
        push_i64(&mut v, self.timestamp_100ns);
        push_u32(&mut v, self.payload_len);
        assert(v@ =~= header_bytes(*self));
        let mut out = [0u8; 48];
        let mut i: usize = 0;
        while i < 48
            invariant
                v@ == header_bytes(*self),
                v@.len() == 48,
                out@.len() == 48,
                i <= 48,
                forall|k: int| 0 <= k < i ==> out@[k] == v@[k],
            decreases 48 - i,
        {
            out[i] = v[i];
            i = i + 1;
        }
        assert(out@ =~= v@);
        Ok(out)
    }

    /// Reads a header from the front of `bytes`; the checks run in the order
    /// of the error variants.
    pub fn decode(bytes: &[u8]) -> (r: Result<FrameHeader, ProtocolError>)
        ensures
            r == spec_decode(bytes@),
    {
        if bytes.len() < HEADER_LEN {
            return Err(ProtocolError::TooShort);
        }
        if !check_magic(bytes) {
            return Err(ProtocolError::BadMagic);
        }
        let version = read_u16(bytes, 4);
        if version != VERSION {
            return Err(ProtocolError::VersionMismatch(version));
        }
        let codec = match TransportCodec::from_id(bytes[6]) {
            Some(c) => c,
            None => return Err(ProtocolError::UnsupportedCodec(bytes[6])),
        };
        let value = FrameHeader {
            codec,
            flags: read_u16(bytes, 8),
            width: read_u32(bytes, 12),
            height: read_u32(bytes, 16),
            fps_numerator: read_u32(bytes, 20),
            fps_denominator: read_u32(bytes, 24),
            frame_id: read_u64(bytes, 28),
            timestamp_100ns: read_i64(bytes, 36),
            payload_len: read_u32(bytes, 44),
        };
        if value.width == 0 || value.height == 0 || value.width > 8192 || value.height > 8192
            || value.fps_numerator == 0 || value.fps_denominator == 0
        {
            return Err(ProtocolError::InvalidDimensions);
        }
        if value.payload_len as usize > MAX_FRAME_BYTES {
            return Err(ProtocolError::FrameTooLarge);
        }
        Ok(value)
    }

    pub open spec fn spec_keyframe(&self) -> bool {
        self.flags & FLAG_KEYFRAME != 0
    }

    pub open spec fn spec_codec_config(&self) -> bool {
        self.flags & FLAG_CONFIG != 0
    }

    /// Whether the frame can be decoded on its own.
    pub fn keyframe(&self) -> (r: bool)
        ensures
            r == self.spec_keyframe(),
    {
        self.flags & FLAG_KEYFRAME != 0
    }

    /// Whether the frame carries codec configuration.
    pub fn codec_config(&self) -> (r: bool)
        ensures
            r == self.spec_codec_config(),
    {
        self.flags & FLAG_CONFIG != 0
    }
}

/// Decoding the bytes of an encodable header gives back the same header, and
/// encoding succeeds exactly on headers with valid dimensions and a payload
/// length of at most `MAX_FRAME_BYTES`.
pub proof fn lemma_header_round_trip(h: FrameHeader)
    ensures
        spec_encode(h) is Ok <==> dimensions_valid(h) && h.payload_len <= MAX_FRAME_BYTES,
        spec_encode(h) matches Ok(b) ==> b.len() == HEADER_LEN && spec_decode(b) == Ok::<FrameHeader, ProtocolError>(h),
{
    if spec_encode(h) is Ok {
        let b = header_bytes(h);
        assert(b.len() == 48);
        assert(b.subrange(0, 4) =~= magic_bytes());
        assert(b.subrange(4, 6) =~= u16_le(VERSION));
        lemma_u16_round_trip(VERSION, b, 4);
        assert(b[6] == h.codec.spec_id());
        assert(b.subrange(8, 10) =~= u16_le(h.flags));
        lemma_u16_round_trip(h.flags, b, 8);
        assert(b.subrange(12, 16) =~= u32_le(h.width));
        lemma_u32_round_trip(h.width, b, 12);
        assert(b.subrange(16, 20) =~= u32_le(h.height));
        lemma_u32_round_trip(h.height, b, 16);
        assert(b.subrange(20, 24) =~= u32_le(h.fps_numerator));
        lemma_u32_round_trip(h.fps_numerator, b, 20);
        assert(b.subrange(24, 28) =~= u32_le(h.fps_denominator));
        lemma_u32_round_trip(h.fps_denominator, b, 24);
        assert(b.subrange(28, 36) =~= u64_le(h.frame_id));
        lemma_u64_round_trip(h.frame_id, b, 28);
        assert(b.subrange(36, 44) =~= i64_le(h.timestamp_100ns));
        lemma_i64_round_trip(h.timestamp_100ns, b, 36);
        assert(b.subrange(44, 48) =~= u32_le(h.payload_len));
        lemma_u32_round_trip(h.payload_len, b, 44);
        assert(header_fields(b, h.codec) == h);
    }
}

/// A header read from bytes is written back as the same bytes, except the
/// reserved bytes 7, 10 and 11, which are written as zero.
pub proof fn lemma_header_bytes_read_back(b: Seq<u8>)
    requires
        spec_decode(b) is Ok,
    ensures
        spec_encode(spec_decode(b).unwrap()) == Ok::<Seq<u8>, ProtocolError>(header_bytes(spec_decode(b).unwrap())),
        header_bytes(spec_decode(b).unwrap()).len() == HEADER_LEN,
        forall|i: int| 0 <= i < HEADER_LEN && i != 7 && i != 10 && i != 11 ==> #[trigger] header_bytes(spec_decode(b).unwrap())[i] == b[i],
        header_bytes(spec_decode(b).unwrap())[7] == 0,
        header_bytes(spec_decode(b).unwrap())[10] == 0,
        header_bytes(spec_decode(b).unwrap())[11] == 0,
{
    let h = spec_decode(b).unwrap();
    let codec = TransportCodec::spec_from_id(b[6]).unwrap();
    lemma_codec_id_round_trip(codec, b[6]);
    assert(h == header_fields(b, codec));
    assert(b.subrange(0, 4) == magic_bytes());
    lemma_u16_bytes(b, 4);
    lemma_u16_bytes(b, 8);
    lemma_u32_bytes(b, 12);
    lemma_u32_bytes(b, 16);
    lemma_u32_bytes(b, 20);
    lemma_u32_bytes(b, 24);
    lemma_u64_bytes(b, 28);
    lemma_u64_bytes(b, 36);
    lemma_u32_bytes(b, 44);
    let e = header_bytes(h);
    let expected = b.subrange(0, 4) + b.subrange(4, 6) + seq![b[6], 0u8] + b.subrange(8, 10) + seq![0u8, 0u8]
        + b.subrange(12, 16) + b.subrange(16, 20) + b.subrange(20, 24) + b.subrange(24, 28) + b.subrange(28, 36)
        + b.subrange(36, 44) + b.subrange(44, 48);
    assert(e =~= expected);
    assert forall|i: int| 0 <= i < HEADER_LEN && i != 7 && i != 10 && i != 11 implies #[trigger] e[i] == b[i] by {
        assert(expected[i] == b[i]);
    }
}

} // verus!
