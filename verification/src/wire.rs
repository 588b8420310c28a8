use vstd::prelude::*;

verus! {

/// Little-endian bytes of a `u16`.
pub open spec fn u16_le(x: u16) -> Seq<u8> {
    seq![(x & 0xff) as u8, ((x >> 8) & 0xff) as u8]
}

/// Little-endian bytes of a `u32`.
pub open spec fn u32_le(x: u32) -> Seq<u8> {
    seq![(x & 0xff) as u8, ((x >> 8) & 0xff) as u8, ((x >> 16) & 0xff) as u8, ((x >> 24) & 0xff) as u8]
}

/// Little-endian bytes of a `u64`.
pub open spec fn u64_le(x: u64) -> Seq<u8> {
    seq![
        (x & 0xff) as u8,
        ((x >> 8) & 0xff) as u8,
        ((x >> 16) & 0xff) as u8,
        ((x >> 24) & 0xff) as u8,
        ((x >> 32) & 0xff) as u8,
        ((x >> 40) & 0xff) as u8,
        ((x >> 48) & 0xff) as u8,
        ((x >> 56) & 0xff) as u8,
    ]
}

/// Little-endian bytes of an `i64` (its two's complement).
pub open spec fn i64_le(x: i64) -> Seq<u8> {
    u64_le(x as u64)
}

/// The `u16` stored little-endian at `s[at..at + 2]`.
pub open spec fn u16_at(s: Seq<u8>, at: int) -> u16 {
    ((s[at] as u16) | ((s[at + 1] as u16) << 8)) as u16
}

/// The `u32` stored little-endian at `s[at..at + 4]`.
pub open spec fn u32_at(s: Seq<u8>, at: int) -> u32 {
    ((s[at] as u32) | ((s[at + 1] as u32) << 8) | ((s[at + 2] as u32) << 16) | ((s[at + 3] as u32)
        << 24)) as u32
}

/// The `u64` stored little-endian at `s[at..at + 8]`.
pub open spec fn u64_at(s: Seq<u8>, at: int) -> u64 {
    ((s[at] as u64) | ((s[at + 1] as u64) << 8) | ((s[at + 2] as u64) << 16) | ((s[at + 3] as u64)
        << 24) | ((s[at + 4] as u64) << 32) | ((s[at + 5] as u64) << 40) | ((s[at + 6] as u64)
        << 48) | ((s[at + 7] as u64) << 56)) as u64
}

/// The `i64` stored little-endian at `s[at..at + 8]`.
pub open spec fn i64_at(s: Seq<u8>, at: int) -> i64 {
    u64_at(s, at) as i64
}

pub proof fn lemma_u16_round_trip(x: u16, s: Seq<u8>, at: int)
    requires
        0 <= at,
        at + 2 <= s.len(),
        s.subrange(at, at + 2) == u16_le(x),
    ensures
        u16_at(s, at) == x,
{
    assert(s[at] == u16_le(x)[0]);
    assert(s[at + 1] == u16_le(x)[1]);
    let b0 = s[at];
    let b1 = s[at + 1];
    assert(b0 == (x & 0xff) as u8 && b1 == ((x >> 8) & 0xff) as u8 ==> ((b0 as u16) | ((b1 as u16)
        << 8)) as u16 == x) by (bit_vector);
}

pub proof fn lemma_u32_round_trip(x: u32, s: Seq<u8>, at: int)
    requires
        0 <= at,
        at + 4 <= s.len(),
        s.subrange(at, at + 4) == u32_le(x),
    ensures
        u32_at(s, at) == x,
{
    assert(s[at] == u32_le(x)[0]);
    assert(s[at + 1] == u32_le(x)[1]);
    assert(s[at + 2] == u32_le(x)[2]);
    assert(s[at + 3] == u32_le(x)[3]);
    let b0 = s[at];
    let b1 = s[at + 1];
    let b2 = s[at + 2];
    let b3 = s[at + 3];
    assert(b0 == (x & 0xff) as u8 && b1 == ((x >> 8) & 0xff) as u8 && b2 == ((x >> 16) & 0xff) as u8
        && b3 == ((x >> 24) & 0xff) as u8 ==> ((b0 as u32) | ((b1 as u32) << 8) | ((b2 as u32) << 16)
        | ((b3 as u32) << 24)) as u32 == x) by (bit_vector);
}

pub proof fn lemma_u64_round_trip(x: u64, s: Seq<u8>, at: int)
    requires
        0 <= at,
        at + 8 <= s.len(),
        s.subrange(at, at + 8) == u64_le(x),
    ensures
        u64_at(s, at) == x,
{
    let e = u64_le(x);
    assert(s[at] == e[0]);
    assert(s[at + 1] == e[1]);
    assert(s[at + 2] == e[2]);
    assert(s[at + 3] == e[3]);
    assert(s[at + 4] == e[4]);
    assert(s[at + 5] == e[5]);
    assert(s[at + 6] == e[6]);
    assert(s[at + 7] == e[7]);
    let b0 = s[at];
    let b1 = s[at + 1];
    let b2 = s[at + 2];
    let b3 = s[at + 3];
    let b4 = s[at + 4];
    let b5 = s[at + 5];
    let b6 = s[at + 6];
    let b7 = s[at + 7];
    assert(b0 == (x & 0xff) as u8 && b1 == ((x >> 8) & 0xff) as u8 && b2 == ((x >> 16) & 0xff) as u8
        && b3 == ((x >> 24) & 0xff) as u8 && b4 == ((x >> 32) & 0xff) as u8 && b5 == ((x >> 40)
        & 0xff) as u8 && b6 == ((x >> 48) & 0xff) as u8 && b7 == ((x >> 56) & 0xff) as u8 ==> ((
    b0 as u64) | ((b1 as u64) << 8) | ((b2 as u64) << 16) | ((b3 as u64) << 24) | ((b4 as u64)
        << 32) | ((b5 as u64) << 40) | ((b6 as u64) << 48) | ((b7 as u64) << 56)) as u64 == x)
        by (bit_vector);
}

pub proof fn lemma_i64_round_trip(x: i64, s: Seq<u8>, at: int)
    requires
        0 <= at,
        at + 8 <= s.len(),
        s.subrange(at, at + 8) == i64_le(x),
    ensures
        i64_at(s, at) == x,
{
    lemma_u64_round_trip(x as u64, s, at);
    assert((x as u64) as i64 == x) by (bit_vector);
}

/// Two stored bytes, read as a `u16` and written again, are the same bytes.
pub proof fn lemma_u16_bytes(s: Seq<u8>, at: int)
    requires
        0 <= at,
        at + 2 <= s.len(),
    ensures
        u16_le(u16_at(s, at)) == s.subrange(at, at + 2),
{
    let b0 = s[at];
    let b1 = s[at + 1];
    let x = u16_at(s, at);
    assert(x == ((b0 as u16) | ((b1 as u16) << 8)) as u16);
    assert(x == ((b0 as u16) | ((b1 as u16) << 8)) as u16 ==> (x & 0xff) as u8 == b0 && ((x >> 8)
        & 0xff) as u8 == b1) by (bit_vector);
    assert(u16_le(x) =~= s.subrange(at, at + 2));
}

/// Four stored bytes, read as a `u32` and written again, are the same bytes.
pub proof fn lemma_u32_bytes(s: Seq<u8>, at: int)
    requires
        0 <= at,
        at + 4 <= s.len(),
    ensures
        u32_le(u32_at(s, at)) == s.subrange(at, at + 4),
{
    let b0 = s[at];
    let b1 = s[at + 1];
    let b2 = s[at + 2];
    let b3 = s[at + 3];
    let x = u32_at(s, at);
    assert(x == ((b0 as u32) | ((b1 as u32) << 8) | ((b2 as u32) << 16) | ((b3 as u32) << 24)) as u32);
    assert(x == ((b0 as u32) | ((b1 as u32) << 8) | ((b2 as u32) << 16) | ((b3 as u32) << 24)) as u32
        ==> (x & 0xff) as u8 == b0 && ((x >> 8) & 0xff) as u8 == b1 && ((x >> 16) & 0xff) as u8 == b2
        && ((x >> 24) & 0xff) as u8 == b3) by (bit_vector);
    assert(u32_le(x) =~= s.subrange(at, at + 4));
}

/// Eight stored bytes, read as a `u64` and written again, are the same bytes.
pub proof fn lemma_u64_bytes(s: Seq<u8>, at: int)
    requires
        0 <= at,
        at + 8 <= s.len(),
    ensures
        u64_le(u64_at(s, at)) == s.subrange(at, at + 8),
        i64_le(i64_at(s, at)) == s.subrange(at, at + 8),
{
    let b0 = s[at];
    let b1 = s[at + 1];
    let b2 = s[at + 2];
    let b3 = s[at + 3];
    let b4 = s[at + 4];
    let b5 = s[at + 5];
    let b6 = s[at + 6];
    let b7 = s[at + 7];
    let x = u64_at(s, at);
    assert(x == ((b0 as u64) | ((b1 as u64) << 8) | ((b2 as u64) << 16) | ((b3 as u64) << 24) | ((
    b4 as u64) << 32) | ((b5 as u64) << 40) | ((b6 as u64) << 48) | ((b7 as u64) << 56)) as u64);
    assert(x == ((b0 as u64) | ((b1 as u64) << 8) | ((b2 as u64) << 16) | ((b3 as u64) << 24) | ((
    b4 as u64) << 32) | ((b5 as u64) << 40) | ((b6 as u64) << 48) | ((b7 as u64) << 56)) as u64
        ==> (x & 0xff) as u8 == b0 && ((x >> 8) & 0xff) as u8 == b1 && ((x >> 16) & 0xff) as u8 == b2
        && ((x >> 24) & 0xff) as u8 == b3 && ((x >> 32) & 0xff) as u8 == b4 && ((x >> 40) & 0xff)
        as u8 == b5 && ((x >> 48) & 0xff) as u8 == b6 && ((x >> 56) & 0xff) as u8 == b7)
        by (bit_vector);
    assert(u64_le(x) =~= s.subrange(at, at + 8));
    assert((x as i64) as u64 == x) by (bit_vector);
}

/// Appends the little-endian bytes of `x`.
pub fn push_u16(out: &mut Vec<u8>, x: u16)
    ensures
        final(out)@ == old(out)@ + u16_le(x),
{
    out.push((x & 0xff) as u8);
    out.push(((x >> 8) & 0xff) as u8);
    assert(final(out)@ =~= old(out)@ + u16_le(x));
}

/// Appends the little-endian bytes of `x`.
pub fn push_u32(out: &mut Vec<u8>, x: u32)
    ensures
        final(out)@ == old(out)@ + u32_le(x),
{
    out.push((x & 0xff) as u8);
    out.push(((x >> 8) & 0xff) as u8);
    out.push(((x >> 16) & 0xff) as u8);
    out.push(((x >> 24) & 0xff) as u8);
    assert(final(out)@ =~= old(out)@ + u32_le(x));
}

/// Appends the little-endian bytes of `x`.
pub fn push_u64(out: &mut Vec<u8>, x: u64)
    ensures
        final(out)@ == old(out)@ + u64_le(x),
{
    out.push((x & 0xff) as u8);
    out.push(((x >> 8) & 0xff) as u8);
    out.push(((x >> 16) & 0xff) as u8);
    out.push(((x >> 24) & 0xff) as u8);
    out.push(((x >> 32) & 0xff) as u8);
    out.push(((x >> 40) & 0xff) as u8);
    out.push(((x >> 48) & 0xff) as u8);
    out.push(((x >> 56) & 0xff) as u8);
    assert(final(out)@ =~= old(out)@ + u64_le(x));
}

/// Appends the little-endian bytes of `x`.
pub fn push_i64(out: &mut Vec<u8>, x: i64)
    ensures
        final(out)@ == old(out)@ + i64_le(x),
{
    push_u64(out, x as u64);
}

/// Appends all of `data`.
pub fn push_all(out: &mut Vec<u8>, data: &[u8])
    ensures
        final(out)@ == old(out)@ + data@,
{
    let mut i: usize = 0;
    while i < data.len()
        invariant
            i <= data@.len(),
            out@ == old(out)@ + data@.subrange(0, i as int),
        decreases data@.len() - i,
    {
        out.push(data[i]);
        i = i + 1;
        assert(out@ =~= old(out)@ + data@.subrange(0, i as int));
    }
    assert(data@.subrange(0, data@.len() as int) =~= data@);
}

/// Reads the `u16` stored little-endian at `s[at..at + 2]`.
pub fn read_u16(s: &[u8], at: usize) -> (r: u16)
    requires
        at + 2 <= s@.len(),
    ensures
        r == u16_at(s@, at as int),
{
    ((s[at] as u16) | ((s[at + 1] as u16) << 8)) as u16
}

/// Reads the `u32` stored little-endian at `s[at..at + 4]`.
pub fn read_u32(s: &[u8], at: usize) -> (r: u32)
    requires
        at + 4 <= s@.len(),
    ensures
        r == u32_at(s@, at as int),
{
    ((s[at] as u32) | ((s[at + 1] as u32) << 8) | ((s[at + 2] as u32) << 16) | ((s[at + 3] as u32)
        << 24)) as u32
}

/// Reads the `u64` stored little-endian at `s[at..at + 8]`.
pub fn read_u64(s: &[u8], at: usize) -> (r: u64)
    requires
        at + 8 <= s@.len(),
    ensures
        r == u64_at(s@, at as int),
{
    ((s[at] as u64) | ((s[at + 1] as u64) << 8) | ((s[at + 2] as u64) << 16) | ((s[at + 3] as u64)
        << 24) | ((s[at + 4] as u64) << 32) | ((s[at + 5] as u64) << 40) | ((s[at + 6] as u64)
        << 48) | ((s[at + 7] as u64) << 56)) as u64
}

/// Reads the `i64` stored little-endian at `s[at..at + 8]`.
pub fn read_i64(s: &[u8], at: usize) -> (r: i64)
    requires
        at + 8 <= s@.len(),
    ensures
        r == i64_at(s@, at as int),
{
    read_u64(s, at) as i64
}

} // verus!
