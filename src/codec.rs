use vstd::prelude::*;

verus! {

/// Bytes before the payload of a record: crc (4), object id (8), length (8).
pub const HEADER_LEN: usize = 20;

/// The CRC-32 (IEEE) checksum of a byte sequence.
pub uninterp spec fn crc32_of(b: Seq<u8>) -> u32;

/// Relies on `crc32fast::hash`: the CRC-32 of the given bytes, which depends on
/// the bytes alone.
#[verifier::external_body]
pub(crate) fn crc32(b: &[u8]) -> (r: u32)
    ensures
        r == crc32_of(b@),
{
    crc32fast::hash(b)
}

/// The eight little-endian bytes of `x`.
pub open spec fn u64_le(x: u64) -> Seq<u8> {
    seq![
        (x & 0xff) as u8,
        ((x >> 8) & 0xff) as u8,
        ((x >> 16) & 0xff) as u8,
        ((x >> 24) & 0xff) as u8,
        ((x >> 32) & 0xff) as u8,
        ((x >> 40) & 0xff) as u8,
        ((x >> 48) & 0xff) as u8,
        ((x >> 56) & 0xff) as u8,
    ]
}

/// The four little-endian bytes of `x`.
pub open spec fn u32_le(x: u32) -> Seq<u8> {
    seq![
        (x & 0xff) as u8,
        ((x >> 8) & 0xff) as u8,
        ((x >> 16) & 0xff) as u8,
        ((x >> 24) & 0xff) as u8,
    ]
}

/// The integer whose little-endian bytes are `b[at..at + 8]`.
pub open spec fn u64_from_le(b: Seq<u8>, at: int) -> u64 {
    (b[at] as u64) | ((b[at + 1] as u64) << 8) | ((b[at + 2] as u64) << 16) | ((b[at + 3] as u64)
        << 24) | ((b[at + 4] as u64) << 32) | ((b[at + 5] as u64) << 40) | ((b[at + 6] as u64)
        << 48) | ((b[at + 7] as u64) << 56)
}

/// The integer whose little-endian bytes are `b[at..at + 4]`.
pub open spec fn u32_from_le(b: Seq<u8>, at: int) -> u32 {
    (b[at] as u32) | ((b[at + 1] as u32) << 8) | ((b[at + 2] as u32) << 16) | ((b[at + 3] as u32)
        << 24)
}

pub(crate) proof fn lemma_u64_le_round_trip(x: u64)
    ensures
        u64_from_le(u64_le(x), 0) == x,
{
    let b = u64_le(x);
    let (b0, b1, b2, b3, b4, b5, b6, b7) = (b[0], b[1], b[2], b[3], b[4], b[5], b[6], b[7]);
    assert(b0 == (x & 0xff) as u8 && b1 == ((x >> 8) & 0xff) as u8 && b2 == ((x >> 16) & 0xff) as u8
        && b3 == ((x >> 24) & 0xff) as u8 && b4 == ((x >> 32) & 0xff) as u8 && b5 == ((x >> 40)
        & 0xff) as u8 && b6 == ((x >> 48) & 0xff) as u8 && b7 == ((x >> 56) & 0xff) as u8);
    assert((b0 == (x & 0xff) as u8 && b1 == ((x >> 8) & 0xff) as u8 && b2 == ((x >> 16) & 0xff) as u8
        && b3 == ((x >> 24) & 0xff) as u8 && b4 == ((x >> 32) & 0xff) as u8 && b5 == ((x >> 40)
        & 0xff) as u8 && b6 == ((x >> 48) & 0xff) as u8 && b7 == ((x >> 56) & 0xff) as u8) ==> (
    b0 as u64) | ((b1 as u64) << 8) | ((b2 as u64) << 16) | ((b3 as u64) << 24) | ((b4 as u64)
        << 32) | ((b5 as u64) << 40) | ((b6 as u64) << 48) | ((b7 as u64) << 56) == x)
        by (bit_vector);
}

pub(crate) proof fn lemma_u32_le_round_trip(x: u32)
    ensures
        u32_from_le(u32_le(x), 0) == x,
{
    let b = u32_le(x);
    let (b0, b1, b2, b3) = (b[0], b[1], b[2], b[3]);
    assert((b0 == (x & 0xff) as u8 && b1 == ((x >> 8) & 0xff) as u8 && b2 == ((x >> 16) & 0xff) as u8
        && b3 == ((x >> 24) & 0xff) as u8) ==> (b0 as u32) | ((b1 as u32) << 8) | ((b2 as u32)
        << 16) | ((b3 as u32) << 24) == x) by (bit_vector);
}


/// Appends the little-endian bytes of `x`.
pub(crate) fn put_u64_le(buf: &mut Vec<u8>, x: u64)
    ensures
        final(buf)@ == old(buf)@ + u64_le(x),
{
    buf.push((x & 0xff) as u8);
    buf.push(((x >> 8) & 0xff) as u8);
    buf.push(((x >> 16) & 0xff) as u8);
    buf.push(((x >> 24) & 0xff) as u8);
    buf.push(((x >> 32) & 0xff) as u8);
    buf.push(((x >> 40) & 0xff) as u8);
    buf.push(((x >> 48) & 0xff) as u8);
    buf.push(((x >> 56) & 0xff) as u8);
    assert(final(buf)@ =~= old(buf)@ + u64_le(x));
}

/// Appends the little-endian bytes of `x`.
pub(crate) fn put_u32_le(buf: &mut Vec<u8>, x: u32)
    ensures
        final(buf)@ == old(buf)@ + u32_le(x),
{
    buf.push((x & 0xff) as u8);
    buf.push(((x >> 8) & 0xff) as u8);
    buf.push(((x >> 16) & 0xff) as u8);
    buf.push(((x >> 24) & 0xff) as u8);
    assert(final(buf)@ =~= old(buf)@ + u32_le(x));
}

/// Reads the little-endian integer at `b[at..at + 8]`.
pub(crate) fn get_u64_le(b: &[u8], at: usize) -> (r: u64)
    requires
        at + 8 <= b@.len(),
    ensures
        r == u64_from_le(b@, at as int),
{
    (b[at] as u64) | ((b[at + 1] as u64) << 8) | ((b[at + 2] as u64) << 16) | ((b[at + 3] as u64)
        << 24) | ((b[at + 4] as u64) << 32) | ((b[at + 5] as u64) << 40) | ((b[at + 6] as u64)
        << 48) | ((b[at + 7] as u64) << 56)
}

/// Reads the little-endian integer at `b[at..at + 4]`.
pub(crate) fn get_u32_le(b: &[u8], at: usize) -> (r: u32)
    requires
        at + 4 <= b@.len(),
    ensures
        r == u32_from_le(b@, at as int),
{
    (b[at] as u32) | ((b[at + 1] as u32) << 8) | ((b[at + 2] as u32) << 16) | ((b[at + 3] as u32)
        << 24)
}

/// What the checksum of a record covers: object id, length, payload.
pub open spec fn record_body(id: u64, payload: Seq<u8>) -> Seq<u8> {
    u64_le(id) + u64_le(payload.len() as u64) + payload
}

/// The stored form of a record: checksum of the body, then the body.
pub open spec fn record_bytes(id: u64, payload: Seq<u8>) -> Seq<u8> {
    u32_le(crc32_of(record_body(id, payload))) + record_body(id, payload)
}

/// The length field of a record that starts at `b[0]`.
pub open spec fn stored_len(b: Seq<u8>) -> u64 {
    u64_from_le(b, 12)
}

/// Whether `b` starts with a whole record whose stored checksum matches:
/// the header fits, the payload fits in what follows it, and the checksum
/// of id, length and payload equals the stored one.
pub open spec fn holds_record(b: Seq<u8>) -> bool {
    &&& b.len() >= HEADER_LEN
    &&& stored_len(b) <= b.len() - HEADER_LEN
    &&& u32_from_le(b, 0) == crc32_of(b.subrange(4, HEADER_LEN + stored_len(b)))
}

/// The object id of the record that starts at `b[0]`.
pub open spec fn stored_id(b: Seq<u8>) -> u64 {
    u64_from_le(b, 4)
}

/// The payload of the record that starts at `b[0]`.
pub open spec fn stored_payload(b: Seq<u8>) -> Seq<u8> {
    b.subrange(HEADER_LEN as int, HEADER_LEN + stored_len(b))
}

/// A record that failed its checks: too short, a length that runs past the
/// bytes that follow, or a checksum mismatch.
#[derive(Debug, Clone, Copy, PartialEq, Eq, Structural)]
pub struct Corrupted;

/// Appends the stored form of the record `(id, payload)` to `buf`.
pub fn encode_into(buf: &mut Vec<u8>, id: u64, payload: &[u8])
    ensures
        final(buf)@ == old(buf)@ + record_bytes(id, payload@),
{
    let mut body: Vec<u8> = Vec::new();
    put_u64_le(&mut body, id);
    put_u64_le(&mut body, payload.len() as u64);
    let mut i: usize = 0;
    while i < payload.len()
        invariant
            i <= payload@.len(),
            body@ == u64_le(id) + u64_le(payload@.len() as u64) + payload@.subrange(0, i as int),
        decreases payload@.len() - i,
    {
        body.push(payload[i]);
        i = i + 1;
        assert(body@ =~= u64_le(id) + u64_le(payload@.len() as u64) + payload@.subrange(0, i as int));
    }
    assert(payload@.subrange(0, payload@.len() as int) =~= payload@);
    let crc = crc32(body.as_slice());
    put_u32_le(buf, crc);
    let ghost mid = buf@;
    let mut j: usize = 0;
    while j < body.len()
        invariant
            j <= body@.len(),
            buf@ == mid + body@.subrange(0, j as int),
        decreases body@.len() - j,
    {
        buf.push(body[j]);
        j = j + 1;
        assert(buf@ =~= mid + body@.subrange(0, j as int));
    }
    assert(body@.subrange(0, body@.len() as int) =~= body@);
    assert(buf@ =~= old(buf)@ + record_bytes(id, payload@));
}

/// The stored form of the record `(id, payload)`.
pub fn encode(id: u64, payload: &[u8]) -> (r: Vec<u8>)
    ensures
        r@ == record_bytes(id, payload@),
{
    let mut buf: Vec<u8> = Vec::new();
    encode_into(&mut buf, id, payload);
    assert(buf@ =~= record_bytes(id, payload@));
    buf
}

/// Decodes the record that starts at `b[0]`, checking its length against the
/// bytes that follow and its checksum; bytes past the record are ignored.
pub fn decode(b: &[u8]) -> (r: Result<(u64, Vec<u8>), Corrupted>)
    ensures
        match r {
            Ok((id, payload)) => holds_record(b@) && id == stored_id(b@) && payload@
                == stored_payload(b@),
            Err(_) => !holds_record(b@),
        },
{
    if b.len() < HEADER_LEN {
        return Err(Corrupted);
    }
    let len = get_u64_le(b, 12);
    if len > (b.len() - HEADER_LEN) as u64 {
        return Err(Corrupted);
    }
    let end = HEADER_LEN + len as usize;
    let mut body: Vec<u8> = Vec::new();
    let mut i: usize = 4;
    while i < end
        invariant
            4 <= i <= end <= b@.len(),
            body@ == b@.subrange(4, i as int),
        decreases end - i,
    {
        body.push(b[i]);
        i = i + 1;
        assert(body@ =~= b@.subrange(4, i as int));
    }
    if crc32(body.as_slice()) != get_u32_le(b, 0) {
        return Err(Corrupted);
    }
    let id = get_u64_le(b, 4);
    let mut payload: Vec<u8> = Vec::new();
    let mut k: usize = HEADER_LEN;
    while k < end
        invariant
            HEADER_LEN <= k <= end <= b@.len(),
            payload@ == b@.subrange(HEADER_LEN as int, k as int),
        decreases end - k,
    {
        payload.push(b[k]);
        k = k + 1;
        assert(payload@ =~= b@.subrange(HEADER_LEN as int, k as int));
    }
    Ok((id, payload))
}

/// Decoding the stored form of a record, whatever bytes follow it, gives back
/// its id and payload.
pub proof fn lemma_decode_encode(id: u64, payload: Seq<u8>, rest: Seq<u8>)
    requires
        payload.len() <= u64::MAX,
    ensures
        holds_record(record_bytes(id, payload) + rest),
        stored_id(record_bytes(id, payload) + rest) == id,
        stored_payload(record_bytes(id, payload) + rest) == payload,
{
    let b = record_bytes(id, payload) + rest;
    let n = payload.len() as u64;
    lemma_u64_le_round_trip(id);
    lemma_u64_le_round_trip(n);
    lemma_u32_le_round_trip(crc32_of(record_body(id, payload)));
    assert(b.subrange(0, 4) =~= u32_le(crc32_of(record_body(id, payload))));
    assert(b.subrange(4, 12) =~= u64_le(id));
    assert(b.subrange(12, 20) =~= u64_le(n));
    assert(u64_from_le(b, 4) == u64_from_le(b.subrange(4, 12), 0));
    assert(u64_from_le(b, 12) == u64_from_le(b.subrange(12, 20), 0));
    assert(u32_from_le(b, 0) == u32_from_le(b.subrange(0, 4), 0));
    assert(b.subrange(4, HEADER_LEN + n) =~= record_body(id, payload));
    assert(b.subrange(HEADER_LEN as int, HEADER_LEN + n) =~= payload);
}

} // verus!
