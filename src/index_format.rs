use vstd::prelude::*;
use crate::codec::{u64_from_le, u64_le};

verus! {

/// The eight big-endian bytes of `x`.
pub open spec fn u64_be(x: u64) -> Seq<u8> {
    seq![
        ((x >> 56) & 0xff) as u8,
        ((x >> 48) & 0xff) as u8,
        ((x >> 40) & 0xff) as u8,
        ((x >> 32) & 0xff) as u8,
        ((x >> 24) & 0xff) as u8,
        ((x >> 16) & 0xff) as u8,
        ((x >> 8) & 0xff) as u8,
        (x & 0xff) as u8,
    ]
}

/// The integer whose big-endian bytes are `b[0..8]`.
pub open spec fn u64_from_be(b: Seq<u8>) -> u64 {
    ((b[0] as u64) << 56) | ((b[1] as u64) << 48) | ((b[2] as u64) << 40) | ((b[3] as u64) << 32)
        | ((b[4] as u64) << 24) | ((b[5] as u64) << 16) | ((b[6] as u64) << 8) | (b[7] as u64)
}

/// The index key that holds the watermark: all bits set.
pub const WATERMARK_KEY: [u8; 8] = [0xff, 0xff, 0xff, 0xff, 0xff, 0xff, 0xff, 0xff];

/// The index key of a page: its id in big-endian, so that byte order is id order.
pub fn page_key(id: u64) -> (r: [u8; 8])
    ensures
        r@ == u64_be(id),
{
    let r = [
        ((id >> 56) & 0xff) as u8,
        ((id >> 48) & 0xff) as u8,
        ((id >> 40) & 0xff) as u8,
        ((id >> 32) & 0xff) as u8,
        ((id >> 24) & 0xff) as u8,
        ((id >> 16) & 0xff) as u8,
        ((id >> 8) & 0xff) as u8,
        (id & 0xff) as u8,
    ];
    assert(r@ =~= u64_be(id));
    r
}

/// The index value of a location: big-endian.
pub fn location_value(loc: u64) -> (r: [u8; 8])
    ensures
        r@ == u64_be(loc),
{
    page_key(loc)
}

/// The location that an index value holds.
pub fn value_location(v: [u8; 8]) -> (r: u64)
    ensures
        r == u64_from_be(v@),
{
    ((v[0] as u64) << 56) | ((v[1] as u64) << 48) | ((v[2] as u64) << 40) | ((v[3] as u64) << 32)
        | ((v[4] as u64) << 24) | ((v[5] as u64) << 16) | ((v[6] as u64) << 8) | (v[7] as u64)
}

/// The index value of the watermark: little-endian.
pub fn watermark_value(lsn: u64) -> (r: [u8; 8])
    ensures
        r@ == u64_le(lsn),
{
    let r = [
        (lsn & 0xff) as u8,
        ((lsn >> 8) & 0xff) as u8,
        ((lsn >> 16) & 0xff) as u8,
        ((lsn >> 24) & 0xff) as u8,
        ((lsn >> 32) & 0xff) as u8,
        ((lsn >> 40) & 0xff) as u8,
        ((lsn >> 48) & 0xff) as u8,
        ((lsn >> 56) & 0xff) as u8,
    ];
    assert(r@ =~= u64_le(lsn));
    r
}

/// The watermark that an index value holds; zero where the index has none.
pub fn value_watermark(v: Option<[u8; 8]>) -> (r: u64)
    ensures
        r == match v {
            Some(b) => u64_from_le(b@, 0),
            None => 0,
        },
{
    match v {
        Some(b) => (b[0] as u64) | ((b[1] as u64) << 8) | ((b[2] as u64) << 16) | ((b[3] as u64)
            << 24) | ((b[4] as u64) << 32) | ((b[5] as u64) << 40) | ((b[6] as u64) << 48) | ((
        b[7] as u64) << 56),
        None => 0,
    }
}

/// Reading back the big-endian form of a location gives the location.
pub proof fn lemma_location_round_trip(x: u64)
    ensures
        u64_from_be(u64_be(x)) == x,
{
    let b = u64_be(x);
    let (b0, b1, b2, b3, b4, b5, b6, b7) = (b[0], b[1], b[2], b[3], b[4], b[5], b[6], b[7]);
    assert((b7 == (x & 0xff) as u8 && b6 == ((x >> 8) & 0xff) as u8 && b5 == ((x >> 16) & 0xff) as u8
        && b4 == ((x >> 24) & 0xff) as u8 && b3 == ((x >> 32) & 0xff) as u8 && b2 == ((x >> 40)
        & 0xff) as u8 && b1 == ((x >> 48) & 0xff) as u8 && b0 == ((x >> 56) & 0xff) as u8) ==> ((
    b0 as u64) << 56) | ((b1 as u64) << 48) | ((b2 as u64) << 40) | ((b3 as u64) << 32) | ((
    b4 as u64) << 24) | ((b5 as u64) << 16) | ((b6 as u64) << 8) | (b7 as u64) == x)
        by (bit_vector);
}

} // verus!
