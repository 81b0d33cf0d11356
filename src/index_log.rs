use vstd::prelude::*;
use crate::index_format::{location_value, page_key, u64_be, watermark_value, WATERMARK_KEY};
use crate::codec::{lemma_u32_le_round_trip, lemma_u64_le_round_trip, crc32, u32_from_le, u32_le, u64_from_le, u64_le, put_u32_le, put_u64_le, get_u32_le, get_u64_le};

verus! {

/// One update of the page-location index: a key and its new value, or `None`
/// for a deletion.
pub type IndexUpdate = ([u8; 8], Option<[u8; 8]>);

/// Bytes of one update in the log: key (8), tag (1: 1 for a value, 0 for a
/// deletion), value (8).
pub const UPDATE_LEN: usize = 17;

/// An update seen through its bytes.
pub open spec fn update_view(u: IndexUpdate) -> (Seq<u8>, Option<Seq<u8>>) {
    (
        u.0@,
        match u.1 {
            Some(v) => Some(v@),
            None => None,
        },
    )
}

pub open spec fn updates_view(s: Seq<IndexUpdate>) -> Seq<(Seq<u8>, Option<Seq<u8>>)> {
    Seq::new(s.len(), |i: int| update_view(s[i]))
}

/// The log bytes of one update.
pub open spec fn update_bytes(u: IndexUpdate) -> Seq<u8> {
    match u.1 {
        Some(v) => u.0@ + seq![1u8] + v@,
        None => u.0@ + seq![0u8] + seq![0u8, 0u8, 0u8, 0u8, 0u8, 0u8, 0u8, 0u8],
    }
}

pub open spec fn updates_bytes(s: Seq<IndexUpdate>) -> Seq<u8>
    decreases s.len(),
{
    if s.len() == 0 {
        seq![]
    } else {
        updates_bytes(s.drop_last()) + update_bytes(s.last())
    }
}

/// A batch as one frame of the log: the number of updates, the updates, and
/// the CRC-32 of both, so that a frame torn by a crash is recognised.
pub open spec fn frame_bytes(s: Seq<IndexUpdate>) -> Seq<u8> {
    let body = u64_le(s.len() as u64) + updates_bytes(s);
    body + u32_le(crate::codec::crc32_of(body))
}

pub open spec fn frame_count(b: Seq<u8>, at: int) -> int {
    u64_from_le(b, at) as int
}

pub open spec fn frame_end(b: Seq<u8>, at: int) -> int {
    at + 8 + frame_count(b, at) * 17
}

/// Whether a whole frame with a matching checksum starts at `b[at]`.
pub open spec fn frame_valid(b: Seq<u8>, at: int) -> bool {
    &&& 0 <= at
    &&& at + 8 <= b.len()
    &&& frame_end(b, at) + 4 <= b.len()
    &&& u32_from_le(b, frame_end(b, at)) == crate::codec::crc32_of(b.subrange(at, frame_end(b, at)))
}

/// The update whose bytes start at `b[p]`.
pub open spec fn update_at(b: Seq<u8>, p: int) -> (Seq<u8>, Option<Seq<u8>>) {
    (
        b.subrange(p, p + 8),
        if b[p + 8] == 1 {
            Some(b.subrange(p + 9, p + 17))
        } else {
            None
        },
    )
}

/// The updates of the frames from `b[at]` on, up to the first frame that is
/// cut short or fails its checksum.
pub open spec fn log_from(b: Seq<u8>, at: int) -> Seq<(Seq<u8>, Option<Seq<u8>>)>
    decreases b.len() - at,
{
    if frame_valid(b, at) {
        Seq::new(frame_count(b, at) as nat, |i: int| update_at(b, at + 8 + 17 * i)) + log_from(
            b,
            frame_end(b, at) + 4,
        )
    } else {
        seq![]
    }
}

/// The index updates that publish a batch: each page's id mapped to its
/// location, then the watermark raised to the batch's base (never lowered).
pub fn index_updates(locations: &Vec<(u64, u64)>, watermark: u64, base: u64) -> (r: Vec<
    IndexUpdate,
>)
    ensures
        r@.len() == locations@.len() + 1,
        forall|i: int|
            0 <= i < locations@.len() ==> #[trigger] update_view(r@[i]) == (
                u64_be(locations@[i].0),
                Some(u64_be(locations@[i].1)),
            ),
        update_view(r@[locations@.len() as int]) == (
            WATERMARK_KEY@,
            Some(u64_le(if watermark >= base { watermark } else { base })),
        ),
        updates_view(r@) == crate::page_index::publish_log(locations@, watermark, base),
{
    let mut r: Vec<IndexUpdate> = Vec::new();
    let mut i: usize = 0;
    while i < locations.len()
        invariant
            i <= locations@.len(),
            r@.len() == i,
            forall|j: int|
                0 <= j < i ==> #[trigger] update_view(r@[j]) == (
                    u64_be(locations@[j].0),
                    Some(u64_be(locations@[j].1)),
                ),
        decreases locations@.len() - i,
    {
        let (id, loc) = locations[i];
        r.push((page_key(id), Some(location_value(loc))));
        i = i + 1;
    }
    let mark = if watermark >= base {
        watermark
    } else {
        base
    };
    r.push((WATERMARK_KEY, Some(watermark_value(mark))));
    assert(updates_view(r@) =~= crate::page_index::publish_log(locations@, watermark, base));
    r
}

/// The frame of a batch of updates.
pub fn frame_batch(updates: &Vec<IndexUpdate>) -> (r: Vec<u8>)
    ensures
        r@ == frame_bytes(updates@),
{
    let mut body: Vec<u8> = Vec::new();
    put_u64_le(&mut body, updates.len() as u64);
    let mut i: usize = 0;
    while i < updates.len()
        invariant
            i <= updates@.len(),
            body@ == u64_le(updates@.len() as u64) + updates_bytes(updates@.take(i as int)),
        decreases updates@.len() - i,
    {
        let (key, value) = updates[i];
        let mut k: usize = 0;
        let ghost before = body@;
        while k < 8
            invariant
                k <= 8,
                body@ == before + key@.subrange(0, k as int),
            decreases 8 - k,
        {
            body.push(key[k]);
            k = k + 1;
            assert(body@ =~= before + key@.subrange(0, k as int));
        }
        let v = match value {
            Some(v) => {
                body.push(1);
                v
            },
            None => {
                body.push(0);
                [0u8; 8]
            },
        };
        let ghost mid = body@;
        let mut k: usize = 0;
        while k < 8
            invariant
                k <= 8,
                body@ == mid + v@.subrange(0, k as int),
            decreases 8 - k,
        {
            body.push(v[k]);
            k = k + 1;
            assert(body@ =~= mid + v@.subrange(0, k as int));
        }
        proof {
            assert(updates@.take(i as int + 1).drop_last() =~= updates@.take(i as int));
            assert(key@.subrange(0, 8) =~= key@);
            assert(v@.subrange(0, 8) =~= v@);
            if value is None {
                assert(v@ =~= seq![0u8, 0u8, 0u8, 0u8, 0u8, 0u8, 0u8, 0u8]);
            }
            assert(body@ =~= u64_le(updates@.len() as u64) + updates_bytes(
                updates@.take(i as int + 1),
            ));
        }
        i = i + 1;
    }
    assert(updates@.take(updates@.len() as int) =~= updates@);
    let crc = crc32(body.as_slice());
    put_u32_le(&mut body, crc);
    body
}

/// Copies `b[from..to]`.
fn copy_range(b: &[u8], from: usize, to: usize) -> (r: Vec<u8>)
    requires
        from <= to <= b@.len(),
    ensures
        r@ == b@.subrange(from as int, to as int),
{
    let mut r: Vec<u8> = Vec::new();
    let mut i: usize = from;
    while i < to
        invariant
            from <= i <= to <= b@.len(),
            r@ == b@.subrange(from as int, i as int),
        decreases to - i,
    {
        r.push(b[i]);
        i = i + 1;
        assert(r@ =~= b@.subrange(from as int, i as int));
    }
    r
}

/// The eight bytes `b[p..p + 8]`.
fn array_at(b: &[u8], p: usize) -> (r: [u8; 8])
    requires
        p + 8 <= b@.len(),
    ensures
        r@ == b@.subrange(p as int, p + 8),
{
    let r = [b[p], b[p + 1], b[p + 2], b[p + 3], b[p + 4], b[p + 5], b[p + 6], b[p + 7]];
    assert(r@ =~= b@.subrange(p as int, p + 8));
    r
}

/// The updates of a log, frame by frame, up to the first frame that is cut
/// short or fails its checksum.
pub fn parse_log(b: &[u8]) -> (r: Vec<IndexUpdate>)
    ensures
        updates_view(r@) == log_from(b@, 0),
{
    let mut r: Vec<IndexUpdate> = Vec::new();
    let mut at: usize = 0;
    let mut stop = false;
    assert(updates_view(r@) + log_from(b@, 0) =~= log_from(b@, 0));
    while !stop && at <= b.len() && b.len() - at >= 8
        invariant
            at <= b@.len() + 4,
            updates_view(r@) + log_from(b@, at as int) == log_from(b@, 0),
            stop ==> !frame_valid(b@, at as int),
        decreases b@.len() + 4 - at + if stop {
            0int
        } else {
            1int
        },
    {
        let count = get_u64_le(b, at);
        let room = (b.len() - at - 8) as u64;
        if room < 4 || count > (room - 4) / 17 {
            stop = true;
        } else {
            let end = at + 8 + (count as usize) * 17;
            if get_u32_le(b, end) != crc32(copy_range(b, at, end).as_slice()) {
                stop = true;
            } else {
                assert(frame_valid(b@, at as int));
                let ghost before = r@;
                let mut i: usize = 0;
                while i < count as usize
                    invariant
                        i <= count,
                        at + 8 + count * 17 == end,
                        end + 4 <= b@.len(),
                        r@.len() == before.len() + i,
                        forall|j: int| 0 <= j < before.len() ==> r@[j] == before[j],
                        forall|j: int|
                            0 <= j < i ==> #[trigger] update_view(r@[before.len() + j])
                                == update_at(b@, at + 8 + 17 * j),
                    decreases count - i,
                {
                    let p = at + 8 + i * 17;
                    let key = array_at(b, p);
                    let value = if b[p + 8] == 1 {
                        Some(array_at(b, p + 9))
                    } else {
                        None
                    };
                    r.push((key, value));
                    i = i + 1;
                }
                proof {
                    let n = frame_count(b@, at as int);
                    let here = Seq::new(n as nat, |j: int| update_at(b@, at + 8 + 17 * j));
                    assert(updates_view(r@) =~= updates_view(before) + here) by {
                        assert forall|j: int| 0 <= j < r@.len() implies updates_view(r@)[j] == (
                        updates_view(before) + here)[j] by {
                            if j >= before.len() {
                                let q = j - before.len();
                                assert(update_view(r@[before.len() + q]) == update_at(
                                    b@,
                                    at + 8 + 17 * q,
                                ));
                            }
                        }
                    }
                }
                at = end + 4;
            }
        }
    }
    proof {
        lemma_log_stops(b@, at as int, updates_view(r@));
    }
    r
}

proof fn lemma_updates_bytes(s: Seq<IndexUpdate>, i: int)
    requires
        0 <= i < s.len(),
    ensures
        updates_bytes(s).len() == 17 * s.len(),
        updates_bytes(s).subrange(17 * i, 17 * i + 17) == update_bytes(s[i]),
    decreases s.len(),
{
    let d = s.drop_last();
    if i < s.len() - 1 {
        lemma_updates_bytes(d, i);
        let a = updates_bytes(d);
        let c = update_bytes(s.last());
        assert((a + c).subrange(17 * i, 17 * i + 17) =~= a.subrange(17 * i, 17 * i + 17));
    } else {
        lemma_updates_len(d);
        let a = updates_bytes(d);
        let c = update_bytes(s.last());
        assert((a + c).subrange(17 * i, 17 * i + 17) =~= c);
    }
}

proof fn lemma_updates_len(s: Seq<IndexUpdate>)
    ensures
        updates_bytes(s).len() == 17 * s.len(),
    decreases s.len(),
{
    if s.len() > 0 {
        lemma_updates_len(s.drop_last());
    }
}

/// Parsing the frame of a batch of updates gives back the updates.
pub proof fn lemma_parse_frame(u: Seq<IndexUpdate>)
    requires
        u.len() <= u64::MAX,
    ensures
        log_from(frame_bytes(u), 0) == updates_view(u),
{
    let n = u.len() as u64;
    let ub = updates_bytes(u);
    let body = u64_le(n) + ub;
    let crc = crate::codec::crc32_of(body);
    let b = frame_bytes(u);
    lemma_updates_len(u);
    lemma_u64_le_round_trip(n);
    lemma_u32_le_round_trip(crc);
    assert(b.subrange(0, 8) =~= u64_le(n));
    assert(u64_from_le(b, 0) == u64_from_le(b.subrange(0, 8), 0));
    let end = 8 + 17 * n;
    assert(frame_end(b, 0) == end);
    assert(b.subrange(0, end) =~= body);
    assert(b.subrange(end, end + 4) =~= u32_le(crc));
    assert(u32_from_le(b, end) == u32_from_le(b.subrange(end, end + 4), 0));
    assert(frame_valid(b, 0));
    let here = Seq::new(n as nat, |i: int| update_at(b, 8 + 17 * i));
    assert forall|i: int| 0 <= i < n implies here[i] == update_view(u[i]) by {
        lemma_updates_bytes(u, i);
        let p = 8 + 17 * i;
        let ui = update_bytes(u[i]);
        assert(b.subrange(p, p + 17) =~= ub.subrange(17 * i, 17 * i + 17));
        assert(b.subrange(p, p + 8) =~= ui.subrange(0, 8));
        assert(b.subrange(p + 9, p + 17) =~= ui.subrange(9, 17));
        assert(b[p + 8] == ui[8]);
        match u[i].1 {
            Some(v) => {
                assert(ui.subrange(0, 8) =~= u[i].0@);
                assert(ui.subrange(9, 17) =~= v@);
            },
            None => {
                assert(ui.subrange(0, 8) =~= u[i].0@);
            },
        }
    }
    assert(!frame_valid(b, end + 4));
    assert(log_from(b, end + 4) == Seq::<(Seq<u8>, Option<Seq<u8>>)>::empty());
    assert(log_from(b, 0) =~= updates_view(u));
}

proof fn lemma_log_stops(b: Seq<u8>, at: int, done: Seq<(Seq<u8>, Option<Seq<u8>>)>)
    requires
        !frame_valid(b, at),
    ensures
        done + log_from(b, at) == done,
{
    assert(log_from(b, at) == Seq::<(Seq<u8>, Option<Seq<u8>>)>::empty());
    assert(done + log_from(b, at) =~= done);
}

} // verus!
