use vstd::prelude::*;
use crate::codec::{encode_into, record_bytes, holds_record, stored_id, stored_payload, lemma_decode_encode};
use crate::config::PageId;
use crate::error::Error;
use crate::file_name::HeapFileName;
use crate::registry::FileMeta;

verus! {

/// The contents of a heap file holding `pages`: their records, one after another.
pub open spec fn batch_bytes(pages: Seq<(PageId, Vec<u8>)>) -> Seq<u8>
    decreases pages.len(),
{
    if pages.len() == 0 {
        seq![]
    } else {
        batch_bytes(pages.drop_last()) + record_bytes(pages.last().0.0, pages.last().1@)
    }
}

/// Where the record of `pages[i]` starts within the file.
pub open spec fn record_offset(pages: Seq<(PageId, Vec<u8>)>, i: int) -> int {
    batch_bytes(pages.take(i)).len() as int
}

/// No page carries a reserved id: zero, the sentinel for "absent", or the
/// largest id, whose index key is the watermark's.
pub open spec fn ids_valid(pages: Seq<(PageId, Vec<u8>)>) -> bool {
    forall|i: int| 0 <= i < pages.len() ==> #[trigger] pages[i].0.0 != 0 && pages[i].0.0 != u64::MAX
}

/// The batch, written at `base`, and the gap after it stay in the location space.
pub open spec fn batch_fits(base: u64, pages: Seq<(PageId, Vec<u8>)>) -> bool {
    base + batch_bytes(pages).len() + 1 <= u64::MAX
}

/// What a batch write puts on disk and into the index, before any of it is done.
pub struct BatchPlan {
    pub name: HeapFileName,
    /// The file's contents.
    pub bytes: Vec<u8>,
    /// For each page in order, its id and the location of its record.
    pub locations: Vec<(u64, u64)>,
    /// The base location of the batch after this one.
    pub next_lsn: u64,
}

impl BatchPlan {
    /// The registry's entry for the file once published: every record is live.
    pub fn file_meta(&self) -> (r: FileMeta)
        ensures
            r.name == self.name,
            r.size == self.bytes@.len(),
            r.live == self.name.capacity,
    {
        FileMeta { name: self.name, size: self.bytes.len() as u64, live: self.name.capacity }
    }
}

proof fn lemma_batch_prefix(pages: Seq<(PageId, Vec<u8>)>, k: int)
    requires
        0 <= k <= pages.len(),
    ensures
        batch_bytes(pages.take(k)).len() <= batch_bytes(pages).len(),
        batch_bytes(pages).subrange(0, batch_bytes(pages.take(k)).len() as int) == batch_bytes(
            pages.take(k),
        ),
    decreases pages.len(),
{
    if k == pages.len() {
        assert(pages.take(k) =~= pages);
        assert(batch_bytes(pages).subrange(0, batch_bytes(pages).len() as int) =~= batch_bytes(
            pages,
        ));
    } else {
        let d = pages.drop_last();
        assert(d.take(k) =~= pages.take(k));
        lemma_batch_prefix(d, k);
        let a = batch_bytes(d);
        let b = record_bytes(pages.last().0.0, pages.last().1@);
        let n = batch_bytes(pages.take(k)).len() as int;
        assert((a + b).subrange(0, n) =~= a.subrange(0, n));
    }
}

/// The record of `pages[i]` starts at its offset and runs into the next one's.
proof fn lemma_record_at(pages: Seq<(PageId, Vec<u8>)>, i: int)
    requires
        0 <= i < pages.len(),
    ensures
        record_offset(pages, i + 1) == record_offset(pages, i) + record_bytes(
            pages[i].0.0,
            pages[i].1@,
        ).len(),
        batch_bytes(pages).subrange(record_offset(pages, i), record_offset(pages, i + 1))
            == record_bytes(pages[i].0.0, pages[i].1@),
        record_offset(pages, i + 1) <= batch_bytes(pages).len(),
{
    let t = pages.take(i + 1);
    assert(t.drop_last() =~= pages.take(i));
    lemma_batch_prefix(pages, i + 1);
    let whole = batch_bytes(pages);
    let a = batch_bytes(pages.take(i));
    let r = record_bytes(pages[i].0.0, pages[i].1@);
    assert(batch_bytes(t) == a + r);
    assert(whole.subrange(record_offset(pages, i), record_offset(pages, i + 1)) =~= (a + r).subrange(
        a.len() as int,
        (a + r).len() as int,
    ));
    assert((a + r).subrange(a.len() as int, (a + r).len() as int) =~= r);
}

proof fn lemma_offsets_grow(pages: Seq<(PageId, Vec<u8>)>, i: int, j: int)
    requires
        0 <= i <= j <= pages.len(),
    ensures
        record_offset(pages, i) <= record_offset(pages, j),
    decreases j - i,
{
    if i < j {
        lemma_record_at(pages, j - 1);
        lemma_offsets_grow(pages, i, j - 1);
    }
}

/// Records of one batch occupy pairwise disjoint byte ranges: each ends at or
/// before the start of every later one.
pub proof fn lemma_records_disjoint(pages: Seq<(PageId, Vec<u8>)>, i: int, j: int)
    requires
        0 <= i < j < pages.len(),
    ensures
        record_offset(pages, i) + record_bytes(pages[i].0.0, pages[i].1@).len() <= record_offset(
            pages,
            j,
        ),
{
    lemma_record_at(pages, i);
    lemma_offsets_grow(pages, i + 1, j);
}

/// Every record of a batch ends within the batch's bytes; since the next batch
/// starts one past them, records of different batches never overlap.
pub proof fn lemma_record_within_batch(pages: Seq<(PageId, Vec<u8>)>, i: int)
    requires
        0 <= i < pages.len(),
    ensures
        0 <= record_offset(pages, i),
        record_offset(pages, i) + record_bytes(pages[i].0.0, pages[i].1@).len() <= batch_bytes(
            pages,
        ).len(),
{
    lemma_record_at(pages, i);
}

/// Decoding a batch's file at the offset of a page's record gives back that
/// page's id and payload, bit for bit.
pub proof fn lemma_read_back(pages: Seq<(PageId, Vec<u8>)>, i: int)
    requires
        0 <= i < pages.len(),
        pages[i].1@.len() <= u64::MAX,
    ensures
        holds_record(batch_bytes(pages).subrange(record_offset(pages, i), batch_bytes(pages).len() as int)),
        stored_id(batch_bytes(pages).subrange(record_offset(pages, i), batch_bytes(pages).len() as int))
            == pages[i].0.0,
        stored_payload(batch_bytes(pages).subrange(record_offset(pages, i), batch_bytes(pages).len() as int))
            == pages[i].1@,
{
    lemma_record_at(pages, i);
    let whole = batch_bytes(pages);
    let s = record_offset(pages, i);
    let e = record_offset(pages, i + 1);
    let r = record_bytes(pages[i].0.0, pages[i].1@);
    let rest = whole.subrange(e, whole.len() as int);
    assert(whole.subrange(s, whole.len() as int) =~= r + rest);
    lemma_decode_encode(pages[i].0.0, pages[i].1@, rest);
}

/// The location that the index entry of `locs[i]` takes the place of: its
/// own, where a later page of the batch has the same id, else the one the
/// index held before the batch.
pub open spec fn superseded_at(locs: Seq<(u64, u64)>, prev: Seq<Option<u64>>, i: int) -> Option<u64> {
    if exists|j: int| i < j < locs.len() && locs[j].0 == locs[i].0 {
        Some(locs[i].1)
    } else {
        prev[i]
    }
}

/// The superseded locations of the first `n` pages of a batch, in order.
pub open spec fn superseded_seq(locs: Seq<(u64, u64)>, prev: Seq<Option<u64>>, n: int) -> Seq<u64>
    decreases n,
{
    if n <= 0 {
        seq![]
    } else {
        match superseded_at(locs, prev, n - 1) {
            Some(l) => superseded_seq(locs, prev, n - 1).push(l),
            None => superseded_seq(locs, prev, n - 1),
        }
    }
}

/// The locations whose index entries a batch replaces, one for each entry
/// that goes away: `prev[i]` is what the index held for the id of
/// `locs[i]` before the batch.
pub fn superseded(locs: &Vec<(u64, u64)>, prev: &Vec<Option<u64>>) -> (r: Vec<u64>)
    requires
        locs@.len() == prev@.len(),
    ensures
        r@ == superseded_seq(locs@, prev@, locs@.len() as int),
{
    let mut r: Vec<u64> = Vec::new();
    let mut i: usize = 0;
    while i < locs.len()
        invariant
            locs@.len() == prev@.len(),
            i <= locs@.len(),
            r@ == superseded_seq(locs@, prev@, i as int),
        decreases locs@.len() - i,
    {
        let id = locs[i].0;
        let mut later = false;
        let mut j: usize = i + 1;
        while j < locs.len()
            invariant
                i < j <= locs@.len(),
                id == locs@[i as int].0,
                later == exists|k: int| i < k < j && locs@[k].0 == id,
            decreases locs@.len() - j,
        {
            if locs[j].0 == id {
                later = true;
            }
            j = j + 1;
        }
        if later {
            r.push(locs[i].1);
        } else {
            match prev[i] {
                Some(l) => r.push(l),
                None => {},
            }
        }
        i = i + 1;
    }
    r
}

/// Whether the index still maps page `i` of a rewrite to the location it was
/// read from.
pub open spec fn still_current(prev: Seq<Option<u64>>, expected: Seq<u64>, i: int) -> bool {
    prev[i] == Some(expected[i])
}

/// The pages of a rewrite whose index entries it may replace, in order.
pub open spec fn current_seq(
    locs: Seq<(u64, u64)>,
    prev: Seq<Option<u64>>,
    expected: Seq<u64>,
    n: int,
) -> Seq<(u64, u64)>
    decreases n,
{
    if n <= 0 {
        seq![]
    } else if still_current(prev, expected, n - 1) {
        current_seq(locs, prev, expected, n - 1).push(locs[n - 1])
    } else {
        current_seq(locs, prev, expected, n - 1)
    }
}

/// The records that a rewrite leaves without an index entry: the old one
/// where the rewrite replaces it, else the rewritten copy.
pub open spec fn rewrite_released(
    locs: Seq<(u64, u64)>,
    prev: Seq<Option<u64>>,
    expected: Seq<u64>,
    n: int,
) -> Seq<u64>
    decreases n,
{
    if n <= 0 {
        seq![]
    } else if still_current(prev, expected, n - 1) {
        rewrite_released(locs, prev, expected, n - 1).push(expected[n - 1])
    } else {
        rewrite_released(locs, prev, expected, n - 1).push(locs[n - 1].1)
    }
}

/// Splits a rewrite batch, given what the index holds now (`prev`) and where
/// each page was read from (`expected`): the entries to publish, for pages
/// not overwritten since they were read, and the locations whose records
/// lose their entry.
pub fn commit_rewrite(
    locs: &Vec<(u64, u64)>,
    prev: &Vec<Option<u64>>,
    expected: &Vec<u64>,
) -> (r: (Vec<(u64, u64)>, Vec<u64>))
    requires
        locs@.len() == prev@.len(),
        locs@.len() == expected@.len(),
    ensures
        r.0@ == current_seq(locs@, prev@, expected@, locs@.len() as int),
        r.1@ == rewrite_released(locs@, prev@, expected@, locs@.len() as int),
{
    let mut keep: Vec<(u64, u64)> = Vec::new();
    let mut gone: Vec<u64> = Vec::new();
    let mut i: usize = 0;
    while i < locs.len()
        invariant
            locs@.len() == prev@.len(),
            locs@.len() == expected@.len(),
            i <= locs@.len(),
            keep@ == current_seq(locs@, prev@, expected@, i as int),
            gone@ == rewrite_released(locs@, prev@, expected@, i as int),
        decreases locs@.len() - i,
    {
        let current = match prev[i] {
            Some(l) => l == expected[i],
            None => false,
        };
        if current {
            keep.push(locs[i]);
            gone.push(expected[i]);
        } else {
            gone.push(locs[i].1);
        }
        i = i + 1;
    }
    (keep, gone)
}

/// Lays out a batch of pages as one heap file whose first record sits at
/// `next_lsn`. Refused with `InvalidArgument` for an empty batch, a reserved id,
/// or a batch that would run past the end of the location space.
pub fn plan_batch(
    next_lsn: u64,
    pages: &Vec<(PageId, Vec<u8>)>,
    shard: u8,
    size_class: u8,
    generation: u8,
) -> (r: Result<BatchPlan, Error>)
    requires
        size_class < 16,
        generation < 16,
    ensures
        r is Err <==> (pages@.len() == 0 || !ids_valid(pages@) || !batch_fits(next_lsn, pages@)),
        r is Err ==> r == Err::<BatchPlan, Error>(Error::InvalidArgument),
        match r {
            Ok(p) => {
                &&& p.name == (HeapFileName {
                    shard,
                    base_lsn: next_lsn,
                    size_class,
                    generation,
                    capacity: pages@.len() as u64,
                })
                &&& p.bytes@ == batch_bytes(pages@)
                &&& p.locations@.len() == pages@.len()
                &&& forall|i: int|
                    0 <= i < pages@.len() ==> #[trigger] p.locations@[i] == (
                    pages@[i].0.0,
                    (next_lsn + record_offset(pages@, i)) as u64,
                )
                &&& p.next_lsn == next_lsn + p.bytes@.len() + 1
            },
            Err(_) => true,
        },
{
    if pages.len() == 0 {
        return Err(Error::InvalidArgument);
    }
    let mut buf: Vec<u8> = Vec::new();
    let mut offsets: Vec<usize> = Vec::new();
    let mut i: usize = 0;
    while i < pages.len()
        invariant
            i <= pages@.len(),
            buf@ == batch_bytes(pages@.take(i as int)),
            offsets@.len() == i,
            forall|j: int| 0 <= j < i ==> #[trigger] offsets@[j] == record_offset(pages@, j),
            forall|j: int| 0 <= j < i ==> #[trigger] pages@[j].0.0 != 0 && pages@[j].0.0 != u64::MAX,
        decreases pages@.len() - i,
    {
        let (pid, payload) = &pages[i];
        if pid.0 == 0 || pid.0 == u64::MAX {
            assert(pages@[i as int].0.0 == 0 || pages@[i as int].0.0 == u64::MAX);
            return Err(Error::InvalidArgument);
        }
        proof {
            assert(pages@.take(i as int + 1).drop_last() =~= pages@.take(i as int));
            assert(pages@.take(i as int).take(i as int) =~= pages@.take(i as int));
        }
        offsets.push(buf.len());
        encode_into(&mut buf, pid.0, payload.as_slice());
        i = i + 1;
    }
    assert(pages@.take(pages@.len() as int) =~= pages@);
    let total = buf.len() as u64;
    if next_lsn >= u64::MAX - total {
        return Err(Error::InvalidArgument);
    }
    let mut locations: Vec<(u64, u64)> = Vec::new();
    let mut k: usize = 0;
    while k < pages.len()
        invariant
            pages@.len() == offsets@.len(),
            k <= pages@.len(),
            buf@ == batch_bytes(pages@),
            next_lsn + buf@.len() + 1 <= u64::MAX,
            forall|j: int| 0 <= j < pages@.len() ==> #[trigger] offsets@[j] == record_offset(pages@, j),
            locations@.len() == k,
            forall|j: int|
                0 <= j < k ==> #[trigger] locations@[j] == (
                    pages@[j].0.0,
                    (next_lsn + record_offset(pages@, j)) as u64,
                ),
        decreases pages@.len() - k,
    {
        proof {
            lemma_batch_prefix(pages@, k as int);
        }
        locations.push((pages[k].0.0, next_lsn + offsets[k] as u64));
        k = k + 1;
    }
    Ok(
        BatchPlan {
            name: HeapFileName {
                shard,
                base_lsn: next_lsn,
                size_class,
                generation,
                capacity: pages.len() as u64,
            },
            bytes: buf,
            locations,
            next_lsn: next_lsn + total + 1,
        },
    )
}

} // verus!
