use std::collections::BTreeMap;
use vstd::prelude::*;
use crate::codec::{lemma_u64_le_round_trip, u64_from_le, u64_le};
use crate::index_format::{lemma_location_round_trip, u64_be, u64_from_be, value_location, value_watermark, WATERMARK_KEY};
use crate::index_log::{update_view, IndexUpdate};

verus! {

broadcast use vstd::laws_cmp::group_laws_cmp, vstd::std_specs::btree::group_btree_axioms;

/// An id and the location of its record.
pub type Entry = (u64, u64);

/// The map after the entries `s` were written in order.
pub open spec fn apply_seq(m: Map<u64, u64>, s: Seq<(u64, u64)>) -> Map<u64, u64>
    decreases s.len(),
{
    if s.len() == 0 {
        m
    } else {
        apply_seq(m, s.drop_last()).insert(s.last().0, s.last().1)
    }
}

/// The location of the last entry for `id` in `s`, if any.
pub open spec fn last_write(s: Seq<(u64, u64)>, id: u64) -> Option<u64>
    decreases s.len(),
{
    if s.len() == 0 {
        None
    } else if s.last().0 == id {
        Some(s.last().1)
    } else {
        last_write(s.drop_last(), id)
    }
}

/// After a batch of writes, an id maps to the location of its last write in
/// the batch; an id the batch does not write keeps what it had.
pub proof fn lemma_latest_write_wins(m: Map<u64, u64>, s: Seq<(u64, u64)>, id: u64)
    ensures
        match last_write(s, id) {
            Some(l) => apply_seq(m, s).contains_key(id) && apply_seq(m, s)[id] == l,
            None => apply_seq(m, s).contains_key(id) == m.contains_key(id) && (m.contains_key(id)
                ==> apply_seq(m, s)[id] == m[id]),
        },
    decreases s.len(),
{
    if s.len() > 0 {
        lemma_latest_write_wins(m, s.drop_last(), id);
    }
}

/// Whether `s` lists the entries of `m`, each once, in increasing order of ids.
pub open spec fn lists_map(s: Seq<Entry>, m: Map<u64, u64>) -> bool {
    &&& forall|a: u64, b: u64| #[trigger] s.contains((a, b)) <==> m.contains_key(a) && m[a] == b
    &&& forall|i: int, j: int| 0 <= i < j < s.len() ==> s[i].0 < s[j].0
}

/// The index (locations and watermark) after replaying one logged update.
pub open spec fn replayed(m: Map<u64, u64>, w: u64, u: (Seq<u8>, Option<Seq<u8>>)) -> (Map<u64, u64>, u64) {
    if u.0 == WATERMARK_KEY@ {
        (
            m,
            match u.1 {
                Some(v) => u64_from_le(v, 0),
                None => 0,
            },
        )
    } else {
        (
            match u.1 {
                Some(v) => m.insert(u64_from_be(u.0), u64_from_be(v)),
                None => m.remove(u64_from_be(u.0)),
            },
            w,
        )
    }
}

/// The index after replaying the logged updates `s` in order.
pub open spec fn replayed_all(m: Map<u64, u64>, w: u64, s: Seq<(Seq<u8>, Option<Seq<u8>>)>) -> (
    Map<u64, u64>,
    u64,
)
    decreases s.len(),
{
    if s.len() == 0 {
        (m, w)
    } else {
        let p = replayed_all(m, w, s.drop_last());
        replayed(p.0, p.1, s.last())
    }
}

/// The logged updates that publish `locs` at `base` over watermark `w`.
pub open spec fn publish_log(locs: Seq<Entry>, w: u64, base: u64) -> Seq<(Seq<u8>, Option<Seq<u8>>)> {
    Seq::new(locs.len(), |i: int| (u64_be(locs[i].0), Some(u64_be(locs[i].1)))).push(
        (WATERMARK_KEY@, Some(u64_le(if w >= base { w } else { base }))),
    )
}

proof fn lemma_key_not_watermark(id: u64)
    requires
        id != u64::MAX,
    ensures
        u64_be(id) != WATERMARK_KEY@,
{
    lemma_location_round_trip(id);
    if u64_be(id) == WATERMARK_KEY@ {
        let b = WATERMARK_KEY@;
        assert(b[0] == 0xff && b[1] == 0xff && b[2] == 0xff && b[3] == 0xff && b[4] == 0xff
            && b[5] == 0xff && b[6] == 0xff && b[7] == 0xff);
        let (b0, b1, b2, b3, b4, b5, b6, b7) = (b[0], b[1], b[2], b[3], b[4], b[5], b[6], b[7]);
        assert((b0 == 0xff && b1 == 0xff && b2 == 0xff && b3 == 0xff && b4 == 0xff && b5 == 0xff
            && b6 == 0xff && b7 == 0xff) ==> ((b0 as u64) << 56) | ((b1 as u64) << 48) | ((
        b2 as u64) << 40) | ((b3 as u64) << 32) | ((b4 as u64) << 24) | ((b5 as u64) << 16) | ((
        b6 as u64) << 8) | (b7 as u64) == 0xffff_ffff_ffff_ffffu64) by (bit_vector);
    }
}

proof fn lemma_replay_prefix(m: Map<u64, u64>, w: u64, locs: Seq<Entry>, n: int)
    requires
        0 <= n <= locs.len(),
        forall|i: int| 0 <= i < locs.len() ==> #[trigger] locs[i].0 != u64::MAX,
    ensures
        replayed_all(
            m,
            w,
            Seq::new(n as nat, |i: int| (u64_be(locs[i].0), Some(u64_be(locs[i].1)))),
        ) == (apply_seq(m, locs.take(n)), w),
    decreases n,
{
    let s = Seq::new(n as nat, |i: int| (u64_be(locs[i].0), Some(u64_be(locs[i].1))));
    if n > 0 {
        lemma_replay_prefix(m, w, locs, n - 1);
        assert(s.drop_last() =~= Seq::new(
            (n - 1) as nat,
            |i: int| (u64_be(locs[i].0), Some(u64_be(locs[i].1))),
        ));
        assert(locs.take(n).drop_last() =~= locs.take(n - 1));
        lemma_key_not_watermark(locs[n - 1].0);
        lemma_location_round_trip(locs[n - 1].0);
        lemma_location_round_trip(locs[n - 1].1);
    }
}

/// Replaying from the log the updates that publish a batch gives the same
/// index as publishing it: every id at its last location in the batch, and
/// the watermark raised to the batch's base. So the index recovered after a
/// crash is the one that was flushed.
pub proof fn lemma_replay_publish(m: Map<u64, u64>, w: u64, locs: Seq<Entry>, base: u64)
    requires
        forall|i: int| 0 <= i < locs.len() ==> #[trigger] locs[i].0 != u64::MAX,
    ensures
        replayed_all(m, w, publish_log(locs, w, base)) == (
            apply_seq(m, locs),
            if w >= base {
                w
            } else {
                base
            },
        ),
{
    let s = publish_log(locs, w, base);
    lemma_replay_prefix(m, w, locs, locs.len() as int);
    assert(s.drop_last() =~= Seq::new(
        locs.len(),
        |i: int| (u64_be(locs[i].0), Some(u64_be(locs[i].1))),
    ));
    assert(locs.take(locs.len() as int) =~= locs);
    lemma_u64_le_round_trip(if w >= base { w } else { base });
}

/// Relies on `BTreeMap::iter`: every entry of the map once, in increasing
/// order of keys.
#[verifier::external_body]
fn map_entries(m: &BTreeMap<u64, u64>) -> (r: Vec<Entry>)
    ensures
        lists_map(r@, m@),
{
    m.iter().map(|(k, v)| (*k, *v)).collect()
}

/// The page-location index in memory: each id's location, and the watermark,
/// the highest batch base accepted.
pub struct PageIndex {
    map: BTreeMap<u64, u64>,
    watermark: u64,
}

impl PageIndex {
    pub closed spec fn locations(&self) -> Map<u64, u64> {
        self.map@
    }

    pub closed spec fn mark(&self) -> u64 {
        self.watermark
    }

    pub fn new() -> (r: PageIndex)
        ensures
            r.locations() == Map::<u64, u64>::empty(),
            r.mark() == 0,
    {
        PageIndex { map: BTreeMap::new(), watermark: 0 }
    }

    /// Where page `id` is stored, if anywhere.
    pub fn get(&self, id: u64) -> (r: Option<u64>)
        ensures
            r == (if self.locations().contains_key(id) {
                Some(self.locations()[id])
            } else {
                None::<u64>
            }),
    {
        match self.map.get(&id) {
            Some(l) => Some(*l),
            None => None,
        }
    }

    pub fn watermark(&self) -> (r: u64)
        ensures
            r == self.mark(),
    {
        self.watermark
    }

    /// Every (id, location) pair, each once, in order of ids.
    pub fn entries(&self) -> (r: Vec<(u64, u64)>)
        ensures
            lists_map(r@, self.locations()),
    {
        map_entries(&self.map)
    }

    /// Records a published batch: each page's location, in order, and the
    /// watermark raised to the batch's base.
    pub fn publish(&mut self, locs: &Vec<(u64, u64)>, base: u64)
        ensures
            final(self).locations() == apply_seq(old(self).locations(), locs@),
            final(self).mark() == if old(self).mark() >= base {
                old(self).mark()
            } else {
                base
            },
    {
        let mut i: usize = 0;
        while i < locs.len()
            invariant
                i <= locs@.len(),
                self.watermark == old(self).watermark,
                self.map@ == apply_seq(old(self).map@, locs@.take(i as int)),
            decreases locs@.len() - i,
        {
            proof {
                assert(locs@.take(i as int + 1).drop_last() =~= locs@.take(i as int));
            }
            let (id, loc) = locs[i];
            self.map.insert(id, loc);
            i = i + 1;
        }
        assert(locs@.take(locs@.len() as int) =~= locs@);
        if base > self.watermark {
            self.watermark = base;
        }
    }

    /// Replays one update read back from the index log: the watermark key sets
    /// the watermark, any other key sets or deletes a page's location.
    pub fn replay(&mut self, u: &IndexUpdate)
        ensures
            (final(self).locations(), final(self).mark()) == replayed(
                old(self).locations(),
                old(self).mark(),
                update_view(*u),
            ),
    {
        let (key, value) = *u;
        if key[0] == 0xff && key[1] == 0xff && key[2] == 0xff && key[3] == 0xff && key[4] == 0xff
            && key[5] == 0xff && key[6] == 0xff && key[7] == 0xff {
            assert(key@ =~= WATERMARK_KEY@);
            self.watermark = value_watermark(value);
        } else {
            assert(key@ != WATERMARK_KEY@) by {
                if key@ == WATERMARK_KEY@ {
                    assert(key@[0] == WATERMARK_KEY@[0]);
                }
            }
            let id = value_location(key);
            match value {
                Some(v) => {
                    self.map.insert(id, value_location(v));
                },
                None => {
                    self.map.remove(&id);
                },
            }
        }
    }
}

} // verus!
