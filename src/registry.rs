use vstd::prelude::*;
use crate::file_name::HeapFileName;

verus! {

/// What the store keeps in memory of one published heap file.
#[derive(Debug, Clone, Copy, PartialEq, Eq, Structural)]
pub struct FileMeta {
    pub name: HeapFileName,
    /// Its size on disk in bytes.
    pub size: u64,
    /// How many entries of the page-location index point into it.
    pub live: u64,
}

/// Whether the bases of `s` strictly increase.
pub open spec fn sorted_by_base(s: Seq<FileMeta>) -> bool {
    forall|i: int, j: int| 0 <= i < j < s.len() ==> s[i].name.base_lsn < s[j].name.base_lsn
}

/// Whether `loc` lies in the byte range of file `f`.
pub open spec fn in_file(f: FileMeta, loc: u64) -> bool {
    f.name.base_lsn <= loc && loc - f.name.base_lsn < f.size
}

/// Whether `i` is the file with the largest base at or below `loc`.
pub open spec fn is_owner(s: Seq<FileMeta>, i: int, loc: u64) -> bool {
    &&& 0 <= i < s.len()
    &&& s[i].name.base_lsn <= loc
    &&& forall|j: int| i < j < s.len() ==> s[j].name.base_lsn > loc
}

/// Whether some file has a base at or below `loc`.
pub open spec fn has_owner(s: Seq<FileMeta>, loc: u64) -> bool {
    exists|i: int| 0 <= i < s.len() && s[i].name.base_lsn <= loc
}

/// The published heap files, ordered by base location.
pub struct Registry {
    files: Vec<FileMeta>,
}

impl View for Registry {
    type V = Seq<FileMeta>;

    closed spec fn view(&self) -> Seq<FileMeta> {
        self.files@
    }
}

impl Registry {
    /// Files are held in strictly increasing order of base location.
    pub closed spec fn wf(&self) -> bool {
        sorted_by_base(self.files@)
    }

    pub fn new() -> (r: Registry)
        ensures
            r.wf(),
            r@ == Seq::<FileMeta>::empty(),
    {
        Registry { files: Vec::new() }
    }

    pub fn len(&self) -> (r: usize)
        ensures
            r == self@.len(),
    {
        self.files.len()
    }

    pub fn get(&self, i: usize) -> (r: &FileMeta)
        requires
            i < self@.len(),
        ensures
            *r == self@[i as int],
    {
        &self.files[i]
    }

    pub proof fn lemma_sorted(&self)
        requires
            self.wf(),
        ensures
            sorted_by_base(self@),
    {
    }

    /// The file with the largest base at or below `loc`, if any.
    pub fn locate(&self, loc: u64) -> (r: Option<usize>)
        requires
            self.wf(),
        ensures
            match r {
                Some(i) => is_owner(self@, i as int, loc),
                None => !has_owner(self@, loc),
            },
    {
        // binary search for the number of files whose base is at or below loc
        let mut lo: usize = 0;
        let mut hi: usize = self.files.len();
        while lo < hi
            invariant
                sorted_by_base(self.files@),
                0 <= lo <= hi <= self.files@.len(),
                forall|j: int| 0 <= j < lo ==> self.files@[j].name.base_lsn <= loc,
                forall|j: int| hi <= j < self.files@.len() ==> self.files@[j].name.base_lsn > loc,
            decreases hi - lo,
        {
            let mid = lo + (hi - lo) / 2;
            if self.files[mid].name.base_lsn <= loc {
                lo = mid + 1;
            } else {
                hi = mid;
            }
        }
        if lo == 0 {
            None
        } else {
            Some(lo - 1)
        }
    }

    /// Adds a file, keeping the order; refused (and nothing changes) where a
    /// file with the same base is present.
    pub fn insert(&mut self, m: FileMeta) -> (r: bool)
        requires
            old(self).wf(),
        ensures
            final(self).wf(),
            r == !(exists|i: int|
                0 <= i < old(self)@.len() && old(self)@[i].name.base_lsn == m.name.base_lsn),
            r ==> exists|p: int| 0 <= p <= old(self)@.len() && final(self)@ == old(self)@.insert(p, m),
            r ==> forall|f: FileMeta| #[trigger]
                final(self)@.contains(f) <==> old(self)@.contains(f) || f == m,
            !r ==> final(self)@ == old(self)@,
    {
        let mut p: usize = 0;
        while p < self.files.len() && self.files[p].name.base_lsn < m.name.base_lsn
            invariant
                self.files@ == old(self).files@,
                sorted_by_base(self.files@),
                p <= self.files@.len(),
                forall|j: int| 0 <= j < p ==> self.files@[j].name.base_lsn < m.name.base_lsn,
            decreases self.files@.len() - p,
        {
            p = p + 1;
        }
        if p < self.files.len() && self.files[p].name.base_lsn == m.name.base_lsn {
            assert(old(self)@[p as int].name.base_lsn == m.name.base_lsn);
            return false;
        }
        let ghost before = self.files@;
        self.files.insert(p, m);
        proof {
            assert forall|i: int| 0 <= i < before.len() implies before[i].name.base_lsn
                != m.name.base_lsn by {
                if i >= p {
                    assert(before[p as int].name.base_lsn <= before[i].name.base_lsn);
                }
            }
            assert(self.files@ == before.insert(p as int, m));
            assert(final(self)@ == old(self)@.insert(p as int, m));
            let after = self.files@;
            assert forall|f: FileMeta| #[trigger]
                after.contains(f) <==> before.contains(f) || f == m by {
                if after.contains(f) {
                    let q = choose|q: int| 0 <= q < after.len() && after[q] == f;
                    if q < p {
                        assert(before[q] == f);
                    } else if q > p {
                        assert(before[q - 1] == f);
                    }
                }
                if before.contains(f) {
                    let q = choose|q: int| 0 <= q < before.len() && before[q] == f;
                    if q < p {
                        assert(after[q] == f);
                    } else {
                        assert(after[q + 1] == f);
                    }
                }
                if f == m {
                    assert(after[p as int] == f);
                }
            }
            assert forall|i: int, j: int|
                0 <= i < j < after.len() implies after[i].name.base_lsn
                < after[j].name.base_lsn by {
                if i < p && j == p {
                } else if i < p && j > p {
                    assert(before[p as int].name.base_lsn <= before[j - 1].name.base_lsn);
                } else if i == p {
                    assert(before[p as int].name.base_lsn <= before[j - 1].name.base_lsn);
                }
            }
        }
        true
    }

    /// Removes the file with base `base`, returning it; `None` where there is none.
    pub fn remove(&mut self, base: u64) -> (r: Option<FileMeta>)
        requires
            old(self).wf(),
        ensures
            final(self).wf(),
            match r {
                Some(m) => exists|i: int|
                    0 <= i < old(self)@.len() && old(self)@[i] == m && m.name.base_lsn == base
                        && final(self)@ == old(self)@.remove(i),
                None => final(self)@ == old(self)@ && forall|i: int|
                    0 <= i < old(self)@.len() ==> old(self)@[i].name.base_lsn != base,
            },
            forall|f: FileMeta| #[trigger]
                final(self)@.contains(f) <==> old(self)@.contains(f) && f.name.base_lsn != base,
    {
        let mut i: usize = 0;
        while i < self.files.len()
            invariant
                self.files@ == old(self).files@,
                sorted_by_base(self.files@),
                i <= self.files@.len(),
                forall|j: int| 0 <= j < i ==> self.files@[j].name.base_lsn != base,
            decreases self.files@.len() - i,
        {
            if self.files[i].name.base_lsn == base {
                let m = self.files.remove(i);
                proof {
                    let before = old(self).files@;
                    assert(self.files@ == before.remove(i as int));
                    assert(old(self)@[i as int] == m);
                    assert(final(self)@ == old(self)@.remove(i as int));
                    assert forall|f: FileMeta| #[trigger]
                        final(self)@.contains(f) <==> old(self)@.contains(f) && f.name.base_lsn
                            != base by {
                        if final(self)@.contains(f) {
                            let q = choose|q: int| 0 <= q < self.files@.len() && self.files@[q] == f;
                            let q2 = if q < i { q } else { q + 1 };
                            assert(before[q2] == f);
                            assert(q2 != i);
                            if q2 < i {
                                assert(before[q2].name.base_lsn < before[i as int].name.base_lsn);
                            } else {
                                assert(before[i as int].name.base_lsn < before[q2].name.base_lsn);
                            }
                        }
                        if old(self)@.contains(f) && f.name.base_lsn != base {
                            let q = choose|q: int| 0 <= q < before.len() && before[q] == f;
                            assert(q != i);
                            if q < i {
                                assert(self.files@[q] == f);
                            } else {
                                assert(self.files@[q - 1] == f);
                            }
                        }
                    }
                    assert forall|a: int, b: int|
                        0 <= a < b < self.files@.len() implies self.files@[a].name.base_lsn
                        < self.files@[b].name.base_lsn by {
                        let a2 = if a < i { a } else { a + 1 };
                        let b2 = if b < i { b } else { b + 1 };
                        assert(self.files@[a] == before[a2]);
                        assert(self.files@[b] == before[b2]);
                    }
                }
                return Some(m);
            }
            i = i + 1;
        }
        proof {
            assert forall|f: FileMeta| #[trigger]
                final(self)@.contains(f) <==> old(self)@.contains(f) && f.name.base_lsn != base by {
                if old(self)@.contains(f) {
                    let q = choose|q: int| 0 <= q < self.files@.len() && self.files@[q] == f;
                }
            }
        }
        None
    }

    /// Counts one more live record in file `i`.
    pub fn add_live(&mut self, i: usize)
        requires
            old(self).wf(),
            i < old(self)@.len(),
            old(self)@[i as int].live < u64::MAX,
        ensures
            final(self).wf(),
            final(self)@ == old(self)@.update(
                i as int,
                FileMeta { live: (old(self)@[i as int].live + 1) as u64, ..old(self)@[i as int] },
            ),
    {
        let f = self.files[i];
        self.files.set(i, FileMeta { live: f.live + 1, ..f });
    }

    /// Records that an index entry pointing at `loc` went away: the live
    /// count of the file holding `loc` drops by one (not below zero). Nothing
    /// changes where no file holds `loc`.
    pub fn release(&mut self, loc: u64)
        requires
            old(self).wf(),
        ensures
            final(self).wf(),
            final(self)@ == released(old(self)@, loc),
    {
        match self.locate(loc) {
            Some(i) => {
                let f = self.files[i];
                if loc - f.name.base_lsn < f.size {
                    let live = if f.live > 0 {
                        f.live - 1
                    } else {
                        0
                    };
                    self.files.set(i, FileMeta { live, ..f });
                }
            },
            None => {},
        }
        assert(self.files@ =~= released(old(self)@, loc));
    }

    /// Releases each of `locs` in turn.
    pub fn release_all(&mut self, locs: &Vec<u64>)
        requires
            old(self).wf(),
        ensures
            final(self).wf(),
            final(self)@ == released_all(old(self)@, locs@),
    {
        let mut i: usize = 0;
        while i < locs.len()
            invariant
                self.wf(),
                i <= locs@.len(),
                self@ == released_all(old(self)@, locs@.take(i as int)),
            decreases locs@.len() - i,
        {
            proof {
                assert(locs@.take(i as int + 1).drop_last() =~= locs@.take(i as int));
            }
            self.release(locs[i]);
            i = i + 1;
        }
        assert(locs@.take(locs@.len() as int) =~= locs@);
    }
}

/// The files after an index entry pointing at `loc` went away: the file
/// holding `loc` has one live record less (not below zero).
pub open spec fn released(s: Seq<FileMeta>, loc: u64) -> Seq<FileMeta> {
    Seq::new(
        s.len(),
        |i: int|
            if is_owner(s, i, loc) && in_file(s[i], loc) {
                FileMeta { live: sub_floor(s[i].live), ..s[i] }
            } else {
                s[i]
            },
    )
}

/// The files after the entries pointing at each of `locs` went away.
pub open spec fn released_all(s: Seq<FileMeta>, locs: Seq<u64>) -> Seq<FileMeta>
    decreases locs.len(),
{
    if locs.len() == 0 {
        s
    } else {
        released(released_all(s, locs.drop_last()), locs.last())
    }
}

/// When an entry that pointed into file `k` is overwritten, that file's live
/// count drops by exactly one and every other file stays as it was.
pub proof fn lemma_release_owner(s: Seq<FileMeta>, k: int, loc: u64)
    requires
        sorted_by_base(s),
        is_owner(s, k, loc),
        in_file(s[k], loc),
        s[k].live > 0,
    ensures
        released(s, loc).len() == s.len(),
        released(s, loc)[k].live == s[k].live - 1,
        forall|j: int| 0 <= j < s.len() && j != k ==> #[trigger] released(s, loc)[j] == s[j],
{
    assert forall|j: int| 0 <= j < s.len() && j != k implies #[trigger] released(s, loc)[j]
        == s[j] by {
        if j < k {
            assert(s[j].name.base_lsn < s[k].name.base_lsn);
        }
    }
}

/// One less, but not below zero.
pub open spec fn sub_floor(x: u64) -> u64 {
    if x > 0 {
        (x - 1) as u64
    } else {
        0
    }
}

} // verus!
