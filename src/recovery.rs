use vstd::prelude::*;
use crate::file_name::{is_heap_name, is_temp, is_temp_name, parsed_name, HeapFileName};
use crate::reader::resolve;
use crate::registry::{in_file, is_owner, sorted_by_base, FileMeta, Registry};

verus! {

/// A directory entry that recovery deletes: a file left half written, or a
/// file published after the last index flush.
pub open spec fn must_remove(name: Seq<u8>, watermark: u64) -> bool {
    is_temp_name(name) || (is_heap_name(name) && parsed_name(name).base_lsn > watermark)
}

/// A directory entry that recovery registers.
pub open spec fn may_keep(name: Seq<u8>, watermark: u64) -> bool {
    !is_temp_name(name) && is_heap_name(name) && parsed_name(name).base_lsn <= watermark
}

/// Whether `f` is what a directory entry that recovery keeps describes.
#[verifier::opaque]
pub open spec fn from_entry(entries: Seq<(Vec<u8>, u64)>, watermark: u64, f: FileMeta) -> bool {
    exists|j: int|
        0 <= j < entries.len() && may_keep(#[trigger] entries[j].0@, watermark) && parsed_name(
            entries[j].0@,
        ) == f.name && f.size == entries[j].1
}

/// Whether no other entry that recovery keeps has the base of entry `j`.
pub open spec fn unique_base(entries: Seq<(Vec<u8>, u64)>, watermark: u64, j: int) -> bool {
    forall|x: int|
        0 <= x < entries.len() && x != j && may_keep(#[trigger] entries[x].0@, watermark)
            ==> parsed_name(entries[x].0@).base_lsn != parsed_name(entries[j].0@).base_lsn
}

/// Whether `s` holds a file with name `n` and size `size`.
pub open spec fn registered(s: Seq<FileMeta>, n: HeapFileName, size: u64) -> bool {
    exists|k: int| 0 <= k < s.len() && s[k].name == n && s[k].size == size
}

/// Whether a kept entry before position `j` has base `b`.
pub open spec fn kept_before(entries: Seq<(Vec<u8>, u64)>, watermark: u64, j: int, b: u64) -> bool {
    exists|x: int|
        0 <= x < j && may_keep(#[trigger] entries[x].0@, watermark) && parsed_name(
            entries[x].0@,
        ).base_lsn == b
}

/// Whether some file of `s` has base location `b`.
pub open spec fn has_base(s: Seq<FileMeta>, b: u64) -> bool {
    exists|k: int| 0 <= k < s.len() && s[k].name.base_lsn == b
}

/// Whether file `k` of `s` holds location `loc`.
pub open spec fn owned_by(s: Seq<FileMeta>, k: int, loc: u64) -> bool {
    is_owner(s, k, loc) && in_file(s[k], loc)
}

/// Whether some file of `s` holds location `loc`.
pub open spec fn held(s: Seq<FileMeta>, loc: u64) -> bool {
    exists|k: int| owned_by(s, k, loc)
}

/// How many of `locs` file `k` holds.
pub open spec fn count_owned(s: Seq<FileMeta>, k: int, locs: Seq<u64>) -> nat
    decreases locs.len(),
{
    if locs.len() == 0 {
        0
    } else {
        count_owned(s, k, locs.drop_last()) + if owned_by(s, k, locs.last()) {
            1nat
        } else {
            0nat
        }
    }
}

/// How many of `locs` some file holds.
pub open spec fn count_held(s: Seq<FileMeta>, locs: Seq<u64>) -> nat
    decreases locs.len(),
{
    if locs.len() == 0 {
        0
    } else {
        count_held(s, locs.drop_last()) + if held(s, locs.last()) {
            1nat
        } else {
            0nat
        }
    }
}

/// The live counts of all files together.
pub open spec fn sum_live(s: Seq<FileMeta>) -> nat
    decreases s.len(),
{
    if s.len() == 0 {
        0
    } else {
        sum_live(s.drop_last()) + s.last().live as nat
    }
}

/// The largest end of a file's byte range.
pub open spec fn max_end(s: Seq<FileMeta>) -> nat
    decreases s.len(),
{
    if s.len() == 0 {
        0
    } else {
        let e = (s.last().name.base_lsn + s.last().size) as nat;
        let m = max_end(s.drop_last());
        if e > m {
            e
        } else {
            m
        }
    }
}

/// Whether `s` and `t` hold the same files, whatever their live counts.
pub open spec fn same_layout(s: Seq<FileMeta>, t: Seq<FileMeta>) -> bool {
    s.len() == t.len() && forall|k: int|
        #![trigger s[k]]
        #![trigger t[k]]
        0 <= k < s.len() ==> s[k].name == t[k].name && s[k].size == t[k].size
}

proof fn lemma_same_layout_counts(s: Seq<FileMeta>, t: Seq<FileMeta>, k: int, locs: Seq<u64>)
    requires
        same_layout(s, t),
    ensures
        count_owned(s, k, locs) == count_owned(t, k, locs),
        count_held(s, locs) == count_held(t, locs),
    decreases locs.len(),
{
    if locs.len() > 0 {
        lemma_same_layout_counts(s, t, k, locs.drop_last());
        let l = locs.last();
        lemma_same_layout_owner(s, t, k, l);
        if held(s, l) {
            let j = choose|j: int| owned_by(s, j, l);
            lemma_same_layout_owner(s, t, j, l);
        }
        if held(t, l) {
            let j = choose|j: int| owned_by(t, j, l);
            lemma_same_layout_owner(s, t, j, l);
        }
    }
}

proof fn lemma_same_layout_owner(s: Seq<FileMeta>, t: Seq<FileMeta>, k: int, loc: u64)
    requires
        same_layout(s, t),
    ensures
        owned_by(s, k, loc) == owned_by(t, k, loc),
{
    if 0 <= k < s.len() {
        assert(s[k].name == t[k].name && s[k].size == t[k].size);
        if is_owner(s, k, loc) {
            assert forall|j: int| k < j < t.len() implies t[j].name.base_lsn > loc by {
                assert(s[j].name == t[j].name);
            }
        }
        if is_owner(t, k, loc) {
            assert forall|j: int| k < j < s.len() implies s[j].name.base_lsn > loc by {
                assert(s[j].name == t[j].name);
            }
        }
    }
}

proof fn lemma_sum_live_add(s: Seq<FileMeta>, k: int, f: FileMeta)
    requires
        0 <= k < s.len(),
        f.live == s[k].live + 1,
    ensures
        sum_live(s.update(k, f)) == sum_live(s) + 1,
    decreases s.len(),
{
    let u = s.update(k, f);
    if k == s.len() - 1 {
        assert(u.drop_last() =~= s.drop_last());
    } else {
        assert(u.drop_last() =~= s.drop_last().update(k, f));
        lemma_sum_live_add(s.drop_last(), k, f);
    }
}

proof fn lemma_owner_unique(s: Seq<FileMeta>, i: int, j: int, loc: u64)
    requires
        sorted_by_base(s),
        is_owner(s, i, loc),
        is_owner(s, j, loc),
    ensures
        i == j,
{
}

/// What recovery found: the files to register, the directory entries to
/// delete (by position), and the base location of the next batch.
pub struct Recovered {
    pub files: Registry,
    pub remove: Vec<usize>,
    pub next_lsn: u64,
}

/// The directory scan of recovery: which entries to delete (by position), and
/// the registry of the files that are kept, each with no live record yet.
pub fn scan_directory(watermark: u64, entries: &Vec<(Vec<u8>, u64)>) -> (r: (Registry, Vec<usize>))
    ensures
        r.0.wf(),
        forall|j: usize| #[trigger]
            r.1@.contains(j) <==> j < entries@.len() && must_remove(
                entries@[j as int].0@,
                watermark,
            ),
        forall|k: int|
            #![trigger r.0@[k]]
            0 <= k < r.0@.len() ==> r.0@[k].name.base_lsn <= watermark && r.0@[k].live == 0
                && from_entry(entries@, watermark, r.0@[k]),
        forall|j: int|
            0 <= j < entries@.len() && may_keep(#[trigger] entries@[j].0@, watermark) ==> has_base(r.0@, parsed_name(entries@[j].0@).base_lsn),
        forall|j: int|
            0 <= j < entries@.len() && may_keep(#[trigger] entries@[j].0@, watermark) && unique_base(
                entries@,
                watermark,
                j,
            ) ==> registered(r.0@, parsed_name(entries@[j].0@), entries@[j].1),
{
    let mut files = Registry::new();
    let mut remove: Vec<usize> = Vec::new();
    let mut j: usize = 0;
    while j < entries.len()
        invariant
            files.wf(),
            j <= entries@.len(),
            forall|x: usize| #[trigger]
                remove@.contains(x) <==> x < j && must_remove(entries@[x as int].0@, watermark),
            forall|f: FileMeta| #[trigger]
                files@.contains(f) ==> f.live == 0 && f.name.base_lsn <= watermark && from_entry(
                    entries@,
                    watermark,
                    f,
                ),
            forall|x: int|
                0 <= x < j && may_keep(#[trigger] entries@[x].0@, watermark) ==> has_base(files@, parsed_name(entries@[x].0@).base_lsn),
            forall|f: FileMeta| #[trigger]
                files@.contains(f) ==> kept_before(entries@, watermark, j as int, f.name.base_lsn),
            forall|x: int|
                0 <= x < j && may_keep(#[trigger] entries@[x].0@, watermark) && unique_base(
                    entries@,
                    watermark,
                    x,
                ) ==> files@.contains(
                    FileMeta { name: parsed_name(entries@[x].0@), size: entries@[x].1, live: 0 },
                ),
        decreases entries@.len() - j,
    {
        let name = &entries[j].0;
        let size = entries[j].1;
        let ghost old_files = files@;
        let ghost old_remove = remove@;
        let ghost mut added: Option<FileMeta> = None;
        if is_temp(name.as_slice()) {
            remove.push(j);
        } else {
            match HeapFileName::parse(name.as_slice()) {
                None => {},
                Some(n) => {
                    if n.base_lsn > watermark {
                        remove.push(j);
                    } else {
                        let m = FileMeta { name: n, size, live: 0 };
                        let ok = files.insert(m);
                        proof {
                            if ok {
                                added = Some(m);
                            }
                            if !ok {
                                let i = choose|i: int|
                                    0 <= i < old_files.len() && old_files[i].name.base_lsn
                                        == m.name.base_lsn;
                                assert(files@[i].name.base_lsn == m.name.base_lsn);
                            } else {
                                let p = choose|p: int|
                                    0 <= p <= old_files.len() && files@ == old_files.insert(p, m);
                                assert(files@[p] == m);
                                assert forall|x: int|
                                    0 <= x < j && may_keep(#[trigger] entries@[x].0@, watermark)
                                        implies exists|k: int|
                                    0 <= k < files@.len() && files@[k].name.base_lsn
                                        == parsed_name(entries@[x].0@).base_lsn by {
                                    let k = choose|k: int|
                                        0 <= k < old_files.len() && old_files[k].name.base_lsn
                                            == parsed_name(entries@[x].0@).base_lsn;
                                    if k < p {
                                        assert(files@[k] == old_files[k]);
                                    } else {
                                        assert(files@[k + 1] == old_files[k]);
                                    }
                                }
                            }
                            assert(may_keep(entries@[j as int].0@, watermark));
                            assert(from_entry(entries@, watermark, m)) by {
                                reveal(from_entry);
                                assert(may_keep(entries@[j as int].0@, watermark));
                            }
                        }
                    }
                },
            }
        }
        proof {
            if added is None {
                assert forall|f: FileMeta| #[trigger]
                    files@.contains(f) <==> old_files.contains(f) || added == Some(f) by {}
            }
            lemma_scan_step(entries@, watermark, j as int, old_files, files@, added);
            assert forall|x: usize| #[trigger]
                remove@.contains(x) <==> x < j + 1 && must_remove(
                    entries@[x as int].0@,
                    watermark,
                ) by {
                if x == j {
                    if must_remove(entries@[x as int].0@, watermark) {
                        assert(remove@[remove@.len() - 1] == j);
                    }
                } else if remove@.len() > old_remove.len() {
                    if remove@.contains(x) {
                        let q = choose|q: int| 0 <= q < remove@.len() && remove@[q] == x;
                        assert(old_remove[q] == x);
                    }
                    if old_remove.contains(x) {
                        let q = choose|q: int| 0 <= q < old_remove.len() && old_remove[q] == x;
                        assert(remove@[q] == x);
                    }
                }
            }
        }
        j = j + 1;
    }
    proof {
        assert forall|k: int|
            #![trigger files@[k]]
            0 <= k < files@.len() implies files@[k].name.base_lsn <= watermark && files@[k].live
                == 0 && from_entry(entries@, watermark, files@[k]) by {
            assert(files@.contains(files@[k]));
        }
        assert forall|x: int|
            0 <= x < entries@.len() && may_keep(#[trigger] entries@[x].0@, watermark) implies has_base(files@, parsed_name(entries@[x].0@).base_lsn) by {
            assert(x < j);
        }
        assert forall|x: int|
            0 <= x < entries@.len() && may_keep(#[trigger] entries@[x].0@, watermark) && unique_base(
                entries@,
                watermark,
                x,
            ) implies registered(files@, parsed_name(entries@[x].0@), entries@[x].1) by {
            let m = FileMeta { name: parsed_name(entries@[x].0@), size: entries@[x].1, live: 0 };
            assert(files@.contains(m));
            let k = choose|k: int| 0 <= k < files@.len() && files@[k] == m;
            assert(files@[k].name == m.name && files@[k].size == m.size);
        }
    }
    (files, remove)
}

/// Counts, for each file, the locations in `locations` that it holds.
pub fn rebuild_live(files: &mut Registry, locations: &Vec<u64>)
    requires
        old(files).wf(),
        forall|k: int| 0 <= k < old(files)@.len() ==> #[trigger] old(files)@[k].live == 0,
    ensures
        final(files).wf(),
        same_layout(final(files)@, old(files)@),
        forall|k: int|
            0 <= k < final(files)@.len() ==> #[trigger] final(files)@[k].live == count_owned(
                final(files)@,
                k,
                locations@,
            ),
        sum_live(final(files)@) == count_held(final(files)@, locations@),
{
    // rebuild the live counts from the index
    let ghost layout = files@;
    proof {
        files.lemma_sorted();
    }
    let mut i: usize = 0;
    assert forall|k: int| 0 <= k < files@.len() implies #[trigger] files@[k].live == count_owned(
        layout,
        k,
        locations@.take(0),
    ) by {
    }
    assert(sum_live(files@) == 0) by {
        lemma_sum_live_zero(files@);
    }
    while i < locations.len()
        invariant
            files.wf(),
            i <= locations@.len(),
            same_layout(files@, layout),
            sorted_by_base(layout),
            forall|k: int|
                0 <= k < files@.len() ==> #[trigger] files@[k].live == count_owned(
                    layout,
                    k,
                    locations@.take(i as int),
                ),
            sum_live(files@) == count_held(layout, locations@.take(i as int)),
            count_held(layout, locations@.take(i as int)) <= i,
        decreases locations@.len() - i,
    {
        let loc = locations[i];
        let ghost before = files@;
        proof {
            assert(locations@.take(i as int + 1).drop_last() =~= locations@.take(i as int));
            lemma_same_layout_counts(files@, layout, 0, seq![]);
        }
        match resolve(files, loc) {
            Ok((k, _)) => {
                proof {
                    lemma_count_bound(layout, k as int, locations@.take(i as int));
                    lemma_sum_live_ge(files@, k as int);
                }
                files.add_live(k);
                proof {
                    lemma_same_layout_owner(before, layout, k as int, loc);
                    assert(owned_by(layout, k as int, loc));
                    assert forall|q: int|
                        0 <= q < files@.len() implies #[trigger] files@[q].live == count_owned(
                        layout,
                        q,
                        locations@.take(i as int + 1),
                    ) by {
                        if owned_by(layout, q, loc) {
                            lemma_owner_unique(layout, q, k as int, loc);
                        }
                    }
                    lemma_sum_live_add(before, k as int, files@[k as int]);
                }
            },
            Err(_) => {
                proof {
                    assert forall|q: int| !owned_by(layout, q, loc) by {
                        if owned_by(layout, q, loc) {
                            assert(is_owner(before, q, loc));
                        }
                    }
                }
            },
        }
        i = i + 1;
    }
    assert(locations@.take(locations@.len() as int) =~= locations@);
    proof {
        lemma_same_layout_counts(files@, layout, 0, locations@);
        assert forall|k: int| 0 <= k < files@.len() implies #[trigger] files@[k].live
            == count_owned(files@, k, locations@) by {
            lemma_same_layout_counts(files@, layout, k, locations@);
        }
    }
}

/// The base location of the next batch: one past the largest end of a file's
/// byte range (not past the end of the location space).
pub fn next_location(files: &Registry) -> (r: u64)
    ensures
        r == if max_end(files@) + 1 > u64::MAX {
            u64::MAX as nat
        } else {
            max_end(files@) + 1
        },
{
    // the next batch starts past every surviving file
    let mut end: u64 = 0;
    let mut q: usize = 0;
    while q < files.len()
        invariant
            q <= files@.len(),
            end == if max_end(files@.take(q as int)) > u64::MAX {
                u64::MAX as nat
            } else {
                max_end(files@.take(q as int))
            },
        decreases files@.len() - q,
    {
        proof {
            assert(files@.take(q as int + 1).drop_last() =~= files@.take(q as int));
        }
        let f = files.get(q);
        let e = if f.size > u64::MAX - f.name.base_lsn {
            u64::MAX
        } else {
            f.name.base_lsn + f.size
        };
        if e > end {
            end = e;
        }
        q = q + 1;
    }
    assert(files@.take(files@.len() as int) =~= files@);
    let next_lsn = if end == u64::MAX {
        u64::MAX
    } else {
        end + 1
    };
    next_lsn
}

/// Reconciles the heap directory with the recovered page-location index.
/// `entries` holds each directory entry's name and size, `watermark` the
/// highest batch base the index accepted, and `locations` every location
/// that the index maps an id to.
pub fn recover(watermark: u64, entries: &Vec<(Vec<u8>, u64)>, locations: &Vec<u64>) -> (r:
    Recovered)
    ensures
        r.files.wf(),
        forall|j: usize| #[trigger]
            r.remove@.contains(j) <==> j < entries@.len() && must_remove(
                entries@[j as int].0@,
                watermark,
            ),
        forall|k: int|
            #![trigger r.files@[k]]
            0 <= k < r.files@.len() ==> r.files@[k].name.base_lsn <= watermark,
        forall|k: int|
            0 <= k < r.files@.len() ==> from_entry(entries@, watermark, #[trigger] r.files@[k]),
        forall|j: int|
            0 <= j < entries@.len() && may_keep(#[trigger] entries@[j].0@, watermark) ==> has_base(r.files@, parsed_name(entries@[j].0@).base_lsn),
        forall|j: int|
            0 <= j < entries@.len() && may_keep(#[trigger] entries@[j].0@, watermark) && unique_base(
                entries@,
                watermark,
                j,
            ) ==> registered(r.files@, parsed_name(entries@[j].0@), entries@[j].1),
        forall|k: int|
            0 <= k < r.files@.len() ==> #[trigger] r.files@[k].live == count_owned(
                r.files@,
                k,
                locations@,
            ),
        sum_live(r.files@) == count_held(r.files@, locations@),
        r.next_lsn == if max_end(r.files@) + 1 > u64::MAX {
            u64::MAX as nat
        } else {
            max_end(r.files@) + 1
        },
{
    let (mut files, remove) = scan_directory(watermark, entries);
    let ghost scanned = files@;
    rebuild_live(&mut files, locations);
    proof {
        assert forall|k: int|
            #![trigger files@[k]]
            0 <= k < files@.len() implies files@[k].name.base_lsn <= watermark && from_entry(
                entries@,
                watermark,
                files@[k],
            ) by {
            lemma_from_entry_layout(entries@, watermark, scanned[k], files@[k]);
        }
        assert forall|x: int|
            0 <= x < entries@.len() && may_keep(#[trigger] entries@[x].0@, watermark) implies has_base(files@, parsed_name(entries@[x].0@).base_lsn) by {
            let k = choose|k: int|
                0 <= k < scanned.len() && scanned[k].name.base_lsn == parsed_name(
                    entries@[x].0@,
                ).base_lsn;
            assert(files@[k].name == scanned[k].name);
        }
    }
    proof {
        assert forall|x: int|
            0 <= x < entries@.len() && may_keep(#[trigger] entries@[x].0@, watermark) && unique_base(
                entries@,
                watermark,
                x,
            ) implies registered(files@, parsed_name(entries@[x].0@), entries@[x].1) by {
            assert(registered(scanned, parsed_name(entries@[x].0@), entries@[x].1));
            let k = choose|k: int|
                0 <= k < scanned.len() && scanned[k].name == parsed_name(entries@[x].0@)
                    && scanned[k].size == entries@[x].1;
            assert(files@[k].name == scanned[k].name && files@[k].size == scanned[k].size);
        }
    }
    let next_lsn = next_location(&files);
    Recovered { files, remove, next_lsn }
}

proof fn lemma_scan_step(
    entries: Seq<(Vec<u8>, u64)>,
    watermark: u64,
    j: int,
    old_files: Seq<FileMeta>,
    files: Seq<FileMeta>,
    added: Option<FileMeta>,
)
    requires
        0 <= j < entries.len(),
        forall|f: FileMeta| #[trigger]
            old_files.contains(f) ==> kept_before(entries, watermark, j, f.name.base_lsn),
        forall|x: int|
            0 <= x < j && may_keep(#[trigger] entries[x].0@, watermark) && unique_base(
                entries,
                watermark,
                x,
            ) ==> old_files.contains(
                FileMeta { name: parsed_name(entries[x].0@), size: entries[x].1, live: 0 },
            ),
        forall|f: FileMeta| #[trigger]
            files.contains(f) <==> old_files.contains(f) || added == Some(f),
        added is Some ==> may_keep(entries[j].0@, watermark) && added->0 == (FileMeta {
            name: parsed_name(entries[j].0@),
            size: entries[j].1,
            live: 0,
        }),
        may_keep(entries[j].0@, watermark) && added is None ==> has_base(
            old_files,
            parsed_name(entries[j].0@).base_lsn,
        ),
    ensures
        forall|f: FileMeta| #[trigger]
            files.contains(f) ==> kept_before(entries, watermark, j + 1, f.name.base_lsn),
        forall|x: int|
            0 <= x < j + 1 && may_keep(#[trigger] entries[x].0@, watermark) && unique_base(
                entries,
                watermark,
                x,
            ) ==> files.contains(
                FileMeta { name: parsed_name(entries[x].0@), size: entries[x].1, live: 0 },
            ),
{
    assert forall|f: FileMeta| #[trigger] files.contains(f) implies kept_before(
        entries,
        watermark,
        j + 1,
        f.name.base_lsn,
    ) by {
        if old_files.contains(f) {
            let x = choose|x: int|
                0 <= x < j && may_keep(#[trigger] entries[x].0@, watermark) && parsed_name(
                    entries[x].0@,
                ).base_lsn == f.name.base_lsn;
            assert(may_keep(entries[x].0@, watermark));
        } else {
            assert(may_keep(entries[j].0@, watermark));
        }
    }
    assert forall|x: int|
        0 <= x < j + 1 && may_keep(#[trigger] entries[x].0@, watermark) && unique_base(
            entries,
            watermark,
            x,
        ) implies files.contains(
        FileMeta { name: parsed_name(entries[x].0@), size: entries[x].1, live: 0 },
    ) by {
        let m = FileMeta { name: parsed_name(entries[x].0@), size: entries[x].1, live: 0 };
        if x < j {
            assert(old_files.contains(m));
        } else if added is None {
            let k = choose|k: int|
                0 <= k < old_files.len() && old_files[k].name.base_lsn == parsed_name(
                    entries[j].0@,
                ).base_lsn;
            assert(old_files.contains(old_files[k]));
            let y = choose|y: int|
                0 <= y < j && may_keep(#[trigger] entries[y].0@, watermark) && parsed_name(
                    entries[y].0@,
                ).base_lsn == old_files[k].name.base_lsn;
            assert(may_keep(entries[y].0@, watermark));
            assert(false);
        }
    }
}

proof fn lemma_from_entry_layout(
    entries: Seq<(Vec<u8>, u64)>,
    watermark: u64,
    f: FileMeta,
    g: FileMeta,
)
    requires
        from_entry(entries, watermark, f),
        f.name == g.name,
        f.size == g.size,
    ensures
        from_entry(entries, watermark, g),
{
    reveal(from_entry);
    let x = choose|x: int|
        0 <= x < entries.len() && may_keep(#[trigger] entries[x].0@, watermark) && parsed_name(
            entries[x].0@,
        ) == f.name && f.size == entries[x].1;
    assert(may_keep(entries[x].0@, watermark));
}

proof fn lemma_sum_live_zero(s: Seq<FileMeta>)
    requires
        forall|k: int| 0 <= k < s.len() ==> #[trigger] s[k].live == 0,
    ensures
        sum_live(s) == 0,
    decreases s.len(),
{
    if s.len() > 0 {
        assert forall|k: int| 0 <= k < s.drop_last().len() implies #[trigger] s.drop_last()[k].live
            == 0 by {
            assert(s.drop_last()[k] == s[k]);
        }
        lemma_sum_live_zero(s.drop_last());
    }
}

proof fn lemma_count_bound(s: Seq<FileMeta>, k: int, locs: Seq<u64>)
    ensures
        count_owned(s, k, locs) <= locs.len(),
        count_held(s, locs) <= locs.len(),
    decreases locs.len(),
{
    if locs.len() > 0 {
        lemma_count_bound(s, k, locs.drop_last());
    }
}

proof fn lemma_sum_live_ge(s: Seq<FileMeta>, k: int)
    requires
        0 <= k < s.len(),
    ensures
        s[k].live <= sum_live(s),
    decreases s.len(),
{
    if k < s.len() - 1 {
        lemma_sum_live_ge(s.drop_last(), k);
    }
}

} // verus!
