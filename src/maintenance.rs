use vstd::prelude::*;
use crate::registry::{in_file, FileMeta, Registry};

verus! {

/// The share of a file's records that are still live, in whole percent.
pub open spec fn fragmentation(f: FileMeta) -> int {
    (f.live * 100) as int / (if f.name.capacity == 0 {
        1
    } else {
        f.name.capacity as int
    })
}

/// A file with no live record: maintenance deletes it.
pub open spec fn to_delete(f: FileMeta) -> bool {
    f.live == 0
}

/// A file with live records below the threshold: maintenance rewrites them
/// into a new file and deletes it.
pub open spec fn to_defrag(f: FileMeta, percent: u8) -> bool {
    f.live > 0 && fragmentation(f) < percent
}

pub open spec fn selected(f: FileMeta, percent: u8) -> bool {
    to_delete(f) || to_defrag(f, percent)
}

/// A file just published: every record is live.
pub open spec fn fresh(f: FileMeta) -> bool {
    f.live == f.name.capacity && f.live > 0
}

/// The files that a maintenance pass works on.
pub struct Selection {
    /// Bases of the files to delete outright.
    pub delete: Vec<u64>,
    /// The files whose live records are rewritten before they are deleted.
    pub defrag: Vec<FileMeta>,
}

proof fn lemma_push_contains<T>(s: Seq<T>, x: T, y: T)
    ensures
        s.push(x).contains(y) <==> s.contains(y) || y == x,
{
    if s.push(x).contains(y) {
        let q = choose|q: int| 0 <= q < s.push(x).len() && s.push(x)[q] == y;
        if q < s.len() {
            assert(s[q] == y);
        }
    }
    if s.contains(y) {
        let q = choose|q: int| 0 <= q < s.len() && s[q] == y;
        assert(s.push(x)[q] == y);
    }
    if y == x {
        assert(s.push(x)[s.len() as int] == y);
    }
}

/// The bases of the files that maintenance deletes outright, in order.
pub open spec fn delete_bases(files: Seq<FileMeta>) -> Seq<u64> {
    files.filter(|f: FileMeta| to_delete(f)).map_values(|f: FileMeta| f.name.base_lsn)
}

/// The files whose live records maintenance rewrites, in order.
pub open spec fn defrag_files(files: Seq<FileMeta>, percent: u8) -> Seq<FileMeta> {
    files.filter(|f: FileMeta| to_defrag(f, percent))
}

/// The entries among `entries` that point into file `f`, in order.
pub open spec fn surviving(f: FileMeta, entries: Seq<(u64, u64)>) -> Seq<(u64, u64)> {
    entries.filter(|e: (u64, u64)| in_file(f, e.1))
}

proof fn lemma_filter_step<T>(s: Seq<T>, i: int, pred: spec_fn(T) -> bool)
    requires
        0 <= i < s.len(),
    ensures
        s.take(i + 1).filter(pred) == if pred(s[i]) {
            s.take(i).filter(pred).push(s[i])
        } else {
            s.take(i).filter(pred)
        },
{
    reveal(Seq::filter);
    assert(s.take(i + 1).drop_last() =~= s.take(i));
}

proof fn lemma_filter_empty<T>(s: Seq<T>, pred: spec_fn(T) -> bool)
    requires
        forall|k: int| 0 <= k < s.len() ==> !pred(#[trigger] s[k]),
    ensures
        s.filter(pred).len() == 0,
    decreases s.len(),
{
    reveal(Seq::filter);
    if s.len() > 0 {
        assert forall|k: int| 0 <= k < s.drop_last().len() implies !pred(
            #[trigger] s.drop_last()[k],
        ) by {
            assert(s.drop_last()[k] == s[k]);
        }
        lemma_filter_empty(s.drop_last(), pred);
    }
}

/// Picks the files that maintenance deletes and those it rewrites, by their
/// live counts and the compaction threshold `percent`.
pub fn select(files: &Registry, percent: u8) -> (r: Selection)
    ensures
        r.delete@ == delete_bases(files@),
        r.defrag@ == defrag_files(files@, percent),
        (forall|k: int| 0 <= k < files@.len() ==> !selected(#[trigger] files@[k], percent))
            ==> r.delete@.len() == 0 && r.defrag@.len() == 0,
{
    let mut delete: Vec<u64> = Vec::new();
    let mut defrag: Vec<FileMeta> = Vec::new();
    let mut i: usize = 0;
    while i < files.len()
        invariant
            i <= files@.len(),
            delete@ == delete_bases(files@.take(i as int)),
            defrag@ == defrag_files(files@.take(i as int), percent),
        decreases files@.len() - i,
    {
        let f = *files.get(i);
        let cap: u128 = if f.name.capacity == 0 {
            1
        } else {
            f.name.capacity as u128
        };
        let is_low = f.live != 0 && (f.live as u128 * 100) / cap < percent as u128;
        proof {
            lemma_filter_step(files@, i as int, |f: FileMeta| to_delete(f));
            lemma_filter_step(files@, i as int, |f: FileMeta| to_defrag(f, percent));
            let d = files@.take(i as int).filter(|f: FileMeta| to_delete(f));
            assert(d.push(f).map_values(|f: FileMeta| f.name.base_lsn) =~= d.map_values(
                |f: FileMeta| f.name.base_lsn,
            ).push(f.name.base_lsn));
        }
        if f.live == 0 {
            delete.push(f.name.base_lsn);
        } else if is_low {
            defrag.push(f);
        }
        i = i + 1;
    }
    assert(files@.take(files@.len() as int) =~= files@);
    proof {
        if forall|k: int| 0 <= k < files@.len() ==> !selected(#[trigger] files@[k], percent) {
            lemma_filter_empty(files@, |f: FileMeta| to_delete(f));
            lemma_filter_empty(files@, |f: FileMeta| to_defrag(f, percent));
        }
    }
    Selection { delete, defrag }
}

/// The index entries, among `entries` (id and location), that point into file
/// `f`, in order and each once: the records that a rewrite of `f` must carry over.
pub fn survivors(f: &FileMeta, entries: &Vec<(u64, u64)>) -> (r: Vec<(u64, u64)>)
    ensures
        r@ == surviving(*f, entries@),
{
    let mut r: Vec<(u64, u64)> = Vec::new();
    let mut i: usize = 0;
    while i < entries.len()
        invariant
            i <= entries@.len(),
            r@ == surviving(*f, entries@.take(i as int)),
        decreases entries@.len() - i,
    {
        let e = entries[i];
        proof {
            lemma_filter_step(entries@, i as int, |e: (u64, u64)| in_file(*f, e.1));
        }
        if f.name.base_lsn <= e.1 && e.1 - f.name.base_lsn < f.size {
            r.push(e);
        }
        i = i + 1;
    }
    assert(entries@.take(entries@.len() as int) =~= entries@);
    r
}

/// The generation of a file that rewrites records of generation `g`: one more,
/// up to the largest that a name can hold.
pub fn next_generation(g: u8) -> (r: u8)
    ensures
        r == if g >= 15 {
            15
        } else {
            g + 1
        },
{
    if g >= 15 {
        15
    } else {
        g + 1
    }
}

pub open spec fn next_generation_of(g: u8) -> u8 {
    if g >= 15 {
        15
    } else {
        (g + 1) as u8
    }
}

/// The generation of the file that rewrites the records of `files`: the
/// largest next generation among them (zero for none).
pub open spec fn rewrite_generation(files: Seq<FileMeta>) -> u8
    decreases files.len(),
{
    if files.len() == 0 {
        0
    } else {
        let a = rewrite_generation(files.drop_last());
        let b = next_generation_of(files.last().name.generation);
        if a >= b {
            a
        } else {
            b
        }
    }
}

/// What a maintenance pass does once it has chosen its files.
pub struct RewritePlan {
    /// The generation of the file holding the rewritten records.
    pub generation: u8,
    /// The bases of every file to remove: the rewritten ones, then the
    /// ones without live records.
    pub remove: Vec<u64>,
}

/// The generation of the rewrite and the files to remove after it.
pub fn plan_rewrite(sel: &Selection) -> (r: RewritePlan)
    ensures
        r.generation == rewrite_generation(sel.defrag@),
        r.generation < 16,
        r.remove@ == sel.defrag@.map_values(|f: FileMeta| f.name.base_lsn) + sel.delete@,
{
    let mut generation: u8 = 0;
    let mut remove: Vec<u64> = Vec::new();
    let mut i: usize = 0;
    while i < sel.defrag.len()
        invariant
            i <= sel.defrag@.len(),
            generation == rewrite_generation(sel.defrag@.take(i as int)),
            generation < 16,
            remove@ == sel.defrag@.take(i as int).map_values(|f: FileMeta| f.name.base_lsn),
        decreases sel.defrag@.len() - i,
    {
        let f = sel.defrag[i];
        proof {
            assert(sel.defrag@.take(i as int + 1).drop_last() =~= sel.defrag@.take(i as int));
            assert(sel.defrag@.take(i as int + 1).map_values(|f: FileMeta| f.name.base_lsn)
                =~= sel.defrag@.take(i as int).map_values(|f: FileMeta| f.name.base_lsn).push(
                f.name.base_lsn,
            ));
        }
        let g = next_generation(f.name.generation);
        if g > generation {
            generation = g;
        }
        remove.push(f.name.base_lsn);
        i = i + 1;
    }
    assert(sel.defrag@.take(sel.defrag@.len() as int) =~= sel.defrag@);
    let ghost head = remove@;
    let mut j: usize = 0;
    while j < sel.delete.len()
        invariant
            j <= sel.delete@.len(),
            remove@ == head + sel.delete@.take(j as int),
        decreases sel.delete@.len() - j,
    {
        remove.push(sel.delete[j]);
        j = j + 1;
        assert(remove@ =~= head + sel.delete@.take(j as int));
    }
    assert(sel.delete@.take(sel.delete@.len() as int) =~= sel.delete@);
    RewritePlan { generation, remove }
}

/// Removes every file whose base is in `bases`.
pub fn reclaim(files: &mut Registry, bases: &Vec<u64>)
    requires
        old(files).wf(),
    ensures
        final(files).wf(),
        forall|f: FileMeta| #[trigger]
            final(files)@.contains(f) <==> old(files)@.contains(f) && !bases@.contains(
                f.name.base_lsn,
            ),
{
    let mut i: usize = 0;
    while i < bases.len()
        invariant
            files.wf(),
            i <= bases@.len(),
            forall|f: FileMeta| #[trigger]
                files@.contains(f) <==> old(files)@.contains(f) && !bases@.take(i as int).contains(
                    f.name.base_lsn,
                ),
        decreases bases@.len() - i,
    {
        let b = bases[i];
        files.remove(b);
        proof {
            assert(bases@.take(i as int + 1) =~= bases@.take(i as int).push(b));
            assert forall|f: FileMeta| #[trigger]
                files@.contains(f) <==> old(files)@.contains(f) && !bases@.take(
                    i as int + 1,
                ).contains(f.name.base_lsn) by {
                lemma_push_contains(bases@.take(i as int), b, f.name.base_lsn);
            }
        }
        i = i + 1;
    }
    assert(bases@.take(bases@.len() as int) =~= bases@);
}

proof fn lemma_fresh_full(f: FileMeta, percent: u8)
    requires
        fresh(f),
        percent <= 100,
    ensures
        fragmentation(f) >= percent,
{
    let c = f.name.capacity as int;
    assert((c * 100) / c == 100) by (nonlinear_arith)
        requires
            c > 0,
    ;
}

/// After a maintenance pass without concurrent writes, every file is either
/// one that the pass left alone because it was not fragmented, or the fresh
/// file that it wrote; so no file with fragmentation below the threshold
/// remains.
pub proof fn lemma_no_fragmented_after_maintenance(
    before: Seq<FileMeta>,
    after: Seq<FileMeta>,
    percent: u8,
)
    requires
        percent <= 100,
        forall|f: FileMeta| #[trigger]
            after.contains(f) ==> (before.contains(f) && !selected(f, percent)) || fresh(f),
    ensures
        forall|f: FileMeta| #[trigger] after.contains(f) ==> fragmentation(f) >= percent,
{
    assert forall|f: FileMeta| #[trigger] after.contains(f) implies fragmentation(f) >= percent by {
        if fresh(f) {
            lemma_fresh_full(f, percent);
        }
    }
}

/// A second maintenance pass right after the first, with no writes in
/// between, selects no file: it deletes nothing and writes nothing.
pub proof fn lemma_second_maintenance_selects_nothing(
    before: Seq<FileMeta>,
    after: Seq<FileMeta>,
    percent: u8,
)
    requires
        percent <= 100,
        forall|f: FileMeta| #[trigger]
            after.contains(f) ==> (before.contains(f) && !selected(f, percent)) || fresh(f),
    ensures
        forall|k: int| 0 <= k < after.len() ==> !selected(#[trigger] after[k], percent),
{
    assert forall|k: int| 0 <= k < after.len() implies !selected(#[trigger] after[k], percent) by {
        assert(after.contains(after[k]));
        if fresh(after[k]) {
            lemma_fresh_full(after[k], percent);
        }
    }
}

/// The bases that a maintenance pass over `files` removes: the rewritten
/// files, then those without live records.
pub open spec fn removed_bases(files: Seq<FileMeta>, percent: u8) -> Seq<u64> {
    defrag_files(files, percent).map_values(|f: FileMeta| f.name.base_lsn) + delete_bases(files)
}

proof fn lemma_selected_removed(files: Seq<FileMeta>, percent: u8, k: int)
    requires
        0 <= k < files.len(),
        selected(files[k], percent),
    ensures
        removed_bases(files, percent).contains(files[k].name.base_lsn),
{
    let f = files[k];
    let base = |g: FileMeta| g.name.base_lsn;
    let a = defrag_files(files, percent).map_values(base);
    let d = delete_bases(files);
    if to_delete(f) {
        let del = files.filter(|g: FileMeta| to_delete(g));
        files.lemma_filter_contains(|g: FileMeta| to_delete(g), k);
        let q = choose|q: int| 0 <= q < del.len() && del[q] == f;
        assert(d[q] == f.name.base_lsn);
        assert((a + d)[a.len() + q] == f.name.base_lsn);
    } else {
        let low = files.filter(|g: FileMeta| to_defrag(g, percent));
        files.lemma_filter_contains(|g: FileMeta| to_defrag(g, percent), k);
        let q = choose|q: int| 0 <= q < low.len() && low[q] == f;
        assert(a[q] == f.name.base_lsn);
        assert((a + d)[q] == f.name.base_lsn);
    }
}

/// A maintenance pass without concurrent writes: `before` is the registry
/// when files were selected; `mid` the registry when they are reclaimed,
/// where every file is one of `before`, one being rewritten, or the fresh
/// file of the rewrite; `after` is `mid` with the removed bases reclaimed.
/// Then no file of `after` is fragmented below the threshold, and a second
/// pass selects nothing.
pub proof fn lemma_maintenance_pass(
    before: Seq<FileMeta>,
    mid: Seq<FileMeta>,
    after: Seq<FileMeta>,
    percent: u8,
)
    requires
        percent <= 100,
        forall|f: FileMeta| #[trigger]
            mid.contains(f) ==> before.contains(f) || fresh(f) || defrag_files(
                before,
                percent,
            ).map_values(|g: FileMeta| g.name.base_lsn).contains(f.name.base_lsn),
        forall|f: FileMeta| #[trigger]
            after.contains(f) <==> mid.contains(f) && !removed_bases(before, percent).contains(
                f.name.base_lsn,
            ),
    ensures
        forall|f: FileMeta| #[trigger] after.contains(f) ==> fragmentation(f) >= percent,
        forall|k: int| 0 <= k < after.len() ==> !selected(#[trigger] after[k], percent),
{
    assert forall|f: FileMeta| #[trigger] after.contains(f) implies (before.contains(f)
        && !selected(f, percent)) || fresh(f) by {
        let a = defrag_files(before, percent).map_values(|g: FileMeta| g.name.base_lsn);
        let d = delete_bases(before);
        if a.contains(f.name.base_lsn) {
            let q = choose|q: int| 0 <= q < a.len() && a[q] == f.name.base_lsn;
            assert((a + d)[q] == f.name.base_lsn);
        }
        if before.contains(f) && selected(f, percent) {
            let k = choose|k: int| 0 <= k < before.len() && before[k] == f;
            lemma_selected_removed(before, percent, k);
        }
    }
    lemma_no_fragmented_after_maintenance(before, after, percent);
    lemma_second_maintenance_selects_nothing(before, after, percent);
}

} // verus!
