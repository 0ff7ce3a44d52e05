//! The scan aggregator: folds a stream of filesystem entry
//! observations into counters, a total byte count, per-directory byte
//! totals, and the two top-N selectors of a [`ScanResult`].

use crate::util::{
    heap_model, lemma_selector_order_independent, weights_of, Info, LimitedHeap, Rec,
};
use vstd::multiset::Multiset;
use vstd::prelude::*;
use vstd::seq_lib::group_seq_properties;
use vstd::seq_lib::group_to_multiset_ensures;
use vstd::string::StrSliceExecFns;

verus! {

broadcast use group_seq_properties, group_to_multiset_ensures;

/// The kind of a filesystem entry. Anything that is neither a regular
/// file nor a directory is counted as a symlink.
#[derive(Debug, Clone, Copy, PartialEq, Eq, Structural)]
pub enum EntryKind {
    File,
    Directory,
    Symlink,
}

/// An observation as it appears in specifications: path, kind, size.
pub type Obs = (Seq<char>, EntryKind, u64);

/// The statistics of one completed scan.
#[derive(Debug)]
pub struct ScanResult {
    pub root: String,
    pub files: u64,
    pub directories: u64,
    pub symlinks: u64,
    pub bytes: u64,
    pub largest_dirs: LimitedHeap,
    pub largest_files: LimitedHeap,
}

impl ScanResult {
    pub fn new(root: String, n_files: usize) -> (r: ScanResult)
        ensures
            r.root == root,
            r.files == 0 && r.directories == 0 && r.symlinks == 0 && r.bytes == 0,
            r.largest_dirs.limit == n_files && r.largest_dirs@ == Seq::<Rec>::empty(),
            r.largest_files.limit == n_files && r.largest_files@ == Seq::<Rec>::empty(),
            r.largest_dirs.wf() && r.largest_files.wf(),
    {
        ScanResult {
            root,
            files: 0,
            directories: 0,
            symlinks: 0,
            bytes: 0,
            largest_dirs: LimitedHeap::new(n_files),
            largest_files: LimitedHeap::new(n_files),
        }
    }
}

/// Index of the last separator in a path, or -1 when there is none.
pub open spec fn last_slash(s: Seq<char>) -> int
    decreases s.len(),
{
    if s.len() == 0 {
        -1
    } else if s[s.len() - 1] == '/' {
        s.len() - 1
    } else {
        last_slash(s.drop_last())
    }
}

/// The immediate parent directory of a path: everything before the
/// last separator. A path without a separator has no parent, and
/// neither does the root path consisting of a single separator; the
/// parent of a top-level entry is the root itself.
pub open spec fn spec_parent_of(s: Seq<char>) -> Option<Seq<char>> {
    let j = last_slash(s);
    if j < 0 {
        None
    } else if j == 0 {
        if s.len() == 1 {
            None
        } else {
            Some(s.subrange(0, 1))
        }
    } else {
        Some(s.subrange(0, j))
    }
}

proof fn lemma_last_slash_at(s: Seq<char>, j: int)
    requires
        0 <= j < s.len(),
        s[j] == '/',
        forall|k: int| j < k < s.len() ==> s[k] != '/',
    ensures
        last_slash(s) == j,
    decreases s.len(),
{
    if j < s.len() - 1 {
        lemma_last_slash_at(s.drop_last(), j);
    }
}

proof fn lemma_no_slash(s: Seq<char>)
    requires
        forall|k: int| 0 <= k < s.len() ==> s[k] != '/',
    ensures
        last_slash(s) == -1,
    decreases s.len(),
{
    if s.len() > 0 {
        lemma_no_slash(s.drop_last());
    }
}

/// Computes the immediate parent directory of a path, as
/// [`spec_parent_of`] defines it.
#[verifier::loop_isolation(false)]
pub fn parent_of(path: &str) -> (r: Option<String>)
    ensures
        (r is Some) == (spec_parent_of(path@) is Some),
        r matches Some(p) ==> Some(p@) == spec_parent_of(path@),
{
    let n = path.unicode_len();
    let mut i: usize = n;
    loop
        invariant
            i <= n,
            forall|k: int| i <= k < n ==> path@[k] != '/',
        decreases i,
    {
        if i == 0 {
            break ;
        }
        let c = path.get_char(i - 1);
        if c == '/' {
            break ;
        }
        i -= 1;
    }
    if i == 0 {
        proof {
            lemma_no_slash(path@);
        }
        None
    } else {
        proof {
            lemma_last_slash_at(path@, i - 1);
        }
        if i == 1 {
            if n == 1 {
                None
            } else {
                Some(path.substring_char(0, 1).to_owned())
            }
        } else {
            Some(path.substring_char(0, i - 1).to_owned())
        }
    }
}

/// The fold step that counts entries of one kind.
pub open spec fn count_step(kind: EntryKind) -> spec_fn(int, Obs) -> int {
    |acc: int, o: Obs|
        if o.1 == kind {
            acc + 1
        } else {
            acc
        }
}

/// How many observed entries are of the given kind.
pub open spec fn count_kind(h: Seq<Obs>, kind: EntryKind) -> int {
    h.fold_left(0int, count_step(kind))
}

/// The fold step that sums file sizes.
pub open spec fn sum_step() -> spec_fn(int, Obs) -> int {
    |acc: int, o: Obs|
        if o.1 is File {
            acc + o.2
        } else {
            acc
        }
}

/// The total size of all observed file entries.
pub open spec fn sum_file_bytes(h: Seq<Obs>) -> int {
    h.fold_left(0int, sum_step())
}

/// The fold step that collects file-selector records in order.
pub open spec fn file_recs_step() -> spec_fn(Seq<Rec>, Obs) -> Seq<Rec> {
    |acc: Seq<Rec>, o: Obs|
        if o.1 is File {
            acc.push((o.2, o.0))
        } else {
            acc
        }
}

/// The records pushed into the file selector, in observation order.
pub open spec fn file_recs(h: Seq<Obs>) -> Seq<Rec> {
    h.fold_left(Seq::<Rec>::empty(), file_recs_step())
}

/// One observation folded into the per-directory totals: a file adds
/// its size to its immediate parent's total (direct children only);
/// everything else leaves the totals unchanged.
pub open spec fn dir_step(m: Map<Seq<char>, int>, o: Obs) -> Map<Seq<char>, int> {
    if o.1 is File && spec_parent_of(o.0) is Some {
        let p = spec_parent_of(o.0)->Some_0;
        m.insert(
            p,
            (if m.contains_key(p) {
                m[p]
            } else {
                0int
            }) + o.2,
        )
    } else {
        m
    }
}

/// The fold step that accumulates per-directory totals.
pub open spec fn dir_totals_step() -> spec_fn(Map<Seq<char>, int>, Obs) -> Map<Seq<char>, int> {
    |m: Map<Seq<char>, int>, o: Obs| dir_step(m, o)
}

/// Per-directory byte totals after a sequence of observations: each
/// directory maps to the summed sizes of its direct file children.
pub open spec fn dir_totals(h: Seq<Obs>) -> Map<Seq<char>, int> {
    h.fold_left(Map::<Seq<char>, int>::empty(), dir_totals_step())
}

/// The records that folding a directory map into a selector pushes:
/// one `(total, directory)` record per map entry, in map order.
pub open spec fn dir_recs(s: Seq<(String, u64)>) -> Seq<Rec> {
    s.map_values(|e: (String, u64)| (e.1, e.0@))
}

/// Entry conservation: every observation is counted under exactly one
/// kind, so the three counters always sum to the number of entries
/// observed.
pub proof fn lemma_entry_count_total(h: Seq<Obs>)
    ensures
        count_kind(h, EntryKind::File) + count_kind(h, EntryKind::Directory) + count_kind(
            h,
            EntryKind::Symlink,
        ) == h.len(),
    decreases h.len(),
{
    if h.len() > 0 {
        lemma_entry_count_total(h.drop_last());
    }
}

/// A kind's count never exceeds the number of observations.
pub proof fn lemma_count_kind_bounds(h: Seq<Obs>, kind: EntryKind)
    ensures
        0 <= count_kind(h, kind) <= h.len(),
    decreases h.len(),
{
    if h.len() > 0 {
        lemma_count_kind_bounds(h.drop_last(), kind);
    }
}

/// Adds `size` to the running total kept under `key`, inserting a
/// fresh entry when the key is new.
#[verifier::loop_isolation(false)]
fn dir_map_add(dm: &mut Vec<(String, u64)>, key: String, size: u64)
    requires
        forall|i: int| 0 <= i < old(dm)@.len() ==> (#[trigger] old(dm)@[i]).1 + size <= u64::MAX,
    ensures
        (forall|i: int| 0 <= i < old(dm)@.len() ==> (#[trigger] old(dm)@[i]).0@ != key@)
            ==> final(dm)@ == old(dm)@.push((key, size)),
        (exists|i: int| 0 <= i < old(dm)@.len() && (#[trigger] old(dm)@[i]).0@ == key@) ==> (
        exists|i: int|
            0 <= i < old(dm)@.len() && (#[trigger] old(dm)@[i]).0@ == key@ && final(dm)@ == old(
                dm,
            )@.update(i, (old(dm)@[i].0, (old(dm)@[i].1 + size) as u64))),
{
    let n = dm.len();
    let mut i: usize = 0;
    while i < n
        invariant
            i <= n,
            n == dm@.len(),
            dm@ == old(dm)@,
            forall|k: int| 0 <= k < i ==> (#[trigger] dm@[k]).0@ != key@,
        decreases n - i,
    {
        if dm[i].0 == key {
            let e = dm.remove(i);
            let v = e.1 + size;
            dm.insert(i, (e.0, v));
            proof {
                assert(dm@ =~= old(dm)@.update(
                    i as int,
                    (old(dm)@[i as int].0, (old(dm)@[i as int].1 + size) as u64),
                ));
            }
            return ;
        }
        i += 1;
    }
    dm.push((key, size));
}

/// The single consumer of entry observations. It owns all mutable scan
/// state: the running result, the per-directory accumulator, and — as
/// a ghost — the history of observations folded in so far, of which
/// every exec field is a function.
pub struct Aggregator {
    pub result: ScanResult,
    pub dir_map: Vec<(String, u64)>,
    pub history: Ghost<Seq<Obs>>,
}

impl Aggregator {
    /// Every piece of scan state agrees with the observation history:
    /// the counters count it, `bytes` sums it, the file selector holds
    /// exactly the modelled selection over it, the directory selector
    /// is still empty, and the accumulator entries are exactly the
    /// per-directory totals.
    pub open spec fn wf(&self) -> bool {
        let h = self.history@;
        &&& self.result.files as int == count_kind(h, EntryKind::File)
        &&& self.result.directories as int == count_kind(h, EntryKind::Directory)
        &&& self.result.symlinks as int == count_kind(h, EntryKind::Symlink)
        &&& self.result.bytes as int == sum_file_bytes(h)
        &&& self.result.largest_files.wf()
        &&& self.result.largest_files@ == heap_model(
            self.result.largest_files.limit as nat,
            file_recs(h),
        )
        &&& self.result.largest_dirs.wf()
        &&& self.result.largest_dirs@ == Seq::<Rec>::empty()
        &&& self.result.largest_dirs.limit == self.result.largest_files.limit
        &&& (forall|i: int, j: int|
            0 <= i < j < self.dir_map@.len() ==> (#[trigger] self.dir_map@[i]).0@ != (
            #[trigger] self.dir_map@[j]).0@)
        &&& (forall|i: int|
            0 <= i < self.dir_map@.len() ==> dir_totals(h).contains_key(
                (#[trigger] self.dir_map@[i]).0@,
            ) && self.dir_map@[i].1 as int == dir_totals(h)[self.dir_map@[i].0@])
        &&& (forall|k: Seq<char>|
            #[trigger] dir_totals(h).contains_key(k) ==> exists|i: int|
                0 <= i < self.dir_map@.len() && (#[trigger] self.dir_map@[i]).0@ == k)
        &&& (forall|i: int|
            0 <= i < self.dir_map@.len() ==> (#[trigger] self.dir_map@[i]).1
                <= self.result.bytes)
    }

    /// A fresh aggregator for a scan rooted at `root`, with top-N
    /// capacity `n_items` for both selectors.
    pub fn new(root: String, n_items: usize) -> (a: Aggregator)
        ensures
            a.wf(),
            a.history@ == Seq::<Obs>::empty(),
            a.result.root == root,
            a.result.largest_files.limit == n_items,
            a.result.largest_dirs.limit == n_items,
    {
        let result = ScanResult::new(root, n_items);
        let a = Aggregator { result, dir_map: Vec::new(), history: Ghost(Seq::empty()) };
        proof {
            assert(dir_totals(a.history@) =~= Map::<Seq<char>, int>::empty());
        }
        a
    }

    /// Folds one observation into the scan state. A file bumps the
    /// file counter, adds its size to the byte total and to its
    /// immediate parent's directory total, and is offered to the file
    /// selector; a directory or symlink only bumps its counter.
    pub fn observe(&mut self, path: String, kind: EntryKind, size: u64)
        requires
            old(self).wf(),
            old(self).history@.len() < u64::MAX,
            kind == EntryKind::File ==> old(self).result.bytes + size <= u64::MAX,
        ensures
            final(self).wf(),
            final(self).history@ == old(self).history@.push((path@, kind, size)),
            final(self).result.root == old(self).result.root,
            final(self).result.largest_files.limit == old(self).result.largest_files.limit,
            final(self).result.largest_dirs.limit == old(self).result.largest_dirs.limit,
    {
        let ghost o: Obs = (path@, kind, size);
        let ghost h0 = self.history@;
        let ghost h1 = h0.push(o);
        proof {
            self.history@ = h1;
            assert(h1.drop_last() =~= h0);
            lemma_entry_count_total(h0);
            lemma_count_kind_bounds(h0, EntryKind::File);
            lemma_count_kind_bounds(h0, EntryKind::Directory);
            lemma_count_kind_bounds(h0, EntryKind::Symlink);
        }
        match kind {
            EntryKind::File => {
                let ghost dt0 = dir_totals(h0);
                let ghost dm0 = self.dir_map@;
                self.result.files = self.result.files + 1;
                self.result.bytes = self.result.bytes + size;
                let parent = parent_of(path.as_str());
                proof {
                    assert(file_recs(h1) == file_recs(h0).push((size, path@)));
                    assert(file_recs(h1).drop_last() =~= file_recs(h0));
                }
                self.result.largest_files.push(Info(size, path));
                match parent {
                    Some(p) => {
                        proof {
                            assert(spec_parent_of(o.0) == Some(p@));
                        }
                        dir_map_add(&mut self.dir_map, p, size);
                        proof {
                            let dt1 = dir_totals(h1);
                            let pk = spec_parent_of(o.0)->Some_0;
                            assert(dt1 == dt0.insert(
                                pk,
                                (if dt0.contains_key(pk) {
                                    dt0[pk]
                                } else {
                                    0int
                                }) + size,
                            ));
                            if exists|i: int| 0 <= i < dm0.len() && (#[trigger] dm0[i]).0@ == pk {
                                let w = choose|i: int|
                                    0 <= i < dm0.len() && (#[trigger] dm0[i]).0@ == pk
                                        && self.dir_map@ == dm0.update(
                                        i,
                                        (dm0[i].0, (dm0[i].1 + size) as u64),
                                    );
                                assert(dt0.contains_key(pk) && dt0[pk] == dm0[w].1);
                                assert forall|k: Seq<char>| #[trigger] dt1.contains_key(k) implies
                                    exists|i: int|
                                        0 <= i < self.dir_map@.len() && (
                                        #[trigger] self.dir_map@[i]).0@ == k by {
                                    if k == pk {
                                        assert(self.dir_map@[w].0@ == k);
                                    } else {
                                        assert(dt0.contains_key(k));
                                        let x = choose|i: int|
                                            0 <= i < dm0.len() && (#[trigger] dm0[i]).0@ == k;
                                        assert(self.dir_map@[x].0@ == k);
                                    }
                                }
                            } else {
                                assert(forall|i: int|
                                    0 <= i < dm0.len() ==> (#[trigger] dm0[i]).0@ != pk);
                                assert(!dt0.contains_key(pk));
                                assert(self.dir_map@ == dm0.push((p, size)));
                                assert forall|k: Seq<char>| #[trigger] dt1.contains_key(k) implies
                                    exists|i: int|
                                        0 <= i < self.dir_map@.len() && (
                                        #[trigger] self.dir_map@[i]).0@ == k by {
                                    if k == pk {
                                        assert(self.dir_map@[dm0.len() as int].0@ == k);
                                    } else {
                                        assert(dt0.contains_key(k));
                                        let x = choose|i: int|
                                            0 <= i < dm0.len() && (#[trigger] dm0[i]).0@ == k;
                                        assert(self.dir_map@[x].0@ == k);
                                    }
                                }
                            }
                        }
                    }
                    None => {
                        proof {
                            assert(spec_parent_of(o.0) is None);
                            assert(dir_totals(h1) == dt0);
                        }
                    }
                }
            }
            EntryKind::Directory => {
                self.result.directories = self.result.directories + 1;
                proof {
                    assert(file_recs(h1) == file_recs(h0));
                    assert(dir_totals(h1) == dir_totals(h0));
                }
            }
            EntryKind::Symlink => {
                self.result.symlinks = self.result.symlinks + 1;
                proof {
                    assert(file_recs(h1) == file_recs(h0));
                    assert(dir_totals(h1) == dir_totals(h0));
                }
            }
        }
    }

    /// Completes the scan: folds every accumulated directory total
    /// into the directory selector and hands the result back. Each
    /// record the directory selector then holds carries the summed
    /// sizes of that directory's direct file children.
    #[verifier::loop_isolation(false)]
    pub fn finish(self) -> (r: ScanResult)
        requires
            self.wf(),
        ensures
            r.root == self.result.root,
            r.files == self.result.files && r.directories == self.result.directories
                && r.symlinks == self.result.symlinks && r.bytes == self.result.bytes,
            r.files as int == count_kind(self.history@, EntryKind::File),
            r.directories as int == count_kind(self.history@, EntryKind::Directory),
            r.symlinks as int == count_kind(self.history@, EntryKind::Symlink),
            r.bytes as int == sum_file_bytes(self.history@),
            r.files + r.directories + r.symlinks == self.history@.len(),
            r.largest_files.wf() && r.largest_files.limit == self.result.largest_files.limit,
            r.largest_files@ == heap_model(
                self.result.largest_files.limit as nat,
                file_recs(self.history@),
            ),
            r.largest_dirs.wf() && r.largest_dirs.limit == self.result.largest_dirs.limit,
            r.largest_dirs@ == heap_model(
                self.result.largest_dirs.limit as nat,
                dir_recs(self.dir_map@),
            ),
            forall|i: int|
                0 <= i < r.largest_dirs@.len() ==> dir_totals(self.history@).contains_key(
                    (#[trigger] r.largest_dirs@[i]).1,
                ) && r.largest_dirs@[i].0 as int == dir_totals(self.history@)[r.largest_dirs@[i].1],
    {
        let ghost init = self;
        let mut this = self;
        let ghost full = this.dir_map@;
        proof {
            lemma_entry_count_total(init.history@);
            assert(full.take(0) =~= Seq::<(String, u64)>::empty());
            assert(dir_recs(full.take(0)) =~= Seq::<Rec>::empty());
            assert(this.dir_map@ =~= full.skip(0));
        }
        while this.dir_map.len() > 0
            invariant
                this.dir_map@.len() <= full.len(),
                this.dir_map@ == full.skip(full.len() - this.dir_map@.len()),
                this.result.largest_dirs.wf(),
                this.result.largest_dirs.limit == init.result.largest_dirs.limit,
                this.result.largest_dirs@ == heap_model(
                    init.result.largest_dirs.limit as nat,
                    dir_recs(full.take(full.len() - this.dir_map@.len())),
                ),
                this.result.root == init.result.root,
                this.result.files == init.result.files,
                this.result.directories == init.result.directories,
                this.result.symlinks == init.result.symlinks,
                this.result.bytes == init.result.bytes,
                this.result.largest_files == init.result.largest_files,
                this.history == init.history,
            decreases this.dir_map@.len(),
        {
            let ghost done: int = full.len() - this.dir_map@.len();
            let e = this.dir_map.remove(0);
            proof {
                assert(e == full[done]);
                assert(this.dir_map@ =~= full.skip(done + 1));
                assert(dir_recs(full.take(done + 1)) =~= dir_recs(full.take(done)).push(
                    (full[done].1, full[done].0@),
                ));
                assert(dir_recs(full.take(done)).push((full[done].1, full[done].0@)).drop_last()
                    =~= dir_recs(full.take(done)));
            }
            this.result.largest_dirs.push(Info(e.1, e.0));
        }
        proof {
            assert(full.take(full.len() as int) =~= full);
            let n = init.result.largest_dirs.limit as nat;
            let held = this.result.largest_dirs@;
            let h = init.history@;
            crate::util::lemma_top_n(n, dir_recs(full));
            assert forall|i: int| 0 <= i < held.len() implies dir_totals(h).contains_key(
                (#[trigger] held[i]).1,
            ) && held[i].0 as int == dir_totals(h)[held[i].1] by {
                let rec = held[i];
                assert(held.contains(rec));
                assert(held.to_multiset().count(rec) > 0);
                assert(dir_recs(full).to_multiset().count(rec) > 0);
                assert(dir_recs(full).contains(rec));
                let j = choose|j: int|
                    0 <= j < dir_recs(full).len() && dir_recs(full)[j] == rec;
                assert(dir_recs(full)[j] == (full[j].1, full[j].0@));
                assert(dir_totals(h).contains_key(full[j].0@));
            }
        }
        this.result
    }
}

/// Order independence: two observation histories that are permutations
/// of each other yield the same counters, the same byte total, the
/// same per-directory totals, and the same multiset of file-selector
/// records — so a scan's statistics do not depend on the interleaving
/// in which concurrent workers deliver entries.
pub proof fn lemma_scan_order_independent(a: Seq<Obs>, b: Seq<Obs>)
    requires
        a.to_multiset() == b.to_multiset(),
    ensures
        count_kind(a, EntryKind::File) == count_kind(b, EntryKind::File),
        count_kind(a, EntryKind::Directory) == count_kind(b, EntryKind::Directory),
        count_kind(a, EntryKind::Symlink) == count_kind(b, EntryKind::Symlink),
        sum_file_bytes(a) == sum_file_bytes(b),
        dir_totals(a) == dir_totals(b),
        file_recs(a).to_multiset() == file_recs(b).to_multiset(),
{
    lemma_count_kind_permutation(a, b, EntryKind::File);
    lemma_count_kind_permutation(a, b, EntryKind::Directory);
    lemma_count_kind_permutation(a, b, EntryKind::Symlink);
    let fsum = sum_step();
    assert(vstd::seq_lib::commutative_foldl(fsum));
    vstd::seq_lib::lemma_fold_left_permutation(a, b, fsum, 0int);
    let fdir = dir_totals_step();
    assert(vstd::seq_lib::commutative_foldl(fdir)) by {
        assert forall|x: Obs, y: Obs, m: Map<Seq<char>, int>| #[trigger] fdir(fdir(m, x), y)
            == fdir(fdir(m, y), x) by {
            assert(dir_step(dir_step(m, x), y) =~= dir_step(dir_step(m, y), x));
        }
    }
    vstd::seq_lib::lemma_fold_left_permutation(a, b, fdir, Map::<Seq<char>, int>::empty());
    lemma_file_recs_multiset(a);
    lemma_file_recs_multiset(b);
    let frec = file_ms_step();
    assert(vstd::seq_lib::commutative_foldl(frec)) by {
        assert forall|x: Obs, y: Obs, m: Multiset<Rec>| #[trigger] frec(frec(m, x), y)
            == frec(frec(m, y), x) by {
            assert(frec(frec(m, x), y) =~= frec(frec(m, y), x));
        }
    }
    vstd::seq_lib::lemma_fold_left_permutation(a, b, frec, Multiset::<Rec>::empty());
}

/// Order independence of the selections: two well-formed aggregators
/// whose histories are permutations of each other drain weight-equal
/// top-N selections, for the file selector and — through the
/// accumulated directory totals — for the directory selector, at
/// every capacity. Labels may differ where records tie in weight.
pub proof fn lemma_scan_selectors_order_independent(a1: Aggregator, a2: Aggregator)
    requires
        a1.wf(),
        a2.wf(),
        a1.history@.to_multiset() == a2.history@.to_multiset(),
    ensures
        forall|n: nat|
            weights_of(heap_model(n, file_recs(a1.history@))) == #[trigger] weights_of(
                heap_model(n, file_recs(a2.history@)),
            ),
        forall|n: nat|
            weights_of(heap_model(n, dir_recs(a1.dir_map@))) == #[trigger] weights_of(
                heap_model(n, dir_recs(a2.dir_map@)),
            ),
{
    lemma_scan_order_independent(a1.history@, a2.history@);
    assert forall|n: nat|
        weights_of(heap_model(n, file_recs(a1.history@))) == #[trigger] weights_of(
            heap_model(n, file_recs(a2.history@)),
        ) by {
        lemma_selector_order_independent(n, file_recs(a1.history@), file_recs(a2.history@));
    }
    let t = dir_totals(a1.history@);
    let d1 = dir_recs(a1.dir_map@);
    let d2 = dir_recs(a2.dir_map@);
    assert(d1.no_duplicates()) by {
        assert forall|i: int, j: int| 0 <= i < j < d1.len() implies d1[i] != d1[j] by {
            assert(d1[i].1 == a1.dir_map@[i].0@ && d1[j].1 == a1.dir_map@[j].0@);
        }
    }
    assert(d2.no_duplicates()) by {
        assert forall|i: int, j: int| 0 <= i < j < d2.len() implies d2[i] != d2[j] by {
            assert(d2[i].1 == a2.dir_map@[i].0@ && d2[j].1 == a2.dir_map@[j].0@);
        }
    }
    d1.lemma_multiset_has_no_duplicates();
    d2.lemma_multiset_has_no_duplicates();
    assert forall|rec: Rec| #[trigger] d1.to_multiset().count(rec) == d2.to_multiset().count(
        rec,
    ) by {
        if d1.to_multiset().count(rec) > 0 {
            assert(d1.contains(rec));
            let i = choose|i: int| 0 <= i < d1.len() && d1[i] == rec;
            assert(rec == (a1.dir_map@[i].1, a1.dir_map@[i].0@));
            assert(t.contains_key(rec.1) && rec.0 as int == t[rec.1]);
            let j = choose|j: int| 0 <= j < a2.dir_map@.len() && (#[trigger] a2.dir_map@[j]).0@
                == rec.1;
            assert(a2.dir_map@[j].1 as int == t[rec.1]);
            assert(d2[j] == rec);
            assert(d2.contains(rec));
        } else if d2.to_multiset().count(rec) > 0 {
            assert(d2.contains(rec));
            let i = choose|i: int| 0 <= i < d2.len() && d2[i] == rec;
            assert(rec == (a2.dir_map@[i].1, a2.dir_map@[i].0@));
            assert(t.contains_key(rec.1) && rec.0 as int == t[rec.1]);
            let j = choose|j: int| 0 <= j < a1.dir_map@.len() && (#[trigger] a1.dir_map@[j]).0@
                == rec.1;
            assert(a1.dir_map@[j].1 as int == t[rec.1]);
            assert(d1[j] == rec);
            assert(d1.contains(rec));
        }
    }
    assert(d1.to_multiset() =~= d2.to_multiset());
    assert forall|n: nat|
        weights_of(heap_model(n, dir_recs(a1.dir_map@))) == #[trigger] weights_of(
            heap_model(n, dir_recs(a2.dir_map@)),
        ) by {
        lemma_selector_order_independent(n, d1, d2);
    }
}

/// The fold step that collects file-selector records as a multiset.
pub open spec fn file_ms_step() -> spec_fn(Multiset<Rec>, Obs) -> Multiset<Rec> {
    |m: Multiset<Rec>, o: Obs|
        if o.1 is File {
            m.insert((o.2, o.0))
        } else {
            m
        }
}

/// The multiset of file-selector records, folded directly.
pub open spec fn file_rec_multiset(h: Seq<Obs>) -> Multiset<Rec> {
    h.fold_left(Multiset::<Rec>::empty(), file_ms_step())
}

/// The file-selector records of a history, as a multiset.
pub proof fn lemma_file_recs_multiset(h: Seq<Obs>)
    ensures
        file_recs(h).to_multiset() == file_rec_multiset(h),
    decreases h.len(),
{
    if h.len() == 0 {
        assert(file_recs(h).to_multiset() =~= Multiset::<Rec>::empty());
    } else {
        lemma_file_recs_multiset(h.drop_last());
    }
}

/// A kind's count depends only on the multiset of observations.
proof fn lemma_count_kind_permutation(a: Seq<Obs>, b: Seq<Obs>, kind: EntryKind)
    requires
        a.to_multiset() == b.to_multiset(),
    ensures
        count_kind(a, kind) == count_kind(b, kind),
{
    let f = count_step(kind);
    assert(vstd::seq_lib::commutative_foldl(f));
    vstd::seq_lib::lemma_fold_left_permutation(a, b, f, 0int);
}

} // verus!
