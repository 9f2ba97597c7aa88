use vstd::prelude::*;
use vstd::hash_map::StringHashMap;
use crate::models::{HashValue, TreeEntry, EntryView, DIR_MODE, FILE_MODE, tree_hash_of, entry_views, hash_tree, same_hash};
use crate::scanner::{ScannedDir, ScannedEntry};
use crate::plan_laws::{lemma_plan_lists_each_blob_once, lemma_tree_in_name_order, entries_in_name_order};

verus! {

/// What was learned about one child of a directory before planning it.
#[derive(Debug, Clone, Copy)]
pub enum EntryFact {
    /// A regular file: its size, content hash, whether its index row still
    /// vouched for that hash, and whether the catalog already holds a blob
    /// with it.
    File { size: u64, hash: HashValue, indexed: bool, in_catalog: bool },
    /// A file whose metadata could not be read; it is left out of the tree.
    Unreadable,
}

/// The files a run must write, in processing order, and their total size;
/// and the files that had to be hashed again but hold a known blob, whose
/// index rows are refreshed at commit.
pub struct BackupPlan {
    pub new_files: Vec<(String, HashValue, Vec<u8>)>,
    pub total_size: u64,
    pub reindex: Vec<(String, HashValue, Vec<u8>)>,
}

/// A plan row: the file's path key, its content hash, and the raw bytes of
/// its platform path (through which the file is read).
pub type RowView = (Seq<char>, Seq<u8>, Seq<u8>);

/// Plan rows as views.
pub open spec fn row_views(v: Seq<(String, HashValue, Vec<u8>)>) -> Seq<RowView> {
    v.map_values(|p: (String, HashValue, Vec<u8>)| (p.0@, p.1@, p.2@))
}

/// A plan as paths, hashes and a total.
pub type PlanView = (Seq<RowView>, u64);

impl View for BackupPlan {
    type V = PlanView;

    open spec fn view(&self) -> PlanView {
        (row_views(self.new_files@), self.total_size)
    }
}

/// No content hash appears twice in a plan's file list.
pub open spec fn hashes_unique(files: Seq<RowView>) -> bool {
    forall|i: int, j: int| 0 <= i < j < files.len() ==> (#[trigger] files[i]).1 != (#[trigger] files[j]).1
}

impl BackupPlan {
    /// No blob is planned twice.
    pub open spec fn wf(&self) -> bool {
        hashes_unique(self@.0)
    }

    /// Whether no blob is planned twice.
    pub fn has_unique_hashes(&self) -> (r: bool)
        ensures
            r == self.wf(),
    {
        let n = self.new_files.len();
        let mut j: usize = 0;
        while j < n
            invariant
                n == self.new_files@.len(),
                j <= n,
                forall|a: int, b: int| 0 <= a < b < j ==> (#[trigger] self@.0[a]).1 != (#[trigger] self@.0[b]).1,
            decreases n - j,
        {
            let mut i: usize = 0;
            while i < j
                invariant
                    n == self.new_files@.len(),
                    i <= j < n,
                    forall|a: int, b: int| 0 <= a < b < j ==> (#[trigger] self@.0[a]).1 != (#[trigger] self@.0[b]).1,
                    forall|a: int| 0 <= a < i ==> (#[trigger] self@.0[a]).1 != self@.0[j as int].1,
                decreases j - i,
            {
                if same_hash(&self.new_files[i].1, &self.new_files[j].1) {
                    assert(self@.0[i as int].1 == self@.0[j as int].1);
                    return false;
                }
                i = i + 1;
            }
            j = j + 1;
        }
        true
    }
}

/// `a + b`, held at `u64::MAX` where it would pass it.
pub open spec fn sat_add(a: u64, b: u64) -> u64 {
    if a + b > u64::MAX {
        u64::MAX
    } else {
        (a + b) as u64
    }
}

/// Some file of the plan has content `h`.
pub open spec fn hash_planned(files: Seq<RowView>, h: Seq<u8>) -> bool {
    exists|i: int| 0 <= i < files.len() && (#[trigger] files[i]).1 == h
}

/// One file's effect on the plan: a blob that is neither in the catalog nor
/// already planned is added, with its size.
pub open spec fn plan_file(p: PlanView, path: Seq<char>, raw: Seq<u8>, size: u64, h: Seq<u8>, in_catalog: bool) -> PlanView {
    if !in_catalog && !hash_planned(p.0, h) {
        (p.0.push((path, h, raw)), sat_add(p.1, size))
    } else {
        p
    }
}

/// One file's effect on the list of index rows to refresh: a file hashed
/// again (its index row did not match) whose blob is not planned as new.
pub open spec fn reindex_file(r: Seq<RowView>, p: PlanView, path: Seq<char>, raw: Seq<u8>, h: Seq<u8>, indexed: bool, in_catalog: bool) -> Seq<RowView> {
    if !indexed && plan_file(p, path, raw, 0, h, in_catalog).0 == p.0 {
        r.push((path, h, raw))
    } else {
        r
    }
}

/// The index rows to refresh after the children `es` (with facts `fs`) of
/// one directory, starting from `r` with the plan at `p`.
pub open spec fn reindex_children(r: Seq<RowView>, p: PlanView, es: Seq<ScannedEntry>, fs: Seq<EntryFact>) -> Seq<RowView>
    decreases es.len(),
{
    if es.len() == 0 || fs.len() == 0 {
        r
    } else {
        let r0 = reindex_children(r, p, es.drop_last(), fs.drop_last());
        let q = plan_children(p, es.drop_last(), fs.drop_last());
        let e = es.last();
        if e.is_dir {
            r0
        } else {
            match fs.last() {
                EntryFact::File { hash, indexed, in_catalog, .. } => reindex_file(r0, q, e.path@, e.raw_path@, hash@, indexed, in_catalog),
                EntryFact::Unreadable => r0,
            }
        }
    }
}

/// The plan after the children `es` (with facts `fs`) of one directory.
pub open spec fn plan_children(p: PlanView, es: Seq<ScannedEntry>, fs: Seq<EntryFact>) -> PlanView
    decreases es.len(),
{
    if es.len() == 0 || fs.len() == 0 {
        p
    } else {
        let q = plan_children(p, es.drop_last(), fs.drop_last());
        let e = es.last();
        if e.is_dir {
            q
        } else {
            match fs.last() {
                EntryFact::File { size, hash, in_catalog, .. } => plan_file(q, e.path@, e.raw_path@, size, hash@, in_catalog),
                EntryFact::Unreadable => q,
            }
        }
    }
}

/// The hash a subdirectory contributes: the one computed for it, or, where
/// none was, that of an empty tree.
pub open spec fn subtree_hash(trees: Map<Seq<char>, HashValue>, path: Seq<char>) -> Seq<u8> {
    if trees.contains_key(path) {
        trees[path]@
    } else {
        tree_hash_of(Seq::empty())
    }
}

/// The tree entries of a directory with children `es` and facts `fs`.
pub open spec fn tree_children(es: Seq<ScannedEntry>, fs: Seq<EntryFact>, trees: Map<Seq<char>, HashValue>) -> Seq<EntryView>
    decreases es.len(),
{
    if es.len() == 0 || fs.len() == 0 {
        Seq::empty()
    } else {
        let rest = tree_children(es.drop_last(), fs.drop_last(), trees);
        let e = es.last();
        if e.is_dir {
            rest.push((e.name@, DIR_MODE, subtree_hash(trees, e.path@)))
        } else {
            match fs.last() {
                EntryFact::File { hash, .. } => rest.push((e.name@, FILE_MODE, hash@)),
                EntryFact::Unreadable => rest,
            }
        }
    }
}

/// A copy of a byte vector.
pub fn copy_bytes(v: &Vec<u8>) -> (r: Vec<u8>)
    ensures
        r@ == v@,
{
    let mut r: Vec<u8> = Vec::new();
    let mut i: usize = 0;
    while i < v.len()
        invariant
            i <= v@.len(),
            r@ == v@.subrange(0, i as int),
        decreases v@.len() - i,
    {
        r.push(v[i]);
        assert(v@.subrange(0, i as int + 1) =~= v@.subrange(0, i as int).push(v@[i as int]));
        i = i + 1;
    }
    assert(v@.subrange(0, i as int) =~= v@);
    r
}

/// Whether the plan already lists a file with content `h`.
fn plan_has_hash(plan: &BackupPlan, h: &HashValue) -> (r: bool)
    ensures
        r == hash_planned(plan@.0, h@),
{
    let mut i: usize = 0;
    while i < plan.new_files.len()
        invariant
            i <= plan.new_files@.len(),
            forall|j: int| 0 <= j < i ==> (#[trigger] plan@.0[j]).1 != h@,
        decreases plan.new_files@.len() - i,
    {
        if same_hash(&plan.new_files[i].1, h) {
            assert(plan@.0[i as int].1 == h@);
            return true;
        }
        assert(plan@.0[i as int].1 != h@);
        i = i + 1;
    }
    false
}

impl BackupPlan {
    pub fn new() -> (r: BackupPlan)
        ensures
            r@.0 == Seq::<RowView>::empty(),
            r@.1 == 0,
            row_views(r.reindex@) == Seq::<RowView>::empty(),
    {
        let r = BackupPlan { new_files: Vec::new(), total_size: 0, reindex: Vec::new() };
        assert(r@.0 =~= Seq::<RowView>::empty());
        assert(row_views(r.reindex@) =~= Seq::<RowView>::empty());
        r
    }

    /// Records one file: added where its blob is neither in the catalog nor
    /// already planned; otherwise, where it was hashed again, listed for an
    /// index refresh.
    pub fn add_file(&mut self, path: &String, raw: &Vec<u8>, size: u64, h: &HashValue, indexed: bool, in_catalog: bool)
        ensures
            final(self)@ == plan_file(old(self)@, path@, raw@, size, h@, in_catalog),
            row_views(final(self).reindex@) == reindex_file(row_views(old(self).reindex@), old(self)@, path@, raw@, h@, indexed, in_catalog),
    {
        let ghost before = self@;
        let ghost before_r = row_views(self.reindex@);
        if !in_catalog && !plan_has_hash(self, h) {
            self.new_files.push((path.clone(), *h, copy_bytes(raw)));
            self.total_size = self.total_size.saturating_add(size);
            assert(self@.0 =~= before.0.push((path@, h@, raw@)));
            assert(before.0.push((path@, h@, raw@)).len() != before.0.len());
        } else if !indexed {
            self.reindex.push((path.clone(), *h, copy_bytes(raw)));
            assert(row_views(self.reindex@) =~= before_r.push((path@, h@, raw@)));
        }
    }
}

/// The planner's state between directories: the tree hash computed for each
/// directory so far, keyed by path, and the plan built so far.
pub struct Planner {
    pub trees: StringHashMap<HashValue>,
    pub plan: BackupPlan,
    /// Each planned directory's tree hash and entries, in planning order.
    pub records: Vec<(HashValue, Vec<TreeEntry>)>,
}

/// Tree records as views.
pub open spec fn record_views(v: Seq<(HashValue, Vec<TreeEntry>)>) -> Seq<(Seq<u8>, Seq<EntryView>)> {
    v.map_values(|r: (HashValue, Vec<TreeEntry>)| (r.0@, entry_views(r.1@)))
}

impl Planner {
    pub fn new() -> (r: Planner)
        ensures
            r.trees@ == Map::<Seq<char>, HashValue>::empty(),
            r.plan@ == (Seq::<RowView>::empty(), 0u64),
            r.plan.wf(),
            row_views(r.plan.reindex@) == Seq::<RowView>::empty(),
            record_views(r.records@) == Seq::<(Seq<u8>, Seq<EntryView>)>::empty(),
    {
        let r = Planner { trees: StringHashMap::new(), plan: BackupPlan::new(), records: Vec::new() };
        assert(record_views(r.records@) =~= Seq::<(Seq<u8>, Seq<EntryView>)>::empty());
        r
    }

    /// The tree hash recorded for a directory, if it has been planned.
    pub fn tree_hash(&self, path: &str) -> (r: Option<HashValue>)
        ensures
            r == (if self.trees@.contains_key(path@) {
                Some(self.trees@[path@])
            } else {
                None
            }),
    {
        match self.trees.get(path) {
            Some(h) => Some(*h),
            None => None,
        }
    }

    /// Plans one directory and computes its tree hash.
    ///
    /// `facts[k]` describes `dir.entries[k]` (ignored for subdirectories).
    /// Each subdirectory contributes the hash recorded for its path, or that
    /// of an empty tree where none was; each readable file contributes its
    /// content hash and, where its blob is new, a plan entry. The directory's
    /// own hash is recorded under its path.
    pub fn plan_directory(&mut self, dir: &ScannedDir, facts: &Vec<EntryFact>) -> (r: HashValue)
        requires
            dir.wf(),
            facts@.len() == dir.entries@.len(),
        ensures
            entries_in_name_order(tree_children(dir.entries@, facts@, old(self).trees@)),
            old(self).plan.wf() ==> final(self).plan.wf(),
            record_views(final(self).records@) == record_views(old(self).records@).push(
                (r@, tree_children(dir.entries@, facts@, old(self).trees@)),
            ),
            r@ == tree_hash_of(tree_children(dir.entries@, facts@, old(self).trees@)),
            final(self).trees@ == old(self).trees@.insert(dir.path@, r),
            final(self).plan@ == plan_children(old(self).plan@, dir.entries@, facts@),
            row_views(final(self).plan.reindex@) == reindex_children(
                row_views(old(self).plan.reindex@),
                old(self).plan@,
                dir.entries@,
                facts@,
            ),
    {
        let empty: Vec<TreeEntry> = Vec::new();
        let empty_hash = hash_tree(&empty);
        assert(entry_views(empty@) =~= Seq::<EntryView>::empty());
        let mut entries: Vec<TreeEntry> = Vec::new();
        let mut k: usize = 0;
        while k < dir.entries.len()
            invariant
                k <= dir.entries@.len(),
                facts@.len() == dir.entries@.len(),
                empty_hash@ == tree_hash_of(Seq::empty()),
                entry_views(entries@) == tree_children(
                    dir.entries@.subrange(0, k as int),
                    facts@.subrange(0, k as int),
                    self.trees@,
                ),
                self.plan@ == plan_children(
                    old(self).plan@,
                    dir.entries@.subrange(0, k as int),
                    facts@.subrange(0, k as int),
                ),
                row_views(self.plan.reindex@) == reindex_children(
                    row_views(old(self).plan.reindex@),
                    old(self).plan@,
                    dir.entries@.subrange(0, k as int),
                    facts@.subrange(0, k as int),
                ),
                self.trees@ == old(self).trees@,
                self.records@ == old(self).records@,
            decreases dir.entries@.len() - k,
        {
            let e = &dir.entries[k];
            let ghost es = dir.entries@.subrange(0, k as int + 1);
            let ghost fs = facts@.subrange(0, k as int + 1);
            assert(es.drop_last() =~= dir.entries@.subrange(0, k as int));
            assert(fs.drop_last() =~= facts@.subrange(0, k as int));
            let ghost before = entry_views(entries@);
            if e.is_dir {
                let h = match self.trees.get(e.path.as_str()) {
                    Some(h) => *h,
                    None => empty_hash,
                };
                entries.push(TreeEntry { name: e.name.clone(), mode: DIR_MODE, hash: h });
                assert(entry_views(entries@) =~= before.push((e.name@, DIR_MODE, subtree_hash(self.trees@, e.path@))));
            } else {
                match facts[k] {
                    EntryFact::File { size, hash, indexed, in_catalog } => {
                        self.plan.add_file(&e.path, &e.raw_path, size, &hash, indexed, in_catalog);
                        entries.push(TreeEntry { name: e.name.clone(), mode: FILE_MODE, hash });
                        assert(entry_views(entries@) =~= before.push((e.name@, FILE_MODE, hash@)));
                    },
                    EntryFact::Unreadable => {},
                }
            }
            k = k + 1;
        }
        assert(dir.entries@.subrange(0, k as int) =~= dir.entries@);
        assert(facts@.subrange(0, k as int) =~= facts@);
        proof {
            lemma_tree_in_name_order(dir.entries@, facts@, old(self).trees@);
            if old(self).plan.wf() {
                lemma_plan_lists_each_blob_once(old(self).plan@, dir.entries@, facts@);
            }
        }
        let r = hash_tree(&entries);
        self.trees.insert(dir.path.clone(), r);
        let ghost before_records = record_views(self.records@);
        self.records.push((r, entries));
        assert(record_views(self.records@) =~= before_records.push(
            (r@, tree_children(dir.entries@, facts@, old(self).trees@)),
        ));
        r
    }

    /// The finished plan, and each planned directory's tree record.
    pub fn finish_with_trees(self) -> (r: (BackupPlan, Vec<(HashValue, Vec<TreeEntry>)>))
        ensures
            r.0@ == self.plan@,
            r.0.reindex@ == self.plan.reindex@,
            r.1@ == self.records@,
    {
        (self.plan, self.records)
    }

    /// The finished plan.
    pub fn finish(self) -> (r: BackupPlan)
        ensures
            r@ == self.plan@,
            r.reindex@ == self.plan.reindex@,
    {
        self.plan
    }
}

/// Byte length of a directory's path, as `str::len` reports it.
pub open spec fn path_len(d: ScannedDir) -> usize {
    vstd::utf8::encode_utf8(d.path@).len() as usize
}

/// Index `i` appears somewhere in `order`.
pub open spec fn listed(order: Seq<usize>, i: int) -> bool {
    exists|j: int| 0 <= j < order.len() && #[trigger] order[j] == i
}

/// `order` lists each index of `dirs` once, longest paths first, so every
/// directory comes after all directories below it.
pub open spec fn is_processing_order(dirs: Seq<ScannedDir>, order: Seq<usize>) -> bool {
    &&& order.len() == dirs.len()
    &&& forall|j: int| 0 <= j < order.len() ==> (#[trigger] order[j]) < dirs.len()
    &&& forall|i: int| 0 <= i < dirs.len() ==> #[trigger] listed(order, i)
    &&& forall|a: int, b: int|
        0 <= a < b < order.len() ==> path_len(dirs[#[trigger] order[a] as int]) >= path_len(
            dirs[#[trigger] order[b] as int],
        )
}

/// The order in which directories are planned: by descending path length,
/// ties kept in the order the walker reported them.
pub fn processing_order(dirs: &Vec<ScannedDir>) -> (r: Vec<usize>)
    ensures
        is_processing_order(dirs@, r@),
{
    let n = dirs.len();
    let mut lens: Vec<usize> = Vec::new();
    let mut i: usize = 0;
    while i < n
        invariant
            n == dirs@.len(),
            i <= n,
            lens@.len() == i,
            forall|j: int| 0 <= j < i ==> lens@[j] == path_len(#[trigger] dirs@[j]),
        decreases n - i,
    {
        lens.push(dirs[i].path.as_str().len());
        i = i + 1;
    }
    let mut order: Vec<usize> = Vec::new();
    i = 0;
    while i < n
        invariant
            n == dirs@.len(),
            i <= n,
            lens@.len() == n,
            forall|j: int| 0 <= j < n ==> lens@[j] == path_len(#[trigger] dirs@[j]),
            order@.len() == i,
            forall|j: int| 0 <= j < order@.len() ==> (#[trigger] order@[j]) < i,
            forall|k: int| 0 <= k < i ==> #[trigger] listed(order@, k),
            forall|a: int, b: int|
                0 <= a < b < order@.len() ==> lens@[#[trigger] order@[a] as int] >= lens@[#[trigger] order@[b] as int],
        decreases n - i,
    {
        let li = lens[i];
        let mut p: usize = 0;
        while p < order.len() && lens[order[p]] >= li
            invariant
                p <= order@.len(),
                lens@.len() == n,
                order@.len() == i,
                i < n,
                forall|j: int| 0 <= j < order@.len() ==> (#[trigger] order@[j]) < i,
                forall|q: int| 0 <= q < p ==> lens@[#[trigger] order@[q] as int] >= li,
            decreases order@.len() - p,
        {
            p = p + 1;
        }
        let ghost old_order = order@;
        assert(forall|q: int| p <= q < old_order.len() ==> lens@[#[trigger] old_order[q] as int] < li) by {
            if p < old_order.len() {
                assert forall|q: int| p <= q < old_order.len() implies lens@[#[trigger] old_order[q] as int] < li by {
                    if q > p {
                        assert(lens@[old_order[p as int] as int] >= lens@[old_order[q] as int]);
                    }
                }
            }
        }
        order.insert(p, i);
        assert(forall|j: int| 0 <= j < order@.len() ==> (#[trigger] order@[j]) == if j < p {
            old_order[j]
        } else if j == p {
            i
        } else {
            old_order[j - 1]
        });
        assert forall|k: int| 0 <= k < i + 1 implies #[trigger] listed(order@, k) by {
            if k == i {
                assert(order@[p as int] == k);
            } else {
                assert(listed(old_order, k));
                let j0 = choose|j: int| 0 <= j < old_order.len() && #[trigger] old_order[j] == k;
                if j0 < p {
                    assert(order@[j0] == k);
                } else {
                    assert(order@[j0 + 1] == k);
                }
            }
        }
        i = i + 1;
    }
    assert forall|k: int| 0 <= k < dirs@.len() implies #[trigger] listed(order@, k) by {
        assert(0 <= k < i);
    }
    assert forall|a: int, b: int| 0 <= a < b < order@.len() implies path_len(dirs@[#[trigger] order@[a] as int]) >= path_len(
        dirs@[#[trigger] order@[b] as int],
    ) by {
        assert(lens@[order@[a] as int] >= lens@[order@[b] as int]);
    }
    order
}

} // verus!
