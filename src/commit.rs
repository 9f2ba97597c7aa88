use vstd::prelude::*;
use crate::models::{HashValue, BlobLocation, IndexEntry};
use crate::pipeline::{BackupPlan, RowView, row_views};

verus! {

/// The catalog rows one successful run writes in its single transaction.
pub struct CommitBatch {
    pub blobs: Vec<(HashValue, BlobLocation)>,
    pub index: Vec<(String, IndexEntry)>,
}

/// Index rows for the planned files whose metadata could be read again:
/// `stats[i]` is the `(mtime, size)` of the `i`-th planned file, if any.
pub open spec fn index_rows(files: Seq<RowView>, stats: Seq<Option<(i64, u64)>>) -> Seq<
    (Seq<char>, i64, u64, Seq<u8>),
>
    decreases files.len(),
{
    if files.len() == 0 || stats.len() == 0 {
        Seq::empty()
    } else {
        let rest = index_rows(files.drop_last(), stats.drop_last());
        match stats.last() {
            Some((mtime, size)) => rest.push((files.last().0, mtime, size, files.last().1)),
            None => rest,
        }
    }
}

/// The views of index rows.
pub open spec fn index_row_views(rows: Seq<(String, IndexEntry)>) -> Seq<(Seq<char>, i64, u64, Seq<u8>)> {
    rows.map_values(|r: (String, IndexEntry)| (r.0@, r.1.mtime, r.1.size, r.1.hash@))
}

/// The files whose index rows a plan's commit writes: the new files, then
/// those listed for an index refresh.
pub open spec fn indexed_files(plan: BackupPlan) -> Seq<RowView> {
    plan@.0 + row_views(plan.reindex@)
}

/// Gathers the rows to commit after the tape has been written and finished:
/// every blob location, and an index row for every new or refreshed file
/// whose metadata could be read again (`stats` follows `indexed_files`).
pub fn commit_batch(
    plan: &BackupPlan,
    locations: Vec<(HashValue, BlobLocation)>,
    stats: &Vec<Option<(i64, u64)>>,
) -> (r: CommitBatch)
    requires
        stats@.len() == plan.new_files@.len() + plan.reindex@.len(),
    ensures
        r.blobs@ == locations@,
        index_row_views(r.index@) == index_rows(indexed_files(*plan), stats@),
{
    let ghost files = indexed_files(*plan);
    let n = plan.new_files.len();
    let mut index: Vec<(String, IndexEntry)> = Vec::new();
    let mut i: usize = 0;
    while i < stats.len()
        invariant
            i <= stats@.len(),
            n == plan.new_files@.len(),
            stats@.len() == plan.new_files@.len() + plan.reindex@.len(),
            files == indexed_files(*plan),
            index_row_views(index@) == index_rows(files.subrange(0, i as int), stats@.subrange(0, i as int)),
        decreases stats@.len() - i,
    {
        let ghost before = index_row_views(index@);
        assert(files.subrange(0, i as int + 1).drop_last() =~= files.subrange(0, i as int));
        assert(stats@.subrange(0, i as int + 1).drop_last() =~= stats@.subrange(0, i as int));
        match stats[i] {
            Some((mtime, size)) => {
                let (path, h) = if i < n {
                    (&plan.new_files[i].0, plan.new_files[i].1)
                } else {
                    (&plan.reindex[i - n].0, plan.reindex[i - n].1)
                };
                assert(files[i as int].0 == path@ && files[i as int].1 == h@);
                index.push((path.clone(), IndexEntry { mtime, size, hash: h }));
                assert(index_row_views(index@) =~= before.push((path@, mtime, size, h@)));
            },
            None => {},
        }
        i = i + 1;
    }
    assert(files.subrange(0, i as int) =~= files);
    assert(stats@.subrange(0, i as int) =~= stats@);
    CommitBatch { blobs: locations, index }
}

/// The blob table after `rows` are put in order; a hash already present
/// keeps its first location.
pub open spec fn put_blobs(table: Map<Seq<u8>, BlobLocation>, rows: Seq<(HashValue, BlobLocation)>) -> Map<
    Seq<u8>,
    BlobLocation,
>
    decreases rows.len(),
{
    if rows.len() == 0 {
        table
    } else {
        let t = put_blobs(table, rows.drop_last());
        if t.contains_key(rows.last().0@) {
            t
        } else {
            t.insert(rows.last().0@, rows.last().1)
        }
    }
}

/// A hash in the table stays there, at the same location.
pub proof fn lemma_put_blobs_keeps(table: Map<Seq<u8>, BlobLocation>, rows: Seq<(HashValue, BlobLocation)>, h: Seq<u8>)
    requires
        table.contains_key(h),
    ensures
        put_blobs(table, rows).contains_key(h),
        put_blobs(table, rows)[h] == table[h],
    decreases rows.len(),
{
    if rows.len() > 0 {
        lemma_put_blobs_keeps(table, rows.drop_last(), h);
    }
}

/// Every hash of the rows is in the table afterwards.
pub proof fn lemma_put_blobs_adds(table: Map<Seq<u8>, BlobLocation>, rows: Seq<(HashValue, BlobLocation)>, i: int)
    requires
        0 <= i < rows.len(),
    ensures
        put_blobs(table, rows).contains_key(rows[i].0@),
    decreases rows.len(),
{
    if i < rows.len() - 1 {
        lemma_put_blobs_adds(table, rows.drop_last(), i);
        let t = put_blobs(table, rows.drop_last());
        assert(t.contains_key(rows[i].0@));
    }
}

/// After a run's blob rows are committed, the blob table holds a location
/// for every file of its plan, whatever it held before, provided the rows
/// name the plan's hashes in order (as the tape layout does).
pub proof fn lemma_committed_plan_is_cataloged(
    table: Map<Seq<u8>, BlobLocation>,
    files: Seq<RowView>,
    rows: Seq<(HashValue, BlobLocation)>,
)
    requires
        rows.len() == files.len(),
        forall|i: int| 0 <= i < rows.len() ==> (#[trigger] rows[i]).0@ == files[i].1,
    ensures
        forall|i: int| 0 <= i < files.len() ==> put_blobs(table, rows).contains_key(#[trigger] files[i].1),
{
    assert forall|i: int| 0 <= i < files.len() implies put_blobs(table, rows).contains_key(#[trigger] files[i].1) by {
        lemma_put_blobs_adds(table, rows, i);
        assert(rows[i].0@ == files[i].1);
    }
}

} // verus!
