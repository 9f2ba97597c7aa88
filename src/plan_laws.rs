//! What holds of planning across directories and across runs.

use vstd::prelude::*;
use crate::models::{HashValue, EntryView, FILE_MODE, blake3_of, tree_hash_of, bytes_less, concat_identities};
use crate::scanner::{ScannedEntry, sorted_by_name, name_bytes};
use crate::pipeline::{EntryFact, PlanView, RowView, hashes_unique, hash_planned, plan_children, plan_file, reindex_children, tree_children};

verus! {

/// One directory of a run: its children and what was learned of each.
pub type DirFacts = (Seq<ScannedEntry>, Seq<EntryFact>);

/// The plan after a whole run over `dirs`, in processing order.
pub open spec fn plan_run(p: PlanView, dirs: Seq<DirFacts>) -> PlanView
    decreases dirs.len(),
{
    if dirs.len() == 0 {
        p
    } else {
        plan_children(plan_run(p, dirs.drop_last()), dirs.last().0, dirs.last().1)
    }
}

/// Child `k` is a readable file with content `h`, and `in_catalog` is what
/// was reported for it.
pub open spec fn file_fact(d: DirFacts, k: int, h: Seq<u8>, in_catalog: bool) -> bool {
    &&& 0 <= k < d.0.len()
    &&& k < d.1.len()
    &&& !d.0[k].is_dir
    &&& d.1[k] matches EntryFact::File { hash, in_catalog: c, .. } && hash@ == h && c == in_catalog
}

/// Every file fact of `dirs` reports whether `blobs` holds its content.
pub open spec fn facts_match_catalog(dirs: Seq<DirFacts>, blobs: Set<Seq<u8>>) -> bool {
    forall|d: int, k: int, h: Seq<u8>, c: bool|
        0 <= d < dirs.len() && #[trigger] file_fact(dirs[d], k, h, c) ==> c == blobs.contains(h)
}

/// Two fact lists see the same children with the same contents (sizes and
/// catalog answers may differ).
pub open spec fn same_contents(fs1: Seq<EntryFact>, fs2: Seq<EntryFact>) -> bool {
    &&& fs1.len() == fs2.len()
    &&& forall|k: int|
        0 <= k < fs1.len() ==> match (#[trigger] fs1[k], fs2[k]) {
            (EntryFact::File { hash: a, .. }, EntryFact::File { hash: b, .. }) => a == b,
            (EntryFact::Unreadable, EntryFact::Unreadable) => true,
            _ => false,
        }
}

/// The content hashes a plan lists.
pub open spec fn planned_hashes(files: Seq<RowView>) -> Set<Seq<u8>> {
    Set::new(|h: Seq<u8>| hash_planned(files, h))
}

/// Planning only adds to a plan.
pub proof fn lemma_plan_children_keeps(p: PlanView, es: Seq<ScannedEntry>, fs: Seq<EntryFact>, h: Seq<u8>)
    requires
        hash_planned(p.0, h),
    ensures
        hash_planned(plan_children(p, es, fs).0, h),
    decreases es.len(),
{
    if es.len() > 0 && fs.len() > 0 {
        lemma_plan_children_keeps(p, es.drop_last(), fs.drop_last(), h);
        let q = plan_children(p, es.drop_last(), fs.drop_last());
        let i = choose|i: int| 0 <= i < q.0.len() && (#[trigger] q.0[i]).1 == h;
        let r = plan_children(p, es, fs);
        if r.0 != q.0 {
            assert(r.0[i] == q.0[i]);
        }
    }
}

/// A run only adds to a plan.
pub proof fn lemma_plan_run_keeps(p: PlanView, dirs: Seq<DirFacts>, h: Seq<u8>)
    requires
        hash_planned(p.0, h),
    ensures
        hash_planned(plan_run(p, dirs).0, h),
    decreases dirs.len(),
{
    if dirs.len() > 0 {
        lemma_plan_run_keeps(p, dirs.drop_last(), h);
        lemma_plan_children_keeps(plan_run(p, dirs.drop_last()), dirs.last().0, dirs.last().1, h);
    }
}

/// After planning a directory, each of its readable files has its content
/// either in the catalog or in the plan.
pub proof fn lemma_children_cover(p: PlanView, es: Seq<ScannedEntry>, fs: Seq<EntryFact>, k: int, h: Seq<u8>, c: bool)
    requires
        es.len() == fs.len(),
        file_fact((es, fs), k, h, c),
    ensures
        c || hash_planned(plan_children(p, es, fs).0, h),
    decreases es.len(),
{
    let q = plan_children(p, es.drop_last(), fs.drop_last());
    let r = plan_children(p, es, fs);
    if k == es.len() - 1 {
        if !c {
            if hash_planned(q.0, h) {
                let i = choose|i: int| 0 <= i < q.0.len() && (#[trigger] q.0[i]).1 == h;
                if r.0 != q.0 {
                    assert(r.0[i] == q.0[i]);
                }
            } else {
                assert(r.0[q.0.len() as int].1 == h);
            }
        }
    } else {
        assert(file_fact((es.drop_last(), fs.drop_last()), k, h, c));
        lemma_children_cover(p, es.drop_last(), fs.drop_last(), k, h, c);
        if !c {
            let i = choose|i: int| 0 <= i < q.0.len() && (#[trigger] q.0[i]).1 == h;
            if r.0 != q.0 {
                assert(r.0[i] == q.0[i]);
            }
        }
    }
}

/// After a run, every readable file it saw has its content either in the
/// catalog or in the plan.
pub proof fn lemma_run_covers(p: PlanView, dirs: Seq<DirFacts>, d: int, k: int, h: Seq<u8>, c: bool)
    requires
        0 <= d < dirs.len(),
        forall|e: int| 0 <= e < dirs.len() ==> (#[trigger] dirs[e]).0.len() == dirs[e].1.len(),
        file_fact(dirs[d], k, h, c),
    ensures
        c || hash_planned(plan_run(p, dirs).0, h),
    decreases dirs.len(),
{
    let prev = plan_run(p, dirs.drop_last());
    if d == dirs.len() - 1 {
        lemma_children_cover(prev, dirs.last().0, dirs.last().1, k, h, c);
    } else {
        assert(dirs.drop_last()[d] == dirs[d]);
        assert forall|e: int| 0 <= e < dirs.drop_last().len() implies (#[trigger] dirs.drop_last()[e]).0.len()
            == dirs.drop_last()[e].1.len() by {
            assert(dirs.drop_last()[e] == dirs[e]);
        }
        lemma_run_covers(p, dirs.drop_last(), d, k, h, c);
        if !c {
            lemma_plan_children_keeps(prev, dirs.last().0, dirs.last().1, h);
        }
    }
}

/// A directory whose readable files are all in the catalog adds nothing.
pub proof fn lemma_known_children_plan_nothing(p: PlanView, es: Seq<ScannedEntry>, fs: Seq<EntryFact>)
    requires
        es.len() == fs.len(),
        forall|k: int, h: Seq<u8>, c: bool| #[trigger] file_fact((es, fs), k, h, c) ==> c,
    ensures
        plan_children(p, es, fs) == p,
    decreases es.len(),
{
    if es.len() > 0 {
        assert forall|k: int, h: Seq<u8>, c: bool| #[trigger] file_fact((es.drop_last(), fs.drop_last()), k, h, c) implies c by {
            assert(file_fact((es, fs), k, h, c));
        }
        lemma_known_children_plan_nothing(p, es.drop_last(), fs.drop_last());
        let k = es.len() - 1;
        if !es.last().is_dir {
            if let EntryFact::File { hash, in_catalog, .. } = fs.last() {
                assert(file_fact((es, fs), k, hash@, in_catalog));
            }
        }
    }
}

/// A run whose readable files are all in the catalog adds nothing.
pub proof fn lemma_known_run_plans_nothing(p: PlanView, dirs: Seq<DirFacts>)
    requires
        forall|e: int| 0 <= e < dirs.len() ==> (#[trigger] dirs[e]).0.len() == dirs[e].1.len(),
        forall|d: int, k: int, h: Seq<u8>, c: bool|
            0 <= d < dirs.len() && #[trigger] file_fact(dirs[d], k, h, c) ==> c,
    ensures
        plan_run(p, dirs) == p,
    decreases dirs.len(),
{
    if dirs.len() > 0 {
        let init = dirs.drop_last();
        assert forall|d: int, k: int, h: Seq<u8>, c: bool|
            0 <= d < init.len() && #[trigger] file_fact(init[d], k, h, c) implies c by {
            assert(init[d] == dirs[d]);
        }
        assert forall|e: int| 0 <= e < init.len() implies (#[trigger] init[e]).0.len() == init[e].1.len() by {
            assert(init[e] == dirs[e]);
        }
        lemma_known_run_plans_nothing(p, init);
        let last = dirs.last();
        assert forall|k: int, h: Seq<u8>, c: bool| #[trigger] file_fact((last.0, last.1), k, h, c) implies c by {
            assert(file_fact(dirs[dirs.len() - 1], k, h, c));
        }
        lemma_known_children_plan_nothing(p, last.0, last.1);
    }
}

/// Backing up an unchanged tree a second time plans nothing: once the first
/// run's plan is committed, the catalog holds every blob of the tree, so the
/// second run (same listings, same contents) has no new files and a zero
/// total.
pub proof fn lemma_unchanged_rerun_plans_nothing(
    run1: Seq<DirFacts>,
    run2: Seq<DirFacts>,
    blobs: Set<Seq<u8>>,
)
    requires
        run1.len() == run2.len(),
        forall|d: int|
            0 <= d < run1.len() ==> {
                &&& (#[trigger] run1[d]).0 == run2[d].0
                &&& run1[d].0.len() == run1[d].1.len()
                &&& same_contents(run1[d].1, run2[d].1)
            },
        facts_match_catalog(run1, blobs),
        facts_match_catalog(
            run2,
            blobs.union(planned_hashes(plan_run((Seq::empty(), 0), run1).0)),
        ),
    ensures
        plan_run((Seq::empty(), 0), run2) == (Seq::<RowView>::empty(), 0u64),
{
    let first = plan_run((Seq::empty(), 0), run1);
    let after = blobs.union(planned_hashes(first.0));
    assert forall|e: int| 0 <= e < run2.len() implies (#[trigger] run2[e]).0.len() == run2[e].1.len() by {
        assert(run1[e].0 == run2[e].0);
        assert(same_contents(run1[e].1, run2[e].1));
    }
    assert forall|e: int| 0 <= e < run1.len() implies (#[trigger] run1[e]).0.len() == run1[e].1.len() by {
        assert(run1[e].0 == run2[e].0);
    }
    assert forall|d: int, k: int, h: Seq<u8>, c: bool|
        0 <= d < run2.len() && #[trigger] file_fact(run2[d], k, h, c) implies c by {
        assert(run1[d].0 == run2[d].0);
        assert(same_contents(run1[d].1, run2[d].1));
        let f1 = run1[d].1[k];
        let f2 = run2[d].1[k];
        if let EntryFact::File { hash, in_catalog, .. } = f1 {
            assert(file_fact(run1[d], k, h, in_catalog));
            lemma_run_covers((Seq::empty(), 0), run1, d, k, h, in_catalog);
            assert(after.contains(h));
        }
    }
    lemma_known_run_plans_nothing((Seq::empty(), 0), run2);
}

/// The tree a directory gets depends on its children's contents only: not
/// on their sizes, nor on what the catalog or the plan held. So two runs
/// over the same tree give the same directory hashes.
pub proof fn lemma_tree_ignores_catalog(
    es: Seq<ScannedEntry>,
    fs1: Seq<EntryFact>,
    fs2: Seq<EntryFact>,
    trees: Map<Seq<char>, HashValue>,
)
    requires
        same_contents(fs1, fs2),
    ensures
        tree_children(es, fs1, trees) == tree_children(es, fs2, trees),
        tree_hash_of(tree_children(es, fs1, trees)) == tree_hash_of(tree_children(es, fs2, trees)),
    decreases es.len(),
{
    if es.len() > 0 && fs1.len() > 0 {
        let (a, b) = (fs1.drop_last(), fs2.drop_last());
        assert forall|k: int| 0 <= k < a.len() implies match (#[trigger] a[k], b[k]) {
            (EntryFact::File { hash: x, .. }, EntryFact::File { hash: y, .. }) => x == y,
            (EntryFact::Unreadable, EntryFact::Unreadable) => true,
            _ => false,
        } by {
            assert(a[k] == fs1[k] && b[k] == fs2[k]);
        }
        lemma_tree_ignores_catalog(es.drop_last(), a, b, trees);
        assert(fs1.last() == fs1[fs1.len() - 1]);
    }
}

/// Files with the same content are written once: planning never lists a
/// content hash twice, however many paths hold it.
pub proof fn lemma_plan_lists_each_blob_once(p: PlanView, es: Seq<ScannedEntry>, fs: Seq<EntryFact>)
    requires
        hashes_unique(p.0),
    ensures
        hashes_unique(plan_children(p, es, fs).0),
    decreases es.len(),
{
    if es.len() > 0 && fs.len() > 0 {
        lemma_plan_lists_each_blob_once(p, es.drop_last(), fs.drop_last());
        let q = plan_children(p, es.drop_last(), fs.drop_last());
        let r = plan_children(p, es, fs);
        if r.0 != q.0 {
            assert forall|i: int, j: int| 0 <= i < j < r.0.len() implies (#[trigger] r.0[i]).1 != (#[trigger] r.0[j]).1 by {
                if j == q.0.len() {
                    assert(r.0[i] == q.0[i]);
                    if r.0[i].1 == r.0[j].1 {
                        assert(hash_planned(q.0, r.0[j].1));
                    }
                } else {
                    assert(r.0[i] == q.0[i] && r.0[j] == q.0[j]);
                }
            }
        }
    }
}

/// Tree entries ascend by name under byte comparison.
pub open spec fn entries_in_name_order(v: Seq<EntryView>) -> bool {
    forall|a: int, b: int|
        0 <= a < b < v.len() ==> !bytes_less(
            vstd::utf8::encode_utf8((#[trigger] v[b]).0),
            vstd::utf8::encode_utf8((#[trigger] v[a]).0),
        )
}

proof fn lemma_tree_children_names(es: Seq<ScannedEntry>, fs: Seq<EntryFact>, trees: Map<Seq<char>, HashValue>, i: int)
    requires
        0 <= i < tree_children(es, fs, trees).len(),
    ensures
        exists|k: int| 0 <= k < es.len() && tree_children(es, fs, trees)[i].0 == (#[trigger] es[k]).name@,
    decreases es.len(),
{
    let rest = tree_children(es.drop_last(), fs.drop_last(), trees);
    if i < rest.len() {
        lemma_tree_children_names(es.drop_last(), fs.drop_last(), trees, i);
        let k = choose|k: int| 0 <= k < es.drop_last().len() && rest[i].0 == (#[trigger] es.drop_last()[k]).name@;
        assert(es[k] == es.drop_last()[k]);
    } else {
        assert(tree_children(es, fs, trees)[i].0 == es[es.len() - 1].name@);
    }
}

/// A directory whose listing is in name order gets its tree entries in name
/// order, so its hash is the digest of its entries' identity hashes taken
/// in ascending name order.
pub proof fn lemma_tree_in_name_order(es: Seq<ScannedEntry>, fs: Seq<EntryFact>, trees: Map<Seq<char>, HashValue>)
    requires
        sorted_by_name(es),
    ensures
        entries_in_name_order(tree_children(es, fs, trees)),
        tree_hash_of(tree_children(es, fs, trees)) == blake3_of(concat_identities(tree_children(es, fs, trees))),
    decreases es.len(),
{
    if es.len() > 0 && fs.len() > 0 {
        let init = es.drop_last();
        assert(sorted_by_name(init)) by {
            assert forall|a: int, b: int| 0 <= a < b < init.len() implies !bytes_less(
                name_bytes(#[trigger] init[b]),
                name_bytes(#[trigger] init[a]),
            ) by {
                assert(init[a] == es[a] && init[b] == es[b]);
            }
        }
        lemma_tree_in_name_order(init, fs.drop_last(), trees);
        let rest = tree_children(init, fs.drop_last(), trees);
        let v = tree_children(es, fs, trees);
        if v.len() > rest.len() {
            assert forall|a: int, b: int| 0 <= a < b < v.len() implies !bytes_less(
                vstd::utf8::encode_utf8((#[trigger] v[b]).0),
                vstd::utf8::encode_utf8((#[trigger] v[a]).0),
            ) by {
                if b == rest.len() {
                    lemma_tree_children_names(init, fs.drop_last(), trees, a);
                    let k = choose|k: int| 0 <= k < init.len() && rest[a].0 == (#[trigger] init[k]).name@;
                    assert(init[k] == es[k]);
                    assert(v[b].0 == es[es.len() - 1].name@);
                    assert(!bytes_less(name_bytes(es[es.len() - 1]), name_bytes(es[k])));
                } else {
                    assert(v[a] == rest[a] && v[b] == rest[b]);
                }
            }
        }
    }
}

/// Every readable file child of the listing was vouched for by its index row.
pub open spec fn all_indexed(es: Seq<ScannedEntry>, fs: Seq<EntryFact>) -> bool {
    forall|k: int|
        0 <= k < es.len() && k < fs.len() && !(#[trigger] es[k]).is_dir ==> match fs[k] {
            EntryFact::File { indexed, .. } => indexed,
            EntryFact::Unreadable => true,
        }
}

/// Files whose index rows all still match are not read and not listed for
/// an index refresh, so a run over them leaves the index untouched.
pub proof fn lemma_indexed_children_refresh_nothing(
    r: Seq<RowView>,
    p: PlanView,
    es: Seq<ScannedEntry>,
    fs: Seq<EntryFact>,
)
    requires
        es.len() == fs.len(),
        all_indexed(es, fs),
    ensures
        reindex_children(r, p, es, fs) == r,
    decreases es.len(),
{
    if es.len() > 0 {
        assert(all_indexed(es.drop_last(), fs.drop_last())) by {
            assert forall|k: int|
                0 <= k < es.drop_last().len() && k < fs.drop_last().len() && !(#[trigger] es.drop_last()[k]).is_dir
                implies match fs.drop_last()[k] {
                EntryFact::File { indexed, .. } => indexed,
                EntryFact::Unreadable => true,
            } by {
                assert(es.drop_last()[k] == es[k] && fs.drop_last()[k] == fs[k]);
            }
        }
        lemma_indexed_children_refresh_nothing(r, p, es.drop_last(), fs.drop_last());
        assert(!es[es.len() - 1].is_dir ==> (fs.last() matches EntryFact::File { indexed, .. } ==> indexed));
    }
}

/// Every readable file gets a tree entry under its own name with its
/// content hash, in whatever directory it stands: two files with the same
/// content carry the same hash in their parents' trees.
pub proof fn lemma_file_child_entry(
    es: Seq<ScannedEntry>,
    fs: Seq<EntryFact>,
    trees: Map<Seq<char>, HashValue>,
    k: int,
    h: Seq<u8>,
    c: bool,
)
    requires
        es.len() == fs.len(),
        file_fact((es, fs), k, h, c),
    ensures
        exists|j: int|
            0 <= j < tree_children(es, fs, trees).len() && #[trigger] tree_children(es, fs, trees)[j] == (
                es[k].name@,
                FILE_MODE,
                h,
            ),
    decreases es.len(),
{
    let rest = tree_children(es.drop_last(), fs.drop_last(), trees);
    let v = tree_children(es, fs, trees);
    if k == es.len() - 1 {
        assert(v[rest.len() as int] == (es[k].name@, FILE_MODE, h));
    } else {
        assert(file_fact((es.drop_last(), fs.drop_last()), k, h, c));
        lemma_file_child_entry(es.drop_last(), fs.drop_last(), trees, k, h, c);
        let j = choose|j: int| 0 <= j < rest.len() && #[trigger] rest[j] == (es.drop_last()[k].name@, FILE_MODE, h);
        assert(v[j] == rest[j]);
    }
}

/// One planned directory of a run: its path, children and facts.
pub type DirStep = (Seq<char>, Seq<ScannedEntry>, Seq<EntryFact>);

/// Step `d` of a run takes the map of tree hashes from `states[d]` to
/// `states[d + 1]`, as `Planner::plan_directory` does.
pub open spec fn tree_step(steps: Seq<DirStep>, states: Seq<Map<Seq<char>, HashValue>>, d: int) -> bool {
    exists|h: HashValue|
        #[trigger] h@ == tree_hash_of(tree_children(steps[d].1, steps[d].2, states[d])) && states[d + 1]
            == states[d].insert(steps[d].0, h)
}

/// `states` is the sequence of tree-hash maps a run over `steps` passes through.
pub open spec fn is_tree_trace(steps: Seq<DirStep>, states: Seq<Map<Seq<char>, HashValue>>) -> bool {
    &&& states.len() == steps.len() + 1
    &&& forall|d: int| 0 <= d < steps.len() ==> #[trigger] tree_step(steps, states, d)
}

proof fn lemma_states_agree(
    steps1: Seq<DirStep>,
    steps2: Seq<DirStep>,
    states1: Seq<Map<Seq<char>, HashValue>>,
    states2: Seq<Map<Seq<char>, HashValue>>,
    d: int,
)
    requires
        steps1.len() == steps2.len(),
        forall|d: int|
            0 <= d < steps1.len() ==> {
                &&& (#[trigger] steps1[d]).0 == steps2[d].0
                &&& steps1[d].1 == steps2[d].1
                &&& same_contents(steps1[d].2, steps2[d].2)
            },
        is_tree_trace(steps1, states1),
        is_tree_trace(steps2, states2),
        states1[0] == states2[0],
        0 <= d <= steps1.len(),
    ensures
        states1[d] == states2[d],
    decreases d,
{
    if d > 0 {
        let e = d - 1;
        lemma_states_agree(steps1, steps2, states1, states2, e);
        assert(tree_step(steps1, states1, e));
        assert(tree_step(steps2, states2, e));
        let h1 = choose|h: HashValue|
            #[trigger] h@ == tree_hash_of(tree_children(steps1[e].1, steps1[e].2, states1[e])) && states1[e + 1]
                == states1[e].insert(steps1[e].0, h);
        let h2 = choose|h: HashValue|
            #[trigger] h@ == tree_hash_of(tree_children(steps2[e].1, steps2[e].2, states2[e])) && states2[e + 1]
                == states2[e].insert(steps2[e].0, h);
        assert(steps1[e].0 == steps2[e].0 && steps1[e].1 == steps2[e].1);
        lemma_tree_ignores_catalog(steps1[e].1, steps1[e].2, steps2[e].2, states1[e]);
        assert(h1 =~= h2);
    }
}

/// Two runs over the same directories, in the same order, with the same
/// listings and the same file contents (sizes, index and catalog answers
/// may differ) and the same starting map, compute the same tree hash for
/// every directory, the root's included.
pub proof fn lemma_same_tree_same_hashes(
    steps1: Seq<DirStep>,
    steps2: Seq<DirStep>,
    states1: Seq<Map<Seq<char>, HashValue>>,
    states2: Seq<Map<Seq<char>, HashValue>>,
)
    requires
        steps1.len() == steps2.len(),
        forall|d: int|
            0 <= d < steps1.len() ==> {
                &&& (#[trigger] steps1[d]).0 == steps2[d].0
                &&& steps1[d].1 == steps2[d].1
                &&& same_contents(steps1[d].2, steps2[d].2)
            },
        is_tree_trace(steps1, states1),
        is_tree_trace(steps2, states2),
        states1[0] == states2[0],
    ensures
        states1.last() == states2.last(),
{
    lemma_states_agree(steps1, steps2, states1, states2, steps1.len() as int);
}

} // verus!
