use rumba::commit::commit_batch;
use rumba::models::{hash_tree, BlobLocation, FileMetadata, HashValue, TreeEntry, DIR_MODE, FILE_MODE};
use rumba::pipeline::{processing_order, BackupPlan, EntryFact, Planner};
use rumba::scanner::{ScannedDir, ScannedEntry, Scanner};

fn b3(data: &[u8]) -> HashValue {
    *blake3::hash(data).as_bytes()
}

fn entry_id(name: &str, mode: u32, hash: &HashValue) -> HashValue {
    let mut bytes = name.as_bytes().to_vec();
    bytes.extend_from_slice(&mode.to_le_bytes());
    bytes.extend_from_slice(hash);
    b3(&bytes)
}

fn tree_of(ids: &[HashValue]) -> HashValue {
    let mut bytes = Vec::new();
    for id in ids {
        bytes.extend_from_slice(id);
    }
    b3(&bytes)
}

fn entry(name: &str, parent: &str, is_dir: bool) -> ScannedEntry {
    let path = format!("{}/{}", parent, name);
    ScannedEntry { name: name.to_string(), is_dir, raw_path: path.as_bytes().to_vec(), path }
}

fn file(name: &str, parent: &str) -> ScannedEntry {
    entry(name, parent, false)
}

fn dir(name: &str, parent: &str) -> ScannedEntry {
    entry(name, parent, true)
}

fn row(path: &str, content: &[u8]) -> (String, HashValue, Vec<u8>) {
    (path.to_string(), b3(content), path.as_bytes().to_vec())
}

fn fact(content: &str, in_catalog: bool) -> EntryFact {
    EntryFact::File { size: content.len() as u64, hash: b3(content.as_bytes()), indexed: in_catalog, in_catalog }
}

fn rehashed(content: &str, in_catalog: bool) -> EntryFact {
    EntryFact::File { size: content.len() as u64, hash: b3(content.as_bytes()), indexed: false, in_catalog }
}

/// The tree `/root/a.txt = "hello"`, `/root/b/c.txt = "world"`.
fn sample_tree() -> Vec<ScannedDir> {
    vec![
        ScannedDir::new("/root".to_string(), vec![dir("b", "/root"), file("a.txt", "/root")]),
        ScannedDir::new("/root/b".to_string(), vec![file("c.txt", "/root/b")]),
    ]
}

/// Plans the dirs in processing order; `facts_for` gives each directory's facts.
fn run(dirs: &[ScannedDir], facts_for: &dyn Fn(&ScannedDir) -> Vec<EntryFact>) -> (BackupPlan, HashValue) {
    let dirs_vec: Vec<ScannedDir> = dirs.iter().map(|d| ScannedDir { path: d.path.clone(), entries: d.entries.clone() }).collect();
    let mut planner = Planner::new();
    let mut last = [0u8; 32];
    for i in processing_order(&dirs_vec) {
        let facts = facts_for(&dirs_vec[i]);
        last = planner.plan_directory(&dirs_vec[i], &facts);
    }
    (planner.finish(), last)
}

fn sample_facts(d: &ScannedDir, a_known: bool, c_known: bool) -> Vec<EntryFact> {
    d.entries
        .iter()
        .map(|e| match e.name.as_str() {
            "a.txt" => fact("hello", a_known),
            "c.txt" => fact("world", c_known),
            _ => EntryFact::Unreadable,
        })
        .collect()
}

#[test]
fn listing_is_put_in_name_order() {
    let d = ScannedDir::new(
        "/t".to_string(),
        vec![dir("b_dir", "/t"), file("c_file.txt", "/t"), file("a_file.txt", "/t")],
    );
    let names: Vec<&str> = d.entries.iter().map(|e| e.name.as_str()).collect();
    assert_eq!(names, vec!["a_file.txt", "b_dir", "c_file.txt"]);
    let sub = ScannedDir::new("/t/b_dir".to_string(), vec![file("sub_b.txt", "/t/b_dir"), dir("sub_a", "/t/b_dir")]);
    assert_eq!(sub.entries[0].name, "sub_a");
    assert_eq!(sub.entries[1].name, "sub_b.txt");
}

#[test]
fn names_compare_by_bytes() {
    let d = ScannedDir::new("/t".to_string(), vec![file("a", "/t"), file("B", "/t"), file("ab", "/t")]);
    let names: Vec<&str> = d.entries.iter().map(|e| e.name.as_str()).collect();
    assert_eq!(names, vec!["B", "a", "ab"]);
}

#[test]
fn scanner_keeps_its_root() {
    assert_eq!(Scanner::new("/data".to_string()).root(), "/data");
}

#[test]
fn deepest_directories_come_first() {
    let dirs = vec![
        ScannedDir::new("/r".to_string(), vec![]),
        ScannedDir::new("/r/a/b".to_string(), vec![]),
        ScannedDir::new("/r/a".to_string(), vec![]),
        ScannedDir::new("/r/c".to_string(), vec![]),
    ];
    assert_eq!(processing_order(&dirs), vec![1, 2, 3, 0]);
}

#[test]
fn first_run_plans_both_files() {
    let (plan, root) = run(&sample_tree(), &|d| sample_facts(d, false, false));
    assert_eq!(plan.new_files.len(), 2);
    assert_eq!(plan.total_size, 10);
    // The subdirectory is processed before its parent.
    assert_eq!(plan.new_files[0], row("/root/b/c.txt", b"world"));
    assert_eq!(plan.new_files[1], row("/root/a.txt", b"hello"));
    assert!(plan.has_unique_hashes());
    let b_tree = tree_of(&[entry_id("c.txt", FILE_MODE, &b3(b"world"))]);
    let expected = tree_of(&[entry_id("a.txt", FILE_MODE, &b3(b"hello")), entry_id("b", DIR_MODE, &b_tree)]);
    assert_eq!(root, expected);
}

#[test]
fn second_run_over_unchanged_tree_plans_nothing() {
    let (_, first_root) = run(&sample_tree(), &|d| sample_facts(d, false, false));
    let (plan, root) = run(&sample_tree(), &|d| sample_facts(d, true, true));
    assert_eq!(plan.new_files.len(), 0);
    assert_eq!(plan.total_size, 0);
    assert!(plan.reindex.is_empty());
    assert_eq!(root, first_root);
}

#[test]
fn touched_file_is_rehashed_but_not_rewritten() {
    let cached = rumba::models::IndexEntry { mtime: 100, size: 5, hash: b3(b"hello") };
    assert_eq!(rumba::diff::check_index(Some(cached), 200, 5), None);
    let (_, first_root) = run(&sample_tree(), &|d| sample_facts(d, false, false));
    let (plan, root) = run(&sample_tree(), &|d| {
        d.entries
            .iter()
            .map(|e| match e.name.as_str() {
                "a.txt" => rehashed("hello", true),
                "c.txt" => fact("world", true),
                _ => EntryFact::Unreadable,
            })
            .collect()
    });
    assert!(plan.new_files.is_empty());
    assert_eq!(plan.total_size, 0);
    assert_eq!(plan.reindex, vec![row("/root/a.txt", b"hello")]);
    assert_eq!(root, first_root);
    let batch = commit_batch(&plan, vec![], &vec![Some((200, 5))]);
    assert!(batch.blobs.is_empty());
    assert_eq!(batch.index.len(), 1);
    assert_eq!(batch.index[0].0, "/root/a.txt");
    assert_eq!(batch.index[0].1.mtime, 200);
    assert_eq!(batch.index[0].1.hash, b3(b"hello"));
}

#[test]
fn duplicate_content_is_one_blob() {
    let d = ScannedDir::new("/root".to_string(), vec![file("y", "/root"), file("x", "/root")]);
    let mut planner = Planner::new();
    let h = planner.plan_directory(&d, &vec![rehashed("AAA", false), rehashed("AAA", false)]);
    let plan = planner.finish();
    assert_eq!(plan.new_files, vec![row("/root/x", b"AAA")]);
    // The second path shares the planned blob; its index row is written too.
    assert_eq!(plan.reindex, vec![row("/root/y", b"AAA")]);
    assert_eq!(plan.total_size, 3);
    let blob = b3(b"AAA");
    assert_eq!(h, tree_of(&[entry_id("x", FILE_MODE, &blob), entry_id("y", FILE_MODE, &blob)]));
}

#[test]
fn empty_directory_hashes_no_bytes() {
    let mut planner = Planner::new();
    let h = planner.plan_directory(&ScannedDir::new("/e".to_string(), vec![]), &vec![]);
    assert_eq!(h, b3(b""));
    assert_eq!(planner.tree_hash("/e"), Some(b3(b"")));
    assert_eq!(planner.tree_hash("/other"), None);
    assert_eq!(hash_tree(&vec![]), b3(b""));
}

#[test]
fn unplanned_subdirectory_counts_as_empty() {
    let mut planner = Planner::new();
    let d = ScannedDir::new("/p".to_string(), vec![dir("gone", "/p")]);
    let h = planner.plan_directory(&d, &vec![EntryFact::Unreadable]);
    assert_eq!(h, tree_of(&[entry_id("gone", DIR_MODE, &b3(b""))]));
}

#[test]
fn unreadable_file_is_left_out_of_its_tree() {
    let mut planner = Planner::new();
    let d = ScannedDir::new("/p".to_string(), vec![file("a", "/p"), file("b", "/p")]);
    let h = planner.plan_directory(&d, &vec![EntryFact::Unreadable, fact("B", false)]);
    assert_eq!(h, tree_of(&[entry_id("b", FILE_MODE, &b3(b"B"))]));
    assert_eq!(planner.finish().new_files.len(), 1);
}

#[test]
fn zero_length_file_is_a_blob() {
    let mut planner = Planner::new();
    let d = ScannedDir::new("/p".to_string(), vec![file("empty", "/p")]);
    planner.plan_directory(&d, &vec![fact("", false)]);
    let plan = planner.finish();
    assert_eq!(plan.new_files, vec![row("/p/empty", b"")]);
    assert_eq!(plan.total_size, 0);
}

#[test]
fn non_utf8_names_are_kept_in_their_lossy_form() {
    let lossy = String::from_utf8_lossy(b"caf\xe9").to_string();
    assert_eq!(lossy, "caf\u{FFFD}");
    let raw = b"/p/caf\xe9".to_vec();
    let e = ScannedEntry { name: lossy.clone(), is_dir: false, path: format!("/p/{}", lossy), raw_path: raw.clone() };
    let d = ScannedDir::new("/p".to_string(), vec![e]);
    let mut planner = Planner::new();
    let h = planner.plan_directory(&d, &vec![fact("x", false)]);
    assert_eq!(h, tree_of(&[entry_id(&lossy, FILE_MODE, &b3(b"x"))]));
    let plan = planner.finish();
    // The index key is the lossy form; the file is read through its raw path.
    assert_eq!(plan.new_files[0].0, format!("/p/{}", lossy));
    assert_eq!(plan.new_files[0].2, raw);
}

#[test]
fn identity_hashes() {
    let e = TreeEntry { name: "n".to_string(), mode: FILE_MODE, hash: [3u8; 32] };
    assert_eq!(e.compute_hash(), entry_id("n", FILE_MODE, &[3u8; 32]));
    let m = FileMetadata { size: 1, mtime: -2, mode: 0o644, uid: 3, gid: 4, content_hash: [5u8; 32] };
    let mut bytes = Vec::new();
    bytes.extend_from_slice(&1u64.to_le_bytes());
    bytes.extend_from_slice(&(-2i64).to_le_bytes());
    bytes.extend_from_slice(&0o644u32.to_le_bytes());
    bytes.extend_from_slice(&3u32.to_le_bytes());
    bytes.extend_from_slice(&4u32.to_le_bytes());
    bytes.extend_from_slice(&[5u8; 32]);
    assert_eq!(m.compute_hash(), b3(&bytes));
}

#[test]
fn commit_rows_cover_the_plan() {
    let (plan, _) = run(&sample_tree(), &|d| sample_facts(d, false, false));
    let locations = vec![
        (b3(b"world"), BlobLocation { tape_id: 1, offset: 0 }),
        (b3(b"hello"), BlobLocation { tape_id: 1, offset: 1024 }),
    ];
    let batch = commit_batch(&plan, locations.clone(), &vec![Some((7, 5)), None]);
    assert_eq!(batch.blobs, locations);
    assert_eq!(batch.index.len(), 1);
    assert_eq!(batch.index[0].0, "/root/b/c.txt");
    assert_eq!(batch.index[0].1.mtime, 7);
    assert_eq!(batch.index[0].1.size, 5);
    assert_eq!(batch.index[0].1.hash, b3(b"world"));
}

#[test]
fn planner_keeps_each_tree_record() {
    let mut planner = Planner::new();
    let d = ScannedDir::new("/p".to_string(), vec![file("b", "/p"), file("a", "/p")]);
    let h = planner.plan_directory(&d, &vec![fact("A", false), fact("B", false)]);
    let (_, trees) = planner.finish_with_trees();
    assert_eq!(trees.len(), 1);
    assert_eq!(trees[0].0, h);
    let names: Vec<&str> = trees[0].1.iter().map(|e| e.name.as_str()).collect();
    assert_eq!(names, vec!["a", "b"]);
    assert_eq!(trees[0].1[0].hash, b3(b"A"));
}
