use rumba::models::HashValue;
use rumba::pipeline::BackupPlan;
use rumba::tape::{lay_out, member_name, TapeError};

fn plan_of(n: usize) -> BackupPlan {
    BackupPlan {
        new_files: (0..n).map(|i| (format!("/f{}", i), [i as u8; 32], format!("/f{}", i).into_bytes())).collect(),
        total_size: 0,
        reindex: vec![],
    }
}

#[test]
fn offsets_follow_header_and_padded_payload() {
    let plan = plan_of(4);
    let (locs, end) = lay_out(&plan, &vec![0, 1, 512, 513], &vec![20; 4], 1, 0).unwrap();
    let offsets: Vec<u64> = locs.iter().map(|(_, l)| l.offset).collect();
    assert_eq!(offsets, vec![0, 512, 1536, 2560]);
    assert_eq!(end, 4096);
    assert!(locs.iter().all(|(_, l)| l.tape_id == 1));
    assert_eq!(locs[2].0, [2u8; 32]);
}

#[test]
fn empty_blob_takes_one_block() {
    let (locs, end) = lay_out(&plan_of(2), &vec![0, 0], &vec![100, 100], 9, 1024).unwrap();
    assert_eq!(locs[0].1.offset, 1024);
    assert_eq!(locs[1].1.offset, 1536);
    assert_eq!(end, 2048);
}

#[test]
fn layout_past_the_last_offset_fails() {
    assert_eq!(lay_out(&plan_of(1), &vec![10], &vec![5], 1, u64::MAX - 100), Err(TapeError::OffsetOverflow));
    assert_eq!(lay_out(&plan_of(1), &vec![u64::MAX], &vec![5], 1, 0), Err(TapeError::OffsetOverflow));
}

#[test]
fn member_name_is_base_and_hash_prefix() {
    let mut h: HashValue = [0u8; 32];
    for (i, b) in h.iter_mut().enumerate() {
        *b = (i * 17) as u8;
    }
    assert_eq!(member_name("a.txt", &h), "a.txt_0011223344556677");
    assert_eq!(member_name("x", &h), format!("x_{}", &hex::encode(h)[..16]));
}

#[test]
fn repeated_hash_is_caught_before_layout() {
    let mut plan = plan_of(2);
    assert!(plan.has_unique_hashes());
    plan.new_files[1].1 = plan.new_files[0].1;
    assert!(!plan.has_unique_hashes());
}

#[test]
fn long_member_name_adds_its_gnu_entry() {
    // A 101-byte name takes a long-name header and one block of name data.
    let (locs, end) = lay_out(&plan_of(2), &vec![1, 1], &vec![101, 100], 1, 0).unwrap();
    assert_eq!(locs[0].1.offset, 0);
    assert_eq!(locs[1].1.offset, 512 + 512 + 1024);
    assert_eq!(end, 2048 + 1024);
    // 511 bytes plus the terminating zero fill one block; 512 need two.
    let (_, end) = lay_out(&plan_of(1), &vec![0], &vec![511], 1, 0).unwrap();
    assert_eq!(end, 512 + 512 + 512);
    let (_, end) = lay_out(&plan_of(1), &vec![0], &vec![512], 1, 0).unwrap();
    assert_eq!(end, 512 + 1024 + 512);
}

#[test]
fn archive_offsets_match_the_tar_crate() {
    let plan = plan_of(3);
    let contents: Vec<Vec<u8>> = vec![vec![1u8; 700], vec![], vec![2u8; 3]];
    let names = vec!["a".repeat(150), "short".to_string(), "b".repeat(100)];
    let mut builder = tar::Builder::new(Vec::new());
    let mut starts = Vec::new();
    for (name, content) in names.iter().zip(contents.iter()) {
        starts.push(builder.get_ref().len() as u64);
        let mut header = tar::Header::new_gnu();
        header.set_size(content.len() as u64);
        header.set_mode(0o644);
        header.set_cksum();
        builder.append_data(&mut header, name, content.as_slice()).unwrap();
    }
    let written = builder.get_ref().len() as u64;
    let sizes: Vec<u64> = contents.iter().map(|c| c.len() as u64).collect();
    let lens: Vec<u64> = names.iter().map(|n| n.len() as u64).collect();
    let (locs, end) = lay_out(&plan, &sizes, &lens, 1, 0).unwrap();
    let offsets: Vec<u64> = locs.iter().map(|(_, l)| l.offset).collect();
    assert_eq!(offsets, starts);
    assert_eq!(end, written);
}
