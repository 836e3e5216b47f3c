use bendis::fingerprint::{
    calculate_dir_hash, decide_sync, FileIndex, FileRecord, message_of, plan_sync, sync_performed,
    SyncPlan,
};

fn record(path: &str, size: u64, mtime: i64) -> FileRecord {
    FileRecord { path: path.to_string(), size, mtime }
}

fn index_of(records: Vec<FileRecord>) -> FileIndex {
    let mut index = FileIndex::new();
    for r in records {
        index.insert(r);
    }
    index
}

#[test]
fn fingerprint_of_an_empty_tree() {
    assert_eq!(
        calculate_dir_hash(&FileIndex::new()),
        "e3b0c44298fc1c149afbf4c8996fb92427ae41e4649b934ca495991b7852b855"
    );
}

#[test]
fn fingerprint_of_one_file() {
    assert_eq!(
        calculate_dir_hash(&index_of(vec![record("a.sv", 10, 1700000000)])),
        "f7dcb7ee09e12358b11d0486e82c75e8419bce9fd2b2b5470945e5fc589a087b"
    );
}

#[test]
fn fingerprint_takes_the_files_in_path_order() {
    let expected = "087ad594ec27ed4348a2878d5e162aa40f21b8be6be27b36b4032d38079185d6";
    let one = index_of(vec![record("rtl/top.sv", 1234, 1700000000), record("a.sv", 10, 1700000001)]);
    let other = index_of(vec![record("a.sv", 10, 1700000001), record("rtl/top.sv", 1234, 1700000000)]);
    assert_eq!(calculate_dir_hash(&one), expected);
    assert_eq!(calculate_dir_hash(&other), expected);
}

#[test]
fn fingerprint_of_a_time_before_the_epoch() {
    assert_eq!(
        calculate_dir_hash(&index_of(vec![record("t", 0, -1)])),
        "115d1ac9029bac6fb002bc6fb866827eff6cc2ce371b79b8440153341e3a5da1"
    );
}

#[test]
fn fingerprint_takes_the_path_in_utf8() {
    assert_eq!(
        calculate_dir_hash(&index_of(vec![record("é/x", 1, 2)])),
        "9e48d4b87be95b5db7e6c49dbb8bf6bba31b7e7fa87095162ac18a5ad92c1248"
    );
}

#[test]
fn message_holds_path_size_and_time() {
    let message = message_of(&index_of(vec![record("ab", 0x0102, -2)]));
    assert_eq!(
        message,
        vec![b'a', b'b', 2, 1, 0, 0, 0, 0, 0, 0, 0xfe, 0xff, 0xff, 0xff, 0xff, 0xff, 0xff, 0xff]
    );
}

#[test]
fn later_record_of_a_path_counts() {
    let index = index_of(vec![record("a", 1, 1), record("a", 2, 2)]);
    assert_eq!(index.len(), 1);
    assert_eq!(calculate_dir_hash(&index), calculate_dir_hash(&index_of(vec![record("a", 2, 2)])));
}

#[test]
fn fingerprint_tells_size_and_time_apart() {
    let base = calculate_dir_hash(&index_of(vec![record("a", 1, 1)]));
    assert_ne!(base, calculate_dir_hash(&index_of(vec![record("a", 2, 1)])));
    assert_ne!(base, calculate_dir_hash(&index_of(vec![record("a", 1, 2)])));
    assert_ne!(base, calculate_dir_hash(&index_of(vec![record("b", 1, 1)])));
}

#[test]
fn identical_trees_are_in_sync() {
    let files = || vec![record("rtl/top.sv", 1234, 1700000000), record("a.sv", 10, 1700000001)];
    let src = index_of(files());
    let dest = index_of(files());
    let plan = plan_sync(Some(&src), Some(&dest));
    assert_eq!(plan, SyncPlan::Nothing);
    assert!(!sync_performed(plan));
}

#[test]
fn sync_twice_copies_once() {
    let src = index_of(vec![record("a.sv", 10, 1700000001)]);
    let first = plan_sync(Some(&src), None);
    assert_eq!(first, SyncPlan::Copy);
    assert!(sync_performed(first));
    let copy = index_of(vec![record("a.sv", 10, 1700000001)]);
    let second = plan_sync(Some(&src), Some(&copy));
    assert!(!sync_performed(second));
}

#[test]
fn changed_tree_is_replaced() {
    let src = index_of(vec![record("a.sv", 11, 1700000001)]);
    let dest = index_of(vec![record("a.sv", 10, 1700000001)]);
    let plan = plan_sync(Some(&src), Some(&dest));
    assert_eq!(plan, SyncPlan::Replace);
    assert!(sync_performed(plan));
}

#[test]
fn nothing_is_made_from_nothing() {
    let dest = index_of(vec![record("a.sv", 10, 1)]);
    assert_eq!(plan_sync(None, None), SyncPlan::Nothing);
    assert_eq!(plan_sync(None, Some(&dest)), SyncPlan::Nothing);
}

#[test]
fn decision_from_fingerprints() {
    assert_eq!(decide_sync(false, false, "a", "b"), SyncPlan::Nothing);
    assert_eq!(decide_sync(false, true, "a", "b"), SyncPlan::Nothing);
    assert_eq!(decide_sync(true, false, "a", "a"), SyncPlan::Copy);
    assert_eq!(decide_sync(true, true, "a", "a"), SyncPlan::Nothing);
    assert_eq!(decide_sync(true, true, "a", "b"), SyncPlan::Replace);
    assert_eq!(decide_sync(true, true, "", ""), SyncPlan::Nothing);
}

#[test]
fn fingerprint_has_sixty_four_digits() {
    for index in [FileIndex::new(), index_of(vec![record("a", 1, 1), record("b/c", 2, 3)])] {
        let digest = calculate_dir_hash(&index);
        assert_eq!(digest.len(), 64);
        assert!(digest.chars().all(|c| c.is_ascii_digit() || ('a'..='f').contains(&c)));
    }
}
