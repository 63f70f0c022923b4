use clamp::{compare_hashes, ChangeStatus, DigestTable};

fn table_of(entries: &[(&[u8], &[u8])]) -> DigestTable {
    let mut t = DigestTable::new();
    for (k, v) in entries {
        t.insert(k.to_vec(), v.to_vec());
    }
    t
}

#[test]
fn modified_path_is_reported() {
    let current = table_of(&[(b"p", b"h2")]);
    let locked = table_of(&[(b"p", b"h1")]);
    let changes = compare_hashes(&current, &locked);
    assert_eq!(changes.len(), 1);
    assert_eq!(changes.get(&b"p".to_vec()), Some(ChangeStatus::Modified));
}

#[test]
fn removed_path_is_reported() {
    let current = table_of(&[]);
    let locked = table_of(&[(b"p", b"h1")]);
    let changes = compare_hashes(&current, &locked);
    assert_eq!(changes.len(), 1);
    assert_eq!(changes.get(&b"p".to_vec()), Some(ChangeStatus::Removed));
}

#[test]
fn added_path_is_reported() {
    let current = table_of(&[(b"p", b"h1")]);
    let locked = table_of(&[]);
    let changes = compare_hashes(&current, &locked);
    assert_eq!(changes.len(), 1);
    assert_eq!(changes.get(&b"p".to_vec()), Some(ChangeStatus::Added));
}

#[test]
fn unchanged_path_is_absent() {
    let current = table_of(&[(b"p", b"h1")]);
    let locked = table_of(&[(b"p", b"h1")]);
    let changes = compare_hashes(&current, &locked);
    assert!(changes.is_empty());
    assert_eq!(changes.get(&b"p".to_vec()), None);
}

#[test]
fn mixed_changes_classified_disjointly() {
    let current = table_of(&[(b"a", b"ha"), (b"b", b"hb2"), (b"c", b"hc")]);
    let locked = table_of(&[(b"b", b"hb1"), (b"c", b"hc"), (b"d", b"hd")]);
    let changes = compare_hashes(&current, &locked);
    assert_eq!(changes.len(), 3);
    assert_eq!(changes.get(&b"a".to_vec()), Some(ChangeStatus::Added));
    assert_eq!(changes.get(&b"b".to_vec()), Some(ChangeStatus::Modified));
    assert_eq!(changes.get(&b"c".to_vec()), None);
    assert_eq!(changes.get(&b"d".to_vec()), Some(ChangeStatus::Removed));
    for i in 0..changes.len() {
        assert_ne!(changes.status_at(i), ChangeStatus::Unchanged);
    }
}

#[test]
fn empty_tables_yield_no_changes() {
    let changes = compare_hashes(&DigestTable::new(), &DigestTable::new());
    assert!(changes.is_empty());
}

#[test]
fn digest_table_overwrites_and_sorts() {
    let mut t = DigestTable::new();
    t.insert(b"zeta".to_vec(), b"1".to_vec());
    t.insert(b"alpha".to_vec(), b"2".to_vec());
    t.insert(b"mid".to_vec(), b"3".to_vec());
    t.insert(b"zeta".to_vec(), b"4".to_vec());
    assert_eq!(t.len(), 3);
    assert_eq!(t.get(&b"zeta".to_vec()), Some(&b"4".to_vec()));
    assert_eq!(t.get(&b"absent".to_vec()), None);
    let entries = t.entries_vec();
    let keys: Vec<Vec<u8>> = entries.iter().map(|e| e.0.clone()).collect();
    assert_eq!(
        keys,
        vec![b"alpha".to_vec(), b"mid".to_vec(), b"zeta".to_vec()]
    );
}
