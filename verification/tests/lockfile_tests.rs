use clamp::{parse_lockfile, serialize_lockfile, ClampError, DigestTable, LockfileData};

#[test]
fn parse_simple_lockfile() {
    let text = "[files]\n\"/a/b.txt\" = \"abc123\"\n\"/c.rs\" = \"def456\"\n";
    let data = parse_lockfile(text).unwrap();
    assert_eq!(data.files.len(), 2);
    assert_eq!(
        data.files.get(&b"/a/b.txt".to_vec()),
        Some(&b"abc123".to_vec())
    );
    assert_eq!(data.files.get(&b"/c.rs".to_vec()), Some(&b"def456".to_vec()));
}

#[test]
fn parse_without_files_table_fails() {
    let err = parse_lockfile("").unwrap_err();
    assert!(matches!(err, ClampError::LockParseFailed { .. }));
}

#[test]
fn parse_malformed_text_fails() {
    let err = parse_lockfile("this is [ not = toml").unwrap_err();
    assert!(matches!(err, ClampError::LockParseFailed { .. }));
}

#[test]
fn lockfile_round_trip() {
    let mut files = DigestTable::new();
    files.insert(b"/proj/a.rs".to_vec(), b"1111".to_vec());
    files.insert(b"/proj/b.md".to_vec(), b"2222".to_vec());
    let data = LockfileData { files };
    let text = serialize_lockfile(&data).unwrap();
    assert!(text.contains("[files]"));
    let back = parse_lockfile(&text).unwrap();
    assert_eq!(back.files.entries_vec(), data.files.entries_vec());
    assert_eq!(
        back.files.get(&b"/proj/a.rs".to_vec()),
        Some(&b"1111".to_vec())
    );
    assert_eq!(
        back.files.get(&b"/proj/b.md".to_vec()),
        Some(&b"2222".to_vec())
    );
}

#[test]
fn serialize_empty_table() {
    let text = serialize_lockfile(&LockfileData {
        files: DigestTable::new(),
    })
    .unwrap();
    let back = parse_lockfile(&text).unwrap();
    assert_eq!(back.files.len(), 0);
}

#[test]
fn serialize_rejects_non_utf8_path() {
    let mut files = DigestTable::new();
    files.insert(vec![47u8, 0xff, 0xfe], b"1111".to_vec());
    let err = serialize_lockfile(&LockfileData { files }).unwrap_err();
    assert!(matches!(err, ClampError::LockSerializeFailed));
}

#[test]
fn round_trip_preserves_non_ascii_paths() {
    let mut files = DigestTable::new();
    // "/u<U+00FC>.rs" as UTF-8 bytes: a two-byte sequence inside the path
    files.insert(vec![47u8, 117, 0xc3, 0xbc, 46, 114, 115], b"3333".to_vec());
    let data = LockfileData { files };
    let text = serialize_lockfile(&data).unwrap();
    let back = parse_lockfile(&text).unwrap();
    assert_eq!(back.files.entries_vec(), data.files.entries_vec());
}
