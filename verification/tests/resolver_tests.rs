use clamp::{
    directive_opener, get_lockfile_path, language_hint, resolve_template, scan_template,
    ClampError, FetchOutcome,
};
use sha2::Digest;

/// A directive with the given reference text between its delimiters.
fn directive(reference: &str) -> Vec<u8> {
    let mut t = directive_opener();
    t.extend_from_slice(reference.as_bytes());
    t.extend_from_slice(b"]]");
    t
}

fn loaded(resolved: &[u8], canonical: &[u8], content: &[u8]) -> FetchOutcome {
    FetchOutcome::Loaded {
        resolved: resolved.to_vec(),
        canonical: canonical.to_vec(),
        content: content.to_vec(),
    }
}

fn sha256_hex(data: &[u8]) -> Vec<u8> {
    hex::encode(sha2::Sha256::digest(data)).into_bytes()
}

#[test]
fn no_directives_output_verbatim() {
    let t = b"hello\nworld, no markers here".to_vec();
    let dirs = scan_template(&t);
    assert_eq!(dirs.len(), 0);
    let r = resolve_template(&t, &b"tpl.clamp".to_vec(), &dirs, &Vec::new()).unwrap();
    assert_eq!(r.output_content, t);
    assert_eq!(r.current_hashes.len(), 0);
}

#[test]
fn single_directive_scenario() {
    let t = directive(" a.txt");
    let dirs = scan_template(&t);
    assert_eq!(dirs.len(), 1);
    assert_eq!(dirs[0].reference, b"a.txt".to_vec());
    assert_eq!(dirs[0].start, 0);
    assert_eq!(dirs[0].end, t.len());
    let outcomes = vec![loaded(b"/base/a.txt", b"/base/a.txt", b"hi")];
    let r = resolve_template(&t, &b"/base/tpl.clamp".to_vec(), &dirs, &outcomes).unwrap();
    assert_eq!(r.output_content, b"```txt\nhi\n```\n".to_vec());
    assert_eq!(r.current_hashes.len(), 1);
    let h = r.current_hashes.get(&b"/base/a.txt".to_vec()).unwrap();
    assert_eq!(*h, sha256_hex(b"hi"));
    assert_eq!(
        *h,
        b"8f434346648f6b96df89dda901c5176b10a6d83961dd3c1ac88b59b2dc327aa4".to_vec()
    );
}

#[test]
fn calculate_hash_matches_reference_implementation() {
    assert_eq!(clamp::calculate_hash(&b"hi".to_vec()), sha256_hex(b"hi"));
    assert_eq!(clamp::calculate_hash(&Vec::new()), sha256_hex(b""));
    assert_eq!(
        clamp::calculate_hash(&Vec::new()),
        b"e3b0c44298fc1c149afbf4c8996fb92427ae41e4649b934ca495991b7852b855".to_vec()
    );
}

#[test]
fn text_around_directive_kept_verbatim() {
    let mut t = b"before ".to_vec();
    t.extend_from_slice(&directive("x.rs"));
    t.extend_from_slice(b" after");
    let dirs = scan_template(&t);
    assert_eq!(dirs.len(), 1);
    let outcomes = vec![loaded(b"/d/x.rs", b"/d/x.rs", b"fn main() {}")];
    let r = resolve_template(&t, &b"/d/t.clamp".to_vec(), &dirs, &outcomes).unwrap();
    assert_eq!(
        r.output_content,
        b"before ```rs\nfn main() {}\n```\n after".to_vec()
    );
}

#[test]
fn two_directives_in_order() {
    let mut t = directive("a.md");
    t.push(b'-');
    t.extend_from_slice(&directive("b.md"));
    let dirs = scan_template(&t);
    assert_eq!(dirs.len(), 2);
    let outcomes = vec![
        loaded(b"/d/a.md", b"/d/a.md", b"one"),
        loaded(b"/d/b.md", b"/d/b.md", b"two"),
    ];
    let r = resolve_template(&t, &b"/d/t.clamp".to_vec(), &dirs, &outcomes).unwrap();
    assert_eq!(
        r.output_content,
        b"```md\none\n```\n-```md\ntwo\n```\n".to_vec()
    );
    assert_eq!(r.current_hashes.len(), 2);
}

#[test]
fn missing_target_fails_naming_paths() {
    let t = directive("gone.txt");
    let dirs = scan_template(&t);
    let outcomes = vec![FetchOutcome::Missing {
        resolved: b"/base/gone.txt".to_vec(),
    }];
    let err = resolve_template(&t, &b"/base/tpl.clamp".to_vec(), &dirs, &outcomes).unwrap_err();
    match err {
        ClampError::TargetNotFound {
            resolved,
            template,
            reference,
        } => {
            assert_eq!(resolved, b"/base/gone.txt".to_vec());
            assert_eq!(template, b"/base/tpl.clamp".to_vec());
            assert_eq!(reference, b"gone.txt".to_vec());
        }
        other => panic!("unexpected error: {:?}", other),
    }
}

#[test]
fn invalid_utf8_content_fails() {
    let t = directive("bin.dat");
    let dirs = scan_template(&t);
    let outcomes = vec![loaded(b"/d/bin.dat", b"/d/bin.dat", &[0xff, 0xfe, 0x00])];
    let err = resolve_template(&t, &b"/d/t.clamp".to_vec(), &dirs, &outcomes).unwrap_err();
    match err {
        ClampError::NotUtf8 { path } => assert_eq!(path, b"/d/bin.dat".to_vec()),
        other => panic!("unexpected error: {:?}", other),
    }
}

#[test]
fn first_failing_directive_wins() {
    let mut t = directive("a.txt");
    t.extend_from_slice(&directive("b.txt"));
    let dirs = scan_template(&t);
    let outcomes = vec![
        FetchOutcome::Missing {
            resolved: b"/d/a.txt".to_vec(),
        },
        FetchOutcome::ReadFailed {
            canonical: b"/d/b.txt".to_vec(),
            detail: b"denied".to_vec(),
        },
    ];
    let err = resolve_template(&t, &b"/d/t.clamp".to_vec(), &dirs, &outcomes).unwrap_err();
    assert!(matches!(err, ClampError::TargetNotFound { .. }));
}

#[test]
fn resolution_is_idempotent() {
    let mut t = b"# doc\n".to_vec();
    t.extend_from_slice(&directive(" part.rs "));
    let outcomes = vec![loaded(b"/d/part.rs", b"/d/part.rs", b"let x = 1;")];
    let dirs1 = scan_template(&t);
    let r1 = resolve_template(&t, &b"/d/t.clamp".to_vec(), &dirs1, &outcomes).unwrap();
    let dirs2 = scan_template(&t);
    let r2 = resolve_template(&t, &b"/d/t.clamp".to_vec(), &dirs2, &outcomes).unwrap();
    assert_eq!(r1.output_content, r2.output_content);
    assert_eq!(r1.current_hashes.entries_vec(), r2.current_hashes.entries_vec());
}

#[test]
fn unterminated_directive_is_plain_text() {
    let mut t = directive_opener();
    t.extend_from_slice(b" a.txt");
    let dirs = scan_template(&t);
    assert_eq!(dirs.len(), 0);
    let r = resolve_template(&t, &b"t.clamp".to_vec(), &dirs, &Vec::new()).unwrap();
    assert_eq!(r.output_content, t);
}

#[test]
fn directive_stops_at_first_closer() {
    let mut t = directive(" a ");
    t.extend_from_slice(b" trailing ]]");
    let dirs = scan_template(&t);
    assert_eq!(dirs.len(), 1);
    assert_eq!(dirs[0].reference, b"a".to_vec());
    let outcomes = vec![loaded(b"/d/a", b"/d/a", b"z")];
    let r = resolve_template(&t, &b"/d/t.clamp".to_vec(), &dirs, &outcomes).unwrap();
    assert_eq!(r.output_content, b"```\nz\n```\n trailing ]]".to_vec());
}

#[test]
fn same_path_twice_last_hash_wins() {
    let mut t = directive("a.txt");
    t.extend_from_slice(&directive("sub/../a.txt"));
    let dirs = scan_template(&t);
    assert_eq!(dirs.len(), 2);
    let outcomes = vec![
        loaded(b"/d/a.txt", b"/d/a.txt", b"first"),
        loaded(b"/d/sub/../a.txt", b"/d/a.txt", b"second"),
    ];
    let r = resolve_template(&t, &b"/d/t.clamp".to_vec(), &dirs, &outcomes).unwrap();
    assert_eq!(r.current_hashes.len(), 1);
    let h = r.current_hashes.get(&b"/d/a.txt".to_vec()).unwrap();
    assert_eq!(*h, sha256_hex(b"second"));
}

#[test]
fn reference_whitespace_is_trimmed() {
    let t = directive("\n\t  a.txt \t");
    let dirs = scan_template(&t);
    assert_eq!(dirs.len(), 1);
    assert_eq!(dirs[0].reference, b"a.txt".to_vec());
}

#[test]
fn language_hint_from_extension() {
    assert_eq!(language_hint(&b"dir/file.rs".to_vec()), b"rs".to_vec());
    assert_eq!(language_hint(&b"file.txt".to_vec()), b"txt".to_vec());
    assert_eq!(language_hint(&b"dir.d/file".to_vec()), b"".to_vec());
    assert_eq!(language_hint(&b".gitignore".to_vec()), b"".to_vec());
    assert_eq!(language_hint(&b"a.".to_vec()), b"".to_vec());
    assert_eq!(language_hint(&b"archive.tar.gz".to_vec()), b"gz".to_vec());
}

#[test]
fn empty_template_yields_empty_output() {
    let t: Vec<u8> = Vec::new();
    let dirs = scan_template(&t);
    assert_eq!(dirs.len(), 0);
    let r = resolve_template(&t, &b"t.clamp".to_vec(), &dirs, &Vec::new()).unwrap();
    assert_eq!(r.output_content, Vec::<u8>::new());
    assert_eq!(r.current_hashes.len(), 0);
}

#[test]
fn empty_file_content_renders_empty_block() {
    let t = directive("empty.txt");
    let dirs = scan_template(&t);
    let outcomes = vec![loaded(b"/d/empty.txt", b"/d/empty.txt", b"")];
    let r = resolve_template(&t, &b"/d/t.clamp".to_vec(), &dirs, &outcomes).unwrap();
    assert_eq!(r.output_content, b"```txt\n\n```\n".to_vec());
    let h = r.current_hashes.get(&b"/d/empty.txt".to_vec()).unwrap();
    assert_eq!(*h, sha256_hex(b""));
}

#[test]
fn lockfile_path_appends_lock_suffix() {
    assert_eq!(
        get_lockfile_path(&b"doc.clamp".to_vec()),
        b"doc.clamp.lock".to_vec()
    );
    assert_eq!(get_lockfile_path(&b"doc".to_vec()), b"doc.lock".to_vec());
    assert_eq!(
        get_lockfile_path(&b".hidden".to_vec()),
        b".hidden.lock".to_vec()
    );
}
