use workspace_scanner::scanner::{DirEntry, EntryKind, RootKind, ScanError, Scanner};

fn entry(path: &str, kind: EntryKind) -> DirEntry {
    DirEntry { path: String::from(path), kind }
}

/// Drives one scan over an in-memory tree: each element of `tree` maps a
/// directory path to the entries its listing reports; listing a directory
/// absent from `tree` fails.
fn run_scan(
    root: &str,
    kind: RootKind,
    tree: &[(&str, Vec<DirEntry>)],
) -> Result<Vec<String>, ScanError> {
    let mut scanner = Scanner::start(String::from(root), kind)?;
    while let Some(dir) = scanner.next_dir() {
        let outcome: Result<Vec<DirEntry>, String> =
            match tree.iter().find(|(d, _)| *d == dir.as_str()) {
                Some((_, entries)) => Ok(entries.clone()),
                None => Err(format!("cannot list {}", dir)),
            };
        scanner.handle_listing(outcome)?;
    }
    Ok(scanner.finish())
}

#[test]
fn ws_tree_collects_meta_and_xml_sorted() {
    let tree = vec![
        (
            "/ws",
            vec![
                entry("/ws/d.json", EntryKind::RegularFile),
                entry("/ws/sub", EntryKind::Directory),
                entry("/ws/a.meta", EntryKind::RegularFile),
            ],
        ),
        (
            "/ws/sub",
            vec![
                entry("/ws/sub/c.txt", EntryKind::RegularFile),
                entry("/ws/sub/b.xml", EntryKind::RegularFile),
            ],
        ),
    ];
    let r = run_scan("/ws", RootKind::Directory, &tree).unwrap();
    assert_eq!(r, vec![String::from("/ws/a.meta"), String::from("/ws/sub/b.xml")]);
}

#[test]
fn no_matching_files_yields_empty_ok() {
    let tree = vec![
        ("/ws", vec![entry("/ws/a.txt", EntryKind::RegularFile), entry("/ws/sub", EntryKind::Directory)]),
        ("/ws/sub", vec![entry("/ws/sub/b.json", EntryKind::RegularFile)]),
    ];
    let r = run_scan("/ws", RootKind::Directory, &tree).unwrap();
    assert_eq!(r, Vec::<String>::new());
}

#[test]
fn empty_root_yields_empty_ok() {
    let tree = vec![("/ws", vec![])];
    let r = run_scan("/ws", RootKind::Directory, &tree).unwrap();
    assert_eq!(r, Vec::<String>::new());
}

#[test]
fn missing_root_is_path_not_found() {
    let r = run_scan("/nowhere", RootKind::Missing, &[]);
    assert!(matches!(r, Err(ScanError::PathNotFound)));
}

#[test]
fn file_root_is_not_a_directory() {
    let r = run_scan("/ws/a.meta", RootKind::NotDirectory, &[]);
    assert!(matches!(r, Err(ScanError::NotADirectory)));
}

#[test]
fn unreadable_directory_aborts_whole_scan() {
    // /ws/sub is not listable: the scan aborts even though /ws/a.meta was
    // already collected.
    let tree = vec![
        (
            "/ws",
            vec![
                entry("/ws/a.meta", EntryKind::RegularFile),
                entry("/ws/sub", EntryKind::Directory),
            ],
        ),
    ];
    let r = run_scan("/ws", RootKind::Directory, &tree);
    match r {
        Err(ScanError::ListingFailed(cause)) => assert!(cause.contains("/ws/sub")),
        other => panic!("expected ListingFailed, got {:?}", other),
    }
}

#[test]
fn listing_failure_carries_cause() {
    let mut scanner = Scanner::start(String::from("/ws"), RootKind::Directory).unwrap();
    let dir = scanner.next_dir().unwrap();
    assert_eq!(dir, String::from("/ws"));
    let r = scanner.handle_listing(Err(String::from("permission denied")));
    match r {
        Err(ScanError::ListingFailed(cause)) => assert_eq!(cause, String::from("permission denied")),
        other => panic!("expected ListingFailed, got {:?}", other),
    }
}

#[test]
fn other_entries_are_ignored() {
    let tree = vec![
        (
            "/ws",
            vec![
                entry("/ws/socket.meta", EntryKind::Other),
                entry("/ws/real.meta", EntryKind::RegularFile),
            ],
        ),
    ];
    let r = run_scan("/ws", RootKind::Directory, &tree).unwrap();
    assert_eq!(r, vec![String::from("/ws/real.meta")]);
}

#[test]
fn descent_is_depth_first_last_in_first_out() {
    let mut scanner = Scanner::start(String::from("/r"), RootKind::Directory).unwrap();
    assert_eq!(scanner.next_dir().unwrap(), String::from("/r"));
    scanner
        .handle_listing(Ok(vec![
            entry("/r/a", EntryKind::Directory),
            entry("/r/b", EntryKind::Directory),
        ]))
        .unwrap();
    assert_eq!(scanner.next_dir().unwrap(), String::from("/r/b"));
    scanner.handle_listing(Ok(vec![])).unwrap();
    assert_eq!(scanner.next_dir().unwrap(), String::from("/r/a"));
    scanner.handle_listing(Ok(vec![])).unwrap();
    assert!(scanner.next_dir().is_none());
    assert_eq!(scanner.finish(), Vec::<String>::new());
}

#[test]
fn duplicate_reports_are_kept_as_reported() {
    // The scanner trusts the host: a path reported twice is collected twice.
    let tree = vec![
        (
            "/ws",
            vec![
                entry("/ws/a.meta", EntryKind::RegularFile),
                entry("/ws/a.meta", EntryKind::RegularFile),
            ],
        ),
    ];
    let r = run_scan("/ws", RootKind::Directory, &tree).unwrap();
    assert_eq!(r, vec![String::from("/ws/a.meta"), String::from("/ws/a.meta")]);
}

#[test]
fn deep_nesting_is_scanned() {
    let tree = vec![
        ("/a", vec![entry("/a/b", EntryKind::Directory)]),
        ("/a/b", vec![entry("/a/b/c", EntryKind::Directory)]),
        ("/a/b/c", vec![entry("/a/b/c/deep.XML", EntryKind::RegularFile)]),
    ];
    let r = run_scan("/a", RootKind::Directory, &tree).unwrap();
    assert_eq!(r, vec![String::from("/a/b/c/deep.XML")]);
}
