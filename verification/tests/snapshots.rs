use saveowl::files::{fits_limit, max_file_bytes, FileEntry, FileMap, RestoreAction, SnapshotDraft};

fn entry(map: &FileMap, key: &str) -> Option<(Option<String>, u64, bool)> {
    map.get(&key.to_string()).map(|e| (e.hash.clone(), e.size, e.deleted))
}

#[test]
fn storing_new_content_records_it() {
    let mut m = FileMap::new();
    assert!(m.record_stored("a".into(), "h1".into(), 10));
    assert_eq!(entry(&m, "a"), Some((Some("h1".into()), 10, false)));
    assert_eq!(m.len(), 1);
}

#[test]
fn storing_the_same_content_again_changes_nothing() {
    let mut m = FileMap::new();
    m.record_stored("a".into(), "h1".into(), 10);
    assert!(!m.record_stored("a".into(), "h1".into(), 99));
    assert_eq!(entry(&m, "a"), Some((Some("h1".into()), 10, false)));
    assert!(m.record_stored("a".into(), "h2".into(), 11));
    assert_eq!(entry(&m, "a"), Some((Some("h2".into()), 11, false)));
}

#[test]
fn missing_files_get_a_deletion_marker() {
    let mut m = FileMap::new();
    m.record_stored("a".into(), "h1".into(), 10);
    assert!(m.record_missing("a".into()));
    assert_eq!(entry(&m, "a"), Some((None, 0, true)));
    // still reported, though already marked
    assert!(m.record_missing("a".into()));
    // a path never recorded is not added
    assert!(!m.record_missing("b".into()));
    assert_eq!(entry(&m, "b"), None);
    assert_eq!(m.len(), 1);
    // a deleted file that comes back is recorded again
    assert!(m.record_stored("a".into(), "h1".into(), 10));
    assert_eq!(entry(&m, "a"), Some((Some("h1".into()), 10, false)));
}

#[test]
fn insert_replaces_and_entries_list_each_path_once() {
    let mut m = FileMap::new();
    m.insert("x".into(), FileEntry { hash: Some("1".into()), size: 1, deleted: false });
    m.insert("y".into(), FileEntry { hash: None, size: 0, deleted: true });
    m.insert("x".into(), FileEntry { hash: Some("2".into()), size: 2, deleted: false });
    let mut keys: Vec<&str> = m.entries().iter().map(|(k, _)| k.as_str()).collect();
    keys.sort();
    assert_eq!(keys, vec!["x", "y"]);
    assert_eq!(entry(&m, "x"), Some((Some("2".into()), 2, false)));
}

#[test]
fn restore_actions() {
    let del = FileEntry { hash: None, size: 0, deleted: true };
    let kept = FileEntry { hash: Some("abc".into()), size: 3, deleted: false };
    let empty = FileEntry { hash: None, size: 0, deleted: false };
    assert_eq!(del.restore_action(), RestoreAction::Remove);
    assert_eq!(kept.restore_action(), RestoreAction::CopyBlob("abc".into()));
    assert_eq!(empty.restore_action(), RestoreAction::Skip);
}

#[test]
fn size_limit() {
    assert_eq!(max_file_bytes(512), 536_870_912);
    assert_eq!(max_file_bytes(0), 0);
    assert!(fits_limit(536_870_912, max_file_bytes(512)));
    assert!(!fits_limit(536_870_913, max_file_bytes(512)));
}

#[test]
fn unchanged_sessions_make_no_snapshot() {
    let mut previous = FileMap::new();
    previous.record_stored("a".into(), "h".into(), 1);
    let mut d = SnapshotDraft::new(previous);
    d.file_stored("a".into(), "h".into(), 1);
    d.file_missing("never".into());
    assert!(d.finish(Some(5), "k".into(), "e".into(), "n".into(), 9).is_none());
}

#[test]
fn changed_sessions_make_a_child_snapshot() {
    let mut d = SnapshotDraft::new(FileMap::new());
    d.file_stored("a".into(), "h".into(), 1);
    let s = d.finish(Some(5), "k".into(), "e".into(), "n".into(), 9).unwrap();
    assert_eq!(s.parent, Some(5));
    assert_eq!(s.game_key, "k");
    assert_eq!(s.exe, "e");
    assert_eq!(s.process_name, "n");
    assert_eq!(s.machine_id, 9);
    assert_eq!(s.files.len(), 1);
    let t = SnapshotDraft { files: FileMap::new(), changed: true }.finish(None, "k".into(), "e".into(), "n".into(), 9).unwrap();
    assert_ne!(s.id, t.id);
}

#[test]
fn a_second_snapshot_over_unchanged_files_is_empty() {
    let touched = [("a", "h1", 1u64), ("b", "h2", 2), ("a", "h1", 1), ("c", "h3", 3)];
    let mut previous = FileMap::new();
    previous.record_stored("z".into(), "old".into(), 9);
    let mut first = SnapshotDraft::new(previous);
    for (k, h, n) in touched { first.file_stored(k.into(), h.into(), n); }
    let snap = first.finish(None, "k".into(), "e".into(), "n".into(), 1).unwrap();
    let mut second = SnapshotDraft::new(snap.files);
    for (k, h, n) in touched { second.file_stored(k.into(), h.into(), n); }
    assert!(!second.changed);
    assert!(second.finish(Some(snap.id), "k".into(), "e".into(), "n".into(), 1).is_none());
    assert_eq!((snap.id >> 76) & 0xf, 4);
}
