use gitstream::diff::{change_kind, checked_diff_update, clean_update, diff_update, looks_binary, HeadCache, KnownPaths};
use gitstream::state::{ChangeKind, DiffUpdate, HunkLine};

fn changed(path: &str, added: u32) -> DiffUpdate {
    DiffUpdate {
        path: path.to_string(),
        mtime: 5,
        status: ChangeKind::Modified,
        hunks: vec![],
        added,
        removed: 0,
        binary: false,
    }
}

#[test]
fn change_kind_by_presence() {
    assert_eq!(change_kind(false, false), None);
    assert_eq!(change_kind(false, true), Some(ChangeKind::Untracked));
    assert_eq!(change_kind(true, false), Some(ChangeKind::Deleted));
    assert_eq!(change_kind(true, true), Some(ChangeKind::Modified));
}

#[test]
fn null_byte_within_first_8000_bytes_is_binary() {
    assert!(!looks_binary(b"plain text\n"));
    assert!(looks_binary(b"a\0b"));
    let mut late = vec![b'x'; 8000];
    late.push(0);
    assert!(!looks_binary(&late));
    let mut edge = vec![b'x'; 7999];
    edge.push(0);
    assert!(looks_binary(&edge));
    assert!(!looks_binary(b""));
}

#[test]
fn clean_update_is_empty_and_stamped() {
    let u = clean_update("a.txt".to_string(), ChangeKind::Modified, 42);
    assert_eq!(u.path, "a.txt");
    assert_eq!(u.mtime, 42);
    assert!(u.is_clean());
    assert!(u.hunks.is_empty());
}

#[test]
fn diff_update_equal_bytes_is_clean() {
    let u = diff_update("a".to_string(), ChangeKind::Modified, 7, b"same\n", b"same\n", false);
    assert!(u.is_clean());
    assert!(!u.binary);
    assert_eq!(u.mtime, 7);
}

#[test]
fn diff_update_binary_has_no_hunks() {
    let u = diff_update("bin".to_string(), ChangeKind::Modified, 1, b"a\0", b"b\0", false);
    assert!(u.binary);
    assert!(u.hunks.is_empty());
    assert_eq!((u.added, u.removed), (0, 0));
}

#[test]
fn diff_update_text_change() {
    let u = diff_update("t".to_string(), ChangeKind::Untracked, 3, b"", b"fresh\n", false);
    assert!(!u.binary);
    assert_eq!(u.status, ChangeKind::Untracked);
    assert_eq!((u.added, u.removed), (1, 0));
    assert_eq!(u.hunks.len(), 1);
    assert!(matches!(&u.hunks[0].lines[0], HunkLine::Added(s) if s == "fresh"));
}

#[test]
fn diff_update_decodes_invalid_utf8_lossily() {
    let u = diff_update("t".to_string(), ChangeKind::Modified, 3, b"ok\n", b"\xff\n", false);
    assert_eq!((u.added, u.removed), (1, 1));
    let added: Vec<String> = u.hunks[0]
        .lines
        .iter()
        .filter_map(|l| match l {
            HunkLine::Added(s) => Some(s.clone()),
            _ => None,
        })
        .collect();
    assert_eq!(added, vec!["\u{FFFD}".to_string()]);
}

#[test]
fn known_paths_record_and_clear() {
    let mut k = KnownPaths::new();
    assert!(!k.contains("a"));
    k.record(&changed("a", 1));
    k.record(&changed("a", 2));
    assert!(k.contains("a"));
    assert!(k.take_cleared("b".to_string(), 9).is_none());
    let cleared = k.take_cleared("a".to_string(), 9).expect("a was known");
    assert_eq!(cleared.path, "a");
    assert_eq!(cleared.mtime, 9);
    assert!(cleared.is_clean());
    assert!(!k.contains("a"));
    assert!(k.take_cleared("a".to_string(), 10).is_none());
}

#[test]
fn known_paths_clean_update_forgets() {
    let mut k = KnownPaths::new();
    k.insert("x".to_string());
    k.record(&changed("x", 0));
    assert!(!k.contains("x"));
    assert!(!k.remove("x"));
}

#[test]
fn rescan_clears_stale_paths_once() {
    let mut k = KnownPaths::new();
    k.insert("old".to_string());
    k.insert("kept".to_string());
    let updates = vec![changed("kept", 1), changed("new", 2), changed("gone", 0)];
    let (fresh, cleared) = k.rescan(&updates, 77);
    assert!(fresh.contains("kept"));
    assert!(fresh.contains("new"));
    assert!(!fresh.contains("gone"));
    assert!(!fresh.contains("old"));
    assert_eq!(cleared.len(), 1);
    assert_eq!(cleared[0].path, "old");
    assert_eq!(cleared[0].mtime, 77);
    assert!(cleared[0].is_clean());
}

#[test]
fn head_cache_keeps_entries_until_head_moves() {
    let mut c = HeadCache::new();
    c.sync_head(b"tree-1");
    assert_eq!(c.lookup("a"), None);
    c.store("a".to_string(), Some(b"alpha".to_vec()));
    c.store("b".to_string(), None);
    assert_eq!(c.lookup("a"), Some(Some(b"alpha".to_vec())));
    assert_eq!(c.lookup("b"), Some(None));
    c.store("a".to_string(), Some(b"beta".to_vec()));
    assert_eq!(c.lookup("a"), Some(Some(b"beta".to_vec())));
    c.sync_head(b"tree-1");
    assert_eq!(c.lookup("b"), Some(None));
    c.sync_head(b"tree-2");
    assert_eq!(c.lookup("a"), None);
    assert_eq!(c.lookup("b"), None);
}

fn listed(s: &gitstream::state::State) -> Vec<String> {
    let mut v: Vec<String> = s.iter_ordered().iter().map(|u| u.path.clone()).collect();
    v.sort();
    v
}

fn known_of(k: &KnownPaths, candidates: &[&str]) -> Vec<String> {
    let mut v: Vec<String> = candidates.iter().filter(|p| k.contains(p)).map(|p| p.to_string()).collect();
    v.sort();
    v
}

#[test]
fn known_set_mirrors_the_change_list() {
    let all = ["a", "b", "c", "d"];
    let mut state = gitstream::state::State::new();
    let mut known = KnownPaths::new();
    for u in [changed("a", 1), changed("b", 2), changed("c", 1), changed("b", 0)] {
        known.record(&u);
        state.apply(u);
        assert_eq!(known_of(&known, &all), listed(&state));
    }
    if let Some(c) = known.take_cleared("a".to_string(), 3) {
        state.apply(c);
    }
    assert_eq!(known_of(&known, &all), listed(&state));
    assert_eq!(listed(&state), vec!["c".to_string()]);

    let updates = vec![changed("d", 4), changed("b", 0)];
    let (fresh, cleared) = known.rescan(&updates, 5);
    for u in updates.into_iter().chain(cleared) {
        state.apply(u);
    }
    known = fresh;
    assert_eq!(known_of(&known, &all), listed(&state));
    assert_eq!(listed(&state), vec!["d".to_string()]);
}

#[test]
fn binary_attribute_overrides_the_byte_scan() {
    let u = diff_update(
        "vendor.lock".to_string(),
        ChangeKind::Modified,
        1,
        b"this looks like text\n",
        b"still ascii\nbut changed\n",
        true,
    );
    assert!(u.binary, "*.lock binary in .gitattributes must override the byte scan");
    assert!(u.hunks.is_empty(), "binary files have no hunks");
    let same = diff_update("vendor.lock".to_string(), ChangeKind::Modified, 1, b"x\n", b"x\n", true);
    assert!(same.is_clean());
}

#[test]
fn checked_update_diffs_ordinary_files() {
    let u = checked_diff_update("t".to_string(), ChangeKind::Modified, 2, b"a\nb\n", b"a\nB\n", false)
        .expect("small files fit");
    assert_eq!((u.added, u.removed), (1, 1));
    let b = checked_diff_update("t".to_string(), ChangeKind::Modified, 2, b"a", b"b", true).expect("binary");
    assert!(b.binary);
}
