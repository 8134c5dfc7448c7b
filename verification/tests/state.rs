use gitstream::state::{ChangeKind, DiffUpdate, Hunk, HunkLine, State};

const SEC: i128 = 1_000_000_000;

fn mk(path: &str, mtime: i128, added: u32) -> DiffUpdate {
    DiffUpdate {
        path: path.to_string(),
        mtime,
        status: ChangeKind::Modified,
        hunks: vec![],
        added,
        removed: 0,
        binary: false,
    }
}

#[test]
fn ordering_is_mtime_descending() {
    let mut s = State::new();
    let t0: i128 = 0;
    let t1 = t0 + SEC;
    let t2 = t0 + 2 * SEC;
    s.apply(mk("a", t1, 1));
    s.apply(mk("b", t2, 1));
    s.apply(mk("c", t0, 1));
    let paths: Vec<String> = s.iter_ordered().iter().map(|u| u.path.clone()).collect();
    assert_eq!(paths, vec!["b".to_string(), "a".to_string(), "c".to_string()]);
}

#[test]
fn clean_update_drops_entry() {
    let mut s = State::new();
    let t: i128 = 0;
    s.apply(mk("a", t, 1));
    assert_eq!(s.len(), 1);
    s.apply(mk("a", t, 0));
    assert_eq!(s.len(), 0);
}

#[test]
fn replace_keeps_single_entry() {
    let mut s = State::new();
    let t0: i128 = 0;
    let t1 = t0 + SEC;
    s.apply(mk("a", t0, 1));
    s.apply(mk("a", t1, 2));
    assert_eq!(s.len(), 1);
    assert_eq!(s.get("a").unwrap().added, 2);
}

#[test]
fn equal_mtimes_order_by_path_with_separator_first() {
    let mut s = State::new();
    s.apply(mk("a-b", 5, 1));
    s.apply(mk("a/b", 5, 1));
    s.apply(mk("a", 5, 1));
    assert_eq!(s.order(), vec!["a".to_string(), "a/b".to_string(), "a-b".to_string()]);
}

#[test]
fn deleted_or_binary_entries_are_not_clean() {
    let mut d = mk("gone", 1, 0);
    d.status = ChangeKind::Deleted;
    assert!(!d.is_clean());
    let mut b = mk("blob", 1, 0);
    b.binary = true;
    assert!(!b.is_clean());
    assert!(mk("x", 1, 0).is_clean());
    let mut s = State::new();
    s.apply(d);
    s.apply(b);
    assert_eq!(s.len(), 2);
    assert!(s.get("gone").is_some());
    assert!(s.get("nope").is_none());
}

#[test]
fn drop_path_removes_only_that_path() {
    let mut s = State::new();
    s.apply(mk("a", 3, 1));
    s.apply(mk("b", 2, 1));
    s.apply(mk("c", 1, 1));
    s.drop_path("b");
    assert_eq!(s.order(), vec!["a".to_string(), "c".to_string()]);
    s.drop_path("zzz");
    assert_eq!(s.len(), 2);
    assert!(!s.is_empty());
}

#[test]
fn reapplying_moves_entry_to_its_new_place() {
    let mut s = State::new();
    s.apply(mk("a", 3, 1));
    s.apply(mk("b", 2, 1));
    s.apply(mk("b", 9, 4));
    assert_eq!(s.order(), vec!["b".to_string(), "a".to_string()]);
    assert_eq!(s.get("b").unwrap().added, 4);
}

#[test]
fn clone_keeps_every_field() {
    let u = DiffUpdate {
        path: "dir/f.rs".to_string(),
        mtime: -5,
        status: ChangeKind::Untracked,
        hunks: vec![Hunk {
            old_range: (0, 0),
            new_range: (0, 2),
            lines: vec![HunkLine::Added("x".to_string()), HunkLine::Context("y".to_string())],
        }],
        added: 1,
        removed: 0,
        binary: false,
    };
    let c = u.clone();
    assert_eq!(c.path, u.path);
    assert_eq!(c.mtime, -5);
    assert_eq!(c.status, ChangeKind::Untracked);
    assert_eq!(c.hunks.len(), 1);
    assert_eq!(c.hunks[0].new_range, (0, 2));
    assert!(matches!(&c.hunks[0].lines[1], HunkLine::Context(s) if s == "y"));
    assert_eq!((c.added, c.removed, c.binary), (1, 0, false));
}
