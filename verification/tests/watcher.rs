use gitstream::watcher::{classify, watch_hint, ChangeHint, FsEventKind};

#[test]
fn classify_event_kinds() {
    assert_eq!(classify(FsEventKind::Create), ChangeHint::Create);
    assert_eq!(classify(FsEventKind::Remove), ChangeHint::Remove);
    assert_eq!(classify(FsEventKind::Modify), ChangeHint::Modify);
    assert_eq!(classify(FsEventKind::Any), ChangeHint::Modify);
    assert_eq!(classify(FsEventKind::Access), ChangeHint::Modify);
    assert_eq!(classify(FsEventKind::Other), ChangeHint::Modify);
}

#[test]
fn metadata_changes_ask_for_a_rescan() {

    let root = "/repo";
    assert_eq!(watch_hint("/repo/.git/HEAD", root, FsEventKind::Modify, false), Some(ChangeHint::Rescan));
    assert_eq!(watch_hint("/repo/.git/index", root, FsEventKind::Create, false), Some(ChangeHint::Rescan));
    assert_eq!(watch_hint("/repo/.git/refs/heads/main", root, FsEventKind::Modify, false), Some(ChangeHint::Rescan));
    assert_eq!(watch_hint("/repo/.git/packed-refs", root, FsEventKind::Remove, false), Some(ChangeHint::Rescan));
    assert_eq!(watch_hint("/repo/.git/objects/ab/cdef", root, FsEventKind::Create, false), None);
    assert_eq!(watch_hint("/repo/.git/index.lock", root, FsEventKind::Create, false), None);
    assert_eq!(watch_hint("/repo/.git", root, FsEventKind::Modify, false), None);
    assert_eq!(watch_hint("/repo/src/main.rs", root, FsEventKind::Remove, false), Some(ChangeHint::Remove));
    assert_eq!(watch_hint("/elsewhere/.git/HEAD", root, FsEventKind::Modify, false), None);
}

#[test]
fn ignored_paths_are_dropped_and_gitignore_edits_rescan() {
    let root = "/repo";
    assert_eq!(watch_hint("/repo/ignored/blob", root, FsEventKind::Create, true), None);
    assert_eq!(watch_hint("/repo/scratch.log", root, FsEventKind::Modify, true), None);
    assert_eq!(watch_hint("/repo/kept.txt", root, FsEventKind::Modify, false), Some(ChangeHint::Modify));
    assert_eq!(watch_hint("/repo/.gitignore", root, FsEventKind::Modify, false), Some(ChangeHint::Rescan));
    assert_eq!(watch_hint("/repo/sub/.gitignore", root, FsEventKind::Create, true), Some(ChangeHint::Rescan));
    assert_eq!(watch_hint("/repo/.git/HEAD", root, FsEventKind::Modify, true), Some(ChangeHint::Rescan));
    assert_eq!(watch_hint("/repo/.git/objects/x", root, FsEventKind::Modify, false), None);
}
