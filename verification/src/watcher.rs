//! Watch events: what the file watcher tells the diff worker.

use vstd::prelude::*;
use std::time::Instant;
use crate::path::{components, has_prefix, spec_is_in_dotgit, is_in_dotgit, rel_components, split_components};
use crate::text::chars_of;

verus! {

#[verifier::external_type_specification]
#[verifier::external_body]
pub struct ExInstant(Instant);

/// What kind of change a watch event reports; `Rescan` asks for a full
/// status scan.
#[derive(Debug, Clone, Copy, PartialEq, Eq)]
pub enum ChangeHint {
    Modify,
    Create,
    Remove,
    Rescan,
}

/// One change under the watched tree.
#[derive(Debug)]
pub struct WatchEvent {
    pub path: String,
    pub kind: ChangeHint,
    pub at: Instant,
}

/// The kinds of file-system event the watcher delivers.
#[derive(Debug, Clone, Copy, PartialEq, Eq)]
pub enum FsEventKind {
    Any,
    Access,
    Create,
    Modify,
    Remove,
    Other,
}

pub open spec fn spec_classify(kind: FsEventKind) -> ChangeHint {
    match kind {
        FsEventKind::Create => ChangeHint::Create,
        FsEventKind::Remove => ChangeHint::Remove,
        _ => ChangeHint::Modify,
    }
}

/// A creation is a create hint, a removal a remove hint, anything else a
/// modification.
pub fn classify(kind: FsEventKind) -> (h: ChangeHint)
    ensures
        h == spec_classify(kind),
{
    match kind {
        FsEventKind::Create => ChangeHint::Create,
        FsEventKind::Remove => ChangeHint::Remove,
        _ => ChangeHint::Modify,
    }
}

/// The entries of `.git` whose change means the repository itself moved (a
/// commit, staging, a checkout, a merge): `HEAD`, `index`, `ORIG_HEAD`,
/// `MERGE_HEAD`, `FETCH_HEAD`, `CHERRY_PICK_HEAD`, `REVERT_HEAD` and
/// `packed-refs`.
pub open spec fn metadata_name(c: Seq<char>) -> bool {
    ||| c == "HEAD"@
    ||| c == "index"@
    ||| c == "ORIG_HEAD"@
    ||| c == "MERGE_HEAD"@
    ||| c == "FETCH_HEAD"@
    ||| c == "CHERRY_PICK_HEAD"@
    ||| c == "REVERT_HEAD"@
    ||| c == "packed-refs"@
}

/// A path under the repository's `.git` that calls for a full rescan: one of
/// the metadata entries directly in `.git`, or anything under `.git/refs`.
pub open spec fn spec_rescan_path(p: Seq<char>, root: Seq<char>) -> bool {
    &&& has_prefix(root, p)
    &&& {
        let rest = components(p).skip(components(root).len() as int);
        &&& rest.len() >= 2
        &&& rest[0] == seq!['.', 'g', 'i', 't']
        &&& (rest.len() == 2 && metadata_name(rest[1])) || rest[1] == "refs"@
    }
}

/// A path whose last component is `.gitignore`: an edit to it changes what
/// is ignored.
pub open spec fn is_gitignore(p: Seq<char>) -> bool {
    components(p).len() > 0 && components(p).last() == ".gitignore"@
}

/// What the diff worker hears of an event at `p`, where `ignored` tells
/// whether the repository's ignore rules match `p`: a rescan for a change
/// to the repository's own metadata, nothing for any other path inside
/// `.git`, a rescan for an edit to a `.gitignore` file, nothing for an
/// ignored path, else the event's kind.
pub open spec fn spec_watch_hint(p: Seq<char>, root: Seq<char>, kind: FsEventKind, ignored: bool) -> Option<
    ChangeHint,
> {
    if spec_rescan_path(p, root) {
        Some(ChangeHint::Rescan)
    } else if spec_is_in_dotgit(p, root) {
        None
    } else if is_gitignore(p) {
        Some(ChangeHint::Rescan)
    } else if ignored {
        None
    } else {
        Some(spec_classify(kind))
    }
}

fn is_word(c: &Vec<char>, w: &str) -> (b: bool)
    ensures
        b == (c@ == w@),
{
    let ws = chars_of(w);
    if c.len() != ws.len() {
        return false;
    }
    let mut i: usize = 0;
    while i < c.len()
        invariant
            i <= c@.len(),
            c@.len() == ws@.len(),
            ws@ == w@,
            forall|k: int| 0 <= k < i ==> c@[k] == ws@[k],
        decreases c.len() - i,
    {
        if c[i] != ws[i] {
            return false;
        }
        i += 1;
    }
    proof {
        assert(c@ =~= ws@);
    }
    true
}

fn is_metadata_name(c: &Vec<char>) -> (b: bool)
    ensures
        b == metadata_name(c@),
{
    is_word(c, "HEAD") || is_word(c, "index") || is_word(c, "ORIG_HEAD") || is_word(c, "MERGE_HEAD")
        || is_word(c, "FETCH_HEAD") || is_word(c, "CHERRY_PICK_HEAD") || is_word(c, "REVERT_HEAD")
        || is_word(c, "packed-refs")
}

/// What to tell the diff worker of a watch event of `kind` at `path`, if
/// anything; `ignored` is whether the repository's ignore rules match
/// `path`.
pub fn watch_hint(path: &str, repo_root: &str, kind: FsEventKind, ignored: bool) -> (h: Option<ChangeHint>)
    ensures
        h == spec_watch_hint(path@, repo_root@, kind, ignored),
{
    let rescan = match rel_components(path, repo_root) {
        Some(rest) => {
            let ghost spec_rest = components(path@).skip(components(repo_root@).len() as int);
            if rest.len() >= 2 && is_word(&rest[0], ".git") {
                proof {
                    reveal_strlit(".git");
                    assert(".git"@ =~= seq!['.', 'g', 'i', 't']);
                    assert(rest@[0]@ == spec_rest[0]);
                    assert(rest@[1]@ == spec_rest[1]);
                }
                let r = (rest.len() == 2 && is_metadata_name(&rest[1])) || is_word(&rest[1], "refs");
                proof {
                    assert(r == spec_rescan_path(path@, repo_root@));
                }
                r
            } else {
                proof {
                    reveal_strlit(".git");
                    assert(".git"@ =~= seq!['.', 'g', 'i', 't']);
                    if rest@.len() >= 2 {
                        assert(rest@[0]@ == spec_rest[0]);
                    }
                    assert(!spec_rescan_path(path@, repo_root@));
                }
                false
            }
        },
        None => false,
    };
    if rescan {
        Some(ChangeHint::Rescan)
    } else if is_in_dotgit(path, repo_root) {
        None
    } else if last_is_gitignore(path) {
        Some(ChangeHint::Rescan)
    } else if ignored {
        None
    } else {
        Some(classify(kind))
    }
}

fn last_is_gitignore(path: &str) -> (b: bool)
    ensures
        b == is_gitignore(path@),
{
    let (_, cs) = split_components(path);
    if cs.len() == 0 {
        false
    } else {
        proof {
            assert(cs@[cs@.len() - 1]@ == components(path@).last());
        }
        is_word(&cs[cs.len() - 1], ".gitignore")
    }
}

} // verus!
