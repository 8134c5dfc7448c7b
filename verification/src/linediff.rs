//! The line diff, computed by the `imara-diff` crate.

use vstd::prelude::*;
use imara_diff::{Algorithm, Diff, InternedInput};
use crate::diff::{RawHunk, raw_hunks_ok, hunks_cover_marks, split_lines};

verus! {

#[verifier::external_type_specification]
#[verifier::external_body]
#[verifier::reject_recursive_types(T)]
pub struct ExInternedInput<T>(InternedInput<T>);

#[verifier::external_type_specification]
#[verifier::external_body]
pub struct ExDiff(Diff);

/// The before-side lines an interned input holds.
pub uninterp spec fn input_before(input: InternedInput<&str>) -> Seq<Seq<char>>;

/// The after-side lines an interned input holds.
pub uninterp spec fn input_after(input: InternedInput<&str>) -> Seq<Seq<char>>;

/// Which before-lines a diff marks removed.
pub uninterp spec fn diff_removed(d: Diff) -> Seq<bool>;

/// Which after-lines a diff marks added.
pub uninterp spec fn diff_added(d: Diff) -> Seq<bool>;

/// The removed and added marks that `imara-diff`'s histogram algorithm
/// computes for two sequences of lines.
pub uninterp spec fn histogram_marks(before: Seq<Seq<char>>, after: Seq<Seq<char>>) -> (
    Seq<bool>,
    Seq<bool>,
);

/// The changes `Diff::hunks` reports for given removed and added marks.
pub uninterp spec fn marked_hunks(removed: Seq<bool>, added: Seq<bool>) -> Seq<RawHunk>;

/// Number of `false` entries.
pub open spec fn unmarked_count(marks: Seq<bool>) -> int
    decreases marks.len(),
{
    if marks.len() == 0 {
        0
    } else {
        unmarked_count(marks.drop_last()) + if marks.last() {
            0int
        } else {
            1
        }
    }
}

/// `InternedInput::new` on two texts: the crate cuts each text into lines,
/// each ending after its `\n` (a last piece without one is a line too), and
/// interns them.
#[verifier::external_body]
pub(crate) fn intern_lines<'a>(before: &'a str, after: &'a str) -> (input: InternedInput<&'a str>)
    ensures
        input_before(input) == split_lines(before@),
        input_after(input) == split_lines(after@),
{
    InternedInput::new(before, after)
}

/// `Diff::compute` with the histogram algorithm. The crate asserts that
/// each side has fewer than `i32::MAX` lines. The result marks one flag per
/// line on each side, and, being an edit script from the before lines to the
/// after lines, leaves as many lines unmarked on one side as on the other.
#[verifier::external_body]
pub(crate) fn histogram_diff(input: &InternedInput<&str>) -> (d: Diff)
    requires
        input_before(*input).len() < i32::MAX,
        input_after(*input).len() < i32::MAX,
    ensures
        (diff_removed(d), diff_added(d)) == histogram_marks(input_before(*input), input_after(*input)),
        diff_removed(d).len() == input_before(*input).len(),
        diff_added(d).len() == input_after(*input).len(),
        unmarked_count(diff_removed(d)) == unmarked_count(diff_added(d)),
{
    Diff::compute(Algorithm::Histogram, input)
}

/// `Diff::is_removed` at an index within the before side.
#[verifier::external_body]
pub(crate) fn is_removed_at(d: &Diff, i: u32) -> (b: bool)
    requires
        i < diff_removed(*d).len(),
    ensures
        b == diff_removed(*d)[i as int],
{
    d.is_removed(i)
}

/// `Diff::is_added` at an index within the after side.
#[verifier::external_body]
pub(crate) fn is_added_at(d: &Diff, j: u32) -> (b: bool)
    requires
        j < diff_added(*d).len(),
    ensures
        b == diff_added(*d)[j as int],
{
    d.is_added(j)
}

/// `Diff::hunks`, each change as `(before.start, before.end, after.start,
/// after.end)`. The crate documents that consecutive changes are strictly
/// increasing on both sides. Its iterator (`HunkIter`) takes a run of marked
/// lines on each side as one change and steps over one unmarked line on both
/// sides at once between changes, so when both sides leave as many lines
/// unmarked every range lies within its side, every line of a change is
/// marked, and before the first change, between two changes and after the
/// last one the lines are unmarked and as many on each side.
#[verifier::external_body]
pub(crate) fn diff_hunks(d: &Diff) -> (hs: Vec<RawHunk>)
    requires
        unmarked_count(diff_removed(*d)) == unmarked_count(diff_added(*d)),
    ensures
        hs@ == marked_hunks(diff_removed(*d), diff_added(*d)),
        raw_hunks_ok(hs@, diff_removed(*d).len() as int, diff_added(*d).len() as int),
        hunks_cover_marks(hs@, diff_removed(*d), diff_added(*d)),
{
    d.hunks().map(|h| (h.before.start, h.before.end, h.after.start, h.after.end)).collect()
}

} // verus!
