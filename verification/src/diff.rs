//! From file contents to a `DiffUpdate`: line splitting, display
//! normalization, the binary heuristic and hunk construction around the
//! `imara-diff` line diff.

use vstd::prelude::*;
use crate::state::{
    ChangeKind, DiffUpdate, Hunk, HunkLine, LineModel, HunkModel, line_models, hunk_models, entries_wf, applied,
    applied_all, entry_paths, lemma_applied_wf, lemma_applied_paths,
};
use crate::text::chars_of;
use crate::linediff::{
    intern_lines, histogram_diff, is_removed_at, is_added_at, diff_hunks, histogram_marks,
    marked_hunks, diff_removed, diff_added,
};

verus! {

/// Lines of context kept around each change.
pub const CONTEXT_LINES: u32 = 3;

/// Columns between tab stops.
pub const TAB_WIDTH: usize = 4;

/// `s` without one trailing `\n`, then without one trailing `\r`.
pub open spec fn strip_terminator(s: Seq<char>) -> Seq<char> {
    let t = if s.len() > 0 && s.last() == '\n' {
        s.drop_last()
    } else {
        s
    };
    if t.len() > 0 && t.last() == '\r' {
        t.drop_last()
    } else {
        t
    }
}

/// `n` spaces.
pub open spec fn spaces(n: int) -> Seq<char> {
    Seq::new(n as nat, |i: int| ' ')
}

/// `t` with every tab replaced by the spaces that reach the next tab stop.
pub open spec fn expand_tabs(t: Seq<char>) -> Seq<char>
    decreases t.len(),
{
    if t.len() == 0 {
        t
    } else {
        let e = expand_tabs(t.drop_last());
        if t.last() == '\t' {
            e + spaces(4 - (e.len() as int) % 4)
        } else {
            e.push(t.last())
        }
    }
}

/// How a line is shown: terminator stripped, tabs expanded.
pub open spec fn display_text(s: Seq<char>) -> Seq<char> {
    expand_tabs(strip_terminator(s))
}

/// Strip the line terminator that line tokens carry and expand `\t` to the
/// next tab stop.
pub fn normalize_for_display(s: &str) -> (out: String)
    ensures
        out@ == display_text(s@),
{
    let cs = chars_of(s);
    let mut end: usize = cs.len();
    if end > 0 && cs[end - 1] == '\n' {
        end -= 1;
    }
    if end > 0 && cs[end - 1] == '\r' {
        end -= 1;
    }
    let ghost t = cs@.take(end as int);
    proof {
        assert(t =~= strip_terminator(s@)) by {
            let s1 = if s@.len() > 0 && s@.last() == '\n' {
                s@.drop_last()
            } else {
                s@
            };
            if cs@.len() > 0 && cs@[cs@.len() - 1] == '\n' {
                assert(s1 =~= cs@.take(cs@.len() - 1));
            } else {
                assert(s1 =~= cs@.take(cs@.len() as int));
            }
        }
    }
    let mut out = String::new();
    let mut phase: usize = 0;
    let mut i: usize = 0;
    while i < end
        invariant
            i <= end <= cs@.len(),
            t == cs@.take(end as int),
            out@ == expand_tabs(t.take(i as int)),
            phase == out@.len() % 4,
        decreases end - i,
    {
        let ch = cs[i];
        proof {
            assert(t.take(i + 1).drop_last() =~= t.take(i as int));
            assert(t.take(i + 1).last() == ch);
        }
        if ch == '\t' {
            let pad = TAB_WIDTH - phase;
            let ghost e = out@;
            let mut k: usize = 0;
            while k < pad
                invariant
                    k <= pad,
                    out@ == e + spaces(k as int),
                decreases pad - k,
            {
                out.push(' ');
                proof {
                    assert(e + spaces(k + 1) =~= (e + spaces(k as int)).push(' '));
                }
                k += 1;
            }
            proof {
                assert(out@.len() % 4 == 0) by (nonlinear_arith)
                    requires
                        out@.len() == e.len() + pad,
                        pad == 4 - e.len() % 4,
                ;
            }
            phase = 0;
        } else {
            out.push(ch);
            phase = if phase == 3 {
                0
            } else {
                phase + 1
            };
            proof {
                assert(out@.len() % 4 == phase) by (nonlinear_arith)
                    requires
                        out@.len() == (out@.len() - 1) + 1,
                        (out@.len() - 1) % 4 == (if phase == 0 {
                            3
                        } else {
                            phase - 1
                        }),
                        phase < 4,
                ;
            }
        }
        i += 1;
    }
    proof {
        assert(t.take(end as int) =~= t);
    }
    out
}

/// The lines of `s`, each with its `\n` terminator if it has one; a final
/// piece without terminator is a line too, an empty rest is not.
pub open spec fn split_lines(s: Seq<char>) -> Seq<Seq<char>>
    decreases s.len(),
{
    if s.len() == 0 {
        Seq::empty()
    } else {
        let k = first_newline_end(s, 0);
        proof {
            lemma_first_newline_end(s, 0);
        }
        seq![s.take(k)] + split_lines(s.skip(k))
    }
}

/// One past the first `\n` at or after `from`, or the length if there is
/// none.
pub open spec fn first_newline_end(s: Seq<char>, from: int) -> int
    decreases s.len() - from,
{
    if from >= s.len() {
        s.len() as int
    } else if s[from] == '\n' {
        from + 1
    } else {
        first_newline_end(s, from + 1)
    }
}

/// The end of the first line lies past `from` and within `s`.
pub proof fn lemma_first_newline_end(s: Seq<char>, from: int)
    requires
        0 <= from,
    ensures
        from < s.len() ==> from < first_newline_end(s, from) <= s.len(),
        from >= s.len() ==> first_newline_end(s, from) == s.len(),
    decreases s.len() - from,
{
    if from < s.len() && s[from] != '\n' {
        lemma_first_newline_end(s, from + 1);
    }
}

/// The lines of `s` as `split_lines` cuts them.
pub fn split_into_lines(s: &str) -> (lines: Vec<String>)
    ensures
        lines@.len() == split_lines(s@).len(),
        forall|k: int| 0 <= k < lines@.len() ==> (#[trigger] lines@[k])@ == split_lines(s@)[k],
{
    let cs = chars_of(s);
    let ghost full = s@;
    let mut lines: Vec<String> = Vec::new();
    let ghost mut done: Seq<Seq<char>> = Seq::empty();
    let mut cur = String::new();
    let mut start: usize = 0;
    let mut i: usize = 0;
    proof {
        assert(full.skip(0) =~= full);
        assert(done + split_lines(full) =~= split_lines(full));
        assert(full.subrange(0, 0) =~= Seq::<char>::empty());
    }
    while i < cs.len()
        invariant
            cs@ == full,
            start <= i <= cs@.len(),
            lines@.len() == done.len(),
            forall|k: int| 0 <= k < done.len() ==> (#[trigger] lines@[k])@ == done[k],
            done + split_lines(full.skip(start as int)) == split_lines(full),
            cur@ == full.subrange(start as int, i as int),
            first_newline_end(full.skip(start as int), 0) == first_newline_end(
                full.skip(start as int),
                i - start,
            ),
        decreases cs.len() - i,
    {
        let ch = cs[i];
        cur.push(ch);
        let ghost t = full.skip(start as int);
        assert(t[i - start] == ch);
        if ch == '\n' {
            proof {
                let k = i - start + 1;
                assert(first_newline_end(t, 0) == k);
                assert(t.len() > 0);
                assert(t.take(k) =~= full.subrange(start as int, i + 1));
                assert(t.skip(k) =~= full.skip(i + 1));
                assert(done.push(t.take(k)) + split_lines(t.skip(k)) =~= done + split_lines(t));
                done = done.push(t.take(k));
            }
            lines.push(cur);
            cur = String::new();
            start = i + 1;
            proof {
                assert(full.subrange(start as int, start as int) =~= Seq::<char>::empty());
            }
        } else {
            proof {
                assert(full.subrange(start as int, i + 1) =~= full.subrange(start as int, i as int).push(ch));
            }
        }
        i += 1;
    }
    if start < cs.len() {
        proof {
            let t = full.skip(start as int);
            lemma_first_newline_end(t, t.len() as int);
            assert(first_newline_end(t, 0) == t.len());
            assert(t.take(t.len() as int) =~= full.subrange(start as int, cs@.len() as int));
            assert(t.skip(t.len() as int) =~= Seq::<char>::empty());
            assert(done.push(t) + split_lines(Seq::<char>::empty()) =~= done + split_lines(t));
            done = done.push(t);
        }
        lines.push(cur);
    } else {
        proof {
            assert(full.skip(start as int) =~= Seq::<char>::empty());
        }
    }
    proof {
        assert(done =~= split_lines(full));
    }
    lines
}

/// A file's bytes hold a NUL within their first 8000 bytes: the heuristic
/// git's xdiff uses for binary content.
pub open spec fn spec_looks_binary(bytes: Seq<u8>) -> bool {
    exists|i: int| 0 <= i < bytes.len() && i < 8000 && bytes[i] == 0
}

/// Whether `bytes` look binary: a NUL within the first 8000 bytes.
pub fn looks_binary(bytes: &[u8]) -> (res: bool)
    ensures
        res == spec_looks_binary(bytes@),
{
    let mut i: usize = 0;
    while i < bytes.len() && i < 8000
        invariant
            i <= bytes@.len(),
            i <= 8000,
            forall|k: int| 0 <= k < i ==> bytes@[k] != 0,
        decreases bytes.len() - i,
    {
        if bytes[i] == 0 {
            return true;
        }
        i += 1;
    }
    false
}

/// An update that marks `path` as holding no change, stamped `now`.
pub fn clean_update(path: String, status: ChangeKind, now: i128) -> (u: DiffUpdate)
    ensures
        u.path == path,
        u.status == status,
        u.mtime == now,
        u.hunks@.len() == 0,
        u.added == 0,
        u.removed == 0,
        !u.binary,
{
    DiffUpdate { path, mtime: now, status, hunks: Vec::new(), added: 0, removed: 0, binary: false }
}

/// A change as the line diff reports it: `(before.start, before.end,
/// after.start, after.end)`, half-open line ranges.
pub type RawHunk = (u32, u32, u32, u32);

/// The characters of each string.
pub open spec fn views(v: Seq<String>) -> Seq<Seq<char>> {
    v.map_values(|s: String| s@)
}

/// `a - b`, or 0 below zero.
pub open spec fn sub_or_zero(a: int, b: int) -> int {
    if a >= b {
        a - b
    } else {
        0
    }
}

/// Changes the line diff may report for inputs of `nb` and `na` lines: each
/// range within its input, and each change strictly after the previous one
/// on both sides.
pub open spec fn raw_hunks_ok(raw: Seq<RawHunk>, nb: int, na: int) -> bool {
    &&& forall|k: int|
        0 <= k < raw.len() ==> (#[trigger] raw[k]).0 <= raw[k].1 <= nb && raw[k].2 <= raw[k].3 <= na
    &&& forall|k: int|
        0 <= k < raw.len() - 1 ==> (#[trigger] raw[k]).1 < raw[k + 1].0 && raw[k].3 < raw[k + 1].2
}

/// Changes closer than `2 * context` lines (on the before side) merged into
/// one, scanning left to right.
pub open spec fn merge_hunks(raw: Seq<RawHunk>, context: u32) -> Seq<RawHunk>
    decreases raw.len(),
{
    if raw.len() == 0 {
        Seq::empty()
    } else {
        let m = merge_hunks(raw.drop_last(), context);
        let h = raw.last();
        if m.len() > 0 && sub_or_zero(h.0 as int, m.last().1 as int) <= 2 * context {
            m.update(m.len() - 1, (m.last().0, h.1, m.last().2, h.3))
        } else {
            m.push(h)
        }
    }
}

/// Context lines for before-lines `from..to`.
pub open spec fn context_lines(before: Seq<Seq<char>>, from: int, to: int) -> Seq<LineModel> {
    Seq::new(
        sub_or_zero(to, from) as nat,
        |k: int| LineModel::Context(display_text(before[from + k])),
    )
}

/// Steps left in a hunk walk.
pub open spec fn walk_measure(i: int, iend: int, j: int, jend: int) -> nat {
    (sub_or_zero(iend, i) + sub_or_zero(jend, j)) as nat
}

/// The body of a hunk: walking both sides, a removed before-line first, then
/// an added after-line, then a line present on both sides as context; the
/// walk stops when no step applies.
pub open spec fn body_lines(
    before: Seq<Seq<char>>,
    after: Seq<Seq<char>>,
    removed: Seq<bool>,
    added: Seq<bool>,
    i: int,
    iend: int,
    j: int,
    jend: int,
) -> Seq<LineModel>
    decreases walk_measure(i, iend, j, jend),
{
    if !(i < iend || j < jend) {
        Seq::empty()
    } else if i < iend && removed[i] {
        seq![LineModel::Removed(display_text(before[i]))] + body_lines(
            before,
            after,
            removed,
            added,
            i + 1,
            iend,
            j,
            jend,
        )
    } else if j < jend && added[j] {
        seq![LineModel::Added(display_text(after[j]))] + body_lines(
            before,
            after,
            removed,
            added,
            i,
            iend,
            j + 1,
            jend,
        )
    } else if i < iend && j < jend {
        seq![LineModel::Context(display_text(before[i]))] + body_lines(
            before,
            after,
            removed,
            added,
            i + 1,
            iend,
            j + 1,
            jend,
        )
    } else {
        Seq::empty()
    }
}

/// `a + b` capped at `cap`.
pub open spec fn min_sum(a: int, b: int, cap: int) -> int {
    if a + b < cap {
        a + b
    } else {
        cap
    }
}

/// The hunk for one merged change: up to `context` lines before it, its
/// body, up to `context` lines after it (all context taken from the before
/// side), and its before/after ranges as `(start, count)`.
pub open spec fn hunk_model(
    before: Seq<Seq<char>>,
    after: Seq<Seq<char>>,
    removed: Seq<bool>,
    added: Seq<bool>,
    h: RawHunk,
    context: u32,
) -> HunkModel {
    let pre_b = sub_or_zero(h.0 as int, context as int);
    let post_b = min_sum(h.1 as int, context as int, before.len() as int);
    let pre_a = sub_or_zero(h.2 as int, context as int);
    let post_a = min_sum(h.3 as int, context as int, after.len() as int);
    HunkModel {
        old_range: (pre_b as u32, (post_b - pre_b) as u32),
        new_range: (pre_a as u32, (post_a - pre_a) as u32),
        lines: context_lines(before, pre_b, h.0 as int) + body_lines(
            before,
            after,
            removed,
            added,
            h.0 as int,
            h.1 as int,
            h.2 as int,
            h.3 as int,
        ) + context_lines(before, h.1 as int, post_b),
    }
}

/// The hunks built from a line diff.
pub open spec fn spec_hunks(
    before: Seq<Seq<char>>,
    after: Seq<Seq<char>>,
    removed: Seq<bool>,
    added: Seq<bool>,
    raw: Seq<RawHunk>,
    context: u32,
) -> Seq<HunkModel> {
    merge_hunks(raw, context).map_values(
        |h: RawHunk| hunk_model(before, after, removed, added, h, context),
    )
}

/// Number of removed lines.
pub open spec fn removed_count(lines: Seq<LineModel>) -> int
    decreases lines.len(),
{
    if lines.len() == 0 {
        0
    } else {
        removed_count(lines.drop_last()) + if lines.last() is Removed {
            1int
        } else {
            0
        }
    }
}

/// Number of added lines.
pub open spec fn added_count(lines: Seq<LineModel>) -> int
    decreases lines.len(),
{
    if lines.len() == 0 {
        0
    } else {
        added_count(lines.drop_last()) + if lines.last() is Added {
            1int
        } else {
            0
        }
    }
}

/// Removed lines over all hunks.
pub open spec fn hunks_removed(hs: Seq<HunkModel>) -> int
    decreases hs.len(),
{
    if hs.len() == 0 {
        0
    } else {
        hunks_removed(hs.drop_last()) + removed_count(hs.last().lines)
    }
}

/// Added lines over all hunks.
pub open spec fn hunks_added(hs: Seq<HunkModel>) -> int
    decreases hs.len(),
{
    if hs.len() == 0 {
        0
    } else {
        hunks_added(hs.drop_last()) + added_count(hs.last().lines)
    }
}

proof fn lemma_counts_concat(a: Seq<LineModel>, b: Seq<LineModel>)
    ensures
        context_count(a + b) == context_count(a) + context_count(b),
        removed_count(a + b) == removed_count(a) + removed_count(b),
        added_count(a + b) == added_count(a) + added_count(b),
    decreases b.len(),
{
    if b.len() > 0 {
        lemma_counts_concat(a, b.drop_last());
        assert((a + b).drop_last() =~= a + b.drop_last());
    }
}

proof fn lemma_context_counts(before: Seq<Seq<char>>, from: int, to: int)
    ensures
        context_count(context_lines(before, from, to)) == sub_or_zero(to, from),
        removed_count(context_lines(before, from, to)) == 0,
        added_count(context_lines(before, from, to)) == 0,
    decreases sub_or_zero(to, from),
{
    if to > from {
        lemma_context_counts(before, from, to - 1);
        assert(context_lines(before, from, to).drop_last() =~= context_lines(before, from, to - 1));
    }
}

/// Number of context lines.
pub open spec fn context_count(lines: Seq<LineModel>) -> int
    decreases lines.len(),
{
    if lines.len() == 0 {
        0
    } else {
        context_count(lines.drop_last()) + if lines.last() is Context {
            1int
        } else {
            0
        }
    }
}

/// A hunk's ranges count its lines: the before side holds its context and
/// removed lines, the after side its context and added lines.
pub open spec fn hunk_counts_ok(h: HunkModel) -> bool {
    &&& h.old_range.1 == context_count(h.lines) + removed_count(h.lines)
    &&& h.new_range.1 == context_count(h.lines) + added_count(h.lines)
}

/// Every hunk's ranges count its lines.
pub open spec fn hunks_counts_ok(hs: Seq<HunkModel>) -> bool {
    forall|k: int| 0 <= k < hs.len() ==> hunk_counts_ok(#[trigger] hs[k])
}

/// Unmarked entries of `m` in `from..to`.
pub open spec fn unmarked_in(m: Seq<bool>, from: int, to: int) -> int
    decreases to - from,
{
    if from >= to {
        0
    } else {
        (if m[from] {
            0int
        } else {
            1
        }) + unmarked_in(m, from + 1, to)
    }
}

/// Every entry of `m` in `from..to` is marked.
pub open spec fn all_marked(m: Seq<bool>, from: int, to: int) -> bool {
    forall|x: int| from <= x < to ==> #[trigger] m[x]
}

/// No entry of `m` in `from..to` is marked.
pub open spec fn none_marked(m: Seq<bool>, from: int, to: int) -> bool {
    forall|x: int| from <= x < to ==> !#[trigger] m[x]
}

/// How the changes of a line diff sit among its marks: each change's lines
/// are all marked, and before the first change, between two changes and
/// after the last one the lines are unmarked and as many on each side.
pub open spec fn hunks_cover_marks(hs: Seq<RawHunk>, removed: Seq<bool>, added: Seq<bool>) -> bool {
    &&& forall|k: int|
        0 <= k < hs.len() ==> all_marked(removed, (#[trigger] hs[k]).0 as int, hs[k].1 as int) && all_marked(
            added,
            hs[k].2 as int,
            hs[k].3 as int,
        )
    &&& hs.len() == 0 ==> removed.len() == added.len() && none_marked(removed, 0, removed.len() as int)
        && none_marked(added, 0, added.len() as int)
    &&& hs.len() > 0 ==> hs[0].0 == hs[0].2 && none_marked(removed, 0, hs[0].0 as int) && none_marked(
        added,
        0,
        hs[0].2 as int,
    )
    &&& forall|k: int|
        0 <= k < hs.len() - 1 ==> (#[trigger] hs[k + 1]).0 - hs[k].1 == hs[k + 1].2 - hs[k].3 && none_marked(
            removed,
            hs[k].1 as int,
            hs[k + 1].0 as int,
        ) && none_marked(added, hs[k].3 as int, hs[k + 1].2 as int)
    &&& hs.len() > 0 ==> removed.len() - hs.last().1 == added.len() - hs.last().3 && none_marked(
        removed,
        hs.last().1 as int,
        removed.len() as int,
    ) && none_marked(added, hs.last().3 as int, added.len() as int)
}

proof fn lemma_unmarked_nonneg(m: Seq<bool>, a: int, b: int)
    ensures
        unmarked_in(m, a, b) >= 0,
    decreases b - a,
{
    if a < b {
        lemma_unmarked_nonneg(m, a + 1, b);
    }
}

proof fn lemma_unmarked_split(m: Seq<bool>, a: int, b: int, c: int)
    requires
        a <= b <= c,
    ensures
        unmarked_in(m, a, c) == unmarked_in(m, a, b) + unmarked_in(m, b, c),
    decreases b - a,
{
    if a < b {
        lemma_unmarked_split(m, a + 1, b, c);
    }
}

proof fn lemma_unmarked_all(m: Seq<bool>, a: int, b: int)
    requires
        a <= b,
    ensures
        all_marked(m, a, b) ==> unmarked_in(m, a, b) == 0,
        none_marked(m, a, b) ==> unmarked_in(m, a, b) == b - a,
    decreases b - a,
{
    if a < b {
        lemma_unmarked_all(m, a + 1, b);
    }
}

proof fn lemma_counts_front(x: LineModel, rest: Seq<LineModel>)
    ensures
        context_count(seq![x] + rest) == context_count(rest) + if x is Context {
            1int
        } else {
            0
        },
        removed_count(seq![x] + rest) == removed_count(rest) + if x is Removed {
            1int
        } else {
            0
        },
        added_count(seq![x] + rest) == added_count(rest) + if x is Added {
            1int
        } else {
            0
        },
    decreases rest.len(),
{
    if rest.len() > 0 {
        lemma_counts_front(x, rest.drop_last());
        assert((seq![x] + rest).drop_last() =~= seq![x] + rest.drop_last());
        assert((seq![x] + rest).last() == rest.last());
    } else {
        assert(seq![x] + rest =~= seq![x]);
        assert(seq![x].drop_last() =~= Seq::<LineModel>::empty());
        assert(seq![x].last() == x);
        assert(rest =~= Seq::<LineModel>::empty());
    }
}

/// What a merged change needs for its ranges to count its lines: as many
/// unmarked lines on each side inside it, as many context lines on each
/// side before it, and (unless it is the last) after it.
pub open spec fn merged_fits(m: RawHunk, removed: Seq<bool>, added: Seq<bool>, c: u32) -> bool {
    &&& unmarked_in(removed, m.0 as int, m.1 as int) == unmarked_in(added, m.2 as int, m.3 as int)
    &&& m.0 - sub_or_zero(m.0 as int, c as int) == m.2 - sub_or_zero(m.2 as int, c as int)
}

/// The context after a merged change is as long on each side.
pub open spec fn tail_fits(m: RawHunk, nb: int, na: int, c: u32) -> bool {
    min_sum(m.1 as int, c as int, nb) - m.1 == min_sum(m.3 as int, c as int, na) - m.3
}

proof fn lemma_merged_fit(raw: Seq<RawHunk>, removed: Seq<bool>, added: Seq<bool>, c: u32, n: int)
    requires
        raw_hunks_ok(raw, removed.len() as int, added.len() as int),
        hunks_cover_marks(raw, removed, added),
        0 <= n <= raw.len(),
    ensures
        forall|k: int|
            0 <= k < merge_hunks(raw.take(n), c).len() ==> merged_fits(
                #[trigger] merge_hunks(raw.take(n), c)[k],
                removed,
                added,
                c,
            ),
        forall|k: int|
            0 <= k < merge_hunks(raw.take(n), c).len() - 1 ==> tail_fits(
                #[trigger] merge_hunks(raw.take(n), c)[k],
                removed.len() as int,
                added.len() as int,
                c,
            ),
    decreases n,
{
    let nb = removed.len() as int;
    let na = added.len() as int;
    if n > 0 {
        let pre = raw.take(n - 1);
        let cur = raw.take(n);
        assert(cur.drop_last() =~= pre);
        assert(cur.last() == raw[n - 1]);
        lemma_merged_fit(raw, removed, added, c, n - 1);
        assert(raw_hunks_ok(pre, nb, na)) by {
            assert forall|k: int| 0 <= k < pre.len() - 1 implies (#[trigger] pre[k]).1 < pre[k + 1].0 && pre[k].3
                < pre[k + 1].2 by {
                assert(pre[k] == raw[k] && pre[k + 1] == raw[k + 1]);
            }
            assert forall|k: int| 0 <= k < pre.len() implies (#[trigger] pre[k]).0 <= pre[k].1 <= nb && pre[k].2
                <= pre[k].3 <= na by {
                assert(pre[k] == raw[k]);
            }
        }
        lemma_merge_ok(pre, c, nb, na);
        let m = merge_hunks(pre, c);
        let h = raw[n - 1];
        let mm = merge_hunks(cur, c);
        assert(all_marked(removed, h.0 as int, h.1 as int) && all_marked(added, h.2 as int, h.3 as int));
        lemma_unmarked_all(removed, h.0 as int, h.1 as int);
        lemma_unmarked_all(added, h.2 as int, h.3 as int);
        if m.len() > 0 && sub_or_zero(h.0 as int, m.last().1 as int) <= 2 * c {
            let last = m.last();
            let p = raw[n - 2];
            assert(pre.last() == p);
            assert(raw[n - 1].0 - raw[n - 2].1 == raw[n - 1].2 - raw[n - 2].3);
            assert(none_marked(removed, p.1 as int, h.0 as int) && none_marked(added, p.3 as int, h.2 as int));
            lemma_unmarked_all(removed, p.1 as int, h.0 as int);
            lemma_unmarked_all(added, p.3 as int, h.2 as int);
            assert(merged_fits(last, removed, added, c));
            lemma_unmarked_split(removed, last.0 as int, last.1 as int, h.0 as int);
            lemma_unmarked_split(removed, last.0 as int, h.0 as int, h.1 as int);
            lemma_unmarked_split(added, last.2 as int, last.3 as int, h.2 as int);
            lemma_unmarked_split(added, last.2 as int, h.2 as int, h.3 as int);
            assert(merged_fits(mm[mm.len() - 1], removed, added, c));
            assert forall|k: int| 0 <= k < mm.len() implies merged_fits(#[trigger] mm[k], removed, added, c) by {
                if k < mm.len() - 1 {
                    assert(mm[k] == m[k]);
                }
            }
            assert forall|k: int| 0 <= k < mm.len() - 1 implies tail_fits(
                #[trigger] mm[k],
                nb,
                na,
                c,
            ) by {
                assert(mm[k] == m[k]);
            }
        } else {
            assert(mm == m.push(h));
            if n == 1 {
                assert(h == raw[0]);
            } else {
                let p = raw[n - 2];
                assert(pre.last() == p);
                assert(m.last().1 == p.1 && m.last().3 == p.3);
                assert(raw[n - 1].0 - raw[n - 2].1 == raw[n - 1].2 - raw[n - 2].3);
                assert(tail_fits(m.last(), nb, na, c));
            }
            assert(merged_fits(h, removed, added, c));
            assert forall|k: int| 0 <= k < mm.len() implies merged_fits(#[trigger] mm[k], removed, added, c) by {
                if k < mm.len() - 1 {
                    assert(mm[k] == m[k]);
                }
            }
            assert forall|k: int| 0 <= k < mm.len() - 1 implies tail_fits(
                #[trigger] mm[k],
                nb,
                na,
                c,
            ) by {
                assert(mm[k] == m[k]);
            }
        }
    }
}

/// Consecutive hunks leave a gap: each ends before the next one starts, on
/// the before side.
pub open spec fn hunks_ascend(hs: Seq<HunkModel>) -> bool {
    forall|k: int|
        0 <= k < hs.len() - 1 ==> (#[trigger] hs[k]).old_range.0 + hs[k].old_range.1 < hs[k + 1].old_range.0
}

proof fn lemma_merge_gaps(raw: Seq<RawHunk>, c: u32)
    ensures
        forall|k: int|
            0 <= k < merge_hunks(raw, c).len() - 1 ==> sub_or_zero(
                merge_hunks(raw, c)[k + 1].0 as int,
                (#[trigger] merge_hunks(raw, c)[k]).1 as int,
            ) > 2 * c,
    decreases raw.len(),
{
    if raw.len() > 0 {
        let r = raw.drop_last();
        lemma_merge_gaps(r, c);
        let m = merge_hunks(r, c);
        let mm = merge_hunks(raw, c);
        assert forall|k: int| 0 <= k < mm.len() - 1 implies sub_or_zero(
            mm[k + 1].0 as int,
            (#[trigger] mm[k]).1 as int,
        ) > 2 * c by {
            if k < m.len() - 1 {
                assert(mm[k] == m[k]);
                assert(mm[k + 1].0 == m[k + 1].0);
            } else {
                assert(mm[k] == m[k]);
            }
        }
    }
}

/// Hunks built from a well-formed line diff ascend with gaps.
proof fn lemma_spec_hunks_ascend(
    before: Seq<Seq<char>>,
    after: Seq<Seq<char>>,
    removed: Seq<bool>,
    added: Seq<bool>,
    raw: Seq<RawHunk>,
    c: u32,
)
    requires
        raw_hunks_ok(raw, before.len() as int, after.len() as int),
    ensures
        hunks_ascend(spec_hunks(before, after, removed, added, raw, c)),
{
    lemma_merge_gaps(raw, c);
    lemma_merge_ok(raw, c, before.len() as int, after.len() as int);
    let mm = merge_hunks(raw, c);
    let hs = spec_hunks(before, after, removed, added, raw, c);
    assert forall|k: int| 0 <= k < hs.len() - 1 implies (#[trigger] hs[k]).old_range.0 + hs[k].old_range.1
        < hs[k + 1].old_range.0 by {
        assert(sub_or_zero(mm[k + 1].0 as int, mm[k].1 as int) > 2 * c);
        assert(mm[k].1 < mm[k + 1].0);
    }
}

/// `t` holds no `\n`.
pub open spec fn no_newline(t: Seq<char>) -> bool {
    forall|k: int| 0 <= k < t.len() ==> #[trigger] t[k] != '\n'
}

/// `t` holds no `\n` but maybe as its last character.
pub open spec fn one_line(t: Seq<char>) -> bool {
    forall|k: int| 0 <= k < t.len() - 1 ==> #[trigger] t[k] != '\n'
}

/// The text a line model carries.
pub open spec fn model_text(l: LineModel) -> Seq<char> {
    match l {
        LineModel::Context(t) => t,
        LineModel::Added(t) => t,
        LineModel::Removed(t) => t,
    }
}

/// No line of any hunk holds a `\n`: each hunk line is one screen line.
pub open spec fn hunks_single_lines(hs: Seq<HunkModel>) -> bool {
    forall|k: int, l: int|
        0 <= k < hs.len() && 0 <= l < hs[k].lines.len() ==> no_newline(model_text(#[trigger] hs[k].lines[l]))
}

proof fn lemma_newline_end_clear(s: Seq<char>, from: int)
    requires
        0 <= from,
    ensures
        forall|x: int| from <= x < first_newline_end(s, from) - 1 ==> #[trigger] s[x] != '\n',
    decreases s.len() - from,
{
    if from < s.len() && s[from] != '\n' {
        lemma_newline_end_clear(s, from + 1);
    }
}

/// Every line `split_lines` makes holds a `\n` at most at its end.
pub proof fn lemma_split_lines_one_line(s: Seq<char>)
    ensures
        forall|i: int| 0 <= i < split_lines(s).len() ==> one_line(#[trigger] split_lines(s)[i]),
    decreases s.len(),
{
    if s.len() > 0 {
        let k = first_newline_end(s, 0);
        lemma_first_newline_end(s, 0);
        lemma_newline_end_clear(s, 0);
        lemma_split_lines_one_line(s.skip(k));
        let ls = split_lines(s);
        assert forall|i: int| 0 <= i < ls.len() implies one_line(#[trigger] ls[i]) by {
            if i == 0 {
                assert(ls[0] == s.take(k));
                assert forall|x: int| 0 <= x < s.take(k).len() - 1 implies #[trigger] s.take(k)[x] != '\n' by {
                    assert(s.take(k)[x] == s[x]);
                }
            } else {
                assert(ls[i] == split_lines(s.skip(k))[i - 1]);
            }
        }
    }
}

proof fn lemma_expand_tabs_no_newline(t: Seq<char>)
    requires
        no_newline(t),
    ensures
        no_newline(expand_tabs(t)),
    decreases t.len(),
{
    if t.len() > 0 {
        assert(no_newline(t.drop_last())) by {
            assert forall|k: int| 0 <= k < t.drop_last().len() implies #[trigger] t.drop_last()[k] != '\n' by {
                assert(t.drop_last()[k] == t[k]);
            }
        }
        lemma_expand_tabs_no_newline(t.drop_last());
        let e = expand_tabs(t.drop_last());
        if t.last() == '\t' {
            let r = e + spaces(4 - (e.len() as int) % 4);
            assert forall|k: int| 0 <= k < r.len() implies #[trigger] r[k] != '\n' by {
                if k < e.len() {
                    assert(r[k] == e[k]);
                }
            }
        } else {
            let r = e.push(t.last());
            assert forall|k: int| 0 <= k < r.len() implies #[trigger] r[k] != '\n' by {
                if k < e.len() {
                    assert(r[k] == e[k]);
                }
            }
        }
    }
}

/// A line that holds `\n` only at its end is shown without any.
proof fn lemma_display_no_newline(t: Seq<char>)
    requires
        one_line(t),
    ensures
        no_newline(display_text(t)),
{
    let u = strip_terminator(t);
    assert forall|k: int| 0 <= k < u.len() implies #[trigger] u[k] != '\n' by {
        assert(u[k] == t[k]);
    }
    lemma_expand_tabs_no_newline(u);
}

proof fn lemma_body_single_lines(
    before: Seq<Seq<char>>,
    after: Seq<Seq<char>>,
    removed: Seq<bool>,
    added: Seq<bool>,
    i: int,
    iend: int,
    j: int,
    jend: int,
)
    requires
        0 <= i,
        0 <= j,
        iend <= before.len(),
        jend <= after.len(),
        forall|x: int| 0 <= x < before.len() ==> one_line(#[trigger] before[x]),
        forall|y: int| 0 <= y < after.len() ==> one_line(#[trigger] after[y]),
    ensures
        forall|l: int|
            0 <= l < body_lines(before, after, removed, added, i, iend, j, jend).len() ==> no_newline(
                model_text(#[trigger] body_lines(before, after, removed, added, i, iend, j, jend)[l]),
            ),
    decreases walk_measure(i, iend, j, jend),
{
    let b = body_lines(before, after, removed, added, i, iend, j, jend);
    if !(i < iend || j < jend) {
    } else if i < iend && removed[i] {
        lemma_body_single_lines(before, after, removed, added, i + 1, iend, j, jend);
        lemma_display_no_newline(before[i]);
        let rest = body_lines(before, after, removed, added, i + 1, iend, j, jend);
        assert forall|l: int| 0 <= l < b.len() implies no_newline(model_text(#[trigger] b[l])) by {
            if l > 0 {
                assert(b[l] == rest[l - 1]);
            }
        }
    } else if j < jend && added[j] {
        lemma_body_single_lines(before, after, removed, added, i, iend, j + 1, jend);
        lemma_display_no_newline(after[j]);
        let rest = body_lines(before, after, removed, added, i, iend, j + 1, jend);
        assert forall|l: int| 0 <= l < b.len() implies no_newline(model_text(#[trigger] b[l])) by {
            if l > 0 {
                assert(b[l] == rest[l - 1]);
            }
        }
    } else if i < iend && j < jend {
        lemma_body_single_lines(before, after, removed, added, i + 1, iend, j + 1, jend);
        lemma_display_no_newline(before[i]);
        let rest = body_lines(before, after, removed, added, i + 1, iend, j + 1, jend);
        assert forall|l: int| 0 <= l < b.len() implies no_newline(model_text(#[trigger] b[l])) by {
            if l > 0 {
                assert(b[l] == rest[l - 1]);
            }
        }
    }
}

proof fn lemma_spec_hunks_single_lines(
    before: Seq<Seq<char>>,
    after: Seq<Seq<char>>,
    removed: Seq<bool>,
    added: Seq<bool>,
    raw: Seq<RawHunk>,
    c: u32,
)
    requires
        raw_hunks_ok(raw, before.len() as int, after.len() as int),
        forall|x: int| 0 <= x < before.len() ==> one_line(#[trigger] before[x]),
        forall|y: int| 0 <= y < after.len() ==> one_line(#[trigger] after[y]),
    ensures
        hunks_single_lines(spec_hunks(before, after, removed, added, raw, c)),
{
    lemma_merge_ok(raw, c, before.len() as int, after.len() as int);
    let mm = merge_hunks(raw, c);
    let hs = spec_hunks(before, after, removed, added, raw, c);
    assert forall|k: int, l: int| 0 <= k < hs.len() && 0 <= l < hs[k].lines.len() implies no_newline(
        model_text(#[trigger] hs[k].lines[l]),
    ) by {
        let m = mm[k];
        let pre_b = sub_or_zero(m.0 as int, c as int);
        let post_b = min_sum(m.1 as int, c as int, before.len() as int);
        let a = context_lines(before, pre_b, m.0 as int);
        let body = body_lines(before, after, removed, added, m.0 as int, m.1 as int, m.2 as int, m.3 as int);
        let z = context_lines(before, m.1 as int, post_b);
        assert(hs[k].lines == a + body + z);
        lemma_body_single_lines(before, after, removed, added, m.0 as int, m.1 as int, m.2 as int, m.3 as int);
        if l < a.len() {
            assert(hs[k].lines[l] == a[l]);
            lemma_display_no_newline(before[pre_b + l]);
        } else if l < a.len() + body.len() {
            assert(hs[k].lines[l] == body[l - a.len()]);
        } else {
            let zl = l - a.len() - body.len();
            assert(hs[k].lines[l] == z[zl]);
            lemma_display_no_newline(before[m.1 + zl]);
        }
    }
}

/// Every hunk starts within its sides: at most `nb` lines into the before
/// side and `na` into the after side.
pub open spec fn hunks_start_within(hs: Seq<HunkModel>, nb: int, na: int) -> bool {
    forall|k: int| 0 <= k < hs.len() ==> (#[trigger] hs[k]).old_range.0 <= nb && hs[k].new_range.0 <= na
}

proof fn lemma_spec_hunks_start_within(
    before: Seq<Seq<char>>,
    after: Seq<Seq<char>>,
    removed: Seq<bool>,
    added: Seq<bool>,
    raw: Seq<RawHunk>,
    c: u32,
)
    requires
        raw_hunks_ok(raw, before.len() as int, after.len() as int),
        before.len() < u32::MAX,
        after.len() < u32::MAX,
    ensures
        hunks_start_within(spec_hunks(before, after, removed, added, raw, c), before.len() as int, after.len() as int),
{
    lemma_merge_ok(raw, c, before.len() as int, after.len() as int);
    let mm = merge_hunks(raw, c);
    let hs = spec_hunks(before, after, removed, added, raw, c);
    assert forall|k: int| 0 <= k < hs.len() implies (#[trigger] hs[k]).old_range.0 <= before.len() && hs[k].new_range.0
        <= after.len() by {
        let m = mm[k];
        assert(m.0 <= m.1 <= before.len() && m.2 <= m.3 <= after.len());
    }
}

proof fn lemma_hunk_counts(
    before: Seq<Seq<char>>,
    after: Seq<Seq<char>>,
    removed: Seq<bool>,
    added: Seq<bool>,
    m: RawHunk,
    c: u32,
)
    requires
        before.len() == removed.len(),
        after.len() == added.len(),
        removed.len() < u32::MAX,
        added.len() < u32::MAX,
        m.0 <= m.1 <= removed.len(),
        m.2 <= m.3 <= added.len(),
        merged_fits(m, removed, added, c),
        tail_fits(m, removed.len() as int, added.len() as int, c),
    ensures
        hunk_counts_ok(hunk_model(before, after, removed, added, m, c)),
{
    let pre_b = sub_or_zero(m.0 as int, c as int);
    let post_b = min_sum(m.1 as int, c as int, before.len() as int);
    let body = body_lines(before, after, removed, added, m.0 as int, m.1 as int, m.2 as int, m.3 as int);
    let a = context_lines(before, pre_b, m.0 as int);
    let z = context_lines(before, m.1 as int, post_b);
    lemma_body_counts(before, after, removed, added, m.0 as int, m.1 as int, m.2 as int, m.3 as int);
    lemma_context_counts(before, pre_b, m.0 as int);
    lemma_context_counts(before, m.1 as int, post_b);
    lemma_counts_concat(a, body);
    lemma_counts_concat(a + body, z);
}

/// Each hunk's ranges count its lines, when the changes sit among the
/// marks as a line diff leaves them.
proof fn lemma_spec_hunks_counts(
    before: Seq<Seq<char>>,
    after: Seq<Seq<char>>,
    removed: Seq<bool>,
    added: Seq<bool>,
    raw: Seq<RawHunk>,
    c: u32,
)
    requires
        before.len() == removed.len(),
        after.len() == added.len(),
        removed.len() < u32::MAX,
        added.len() < u32::MAX,
        raw_hunks_ok(raw, removed.len() as int, added.len() as int),
        hunks_cover_marks(raw, removed, added),
    ensures
        hunks_counts_ok(spec_hunks(before, after, removed, added, raw, c)),
{
    let nb = removed.len() as int;
    let na = added.len() as int;
    assert(raw.take(raw.len() as int) =~= raw);
    lemma_merged_fit(raw, removed, added, c, raw.len() as int);
    lemma_merge_ok(raw, c, nb, na);
    let mm = merge_hunks(raw, c);
    let hs = spec_hunks(before, after, removed, added, raw, c);
    assert forall|k: int| 0 <= k < hs.len() implies hunk_counts_ok(#[trigger] hs[k]) by {
        let m = mm[k];
        if k == mm.len() - 1 {
            assert(tail_fits(m, nb, na, c));
        }
        lemma_hunk_counts(before, after, removed, added, m, c);
    }
}

/// When both sides of a walk leave as many lines unmarked, the walk takes
/// every line: its context and removed lines are the before side's, its
/// context and added lines the after side's.
proof fn lemma_body_counts(
    before: Seq<Seq<char>>,
    after: Seq<Seq<char>>,
    removed: Seq<bool>,
    added: Seq<bool>,
    i: int,
    iend: int,
    j: int,
    jend: int,
)
    requires
        i <= iend,
        j <= jend,
        unmarked_in(removed, i, iend) == unmarked_in(added, j, jend),
    ensures
        context_count(body_lines(before, after, removed, added, i, iend, j, jend)) + removed_count(
            body_lines(before, after, removed, added, i, iend, j, jend),
        ) == iend - i,
        context_count(body_lines(before, after, removed, added, i, iend, j, jend)) + added_count(
            body_lines(before, after, removed, added, i, iend, j, jend),
        ) == jend - j,
    decreases walk_measure(i, iend, j, jend),
{
    let b = body_lines(before, after, removed, added, i, iend, j, jend);
    if !(i < iend || j < jend) {
    } else if i < iend && removed[i] {
        lemma_body_counts(before, after, removed, added, i + 1, iend, j, jend);
        lemma_counts_front(
            LineModel::Removed(display_text(before[i])),
            body_lines(before, after, removed, added, i + 1, iend, j, jend),
        );
    } else if j < jend && added[j] {
        lemma_body_counts(before, after, removed, added, i, iend, j + 1, jend);
        lemma_counts_front(
            LineModel::Added(display_text(after[j])),
            body_lines(before, after, removed, added, i, iend, j + 1, jend),
        );
    } else if i < iend && j < jend {
        lemma_body_counts(before, after, removed, added, i + 1, iend, j + 1, jend);
        lemma_counts_front(
            LineModel::Context(display_text(before[i])),
            body_lines(before, after, removed, added, i + 1, iend, j + 1, jend),
        );
    } else {
        // one side is exhausted and the other is at an unmarked line: the
        // counts of unmarked lines cannot then agree
        if i < iend {
            assert(unmarked_in(removed, i, iend) >= 1) by {
                lemma_unmarked_nonneg(removed, i + 1, iend);
            }
        } else {
            assert(unmarked_in(added, j, jend) >= 1) by {
                lemma_unmarked_nonneg(added, j + 1, jend);
            }
        }
    }
}

proof fn lemma_merge_ok(raw: Seq<RawHunk>, context: u32, nb: int, na: int)
    requires
        raw_hunks_ok(raw, nb, na),
    ensures
        raw_hunks_ok(merge_hunks(raw, context), nb, na),
        raw.len() > 0 ==> merge_hunks(raw, context).len() > 0 && merge_hunks(raw, context).last().1
            == raw.last().1 && merge_hunks(raw, context).last().3 == raw.last().3,
        merge_hunks(raw, context).len() <= raw.len(),
    decreases raw.len(),
{
    if raw.len() > 0 {
        let r = raw.drop_last();
        assert(raw_hunks_ok(r, nb, na)) by {
            assert forall|k: int| 0 <= k < r.len() - 1 implies (#[trigger] r[k]).1 < r[k + 1].0 && r[k].3
                < r[k + 1].2 by {
                assert(r[k] == raw[k] && r[k + 1] == raw[k + 1]);
            }
            assert forall|k: int| 0 <= k < r.len() implies (#[trigger] r[k]).0 <= r[k].1 <= nb && r[k].2
                <= r[k].3 <= na by {
                assert(r[k] == raw[k]);
            }
        }
        lemma_merge_ok(r, context, nb, na);
        let m = merge_hunks(r, context);
        let h = raw.last();
        assert(h == raw[raw.len() - 1]);
        if r.len() > 0 {
            assert(r.last() == raw[raw.len() - 2]);
        }
        let res = merge_hunks(raw, context);
        if m.len() > 0 && sub_or_zero(h.0 as int, m.last().1 as int) <= 2 * context {
            assert forall|k: int| 0 <= k < res.len() implies (#[trigger] res[k]).0 <= res[k].1 <= nb
                && res[k].2 <= res[k].3 <= na by {
                if k < res.len() - 1 {
                    assert(res[k] == m[k]);
                }
            }
            assert forall|k: int| 0 <= k < res.len() - 1 implies (#[trigger] res[k]).1 < res[k + 1].0
                && res[k].3 < res[k + 1].2 by {
                assert(res[k] == m[k]);
                if k + 1 < res.len() - 1 {
                    assert(res[k + 1] == m[k + 1]);
                }
            }
        } else {
            assert forall|k: int| 0 <= k < res.len() implies (#[trigger] res[k]).0 <= res[k].1 <= nb
                && res[k].2 <= res[k].3 <= na by {
                if k < res.len() - 1 {
                    assert(res[k] == m[k]);
                }
            }
            assert forall|k: int| 0 <= k < res.len() - 1 implies (#[trigger] res[k]).1 < res[k + 1].0
                && res[k].3 < res[k + 1].2 by {
                assert(res[k] == m[k]);
                if k + 1 < res.len() - 1 {
                    assert(res[k + 1] == m[k + 1]);
                }
            }
        }
    }
}

proof fn lemma_count_single(l: LineModel)
    ensures
        removed_count(seq![l]) == (if l is Removed {
            1int
        } else {
            0
        }),
        added_count(seq![l]) == (if l is Added {
            1int
        } else {
            0
        }),
{
    assert(seq![l].drop_last() =~= Seq::<LineModel>::empty());
    assert(removed_count(Seq::<LineModel>::empty()) == 0);
    assert(added_count(Seq::<LineModel>::empty()) == 0);
}

proof fn lemma_body_step(
    before: Seq<Seq<char>>,
    after: Seq<Seq<char>>,
    removed: Seq<bool>,
    added: Seq<bool>,
    i: int,
    iend: int,
    j: int,
    jend: int,
)
    requires
        i <= iend,
        j <= jend,
    ensures
        removed_count(body_lines(before, after, removed, added, i, iend, j, jend)) <= iend - i,
        added_count(body_lines(before, after, removed, added, i, iend, j, jend)) <= jend - j,
    decreases walk_measure(i, iend, j, jend),
{
    let b = body_lines(before, after, removed, added, i, iend, j, jend);
    if !(i < iend || j < jend) {
    } else if i < iend && removed[i] {
        let x = seq![LineModel::Removed(display_text(before[i]))];
        lemma_count_single(LineModel::Removed(display_text(before[i])));
        lemma_body_step(before, after, removed, added, i + 1, iend, j, jend);
        lemma_counts_concat(x, body_lines(before, after, removed, added, i + 1, iend, j, jend));
    } else if j < jend && added[j] {
        let x = seq![LineModel::Added(display_text(after[j]))];
        lemma_count_single(LineModel::Added(display_text(after[j])));
        lemma_body_step(before, after, removed, added, i, iend, j + 1, jend);
        lemma_counts_concat(x, body_lines(before, after, removed, added, i, iend, j + 1, jend));
    } else if i < iend && j < jend {
        let x = seq![LineModel::Context(display_text(before[i]))];
        lemma_count_single(LineModel::Context(display_text(before[i])));
        lemma_body_step(before, after, removed, added, i + 1, iend, j + 1, jend);
        lemma_counts_concat(x, body_lines(before, after, removed, added, i + 1, iend, j + 1, jend));
    }
}

/// Merge changes closer than `2 * context` before-lines.
fn merge_raw(raw: &Vec<RawHunk>, context: u32) -> (merged: Vec<RawHunk>)
    requires
        context <= u32::MAX / 2,
    ensures
        merged@ == merge_hunks(raw@, context),
{
    let mut merged: Vec<RawHunk> = Vec::new();
    let mut k: usize = 0;
    while k < raw.len()
        invariant
            k <= raw@.len(),
            context <= u32::MAX / 2,
            merged@ == merge_hunks(raw@.take(k as int), context),
        decreases raw.len() - k,
    {
        let h = raw[k];
        proof {
            assert(raw@.take(k + 1).drop_last() =~= raw@.take(k as int));
            assert(raw@.take(k + 1).last() == h);
        }
        let n = merged.len();
        if n > 0 && h.0.saturating_sub(merged[n - 1].1) <= 2 * context {
            let last = merged[n - 1];
            merged.set(n - 1, (last.0, h.1, last.2, h.3));
        } else {
            merged.push(h);
        }
        k += 1;
    }
    proof {
        assert(raw@.take(raw@.len() as int) =~= raw@);
    }
    merged
}

/// Append context lines for before-lines `from..to`.
fn push_context(lines: &mut Vec<HunkLine>, before: &Vec<String>, from: u32, to: u32)
    requires
        to <= before@.len(),
    ensures
        line_models(final(lines)@) == line_models(old(lines)@) + context_lines(
            views(before@),
            from as int,
            to as int,
        ),
{
    let ghost start = line_models(lines@);
    let mut i: u32 = from;
    if from >= to {
        proof {
            assert(context_lines(views(before@), from as int, to as int) =~= Seq::<LineModel>::empty());
            assert(start + Seq::<LineModel>::empty() =~= start);
        }
        return ;
    }
    proof {
        assert(start + context_lines(views(before@), from as int, from as int) =~= start);
    }
    while i < to
        invariant
            from <= i <= to <= before@.len(),
            line_models(lines@) == start + context_lines(views(before@), from as int, i as int),
        decreases to - i,
    {
        let text = normalize_for_display(before[i as usize].as_str());
        let ghost old_lines = lines@;
        lines.push(HunkLine::Context(text));
        proof {
            assert(line_models(lines@) =~= line_models(old_lines).push(
                LineModel::Context(display_text(views(before@)[i as int])),
            ));
            assert(context_lines(views(before@), from as int, i + 1) =~= context_lines(
                views(before@),
                from as int,
                i as int,
            ).push(LineModel::Context(display_text(views(before@)[i as int]))));
        }
        i += 1;
    }
}

/// Append the body of change `h`, counting removed and added lines.
fn walk_body(
    lines: &mut Vec<HunkLine>,
    before: &Vec<String>,
    after: &Vec<String>,
    removed: &Vec<bool>,
    added: &Vec<bool>,
    h: RawHunk,
    total_removed: &mut u32,
    total_added: &mut u32,
)
    requires
        removed@.len() == before@.len(),
        added@.len() == after@.len(),
        h.0 <= h.1 <= before@.len() < u32::MAX,
        h.2 <= h.3 <= after@.len() < u32::MAX,
        *old(total_removed) <= h.0,
        *old(total_added) <= h.2,
    ensures
        ({
            let b = body_lines(
                views(before@),
                views(after@),
                removed@,
                added@,
                h.0 as int,
                h.1 as int,
                h.2 as int,
                h.3 as int,
            );
            &&& line_models(final(lines)@) == line_models(old(lines)@) + b
            &&& *final(total_removed) == *old(total_removed) + removed_count(b)
            &&& *final(total_added) == *old(total_added) + added_count(b)
        }),
        *final(total_removed) <= h.1,
        *final(total_added) <= h.3,
{
    let ghost bv = views(before@);
    let ghost av = views(after@);
    let ghost full = body_lines(bv, av, removed@, added@, h.0 as int, h.1 as int, h.2 as int, h.3 as int);
    let ghost start = line_models(lines@);
    let ghost r0 = *total_removed;
    let ghost a0 = *total_added;
    let mut i: u32 = h.0;
    let mut j: u32 = h.2;
    let mut done = false;
    proof {
        assert(start + full =~= start + full);
    }
    while !done && (i < h.1 || j < h.3)
        invariant
            removed@.len() == before@.len(),
            added@.len() == after@.len(),
            bv == views(before@),
            av == views(after@),
            h.0 <= i <= h.1 <= before@.len() < u32::MAX,
            h.2 <= j <= h.3 <= after@.len() < u32::MAX,
            full == body_lines(bv, av, removed@, added@, h.0 as int, h.1 as int, h.2 as int, h.3 as int),
            done ==> body_lines(bv, av, removed@, added@, i as int, h.1 as int, j as int, h.3 as int)
                == Seq::<LineModel>::empty(),
            line_models(lines@) + body_lines(bv, av, removed@, added@, i as int, h.1 as int, j as int, h.3 as int)
                == start + full,
            *total_removed + removed_count(body_lines(bv, av, removed@, added@, i as int, h.1 as int, j as int, h.3 as int))
                == r0 + removed_count(full),
            *total_added + added_count(body_lines(bv, av, removed@, added@, i as int, h.1 as int, j as int, h.3 as int))
                == a0 + added_count(full),
            *total_removed <= i,
            *total_added <= j,
        decreases walk_measure(i as int, h.1 as int, j as int, h.3 as int) + (if done {
            0int
        } else {
            1
        }),
    {
        let rem = i < h.1 && removed[i as usize];
        let add = j < h.3 && added[j as usize];
        let ghost rest = body_lines(bv, av, removed@, added@, i as int, h.1 as int, j as int, h.3 as int);
        let ghost old_lines = lines@;
        if rem {
            let text = normalize_for_display(before[i as usize].as_str());
            let ghost x = LineModel::Removed(display_text(bv[i as int]));
            let ghost next = body_lines(bv, av, removed@, added@, i + 1, h.1 as int, j as int, h.3 as int);
            lines.push(HunkLine::Removed(text));
            proof {
                assert(rest == seq![x] + next);
                assert(line_models(lines@) =~= line_models(old_lines).push(x));
                assert(line_models(lines@) + next =~= line_models(old_lines) + rest);
                lemma_counts_concat(seq![x], next);
                lemma_count_single(x);
            }
            *total_removed = *total_removed + 1;
            i += 1;
        } else if add {
            let text = normalize_for_display(after[j as usize].as_str());
            let ghost x = LineModel::Added(display_text(av[j as int]));
            let ghost next = body_lines(bv, av, removed@, added@, i as int, h.1 as int, j + 1, h.3 as int);
            lines.push(HunkLine::Added(text));
            proof {
                assert(rest == seq![x] + next);
                assert(line_models(lines@) =~= line_models(old_lines).push(x));
                assert(line_models(lines@) + next =~= line_models(old_lines) + rest);
                lemma_counts_concat(seq![x], next);
                lemma_count_single(x);
            }
            *total_added = *total_added + 1;
            j += 1;
        } else if i < h.1 && j < h.3 {
            let text = normalize_for_display(before[i as usize].as_str());
            let ghost x = LineModel::Context(display_text(bv[i as int]));
            let ghost next = body_lines(bv, av, removed@, added@, i + 1, h.1 as int, j + 1, h.3 as int);
            lines.push(HunkLine::Context(text));
            proof {
                assert(rest == seq![x] + next);
                assert(line_models(lines@) =~= line_models(old_lines).push(x));
                assert(line_models(lines@) + next =~= line_models(old_lines) + rest);
                lemma_counts_concat(seq![x], next);
                lemma_count_single(x);
            }
            i += 1;
            j += 1;
        } else {
            done = true;
        }
    }
    proof {
        let rest = body_lines(bv, av, removed@, added@, i as int, h.1 as int, j as int, h.3 as int);
        assert(rest =~= Seq::<LineModel>::empty());
        assert(line_models(lines@) + rest =~= line_models(lines@));
        lemma_body_step(bv, av, removed@, added@, h.0 as int, h.1 as int, h.2 as int, h.3 as int);
    }
}

/// Build hunks with `context` lines around each change from a line diff:
/// the before and after lines (with terminators), which lines were removed
/// and added, and the changes the diff reported. Returns the hunks, the
/// number of added lines and the number of removed lines.
#[verifier::rlimit(30)]
pub fn build_hunks_with_context(
    before: &Vec<String>,
    after: &Vec<String>,
    removed: &Vec<bool>,
    added: &Vec<bool>,
    raw: &Vec<RawHunk>,
    context: u32,
) -> (res: (Vec<Hunk>, u32, u32))
    requires
        removed@.len() == before@.len(),
        added@.len() == after@.len(),
        before@.len() < u32::MAX,
        after@.len() < u32::MAX,
        raw_hunks_ok(raw@, before@.len() as int, after@.len() as int),
        context <= u32::MAX / 2,
    ensures
        ({
            let hs = spec_hunks(views(before@), views(after@), removed@, added@, raw@, context);
            &&& hunk_models(res.0@) == hs
            &&& res.1 == hunks_added(hs)
            &&& res.2 == hunks_removed(hs)
        }),
        hunks_ascend(hunk_models(res.0@)),
        hunks_cover_marks(raw@, removed@, added@) ==> hunks_counts_ok(hunk_models(res.0@)),
{
    let ghost bv = views(before@);
    let ghost av = views(after@);
    let merged = merge_raw(raw, context);
    proof {
        lemma_merge_ok(raw@, context, before@.len() as int, after@.len() as int);
    }
    let ghost target = spec_hunks(bv, av, removed@, added@, raw@, context);
    let n_before = before.len() as u32;
    let n_after = after.len() as u32;
    let mut hunks: Vec<Hunk> = Vec::new();
    let mut total_removed: u32 = 0;
    let mut total_added: u32 = 0;
    let mut k: usize = 0;
    while k < merged.len()
        invariant
            removed@.len() == before@.len(),
            added@.len() == after@.len(),
            before@.len() < u32::MAX,
            after@.len() < u32::MAX,
            n_before == before@.len(),
            n_after == after@.len(),
            bv == views(before@),
            av == views(after@),
            merged@ == merge_hunks(raw@, context),
            raw_hunks_ok(merged@, before@.len() as int, after@.len() as int),
            target == spec_hunks(bv, av, removed@, added@, raw@, context),
            target.len() == merged@.len(),
            k <= merged@.len(),
            hunk_models(hunks@) == target.take(k as int),
            total_removed == hunks_removed(target.take(k as int)),
            total_added == hunks_added(target.take(k as int)),
            k < merged@.len() ==> total_removed <= merged@[k as int].0 && total_added <= merged@[k as int].2,
        decreases merged.len() - k,
    {
        let h = merged[k];
        let pre_b = h.0.saturating_sub(context);
        let sum_b = h.1.saturating_add(context);
        let post_b = if sum_b < n_before {
            sum_b
        } else {
            n_before
        };
        let pre_a = h.2.saturating_sub(context);
        let sum_a = h.3.saturating_add(context);
        let post_a = if sum_a < n_after {
            sum_a
        } else {
            n_after
        };
        let mut lines: Vec<HunkLine> = Vec::new();
        let ghost r0 = total_removed;
        let ghost a0 = total_added;
        push_context(&mut lines, before, pre_b, h.0);
        walk_body(&mut lines, before, after, removed, added, h, &mut total_removed, &mut total_added);
        push_context(&mut lines, before, h.1, post_b);
        let ghost hm = hunk_model(bv, av, removed@, added@, h, context);
        proof {
            assert(line_models(Seq::<HunkLine>::empty()) =~= Seq::<LineModel>::empty());
            assert(Seq::<LineModel>::empty() + context_lines(bv, pre_b as int, h.0 as int) =~= context_lines(bv, pre_b as int, h.0 as int));
            assert(line_models(lines@) =~= hm.lines);
            let b = body_lines(bv, av, removed@, added@, h.0 as int, h.1 as int, h.2 as int, h.3 as int);
            let c1 = context_lines(bv, pre_b as int, h.0 as int);
            let c2 = context_lines(bv, h.1 as int, post_b as int);
            lemma_counts_concat(c1, b);
            lemma_counts_concat(c1 + b, c2);
            lemma_context_counts(bv, pre_b as int, h.0 as int);
            lemma_context_counts(bv, h.1 as int, post_b as int);
        }
        let hunk = Hunk {
            old_range: (pre_b, post_b - pre_b),
            new_range: (pre_a, post_a - pre_a),
            lines,
        };
        let ghost old_hunks = hunks@;
        hunks.push(hunk);
        proof {
            assert(hunk.model() == hm);
            assert(target[k as int] == hm);
            assert(hunk_models(hunks@) =~= hunk_models(old_hunks).push(hm));
            assert(target.take(k + 1) =~= target.take(k as int).push(hm));
            assert(target.take(k + 1).drop_last() =~= target.take(k as int));
            if k + 1 < merged@.len() {
                assert(merged@[k as int].1 < merged@[k + 1].0);
                assert(merged@[k as int].3 < merged@[k + 1].2);
            }
        }
        k += 1;
    }
    proof {
        assert(target.take(merged@.len() as int) =~= target);
        lemma_spec_hunks_ascend(views(before@), views(after@), removed@, added@, raw@, context);
        if hunks_cover_marks(raw@, removed@, added@) {
            lemma_spec_hunks_counts(views(before@), views(after@), removed@, added@, raw@, context);
        }
    }
    (hunks, total_added, total_removed)
}

/// A text has no more lines than characters.
pub proof fn lemma_split_lines_len(s: Seq<char>)
    ensures
        split_lines(s).len() <= s.len(),
    decreases s.len(),
{
    if s.len() > 0 {
        let k = first_newline_end(s, 0);
        lemma_first_newline_end(s, 0);
        lemma_split_lines_len(s.skip(k));
    }
}

/// The hunks of the histogram line diff of `before` and `after` with
/// `context` lines around each change, and the numbers of added and removed
/// lines.
pub open spec fn spec_diff_texts(before: Seq<char>, after: Seq<char>, context: u32) -> Seq<HunkModel> {
    let bl = split_lines(before);
    let al = split_lines(after);
    let marks = histogram_marks(bl, al);
    spec_hunks(bl, al, marks.0, marks.1, marked_hunks(marks.0, marks.1), context)
}

/// Line diff of two texts with the histogram algorithm, as hunks with
/// `context` lines around each change; also returns the numbers of added and
/// removed lines.
pub fn diff_texts(before: &str, after: &str, context: u32) -> (res: (Vec<Hunk>, u32, u32))
    requires
        split_lines(before@).len() < i32::MAX,
        split_lines(after@).len() < i32::MAX,
        context <= u32::MAX / 2,
    ensures
        hunk_models(res.0@) == spec_diff_texts(before@, after@, context),
        res.1 == hunks_added(spec_diff_texts(before@, after@, context)),
        res.2 == hunks_removed(spec_diff_texts(before@, after@, context)),
        hunks_counts_ok(spec_diff_texts(before@, after@, context)),
        hunks_ascend(spec_diff_texts(before@, after@, context)),
        hunks_single_lines(spec_diff_texts(before@, after@, context)),
        hunks_start_within(
            spec_diff_texts(before@, after@, context),
            split_lines(before@).len() as int,
            split_lines(after@).len() as int,
        ),
{
    let before_lines = split_into_lines(before);
    let after_lines = split_into_lines(after);
    proof {
        assert(views(before_lines@) =~= split_lines(before@));
        assert(views(after_lines@) =~= split_lines(after@));
    }
    let input = intern_lines(before, after);
    let d = histogram_diff(&input);
    let mut removed: Vec<bool> = Vec::new();
    let mut i: usize = 0;
    while i < before_lines.len()
        invariant
            i <= before_lines@.len(),
            before_lines@.len() == diff_removed(d).len(),
            before_lines@.len() < i32::MAX,
            removed@ == diff_removed(d).take(i as int),
        decreases before_lines.len() - i,
    {
        let b = is_removed_at(&d, i as u32);
        removed.push(b);
        proof {
            assert(diff_removed(d).take(i + 1) =~= diff_removed(d).take(i as int).push(b));
        }
        i += 1;
    }
    let mut added: Vec<bool> = Vec::new();
    let mut j: usize = 0;
    while j < after_lines.len()
        invariant
            j <= after_lines@.len(),
            after_lines@.len() == diff_added(d).len(),
            after_lines@.len() < i32::MAX,
            added@ == diff_added(d).take(j as int),
        decreases after_lines.len() - j,
    {
        let b = is_added_at(&d, j as u32);
        added.push(b);
        proof {
            assert(diff_added(d).take(j + 1) =~= diff_added(d).take(j as int).push(b));
        }
        j += 1;
    }
    proof {
        assert(removed@ =~= diff_removed(d));
        assert(added@ =~= diff_added(d));
    }
    let raw = diff_hunks(&d);
    proof {
        lemma_split_lines_one_line(before@);
        lemma_split_lines_one_line(after@);
        lemma_spec_hunks_single_lines(split_lines(before@), split_lines(after@), removed@, added@, raw@, context);
        lemma_spec_hunks_start_within(split_lines(before@), split_lines(after@), removed@, added@, raw@, context);
    }
    build_hunks_with_context(&before_lines, &after_lines, &removed, &added, &raw, context)
}

/// What `String::from_utf8_lossy` makes of some bytes.
pub uninterp spec fn lossy_text(bytes: Seq<u8>) -> Seq<char>;

/// `String::from_utf8_lossy`: the bytes decoded as UTF-8, each invalid
/// sequence replaced by U+FFFD. Every character comes from at least one
/// byte, so there are no more characters than bytes.
#[verifier::external_body]
pub(crate) fn utf8_lossy(bytes: &[u8]) -> (s: String)
    ensures
        s@ == lossy_text(bytes@),
        s@.len() <= bytes@.len(),
{
    String::from_utf8_lossy(bytes).into_owned()
}

/// Whether two byte strings are equal.
fn bytes_equal(a: &[u8], b: &[u8]) -> (res: bool)
    ensures
        res == (a@ == b@),
{
    if a.len() != b.len() {
        return false;
    }
    let mut i: usize = 0;
    while i < a.len()
        invariant
            i <= a@.len(),
            a@.len() == b@.len(),
            forall|k: int| 0 <= k < i ==> a@[k] == b@[k],
        decreases a.len() - i,
    {
        if a[i] != b[i] {
            return false;
        }
        i += 1;
    }
    proof {
        assert(a@ =~= b@);
    }
    true
}

/// The change kind for a path by where it exists: only in the work tree is
/// untracked, only in HEAD is deleted, in both is modified, in neither is no
/// change at all.
pub open spec fn spec_change_kind(in_head: bool, in_worktree: bool) -> Option<ChangeKind> {
    if in_head && in_worktree {
        Some(ChangeKind::Modified)
    } else if in_head {
        Some(ChangeKind::Deleted)
    } else if in_worktree {
        Some(ChangeKind::Untracked)
    } else {
        None
    }
}

pub fn change_kind(in_head: bool, in_worktree: bool) -> (k: Option<ChangeKind>)
    ensures
        k == spec_change_kind(in_head, in_worktree),
{
    match (in_head, in_worktree) {
        (false, false) => None,
        (false, true) => Some(ChangeKind::Untracked),
        (true, false) => Some(ChangeKind::Deleted),
        (true, true) => Some(ChangeKind::Modified),
    }
}

/// How a git attribute stands for a path: set on (`attr`), set to a value
/// (`attr=value`), unset (`-attr`), or not mentioned (or reset with `!attr`).
#[derive(Debug, Clone, Copy, PartialEq, Eq)]
pub enum AttrState {
    On,
    Value,
    Unset,
    Unspecified,
}

/// Git's attributes mark a path binary when `binary` is set (it stands for
/// `-diff -merge -text`) or when `diff` is unset.
pub open spec fn spec_binary_by_attributes(binary: AttrState, diff: AttrState) -> bool {
    binary == AttrState::On || binary == AttrState::Value || diff == AttrState::Unset
}

/// Whether the `binary` and `diff` attributes of a path mark it binary.
pub fn binary_by_attributes(binary: AttrState, diff: AttrState) -> (b: bool)
    ensures
        b == spec_binary_by_attributes(binary, diff),
{
    match (binary, diff) {
        (AttrState::On, _) | (AttrState::Value, _) => true,
        (_, AttrState::Unset) => true,
        _ => false,
    }
}

/// The two sides need a line diff: they differ, and neither the `binary`
/// attribute nor the NUL scan marks the file binary.
pub open spec fn needs_line_diff(before: Seq<u8>, after: Seq<u8>, attr_binary: bool) -> bool {
    before != after && !attr_binary && !spec_looks_binary(before) && !spec_looks_binary(after)
}

/// The decoded sides are short enough for the line diff: fewer than
/// `i32::MAX` lines each.
pub open spec fn lines_fit(before: Seq<u8>, after: Seq<u8>) -> bool {
    &&& split_lines(lossy_text(before)).len() < i32::MAX
    &&& split_lines(lossy_text(after)).len() < i32::MAX
}

/// `u` is the update for `path` from HEAD bytes `before` and work-tree bytes
/// `after`: no change when they are equal; binary, with no hunks, when the
/// file's `binary` attribute is set or either side looks binary; else the
/// hunks of the line diff of their lossy UTF-8 decodings with three lines
/// of context.
pub open spec fn is_update_for(
    u: DiffUpdate,
    path: Seq<char>,
    status: ChangeKind,
    mtime: i128,
    before: Seq<u8>,
    after: Seq<u8>,
    attr_binary: bool,
) -> bool {
    &&& u.path@ == path
    &&& u.status == status
    &&& u.mtime == mtime
    &&& forall|k: int|
        0 <= k < u.hunks@.len() ==> (#[trigger] u.hunks@[k]).old_range.0 < i32::MAX && u.hunks@[k].new_range.0
            < i32::MAX
    &&& before == after ==> u.hunks@.len() == 0 && u.added == 0 && u.removed == 0 && !u.binary
    &&& before != after && (attr_binary || spec_looks_binary(before) || spec_looks_binary(after))
        ==> u.hunks@.len() == 0 && u.added == 0 && u.removed == 0 && u.binary
    &&& needs_line_diff(before, after, attr_binary) ==> {
        let hs = spec_diff_texts(lossy_text(before), lossy_text(after), CONTEXT_LINES);
        &&& !u.binary
        &&& hunk_models(u.hunks@) == hs
        &&& u.added == hunks_added(hs)
        &&& u.removed == hunks_removed(hs)
        &&& hunks_counts_ok(hs)
        &&& hunks_ascend(hs)
        &&& hunks_single_lines(hs)
    }
}

/// The update for `path` from its HEAD bytes and its work-tree bytes (empty
/// where absent); `attr_binary` tells whether the path's `binary` attribute
/// is set. The line diff asserts that each side has fewer than `i32::MAX`
/// lines.
pub fn diff_update(
    path: String,
    status: ChangeKind,
    mtime: i128,
    before: &[u8],
    after: &[u8],
    attr_binary: bool,
) -> (u: DiffUpdate)
    requires
        needs_line_diff(before@, after@, attr_binary) ==> lines_fit(before@, after@),
    ensures
        is_update_for(u, path@, status, mtime, before@, after@, attr_binary),
{
    if bytes_equal(before, after) {
        return DiffUpdate { path, mtime, status, hunks: Vec::new(), added: 0, removed: 0, binary: false };
    }
    if attr_binary || looks_binary(before) || looks_binary(after) {
        return DiffUpdate { path, mtime, status, hunks: Vec::new(), added: 0, removed: 0, binary: true };
    }
    let before_str = utf8_lossy(before);
    let after_str = utf8_lossy(after);
    let (hunks, added, removed) = diff_texts(before_str.as_str(), after_str.as_str(), CONTEXT_LINES);
    proof {
        let hs = spec_diff_texts(before_str@, after_str@, CONTEXT_LINES);
        assert forall|k: int| 0 <= k < hunks@.len() implies (#[trigger] hunks@[k]).old_range.0 < i32::MAX
            && hunks@[k].new_range.0 < i32::MAX by {
            assert(hunk_models(hunks@)[k] == hunks@[k].model());
            assert(hs[k].old_range.0 <= split_lines(before_str@).len());
        }
    }
    DiffUpdate { path, mtime, status, hunks, added, removed, binary: false }
}

/// Number of lines of a text, as the line diff cuts it.
fn line_count(s: &str) -> (n: usize)
    ensures
        n == split_lines(s@).len(),
{
    split_into_lines(s).len()
}

/// `diff_update` where the line diff can take the two sides, `None` where a
/// decoded side has `i32::MAX` lines or more.
pub fn checked_diff_update(
    path: String,
    status: ChangeKind,
    mtime: i128,
    before: &[u8],
    after: &[u8],
    attr_binary: bool,
) -> (res: Option<DiffUpdate>)
    ensures
        res is None <==> needs_line_diff(before@, after@, attr_binary) && !lines_fit(before@, after@),
        res matches Some(u) ==> is_update_for(u, path@, status, mtime, before@, after@, attr_binary),
{
    let plain = !bytes_equal(before, after) && !attr_binary && !looks_binary(before) && !looks_binary(after);
    if plain {
        let limit = i32::MAX as usize;
        if line_count(utf8_lossy(before).as_str()) >= limit || line_count(utf8_lossy(after).as_str()) >= limit {
            return None;
        }
    }
    Some(diff_update(path, status, mtime, before, after, attr_binary))
}

/// The set of paths held by a list of strings.
pub open spec fn path_set(v: Seq<String>) -> Set<Seq<char>> {
    Set::new(|p: Seq<char>| exists|i: int| 0 <= i < v.len() && (#[trigger] v[i])@ == p)
}

/// Some update in `v` is for path `p`.
pub open spec fn lists_path(v: Seq<DiffUpdate>, p: Seq<char>) -> bool {
    exists|m: int| 0 <= m < v.len() && (#[trigger] v[m]).path@ == p
}

/// One of the first `k` strings of `v` is `p`.
pub open spec fn among_first(v: Seq<String>, k: int, p: Seq<char>) -> bool {
    exists|q: int| 0 <= q < k && (#[trigger] v[q])@ == p
}

/// The paths of the non-clean updates in `us`.
pub open spec fn changed_paths(us: Seq<DiffUpdate>) -> Set<Seq<char>> {
    Set::new(
        |p: Seq<char>|
            exists|i: int| 0 <= i < us.len() && (#[trigger] us[i]).path@ == p && !us[i].spec_is_clean(),
    )
}

/// The paths of the updates in `us`.
pub open spec fn update_paths(us: Seq<DiffUpdate>) -> Set<Seq<char>> {
    Set::new(|p: Seq<char>| lists_path(us, p))
}

/// No two updates of `us` are for one path.
pub open spec fn distinct_paths(us: Seq<DiffUpdate>) -> bool {
    forall|a: int, b: int|
        0 <= a < us.len() && 0 <= b < us.len() && a != b ==> (#[trigger] us[a]).path@ != (#[trigger] us[b]).path@
}

/// The paths the diff worker has reported as changed and not since as
/// clean, so that a path whose diff vanishes can be reported clean once.
///
/// The collection is a `Vec` kept free of duplicate paths (its `wf`) rather
/// than a hash map or set keyed by path: vstd's specifications of `HashMap`
/// and `HashSet` let nothing be proved of lookups by `String` key.
pub struct KnownPaths {
    paths: Vec<String>,
}

impl View for KnownPaths {
    type V = Set<Seq<char>>;

    closed spec fn view(&self) -> Set<Seq<char>> {
        path_set(self.paths@)
    }
}

impl KnownPaths {
    /// No path occurs twice.
    pub closed spec fn wf(&self) -> bool {
        forall|i: int, j: int|
            0 <= i < self.paths@.len() && 0 <= j < self.paths@.len() && i != j ==> (
            #[trigger] self.paths@[i])@ != (#[trigger] self.paths@[j])@
    }

    pub fn new() -> (k: KnownPaths)
        ensures
            k.wf(),
            k@ == Set::<Seq<char>>::empty(),
    {
        let k = KnownPaths { paths: Vec::new() };
        proof {
            assert(k@ =~= Set::<Seq<char>>::empty());
        }
        k
    }

    fn find(&self, p: &str) -> (res: Option<usize>)
        ensures
            match res {
                Some(i) => i < self.paths@.len() && self.paths@[i as int]@ == p@,
                None => !self@.contains(p@),
            },
    {
        let key = p.to_owned();
        let mut i: usize = 0;
        while i < self.paths.len()
            invariant
                i <= self.paths@.len(),
                key@ == p@,
                forall|k: int| 0 <= k < i ==> (#[trigger] self.paths@[k])@ != p@,
            decreases self.paths.len() - i,
        {
            if self.paths[i] == key {
                return Some(i);
            }
            i += 1;
        }
        None
    }

    /// Whether `p` is known.
    pub fn contains(&self, p: &str) -> (b: bool)
        ensures
            b == self@.contains(p@),
    {
        self.find(p).is_some()
    }

    /// Add `p`.
    pub fn insert(&mut self, p: String)
        requires
            old(self).wf(),
        ensures
            final(self).wf(),
            final(self)@ == old(self)@.insert(p@),
    {
        match self.find(p.as_str()) {
            Some(i) => {
                proof {
                    assert(self@ =~= old(self)@.insert(p@));
                }
            },
            None => {
                let ghost ps = self.paths@;
                self.paths.push(p);
                proof {
                    assert forall|x: Seq<char>| #[trigger] self@.contains(x) == old(self)@.insert(p@).contains(x) by {
                        if x == p@ {
                            assert(self.paths@[ps.len() as int]@ == x);
                        }
                        if old(self)@.contains(x) {
                            let i = choose|i: int| 0 <= i < ps.len() && (#[trigger] ps[i])@ == x;
                            assert(self.paths@[i] == ps[i]);
                        }
                        if self@.contains(x) && x != p@ {
                            let i = choose|i: int| 0 <= i < self.paths@.len() && (#[trigger] self.paths@[i])@ == x;
                            assert(i < ps.len());
                            assert(self.paths@[i] == ps[i]);
                        }
                    }
                    assert(self@ =~= old(self)@.insert(p@));
                }
            },
        }
    }

    /// Forget `p`; tell whether it was known.
    pub fn remove(&mut self, p: &str) -> (was: bool)
        requires
            old(self).wf(),
        ensures
            final(self).wf(),
            final(self)@ == old(self)@.remove(p@),
            was == old(self)@.contains(p@),
    {
        match self.find(p) {
            Some(i) => {
                let ghost ps = self.paths@;
                self.paths.remove(i);
                proof {
                    assert(old(self)@.contains(p@)) by {
                        assert(ps[i as int]@ == p@);
                    }
                    assert forall|x: Seq<char>| #[trigger] self@.contains(x) == old(self)@.remove(p@).contains(x) by {
                        if self@.contains(x) {
                            let k = choose|k: int| 0 <= k < self.paths@.len() && (#[trigger] self.paths@[k])@ == x;
                            let sk = if k < i { k } else { k + 1 };
                            assert(self.paths@[k] == ps[sk]);
                            assert(sk != i);
                        }
                        if old(self)@.remove(p@).contains(x) {
                            let k = choose|k: int| 0 <= k < ps.len() && (#[trigger] ps[k])@ == x;
                            assert(k != i);
                            let rk = if k < i { k } else { k - 1 };
                            assert(self.paths@[rk] == ps[k]);
                        }
                    }
                    assert(self@ =~= old(self)@.remove(p@));
                    assert forall|a: int, b: int|
                        0 <= a < self.paths@.len() && 0 <= b < self.paths@.len() && a != b implies (
                        #[trigger] self.paths@[a])@ != (#[trigger] self.paths@[b])@ by {
                        let sa = if a < i { a } else { a + 1 };
                        let sb = if b < i { b } else { b + 1 };
                        assert(self.paths@[a] == ps[sa] && self.paths@[b] == ps[sb]);
                    }
                }
                true
            },
            None => {
                proof {
                    assert(self@ =~= old(self)@.remove(p@));
                }
                false
            },
        }
    }

    /// Record an update that was delivered: a clean one forgets its path,
    /// any other makes it known.
    pub fn record(&mut self, update: &DiffUpdate)
        requires
            old(self).wf(),
        ensures
            final(self).wf(),
            final(self)@ == if update.spec_is_clean() {
                old(self)@.remove(update.path@)
            } else {
                old(self)@.insert(update.path@)
            },
    {
        if update.is_clean() {
            self.remove(update.path.as_str());
        } else {
            self.insert(update.path.clone());
        }
    }

    /// The diff of `rel` vanished (the path is in neither HEAD nor the work
    /// tree): if it was known, forget it and return the clean update that
    /// reports it, stamped `now`.
    pub fn take_cleared(&mut self, rel: String, now: i128) -> (res: Option<DiffUpdate>)
        requires
            old(self).wf(),
        ensures
            final(self).wf(),
            final(self)@ == old(self)@.remove(rel@),
            res is Some <==> old(self)@.contains(rel@),
            res matches Some(u) ==> u.path == rel && u.status == ChangeKind::Modified && u.mtime == now
                && u.spec_is_clean() && u.hunks@.len() == 0,
    {
        if self.remove(rel.as_str()) {
            Some(clean_update(rel, ChangeKind::Modified, now))
        } else {
            None
        }
    }

    /// After a full rescan produced `updates`: the new known set (the paths
    /// of the non-clean updates) and a clean update, stamped `now`, for each
    /// path known before that the rescan no longer reports as changed.
    pub fn rescan(&self, updates: &[DiffUpdate], now: i128) -> (res: (KnownPaths, Vec<DiffUpdate>))
        requires
            self.wf(),
        ensures
            res.0.wf(),
            res.0@ == changed_paths(updates@),
            forall|p: Seq<char>|
                #[trigger] lists_path(res.1@, p) <==> (self@.contains(p) && !res.0@.contains(p)),
            forall|a: int, b: int|
                0 <= a < res.1@.len() && 0 <= b < res.1@.len() && a != b ==> (#[trigger] res.1@[a]).path@
                    != (#[trigger] res.1@[b]).path@,
            forall|k: int|
                0 <= k < res.1@.len() ==> (#[trigger] res.1@[k]).status == ChangeKind::Modified
                    && res.1@[k].mtime == now && res.1@[k].spec_is_clean() && res.1@[k].hunks@.len() == 0,
    {
        let ghost target = changed_paths(updates@);
        let mut fresh = KnownPaths::new();
        let mut i: usize = 0;
        while i < updates.len()
            invariant
                i <= updates@.len(),
                fresh.wf(),
                fresh@ == Set::new(
                    |p: Seq<char>|
                        exists|k: int|
                            0 <= k < i && (#[trigger] updates@[k]).path@ == p && !updates@[k].spec_is_clean(),
                ),
            decreases updates.len() - i,
        {
            let ghost before = fresh@;
            if !updates[i].is_clean() {
                fresh.insert(updates[i].path.clone());
            }
            proof {
                assert(fresh@ =~= Set::new(
                    |p: Seq<char>|
                        exists|k: int|
                            0 <= k < i + 1 && (#[trigger] updates@[k]).path@ == p
                                && !updates@[k].spec_is_clean(),
                )) by {
                    assert forall|p: Seq<char>| fresh@.contains(p) implies exists|k: int|
                        0 <= k < i + 1 && (#[trigger] updates@[k]).path@ == p
                            && !updates@[k].spec_is_clean() by {
                        if !before.contains(p) {
                            assert(updates@[i as int].path@ == p);
                        }
                    }
                    assert forall|p: Seq<char>|
                        (exists|k: int|
                            0 <= k < i + 1 && (#[trigger] updates@[k]).path@ == p
                                && !updates@[k].spec_is_clean()) implies fresh@.contains(p) by {
                        let k = choose|k: int|
                            0 <= k < i + 1 && (#[trigger] updates@[k]).path@ == p
                                && !updates@[k].spec_is_clean();
                        if k < i {
                            assert(before.contains(p));
                        }
                    }
                }
            }
            i += 1;
        }
        proof {
            assert(fresh@ =~= target);
        }
        let mut stale: Vec<DiffUpdate> = Vec::new();
        let mut k: usize = 0;
        while k < self.paths.len()
            invariant
                k <= self.paths@.len(),
                self.wf(),
                fresh@ == target,
                forall|p: Seq<char>|
                    #[trigger] lists_path(stale@, p) <==> (among_first(self.paths@, k as int, p)
                        && !fresh@.contains(p)),
                forall|a: int, b: int|
                    0 <= a < stale@.len() && 0 <= b < stale@.len() && a != b ==> (
                    #[trigger] stale@[a]).path@ != (#[trigger] stale@[b]).path@,
                forall|m: int|
                    0 <= m < stale@.len() ==> (#[trigger] stale@[m]).status == ChangeKind::Modified
                        && stale@[m].mtime == now && stale@[m].spec_is_clean() && stale@[m].hunks@.len()
                        == 0,
                forall|m: int|
                    0 <= m < stale@.len() ==> exists|q: int|
                        0 <= q < k && (#[trigger] self.paths@[q])@ == (#[trigger] stale@[m]).path@,
            decreases self.paths.len() - k,
        {
            let p = &self.paths[k];
            if !fresh.contains(p.as_str()) {
                let ghost old_stale = stale@;
                let u = clean_update(p.clone(), ChangeKind::Modified, now);
                stale.push(u);
                proof {
                    assert(stale@[old_stale.len() as int].path@ == self.paths@[k as int]@);
                    assert forall|a: int, b: int|
                        0 <= a < stale@.len() && 0 <= b < stale@.len() && a != b implies (
                        #[trigger] stale@[a]).path@ != (#[trigger] stale@[b]).path@ by {
                        if a < old_stale.len() && b < old_stale.len() {
                            assert(stale@[a] == old_stale[a] && stale@[b] == old_stale[b]);
                        } else if a < old_stale.len() {
                            assert(stale@[a] == old_stale[a]);
                            let q = choose|q: int| 0 <= q < k && (#[trigger] self.paths@[q])@ == old_stale[a].path@;
                            assert(self.paths@[q]@ != self.paths@[k as int]@);
                        } else if b < old_stale.len() {
                            assert(stale@[b] == old_stale[b]);
                            let q = choose|q: int| 0 <= q < k && (#[trigger] self.paths@[q])@ == old_stale[b].path@;
                            assert(self.paths@[q]@ != self.paths@[k as int]@);
                        }
                    }
                    assert forall|m: int| 0 <= m < stale@.len() implies (#[trigger] stale@[m]).status
                        == ChangeKind::Modified && stale@[m].mtime == now && stale@[m].spec_is_clean()
                        && stale@[m].hunks@.len() == 0 by {
                        if m < old_stale.len() {
                            assert(stale@[m] == old_stale[m]);
                        }
                    }
                    assert forall|m: int| 0 <= m < stale@.len() implies exists|q: int|
                        0 <= q < k + 1 && (#[trigger] self.paths@[q])@ == (#[trigger] stale@[m]).path@ by {
                        if m < old_stale.len() {
                            assert(stale@[m] == old_stale[m]);
                            let q = choose|q: int| 0 <= q < k && (#[trigger] self.paths@[q])@ == old_stale[m].path@;
                            assert(self.paths@[q]@ == stale@[m].path@);
                        } else {
                            assert(self.paths@[k as int]@ == stale@[m].path@);
                        }
                    }
                    assert forall|p2: Seq<char>|
                        #[trigger] lists_path(stale@, p2) <==> (among_first(self.paths@, k + 1, p2)
                            && !fresh@.contains(p2)) by {
                        if lists_path(stale@, p2) {
                            let m = choose|m: int| 0 <= m < stale@.len() && (#[trigger] stale@[m]).path@ == p2;
                            if m < old_stale.len() {
                                assert(stale@[m] == old_stale[m]);
                                assert(lists_path(old_stale, p2));
                                let q = choose|q: int| 0 <= q < k && (#[trigger] self.paths@[q])@ == p2;
                                assert(among_first(self.paths@, k + 1, p2));
                            } else {
                                assert(self.paths@[k as int]@ == p2);
                                assert(among_first(self.paths@, k + 1, p2));
                            }
                        }
                        if among_first(self.paths@, k + 1, p2) && !fresh@.contains(p2) {
                            let q = choose|q: int| 0 <= q < k + 1 && (#[trigger] self.paths@[q])@ == p2;
                            if q < k {
                                assert(among_first(self.paths@, k as int, p2));
                                assert(lists_path(old_stale, p2));
                                let m = choose|m: int| 0 <= m < old_stale.len() && (#[trigger] old_stale[m]).path@ == p2;
                                assert(stale@[m] == old_stale[m]);
                            } else {
                                assert(stale@[old_stale.len() as int].path@ == p2);
                            }
                        }
                    }
                }
            } else {
                proof {
                    assert forall|m: int| 0 <= m < stale@.len() implies exists|q: int|
                        0 <= q < k + 1 && (#[trigger] self.paths@[q])@ == (#[trigger] stale@[m]).path@ by {
                        let q = choose|q: int| 0 <= q < k && (#[trigger] self.paths@[q])@ == stale@[m].path@;
                        assert(self.paths@[q]@ == stale@[m].path@);
                    }
                    assert forall|p2: Seq<char>|
                        #[trigger] lists_path(stale@, p2) <==> (among_first(self.paths@, k + 1, p2)
                            && !fresh@.contains(p2)) by {
                        if lists_path(stale@, p2) {
                            let q = choose|q: int| 0 <= q < k && (#[trigger] self.paths@[q])@ == p2;
                            assert(among_first(self.paths@, k + 1, p2));
                        }
                        if among_first(self.paths@, k + 1, p2) && !fresh@.contains(p2) {
                            let q = choose|q: int| 0 <= q < k + 1 && (#[trigger] self.paths@[q])@ == p2;
                            if q == k {
                                assert(fresh@.contains(p2));
                            } else {
                                assert(among_first(self.paths@, k as int, p2));
                            }
                        }
                    }
                }
            }
            k += 1;
        }
        proof {
            assert forall|p: Seq<char>|
                #[trigger] lists_path(stale@, p) <==> (self@.contains(p) && !fresh@.contains(p)) by {
                if self@.contains(p) {
                    let q = choose|q: int| 0 <= q < self.paths@.len() && (#[trigger] self.paths@[q])@ == p;
                    assert(among_first(self.paths@, self.paths@.len() as int, p));
                }
                if among_first(self.paths@, self.paths@.len() as int, p) {
                    let q = choose|q: int| 0 <= q < self.paths@.len() && (#[trigger] self.paths@[q])@ == p;
                    assert(self@.contains(p));
                }
            }
        }
        (fresh, stale)
    }
}

proof fn lemma_applied_all_distinct(s: Seq<DiffUpdate>, us: Seq<DiffUpdate>)
    requires
        entries_wf(s),
        distinct_paths(us),
    ensures
        entries_wf(applied_all(s, us)),
        entry_paths(applied_all(s, us)) == entry_paths(s).difference(update_paths(us)).union(changed_paths(us)),
    decreases us.len(),
{
    if us.len() == 0 {
        assert(update_paths(us) =~= Set::<Seq<char>>::empty());
        assert(changed_paths(us) =~= Set::<Seq<char>>::empty());
        assert(entry_paths(s).difference(update_paths(us)).union(changed_paths(us)) =~= entry_paths(s));
    } else {
        let init = us.drop_last();
        let u = us.last();
        let n = init.len() as int;
        assert forall|a: int, b: int|
            0 <= a < init.len() && 0 <= b < init.len() && a != b implies (#[trigger] init[a]).path@ != (
            #[trigger] init[b]).path@ by {
            assert(init[a] == us[a] && init[b] == us[b]);
        }
        lemma_applied_all_distinct(s, init);
        let t = applied_all(s, init);
        lemma_applied_wf(t, u);
        lemma_applied_paths(t, u);
        let target = entry_paths(s).difference(update_paths(us)).union(changed_paths(us));
        assert forall|q: Seq<char>| #[trigger] entry_paths(applied(t, u)).contains(q) == target.contains(q) by {
            if lists_path(init, q) {
                let m = choose|m: int| 0 <= m < init.len() && (#[trigger] init[m]).path@ == q;
                assert(us[m] == init[m]);
                assert(lists_path(us, q));
                if q == u.path@ {
                    assert(us[m].path@ != us[n].path@);
                }
            }
            if lists_path(us, q) && q != u.path@ {
                let m = choose|m: int| 0 <= m < us.len() && (#[trigger] us[m]).path@ == q;
                assert(m != n);
                assert(init[m] == us[m]);
                assert(lists_path(init, q));
            }
            if q == u.path@ {
                assert(us[n] == u);
                assert(lists_path(us, q));
            }
            if changed_paths(us).contains(q) {
                let m = choose|m: int| 0 <= m < us.len() && (#[trigger] us[m]).path@ == q && !us[m].spec_is_clean();
                if m < n {
                    assert(init[m] == us[m]);
                    assert(changed_paths(init).contains(q));
                }
            }
            if changed_paths(init).contains(q) {
                let m = choose|m: int| 0 <= m < init.len() && (#[trigger] init[m]).path@ == q && !init[m].spec_is_clean();
                assert(us[m] == init[m]);
                assert(changed_paths(us).contains(q));
            }
            if q == u.path@ && !u.spec_is_clean() {
                assert(us[n] == u);
                assert(changed_paths(us).contains(q));
            }
            if q == u.path@ && u.spec_is_clean() && changed_paths(us).contains(q) {
                let m = choose|m: int| 0 <= m < us.len() && (#[trigger] us[m]).path@ == q && !us[m].spec_is_clean();
                assert(m != n);
                assert(us[m].path@ != us[n].path@);
            }
        }
        assert(entry_paths(applied(t, u)) =~= target);
    }
}

proof fn lemma_applied_all_clean(s: Seq<DiffUpdate>, cs: Seq<DiffUpdate>)
    requires
        entries_wf(s),
        forall|k: int| 0 <= k < cs.len() ==> (#[trigger] cs[k]).spec_is_clean(),
    ensures
        entries_wf(applied_all(s, cs)),
        entry_paths(applied_all(s, cs)) == entry_paths(s).difference(update_paths(cs)),
    decreases cs.len(),
{
    if cs.len() == 0 {
        assert(update_paths(cs) =~= Set::<Seq<char>>::empty());
        assert(entry_paths(s).difference(update_paths(cs)) =~= entry_paths(s));
    } else {
        let init = cs.drop_last();
        let u = cs.last();
        let n = init.len() as int;
        assert forall|k: int| 0 <= k < init.len() implies (#[trigger] init[k]).spec_is_clean() by {
            assert(init[k] == cs[k]);
        }
        lemma_applied_all_clean(s, init);
        let t = applied_all(s, init);
        assert(cs[n] == u);
        lemma_applied_wf(t, u);
        lemma_applied_paths(t, u);
        let target = entry_paths(s).difference(update_paths(cs));
        assert forall|q: Seq<char>| #[trigger] entry_paths(applied(t, u)).contains(q) == target.contains(q) by {
            if lists_path(init, q) {
                let m = choose|m: int| 0 <= m < init.len() && (#[trigger] init[m]).path@ == q;
                assert(cs[m] == init[m]);
                assert(lists_path(cs, q));
            }
            if lists_path(cs, q) && q != u.path@ {
                let m = choose|m: int| 0 <= m < cs.len() && (#[trigger] cs[m]).path@ == q;
                assert(init[m] == cs[m]);
                assert(lists_path(init, q));
            }
            if q == u.path@ {
                assert(lists_path(cs, q));
            }
        }
        assert(entry_paths(applied(t, u)) =~= target);
    }
}

/// The worker's known set mirrors the change list: when the known paths are
/// the paths the list holds, recording a delivered update in the one and
/// applying it to the other keeps them equal.
pub proof fn lemma_record_mirrors(known: Set<Seq<char>>, s: Seq<DiffUpdate>, u: DiffUpdate)
    requires
        entries_wf(s),
        known == entry_paths(s),
    ensures
        entries_wf(applied(s, u)),
        entry_paths(applied(s, u)) == if u.spec_is_clean() {
            known.remove(u.path@)
        } else {
            known.insert(u.path@)
        },
{
    lemma_applied_wf(s, u);
    lemma_applied_paths(s, u);
}

/// When the diff of a path vanishes, the known set without that path is
/// still the list's paths: the clean update sent for a known path removes it
/// from the list, and an unknown path was not listed.
pub proof fn lemma_cleared_mirrors(known: Set<Seq<char>>, s: Seq<DiffUpdate>, cleared: DiffUpdate)
    requires
        entries_wf(s),
        known == entry_paths(s),
        cleared.spec_is_clean(),
    ensures
        entries_wf(applied(s, cleared)),
        known.contains(cleared.path@) ==> entry_paths(applied(s, cleared)) == known.remove(cleared.path@),
        !known.contains(cleared.path@) ==> entry_paths(s) == known.remove(cleared.path@),
{
    lemma_applied_wf(s, cleared);
    lemma_applied_paths(s, cleared);
    assert(!known.contains(cleared.path@) ==> known.remove(cleared.path@) =~= known);
}

/// After a rescan the list holds exactly the paths the rescan reports as
/// changed: applying its updates (one per path), then the clean updates for
/// the known paths it no longer reports, to a list whose paths were the
/// known set leaves the list's paths equal to the new known set.
pub proof fn lemma_rescan_mirrors(
    known: Set<Seq<char>>,
    s: Seq<DiffUpdate>,
    updates: Seq<DiffUpdate>,
    fresh: Set<Seq<char>>,
    cleared: Seq<DiffUpdate>,
)
    requires
        entries_wf(s),
        known == entry_paths(s),
        distinct_paths(updates),
        fresh == changed_paths(updates),
        forall|p: Seq<char>| #[trigger] lists_path(cleared, p) <==> (known.contains(p) && !fresh.contains(p)),
        forall|k: int| 0 <= k < cleared.len() ==> (#[trigger] cleared[k]).spec_is_clean(),
    ensures
        entries_wf(applied_all(applied_all(s, updates), cleared)),
        entry_paths(applied_all(applied_all(s, updates), cleared)) == fresh,
{
    lemma_applied_all_distinct(s, updates);
    let t = applied_all(s, updates);
    lemma_applied_all_clean(t, cleared);
    let r = applied_all(t, cleared);
    assert forall|q: Seq<char>| #[trigger] entry_paths(r).contains(q) == fresh.contains(q) by {
        if fresh.contains(q) {
            let m = choose|m: int|
                0 <= m < updates.len() && (#[trigger] updates[m]).path@ == q && !updates[m].spec_is_clean();
            assert(lists_path(updates, q));
            assert(!lists_path(cleared, q));
        }
        if lists_path(cleared, q) {
        }
    }
    assert(entry_paths(r) =~= fresh);
}

fn copy_bytes(b: &Vec<u8>) -> (c: Vec<u8>)
    ensures
        c@ == b@,
{
    let mut c: Vec<u8> = Vec::new();
    let mut i: usize = 0;
    while i < b.len()
        invariant
            i <= b@.len(),
            c@ == b@.take(i as int),
        decreases b.len() - i,
    {
        c.push(b[i]);
        proof {
            assert(b@.take(i + 1) =~= b@.take(i as int).push(b@[i as int]));
        }
        i += 1;
    }
    proof {
        assert(b@.take(b@.len() as int) =~= b@);
    }
    c
}

fn copy_blob(b: &Option<Vec<u8>>) -> (c: Option<Vec<u8>>)
    ensures
        match (c, *b) {
            (Some(x), Some(y)) => x@ == y@,
            (None, None) => true,
            _ => false,
        },
{
    match b {
        Some(v) => Some(copy_bytes(v)),
        None => None,
    }
}

/// The bytes of a blob, if any.
pub open spec fn blob_view(b: Option<Vec<u8>>) -> Option<Seq<u8>> {
    match b {
        Some(v) => Some(v@),
        None => None,
    }
}

/// A call made on a `HeadCache`: `sync_head` with a tree id, or `store` of
/// a path's blob.
pub ghost enum CacheStep {
    Sync(Seq<u8>),
    Store(Seq<char>, Option<Seq<u8>>),
}

/// The HEAD tree id and the cached entries after `steps`, starting from a
/// new cache: a sync to another tree id empties the entries, a store caches
/// one path's blob. These are the contracts of `HeadCache::new`,
/// `sync_head` and `store`, step by step.
pub open spec fn cache_after(steps: Seq<CacheStep>) -> (Option<Seq<u8>>, Map<Seq<char>, Option<Seq<u8>>>)
    decreases steps.len(),
{
    if steps.len() == 0 {
        (None, Map::empty())
    } else {
        let prev = cache_after(steps.drop_last());
        match steps.last() {
            CacheStep::Sync(t) => if prev.0 == Some(t) {
                prev
            } else {
                (Some(t), Map::empty())
            },
            CacheStep::Store(r, b) => (prev.0, prev.1.insert(r, b)),
        }
    }
}

/// Step `k` stored the blob the cache now holds for `r`, and the HEAD tree
/// id has been the present one from that step on.
pub open spec fn stored_under_head(steps: Seq<CacheStep>, r: Seq<char>, k: int) -> bool {
    &&& 0 <= k < steps.len()
    &&& steps[k] == CacheStep::Store(r, cache_after(steps).1[r])
    &&& forall|j: int| k <= j <= steps.len() ==> (#[trigger] cache_after(steps.take(j))).0 == cache_after(steps).0
}

/// The cache never serves a blob read under an older HEAD tree: whatever it
/// holds for a path was stored while the present HEAD tree id was in force,
/// and that id has not changed since.
pub proof fn lemma_cache_serves_current_head(steps: Seq<CacheStep>, r: Seq<char>)
    requires
        cache_after(steps).1.contains_key(r),
    ensures
        exists|k: int| #[trigger] stored_under_head(steps, r, k),
    decreases steps.len(),
{
    let n = steps.len() as int;
    let init = steps.drop_last();
    let prev = cache_after(init);
    let now = cache_after(steps);
    assert(steps.take(n) =~= steps);
    match steps.last() {
        CacheStep::Sync(t) => {
            assert(prev.0 == Some(t));
            lemma_cache_serves_current_head(init, r);
            let k = choose|k: int| #[trigger] stored_under_head(init, r, k);
            assert forall|j: int| k <= j <= n implies (#[trigger] cache_after(steps.take(j))).0 == now.0 by {
                if j < n {
                    assert(steps.take(j) =~= init.take(j));
                }
            }
            assert(steps[k] == init[k]);
            assert(stored_under_head(steps, r, k));
        },
        CacheStep::Store(r2, b) => {
            if r2 == r {
                assert(steps.take(n - 1) =~= init);
                assert forall|j: int| n - 1 <= j <= n implies (#[trigger] cache_after(steps.take(j))).0 == now.0 by {
                }
                assert(stored_under_head(steps, r, n - 1));
            } else {
                lemma_cache_serves_current_head(init, r);
                let k = choose|k: int| #[trigger] stored_under_head(init, r, k);
                assert forall|j: int| k <= j <= n implies (#[trigger] cache_after(steps.take(j))).0 == now.0 by {
                    if j < n {
                        assert(steps.take(j) =~= init.take(j));
                    }
                }
                assert(steps[k] == init[k]);
                assert(stored_under_head(steps, r, k));
            }
        },
    }
}

/// HEAD contents by path, for the HEAD tree they were read from: `Some`
/// bytes for a path present in that tree, `None` for one that is not. A
/// new HEAD tree empties the cache.
///
/// The collection is a `Vec` kept free of duplicate paths (its `wf`) rather
/// than a hash map or set keyed by path: vstd's specifications of `HashMap`
/// and `HashSet` let nothing be proved of lookups by `String` key.
pub struct HeadCache {
    head: Option<Vec<u8>>,
    entries: Vec<(String, Option<Vec<u8>>)>,
    history: Ghost<Seq<CacheStep>>,
}

impl HeadCache {
    /// The tree id the entries belong to, if any.
    pub closed spec fn head(&self) -> Option<Seq<u8>> {
        blob_view(self.head)
    }

    /// The cached entries.
    pub closed spec fn cached(&self) -> Map<Seq<char>, Option<Seq<u8>>> {
        Map::new(
            |p: Seq<char>| exists|i: int| 0 <= i < self.entries@.len() && (#[trigger] self.entries@[i]).0@ == p,
            |p: Seq<char>|
                {
                    let i = choose|i: int| 0 <= i < self.entries@.len() && (#[trigger] self.entries@[i]).0@ == p;
                    blob_view(self.entries@[i].1)
                },
        )
    }

    /// The syncs and stores made on the cache since it was created.
    pub closed spec fn steps(&self) -> Seq<CacheStep> {
        self.history@
    }

    /// A well-formed cache is what its steps make of a new one.
    pub proof fn lemma_cache_follows_steps(&self)
        requires
            self.wf(),
        ensures
            cache_after(self.steps()) == (self.head(), self.cached()),
    {
    }

    /// No path is cached twice, and the cache is what its steps make of a
    /// new one.
    pub closed spec fn wf(&self) -> bool {
        &&& forall|i: int, j: int|
            0 <= i < self.entries@.len() && 0 <= j < self.entries@.len() && i != j ==> (
            #[trigger] self.entries@[i]).0@ != (#[trigger] self.entries@[j]).0@
        &&& cache_after(self.history@) == (self.head(), self.cached())
    }

    pub fn new() -> (c: HeadCache)
        ensures
            c.wf(),
            c.head() is None,
            c.cached() == Map::<Seq<char>, Option<Seq<u8>>>::empty(),
            c.steps() == Seq::<CacheStep>::empty(),
    {
        let c = HeadCache { head: None, entries: Vec::new(), history: Ghost(Seq::empty()) };
        proof {
            assert(c.cached() =~= Map::<Seq<char>, Option<Seq<u8>>>::empty());
        }
        c
    }

    /// Note the current HEAD tree id: when it differs from the one the
    /// entries were read from, drop them all.
    pub fn sync_head(&mut self, tree_id: &[u8])
        requires
            old(self).wf(),
        ensures
            final(self).wf(),
            final(self).head() == Some(tree_id@),
            old(self).head() == Some(tree_id@) ==> final(self).cached() == old(self).cached(),
            old(self).head() != Some(tree_id@) ==> final(self).cached() == Map::<
                Seq<char>,
                Option<Seq<u8>>,
            >::empty(),
            final(self).steps() == old(self).steps().push(CacheStep::Sync(tree_id@)),
    {
        let ghost steps = self.history@.push(CacheStep::Sync(tree_id@));
        proof {
            assert(steps.drop_last() =~= self.history@);
        }
        let same = match &self.head {
            Some(h) => bytes_equal(h.as_slice(), tree_id),
            None => false,
        };
        if !same {
            self.entries = Vec::new();
            let mut id: Vec<u8> = Vec::new();
            let mut i: usize = 0;
            while i < tree_id.len()
                invariant
                    i <= tree_id@.len(),
                    id@ == tree_id@.take(i as int),
                decreases tree_id.len() - i,
            {
                id.push(tree_id[i]);
                proof {
                    assert(tree_id@.take(i + 1) =~= tree_id@.take(i as int).push(tree_id@[i as int]));
                }
                i += 1;
            }
            proof {
                assert(tree_id@.take(tree_id@.len() as int) =~= tree_id@);
            }
            self.head = Some(id);
            proof {
                assert(self.cached() =~= Map::<Seq<char>, Option<Seq<u8>>>::empty());
            }
        }
        self.history = Ghost(steps);
    }

    fn index_of(&self, rel: &str) -> (res: Option<usize>)
        ensures
            match res {
                Some(i) => i < self.entries@.len() && self.entries@[i as int].0@ == rel@,
                None => forall|i: int| 0 <= i < self.entries@.len() ==> (#[trigger] self.entries@[i]).0@ != rel@,
            },
    {
        let key = rel.to_owned();
        let mut i: usize = 0;
        while i < self.entries.len()
            invariant
                i <= self.entries@.len(),
                key@ == rel@,
                forall|k: int| 0 <= k < i ==> (#[trigger] self.entries@[k]).0@ != rel@,
            decreases self.entries.len() - i,
        {
            if self.entries[i].0 == key {
                return Some(i);
            }
            i += 1;
        }
        None
    }

    /// The cached HEAD contents of `rel`, if it was cached.
    pub fn lookup(&self, rel: &str) -> (res: Option<Option<Vec<u8>>>)
        requires
            self.wf(),
        ensures
            res is Some <==> self.cached().contains_key(rel@),
            res matches Some(b) ==> blob_view(b) == self.cached()[rel@],
            res is Some ==> exists|k: int| #[trigger] stored_under_head(self.steps(), rel@, k),
    {
        proof {
            assert(cache_after(self.history@).1 == self.cached());
            if self.cached().contains_key(rel@) {
                lemma_cache_serves_current_head(self.history@, rel@);
                assert(self.steps() == self.history@);
            }
        }
        match self.index_of(rel) {
            Some(i) => {
                let b = copy_blob(&self.entries[i].1);
                proof {
                    let c = choose|k: int| 0 <= k < self.entries@.len() && (#[trigger] self.entries@[k]).0@ == rel@;
                    assert(self.entries@[i as int].0@ == rel@);
                    if c != i {
                        assert(self.entries@[c].0@ != self.entries@[i as int].0@);
                    }
                }
                Some(b)
            },
            None => None,
        }
    }

    /// Cache the HEAD contents of `rel`.
    pub fn store(&mut self, rel: String, blob: Option<Vec<u8>>)
        requires
            old(self).wf(),
        ensures
            final(self).wf(),
            final(self).head() == old(self).head(),
            final(self).cached() == old(self).cached().insert(rel@, blob_view(blob)),
            final(self).steps() == old(self).steps().push(CacheStep::Store(rel@, blob_view(blob))),
    {
        let ghost steps = self.history@.push(CacheStep::Store(rel@, blob_view(blob)));
        proof {
            assert(steps.drop_last() =~= self.history@);
        }
        let ghost bv = blob_view(blob);
        let ghost old_cached = self.cached();
        match self.index_of(rel.as_str()) {
            Some(i) => {
                let ghost es = self.entries@;
                self.entries.set(i, (rel, blob));
                proof {
                    assert forall|p: Seq<char>| #[trigger] self.cached().contains_key(p)
                        == old_cached.insert(es[i as int].0@, bv).contains_key(p) by {
                        if old_cached.contains_key(p) {
                            let k = choose|k: int| 0 <= k < es.len() && (#[trigger] es[k]).0@ == p;
                            assert(self.entries@[k].0@ == p);
                        }
                        if p == es[i as int].0@ {
                            assert(self.entries@[i as int].0@ == p);
                        }
                        if self.cached().contains_key(p) {
                            let k = choose|k: int| 0 <= k < self.entries@.len() && (#[trigger] self.entries@[k]).0@ == p;
                            if k != i {
                                assert(es[k].0@ == p);
                            }
                        }
                    }
                    assert forall|p: Seq<char>| #[trigger] self.cached().contains_key(p) implies self.cached()[p]
                        == old_cached.insert(es[i as int].0@, bv)[p] by {
                        let k = choose|k: int| 0 <= k < self.entries@.len() && (#[trigger] self.entries@[k]).0@ == p;
                        if p == es[i as int].0@ {
                            if k != i {
                                assert(self.entries@[k].0@ != self.entries@[i as int].0@);
                            }
                        } else {
                            let k0 = choose|k0: int| 0 <= k0 < es.len() && (#[trigger] es[k0]).0@ == p;
                            assert(k != i);
                            assert(es[k].0@ == p);
                            if k0 != k {
                                assert(es[k0].0@ != es[k].0@);
                            }
                        }
                    }
                    assert(self.cached() =~= old_cached.insert(rel@, bv));
                }
            },
            None => {
                let ghost es = self.entries@;
                self.entries.push((rel, blob));
                proof {
                    let n = es.len() as int;
                    assert forall|p: Seq<char>| #[trigger] self.cached().contains_key(p)
                        == old_cached.insert(rel@, bv).contains_key(p) by {
                        if old_cached.contains_key(p) {
                            let k = choose|k: int| 0 <= k < es.len() && (#[trigger] es[k]).0@ == p;
                            assert(self.entries@[k].0@ == p);
                        }
                        if p == rel@ {
                            assert(self.entries@[n].0@ == p);
                        }
                        if self.cached().contains_key(p) {
                            let k = choose|k: int| 0 <= k < self.entries@.len() && (#[trigger] self.entries@[k]).0@ == p;
                            if k != n {
                                assert(es[k].0@ == p);
                            }
                        }
                    }
                    assert forall|p: Seq<char>| #[trigger] self.cached().contains_key(p) implies self.cached()[p]
                        == old_cached.insert(rel@, bv)[p] by {
                        let k = choose|k: int| 0 <= k < self.entries@.len() && (#[trigger] self.entries@[k]).0@ == p;
                        if p == rel@ {
                            if k != n {
                                assert(es[k].0@ == rel@);
                            }
                        } else {
                            let k0 = choose|k0: int| 0 <= k0 < es.len() && (#[trigger] es[k0]).0@ == p;
                            assert(k != n);
                            assert(es[k].0@ == p);
                            if k0 != k {
                                assert(es[k0].0@ != es[k].0@);
                            }
                        }
                    }
                    assert(self.cached() =~= old_cached.insert(rel@, bv));
                    assert forall|a: int, b: int|
                        0 <= a < self.entries@.len() && 0 <= b < self.entries@.len() && a != b implies (
                        #[trigger] self.entries@[a]).0@ != (#[trigger] self.entries@[b]).0@ by {
                        if a < n && b < n {
                            assert(self.entries@[a] == es[a] && self.entries@[b] == es[b]);
                        } else if a < n {
                            assert(self.entries@[a] == es[a]);
                        } else if b < n {
                            assert(self.entries@[b] == es[b]);
                        }
                    }
                }
            },
        }
        self.history = Ghost(steps);
    }
}

} // verus!
