//! The diff pane and the sidebar as rows of styled text: what the terminal
//! front end draws, one row per screen line.

use vstd::prelude::*;
use crate::text::chars_of;
use crate::diff::is_update_for;
use crate::layout::{cell_width, cells};
use crate::width::{char_display_width, display_width, str_width, narrow, all_narrow};
use crate::layout::{truncate_left, spec_truncate_left, sidebar_scroll, spec_sidebar_scroll};
use crate::state::{State, DiffUpdate, ChangeKind, Hunk, HunkLine, LineModel, HunkModel, hunk_models};
use crate::view::{content_width, line_rows, lines_rows, hunks_rows, visual_rows, file_rows, rows_before, offsets_of, total_rows, clamp16};
use crate::state::line_models;
use crate::width::char_width;

verus! {

/// The decimal digit for `d < 10`.
pub open spec fn digit(d: int) -> char {
    if d == 0 {
        '0'
    } else if d == 1 {
        '1'
    } else if d == 2 {
        '2'
    } else if d == 3 {
        '3'
    } else if d == 4 {
        '4'
    } else if d == 5 {
        '5'
    } else if d == 6 {
        '6'
    } else if d == 7 {
        '7'
    } else if d == 8 {
        '8'
    } else {
        '9'
    }
}

/// Decimal notation of `n`, without leading zeros.
pub open spec fn decimal(n: nat) -> Seq<char>
    decreases n,
{
    if n < 10 {
        seq![digit(n as int)]
    } else {
        decimal(n / 10).push(digit((n % 10) as int))
    }
}

proof fn lemma_decimal_narrow(n: nat)
    ensures
        all_narrow(decimal(n)),
    decreases n,
{
    if n >= 10 {
        lemma_decimal_narrow(n / 10);
        let d = decimal(n);
        assert forall|k: int| 0 <= k < d.len() implies narrow(#[trigger] d[k]) by {
            if k < decimal(n / 10).len() {
                assert(d[k] == decimal(n / 10)[k]);
            }
        }
    }
}

fn digit_char(d: u32) -> (c: char)
    requires
        d < 10,
    ensures
        c == digit(d as int),
{
    if d == 0 {
        '0'
    } else if d == 1 {
        '1'
    } else if d == 2 {
        '2'
    } else if d == 3 {
        '3'
    } else if d == 4 {
        '4'
    } else if d == 5 {
        '5'
    } else if d == 6 {
        '6'
    } else if d == 7 {
        '7'
    } else if d == 8 {
        '8'
    } else {
        '9'
    }
}

/// Append the decimal notation of `n` to `out`.
pub fn push_decimal(out: &mut String, n: u64)
    ensures
        final(out)@ == old(out)@ + decimal(n as nat),
    decreases n,
{
    if n >= 10 {
        push_decimal(out, n / 10);
    }
    out.push(digit_char((n % 10) as u32));
    proof {
        if n >= 10 {
            assert(old(out)@ + decimal(n as nat) =~= old(out)@ + decimal((n / 10) as nat) + seq![
                digit((n % 10) as int),
            ]);
        } else {
            assert(old(out)@ + decimal(n as nat) =~= old(out)@.push(digit((n % 10) as int)));
        }
    }
}

/// State of the greedy cut after the first `n` characters: where each
/// chunk starts, and the cells used by the last chunk.
pub open spec fn cut_state(cs: Seq<char>, max: int, n: int) -> (Seq<int>, int)
    decreases n,
{
    if n <= 0 {
        (seq![0int], 0)
    } else {
        let prev = cut_state(cs, max, n - 1);
        let w = cell_width(cs[n - 1]);
        if prev.1 + w > max && prev.1 > 0 {
            (prev.0.push(n - 1), w)
        } else {
            (prev.0, prev.1 + w)
        }
    }
}

/// `content` cut into chunks of at most `max_cells` display cells (at
/// least 1), greedily, character by character; a character wider than the
/// limit gets a chunk of its own. Empty content is one empty chunk.
pub open spec fn spec_wrap(content: Seq<char>, max_cells: u16) -> Seq<Seq<char>> {
    let max: int = if max_cells == 0 {
        1
    } else {
        max_cells as int
    };
    let st = cut_state(content, max, content.len() as int).0;
    Seq::new(
        st.len(),
        |k: int|
            content.subrange(
                st[k],
                if k + 1 < st.len() {
                    st[k + 1]
                } else {
                    content.len() as int
                },
            ),
    )
}

pub(crate) proof fn lemma_cut_state(cs: Seq<char>, max: int, n: int)
    requires
        0 <= n <= cs.len(),
        max >= 1,
    ensures
        cut_state(cs, max, n).0.len() >= 1,
        cut_state(cs, max, n).0[0] == 0,
        forall|k: int|
            0 <= k < cut_state(cs, max, n).0.len() - 1 ==> #[trigger] cut_state(cs, max, n).0[k]
                < cut_state(cs, max, n).0[k + 1],
        cut_state(cs, max, n).0.last() <= n,
        n > 0 ==> cut_state(cs, max, n).0.last() < n,
        cut_state(cs, max, n).1 >= 0,
        forall|k: int| 0 <= k < cut_state(cs, max, n).0.len() ==> 0 <= #[trigger] cut_state(cs, max, n).0[k] <= n,
    decreases n,
{
    if n > 0 {
        lemma_cut_state(cs, max, n - 1);
        let prev = cut_state(cs, max, n - 1);
        let w = cell_width(cs[n - 1]);
        assert(w >= 0);
        if prev.1 + w > max && prev.1 > 0 {
            let st = prev.0.push(n - 1);
            assert forall|k: int| 0 <= k < st.len() - 1 implies #[trigger] st[k] < st[k + 1] by {
                if k < st.len() - 2 {
                    assert(st[k] == prev.0[k] && st[k + 1] == prev.0[k + 1]);
                } else {
                    assert(st[k] == prev.0.last());
                    if n - 1 > 0 {
                    } else {
                        assert(prev.1 == 0);
                    }
                }
            }
        }
    }
}

/// A chunk fits `max` cells, or all its cells come from its last character:
/// a character wider than the limit (after any zero-width ones) gets a
/// chunk of its own.
pub open spec fn chunk_fits(c: Seq<char>, max: int) -> bool {
    cells(c) <= max || (c.len() > 0 && cells(c.drop_last()) == 0)
}

#[verifier::rlimit(100)]
#[verifier::spinoff_prover]
proof fn lemma_cut_cells(cs: Seq<char>, max: int, n: int)
    requires
        0 <= n <= cs.len(),
        max >= 1,
    ensures
        cells(cs.subrange(cut_state(cs, max, n).0.last(), n)) == cut_state(cs, max, n).1,
        chunk_fits(cs.subrange(cut_state(cs, max, n).0.last(), n), max),
        forall|k: int|
            0 <= k < cut_state(cs, max, n).0.len() - 1 ==> chunk_fits(
                cs.subrange(#[trigger] cut_state(cs, max, n).0[k], cut_state(cs, max, n).0[k + 1]),
                max,
            ),
    decreases n,
{
    lemma_cut_state(cs, max, n);
    let st = cut_state(cs, max, n).0;
    if n == 0 {
        assert(cs.subrange(0, 0) =~= Seq::<char>::empty());
    } else {
        lemma_cut_state(cs, max, n - 1);
        lemma_cut_cells(cs, max, n - 1);
        let prev = cut_state(cs, max, n - 1);
        let a = prev.0.last();
        let w = cell_width(cs[n - 1]);
        if prev.1 + w > max && prev.1 > 0 {
            let last = cs.subrange(n - 1, n);
            assert(last.drop_last() =~= Seq::<char>::empty());
            assert(last.last() == cs[n - 1]);
            assert(cells(Seq::<char>::empty()) == 0);
            assert(cells(last.drop_last()) == 0);
            assert(cells(last) == w);
            assert(st == prev.0.push(n - 1));
            assert forall|k: int| 0 <= k < st.len() - 1 implies chunk_fits(
                cs.subrange(#[trigger] st[k], st[k + 1]),
                max,
            ) by {
                if k < st.len() - 2 {
                    assert(st[k] == prev.0[k] && st[k + 1] == prev.0[k + 1]);
                } else {
                    assert(st[k] == a && st[k + 1] == n - 1);
                }
            }
        } else {
            let last = cs.subrange(a, n);
            assert(last.drop_last() =~= cs.subrange(a, n - 1));
            assert(last.last() == cs[n - 1]);
            assert(st == prev.0);
        }
    }
}

/// Every chunk of a wrapped line fits the limit (at least one cell), but
/// for a chunk that is one character wider than the limit.
pub proof fn lemma_wrap_chunks_fit(content: Seq<char>, max_cells: u16)
    ensures
        forall|k: int|
            0 <= k < spec_wrap(content, max_cells).len() ==> chunk_fits(
                #[trigger] spec_wrap(content, max_cells)[k],
                if max_cells == 0 {
                    1
                } else {
                    max_cells as int
                },
            ),
{
    let max: int = if max_cells == 0 {
        1
    } else {
        max_cells as int
    };
    let n = content.len() as int;
    lemma_cut_cells(content, max, n);
    lemma_cut_state(content, max, n);
    let st = cut_state(content, max, n).0;
    let chunks = spec_wrap(content, max_cells);
    assert forall|k: int| 0 <= k < chunks.len() implies chunk_fits(#[trigger] chunks[k], max) by {
        if k + 1 < st.len() {
            assert(chunks[k] == content.subrange(st[k], st[k + 1]));
        } else {
            assert(chunks[k] == content.subrange(st.last(), n));
        }
    }
}

/// The chunks from the `m`-th on, joined, are the text from the `m`-th cut
/// to the end.
proof fn lemma_joined_suffix(s: Seq<char>, st: Seq<int>, chunks: Seq<Seq<char>>, m: int)
    requires
        chunks.len() == st.len(),
        0 <= m < st.len(),
        forall|k: int| 0 <= k < st.len() - 1 ==> #[trigger] st[k] < st[k + 1],
        forall|k: int| 0 <= k < st.len() ==> 0 <= #[trigger] st[k] <= s.len(),
        forall|k: int|
            0 <= k < chunks.len() ==> #[trigger] chunks[k] == s.subrange(
                st[k],
                if k + 1 < st.len() {
                    st[k + 1]
                } else {
                    s.len() as int
                },
            ),
    ensures
        chunks.subrange(m, chunks.len() as int).flatten() == s.subrange(st[m], s.len() as int),
    decreases st.len() - m,
{
    let t = chunks.subrange(m, chunks.len() as int);
    assert(t.first() == chunks[m]);
    if m + 1 < st.len() {
        lemma_joined_suffix(s, st, chunks, m + 1);
        assert(t.drop_first() =~= chunks.subrange(m + 1, chunks.len() as int));
        assert(st[m] < st[m + 1]);
        assert(s.subrange(st[m], st[m + 1]) + s.subrange(st[m + 1], s.len() as int) =~= s.subrange(
            st[m],
            s.len() as int,
        ));
    } else {
        assert(t.drop_first() =~= Seq::<Seq<char>>::empty());
        assert(t.drop_first().flatten() =~= Seq::<char>::empty());
        assert(t.flatten() =~= chunks[m]);
    }
}

/// Joining the chunks of a wrapped line gives the line back: wrapping only
/// cuts, it drops and adds nothing.
pub proof fn lemma_wrap_preserves_text(content: Seq<char>, max_cells: u16)
    ensures
        spec_wrap(content, max_cells).flatten() == content,
{
    let max: int = if max_cells == 0 {
        1
    } else {
        max_cells as int
    };
    let n = content.len() as int;
    let st = cut_state(content, max, n).0;
    lemma_cut_state(content, max, n);
    let chunks = spec_wrap(content, max_cells);
    lemma_joined_suffix(content, st, chunks, 0);
    assert(chunks.subrange(0, chunks.len() as int) =~= chunks);
    assert(content.subrange(0, n) =~= content);
}

/// Number of chunks `wrap_at` cuts `content` into.
pub(crate) fn wrap_count(content: &str, max_cells: u16) -> (n: usize)
    ensures
        n == spec_wrap(content@, max_cells).len(),
{
    let max: usize = if max_cells == 0 {
        1
    } else {
        max_cells as usize
    };
    let cs = chars_of(content);
    let ghost full = content@;
    let ghost gmax = max as int;
    let mut count: usize = 1;
    let mut cells: usize = 0;
    let mut i: usize = 0;
    while i < cs.len()
        invariant
            cs@ == full,
            max >= 1,
            gmax == max as int,
            i <= cs@.len(),
            cut_state(full, gmax, i as int).1 == cells,
            cut_state(full, gmax, i as int).0.len() == count,
            i == 0 ==> count == 1 && cells == 0,
            i > 0 ==> count <= i,
        decreases cs.len() - i,
    {
        let c = cs[i];
        let w = match char_display_width(c) {
            Some(w) => w,
            None => 0,
        };
        proof {
            lemma_cut_state(full, gmax, i as int);
            assert(cell_width(c) == w);
        }
        if cells > 0 && (cells > max || w > max - cells) {
            count = count + 1;
            cells = w;
        } else {
            cells = cells + w;
        }
        i += 1;
    }
    count
}

/// Cut `content` into chunks of at most `max_cells` display cells, as the
/// diff pane shows a long line.
pub fn wrap_at(content: &str, max_cells: u16) -> (chunks: Vec<String>)
    ensures
        chunks@.len() == spec_wrap(content@, max_cells).len(),
        forall|k: int| 0 <= k < chunks@.len() ==> (#[trigger] chunks@[k])@ == spec_wrap(content@, max_cells)[k],
{
    let max: usize = if max_cells == 0 {
        1
    } else {
        max_cells as usize
    };
    let cs = chars_of(content);
    let ghost full = content@;
    let ghost gmax = max as int;
    let mut out: Vec<String> = Vec::new();
    let mut cur = String::new();
    let mut cells: usize = 0;
    let mut start: usize = 0;
    let mut i: usize = 0;
    proof {
        assert(full.subrange(0, 0) =~= Seq::<char>::empty());
    }
    while i < cs.len()
        invariant
            cs@ == full,
            max >= 1,
            gmax == max as int,
            i <= cs@.len(),
            cut_state(full, gmax, i as int).1 == cells,
            cut_state(full, gmax, i as int).0.len() == out@.len() + 1,
            cut_state(full, gmax, i as int).0.last() == start,
            start <= i,
            forall|k: int|
                0 <= k < out@.len() ==> (#[trigger] out@[k])@ == full.subrange(
                    cut_state(full, gmax, i as int).0[k],
                    cut_state(full, gmax, i as int).0[k + 1],
                ),
            cur@ == full.subrange(start as int, i as int),
        decreases cs.len() - i,
    {
        let c = cs[i];
        let w = match char_display_width(c) {
            Some(w) => w,
            None => 0,
        };
        let ghost prev = cut_state(full, gmax, i as int);
        proof {
            lemma_cut_state(full, gmax, i as int);
            assert(cell_width(c) == w);
        }
        if cells > 0 && (cells > max || w > max - cells) {
            let ghost old_out = out@;
            out.push(cur);
            cur = String::new();
            cur.push(c);
            proof {
                let next = cut_state(full, gmax, i + 1);
                assert(next.0 == prev.0.push(i as int));
                assert forall|k: int| 0 <= k < out@.len() implies (#[trigger] out@[k])@ == full.subrange(
                    next.0[k],
                    next.0[k + 1],
                ) by {
                    if k < old_out.len() {
                        assert(out@[k] == old_out[k]);
                    }
                }
                assert(cur@ =~= full.subrange(i as int, i + 1));
            }
            start = i;
            cells = w;
        } else {
            cur.push(c);
            proof {
                assert(cur@ =~= full.subrange(start as int, i + 1));
            }
            cells = cells + w;
        }
        i += 1;
    }
    out.push(cur);
    proof {
        let st = cut_state(full, gmax, full.len() as int).0;
        lemma_cut_state(full, gmax, full.len() as int);
        assert(spec_wrap(full, max_cells).len() == st.len());
        assert forall|k: int| 0 <= k < out@.len() implies (#[trigger] out@[k])@ == spec_wrap(full, max_cells)[k] by {
            if k + 1 < st.len() {
            } else {
                assert(k == st.len() - 1);
            }
        }
    }
    out
}

/// The colours the front end paints with; the last two come from the
/// terminal's theme.
#[derive(Debug, Clone, Copy, PartialEq, Eq)]
pub enum Color {
    Yellow,
    Red,
    Cyan,
    Green,
    DarkGray,
    Black,
    RowBackground,
    HighlightForeground,
}

/// Foreground, background and weight of a span.
#[derive(Debug, Clone, Copy, PartialEq, Eq)]
pub struct Style {
    pub fg: Option<Color>,
    pub bg: Option<Color>,
    pub bold: bool,
}

/// A run of text in one style.
#[derive(Debug)]
pub struct Span {
    pub text: String,
    pub style: Style,
}

/// One screen row.
#[derive(Debug)]
pub struct Row {
    pub spans: Vec<Span>,
}

/// A span as text and style.
pub type SpanModel = (Seq<char>, Style);

/// A row as its spans.
pub type RowModel = Seq<SpanModel>;

impl Span {
    pub open spec fn model(&self) -> SpanModel {
        (self.text@, self.style)
    }
}

impl Row {
    pub open spec fn model(&self) -> RowModel {
        self.spans@.map_values(|sp: Span| sp.model())
    }
}

/// The models of a sequence of rows.
pub open spec fn row_models(rows: Seq<Row>) -> Seq<RowModel> {
    rows.map_values(|r: Row| r.model())
}

pub open spec fn plain() -> Style {
    Style { fg: None, bg: None, bold: false }
}

pub open spec fn dim() -> Style {
    Style { fg: Some(Color::DarkGray), bg: None, bold: false }
}

pub open spec fn fg(c: Color) -> Style {
    Style { fg: Some(c), bg: None, bold: false }
}

fn style(fg: Option<Color>, bg: Option<Color>, bold: bool) -> (s: Style)
    ensures
        s == (Style { fg, bg, bold }),
{
    Style { fg, bg, bold }
}

fn span(text: String, style: Style) -> (sp: Span)
    ensures
        sp.model() == (text@, style),
{
    Span { text, style }
}

/// Badge text of a change kind.
pub open spec fn status_label(k: ChangeKind) -> Seq<char> {
    match k {
        ChangeKind::Modified => " MODIFIED "@,
        ChangeKind::Deleted => " DELETED "@,
        ChangeKind::Untracked => " UNTRACKED "@,
    }
}

/// Badge colour of a change kind.
pub open spec fn status_color(k: ChangeKind) -> Color {
    match k {
        ChangeKind::Modified => Color::Yellow,
        ChangeKind::Deleted => Color::Red,
        ChangeKind::Untracked => Color::Cyan,
    }
}

/// A file's header row: badge, path in bold, then `+added -removed`.
pub open spec fn header_row(u: DiffUpdate) -> RowModel {
    seq![
        (status_label(u.status), Style { fg: Some(Color::Black), bg: Some(status_color(u.status)), bold: true }),
        ("  "@, plain()),
        (u.path@, Style { fg: None, bg: None, bold: true }),
        ("  +"@ + decimal(u.added as nat) + " -"@ + decimal(u.removed as nat), dim()),
    ]
}

/// A one-span dimmed row.
pub open spec fn note_row(text: Seq<char>) -> RowModel {
    seq![(text, dim())]
}

/// Where a range starts in `@@` notation: 1-based, or 0 for an empty range.
pub open spec fn range_start(r: (u32, u32)) -> nat {
    if r.1 == 0 {
        0
    } else {
        (r.0 + 1) as nat
    }
}

/// A hunk's `@@ -a,b +c,d @@` row.
pub open spec fn hunk_header_row(h: HunkModel) -> RowModel {
    seq![
        (
            "  @@ -"@ + decimal(range_start(h.old_range)) + ","@ + decimal(h.old_range.1 as nat)
                + " +"@ + decimal(range_start(h.new_range)) + ","@ + decimal(h.new_range.1 as nat)
                + " @@"@,
            fg(Color::Cyan),
        ),
    ]
}

/// Prefix and style of a diff line's rows.
pub open spec fn line_look(l: LineModel) -> (Seq<char>, Style, Seq<char>) {
    match l {
        LineModel::Context(t) => ("    "@, plain(), t),
        LineModel::Added(t) => ("  + "@, fg(Color::Green), t),
        LineModel::Removed(t) => ("  - "@, fg(Color::Red), t),
    }
}

/// The rows of one diff line: its text cut at `content_w` cells, each chunk
/// behind the line's prefix.
pub open spec fn diff_line_rows_model(l: LineModel, content_w: u16) -> Seq<RowModel> {
    let look = line_look(l);
    spec_wrap(look.2, content_w).map_values(|c: Seq<char>| seq![(look.0, look.1), (c, look.1)])
}

/// The rows of a sequence of diff lines.
pub open spec fn lines_rows_model(lines: Seq<LineModel>, content_w: u16) -> Seq<RowModel>
    decreases lines.len(),
{
    if lines.len() == 0 {
        Seq::empty()
    } else {
        lines_rows_model(lines.drop_last(), content_w) + diff_line_rows_model(lines.last(), content_w)
    }
}

/// The rows of a sequence of hunks: each one's header, then its lines.
pub open spec fn hunks_rows_model(hunks: Seq<HunkModel>, content_w: u16) -> Seq<RowModel>
    decreases hunks.len(),
{
    if hunks.len() == 0 {
        Seq::empty()
    } else {
        hunks_rows_model(hunks.drop_last(), content_w) + seq![hunk_header_row(hunks.last())]
            + lines_rows_model(hunks.last().lines, content_w)
    }
}

/// The rows of one file: its header, then a note for a binary file or one
/// with no textual change, else its hunks.
pub open spec fn file_rows_model(u: DiffUpdate, width: u16) -> Seq<RowModel> {
    seq![header_row(u)] + if u.binary {
        seq![note_row("  (binary — diff suppressed)"@)]
    } else if u.hunks@.len() == 0 && !(u.status is Deleted) {
        seq![note_row("  (no textual change)"@)]
    } else {
        hunks_rows_model(hunk_models(u.hunks@), content_width(width))
    }
}

/// A separator row of `─` as wide as the pane (at least one).
pub open spec fn separator_model(width: u16) -> RowModel {
    seq![(Seq::new(if width == 0 { 1nat } else { width as nat }, |i: int| '─'), dim())]
}

/// Rows of the first `n` files, each after the first preceded by a blank
/// row and a separator.
pub open spec fn files_rows_model(s: Seq<DiffUpdate>, width: u16, n: int) -> Seq<RowModel>
    decreases n,
{
    if n <= 0 {
        Seq::empty()
    } else {
        files_rows_model(s, width, n - 1) + (if n - 1 > 0 {
            seq![Seq::<SpanModel>::empty(), separator_model(width)]
        } else {
            Seq::empty()
        }) + file_rows_model(s[n - 1], width)
    }
}

/// The diff pane: a waiting note when nothing changed, else every file in
/// order.
pub open spec fn pane_rows_model(s: Seq<DiffUpdate>, width: u16) -> Seq<RowModel> {
    if s.len() == 0 {
        seq![note_row("  (no changes — waiting for edits)"@)]
    } else {
        files_rows_model(s, width, s.len() as int)
    }
}

/// Hunk starts leave room for their 1-based form.
pub open spec fn starts_printable(u: DiffUpdate) -> bool {
    forall|k: int|
        0 <= k < u.hunks@.len() ==> (#[trigger] u.hunks@[k]).old_range.0 < u32::MAX
            && u.hunks@[k].new_range.0 < u32::MAX
}

/// An update built by `diff_update` can be rendered: its hunk starts lie
/// below `i32::MAX`.
pub proof fn lemma_update_printable(
    u: DiffUpdate,
    path: Seq<char>,
    status: ChangeKind,
    mtime: i128,
    before: Seq<u8>,
    after: Seq<u8>,
    attr_binary: bool,
)
    requires
        is_update_for(u, path, status, mtime, before, after, attr_binary),
    ensures
        starts_printable(u),
{
}

fn push_rows(out: &mut Vec<Row>, more: Vec<Row>)
    ensures
        row_models(final(out)@) == row_models(old(out)@) + row_models(more@),
{
    let mut more = more;
    let ghost m = more@;
    let ghost base = out@;
    out.append(&mut more);
    proof {
        assert(out@ == base + m);
        assert(row_models(out@) =~= row_models(base) + row_models(m));
    }
}

fn one_span_row(text: String, st: Style) -> (r: Row)
    ensures
        r.model() == seq![(text@, st)],
{
    let mut spans: Vec<Span> = Vec::new();
    spans.push(span(text, st));
    let r = Row { spans };
    proof {
        assert(r.model() =~= seq![(text@, st)]);
    }
    r
}

/// The separator row between files.
pub fn separator_line(width: u16) -> (r: Row)
    ensures
        r.model() == separator_model(width),
{
    let n: u16 = if width == 0 {
        1
    } else {
        width
    };
    let mut text = String::new();
    let mut i: u16 = 0;
    while i < n
        invariant
            i <= n,
            text@ == Seq::new(i as nat, |k: int| '─'),
        decreases n - i,
    {
        text.push('─');
        proof {
            assert(Seq::new((i + 1) as nat, |k: int| '─') =~= Seq::new(i as nat, |k: int| '─').push('─'));
        }
        i += 1;
    }
    one_span_row(text, style(Some(Color::DarkGray), None, false))
}

fn header_line(u: &DiffUpdate) -> (r: Row)
    ensures
        r.model() == header_row(*u),
{
    let (label, color) = match u.status {
        ChangeKind::Modified => (" MODIFIED ", Color::Yellow),
        ChangeKind::Deleted => (" DELETED ", Color::Red),
        ChangeKind::Untracked => (" UNTRACKED ", Color::Cyan),
    };
    let mut summary = "  +".to_owned();
    push_decimal(&mut summary, u.added as u64);
    summary.append(" -");
    push_decimal(&mut summary, u.removed as u64);
    let mut spans: Vec<Span> = Vec::new();
    spans.push(span(label.to_owned(), style(Some(Color::Black), Some(color), true)));
    spans.push(span("  ".to_owned(), style(None, None, false)));
    spans.push(span(u.path.clone(), style(None, None, true)));
    spans.push(span(summary, style(Some(Color::DarkGray), None, false)));
    let r = Row { spans };
    proof {
        assert(r.model() =~= header_row(*u));
    }
    r
}

fn hunk_header_line(h: &Hunk) -> (r: Row)
    requires
        h.old_range.0 < u32::MAX,
        h.new_range.0 < u32::MAX,
    ensures
        r.model() == hunk_header_row(h.model()),
{
    let old_start: u32 = if h.old_range.1 == 0 {
        0
    } else {
        h.old_range.0 + 1
    };
    let new_start: u32 = if h.new_range.1 == 0 {
        0
    } else {
        h.new_range.0 + 1
    };
    let mut text = "  @@ -".to_owned();
    push_decimal(&mut text, old_start as u64);
    text.append(",");
    push_decimal(&mut text, h.old_range.1 as u64);
    text.append(" +");
    push_decimal(&mut text, new_start as u64);
    text.append(",");
    push_decimal(&mut text, h.new_range.1 as u64);
    text.append(" @@");
    let r = one_span_row(text, style(Some(Color::Cyan), None, false));
    proof {
        assert(r.model() =~= hunk_header_row(h.model()));
    }
    r
}

fn diff_line_lines(line: &HunkLine, content_w: u16) -> (rows: Vec<Row>)
    ensures
        row_models(rows@) == diff_line_rows_model(line.model(), content_w),
{
    let (prefix, st) = match line {
        HunkLine::Context(_) => ("    ", style(None, None, false)),
        HunkLine::Added(_) => ("  + ", style(Some(Color::Green), None, false)),
        HunkLine::Removed(_) => ("  - ", style(Some(Color::Red), None, false)),
    };
    let chunks = wrap_at(line.content().as_str(), content_w);
    let ghost target = diff_line_rows_model(line.model(), content_w);
    let mut rows: Vec<Row> = Vec::new();
    let mut k: usize = 0;
    while k < chunks.len()
        invariant
            k <= chunks@.len(),
            target == diff_line_rows_model(line.model(), content_w),
            target.len() == chunks@.len(),
            line_look(line.model()).0 == prefix@,
            line_look(line.model()).1 == st,
            forall|m: int| 0 <= m < chunks@.len() ==> (#[trigger] chunks@[m])@ == spec_wrap(line.text(), content_w)[m],
            row_models(rows@) == target.take(k as int),
        decreases chunks.len() - k,
    {
        let mut spans: Vec<Span> = Vec::new();
        spans.push(span(prefix.to_owned(), st));
        spans.push(span(chunks[k].clone(), st));
        let r = Row { spans };
        let ghost old_rows = rows@;
        rows.push(r);
        proof {
            assert(r.model() =~= seq![(prefix@, st), (chunks@[k as int]@, st)]);
            assert(row_models(rows@) =~= row_models(old_rows).push(r.model()));
            assert(target.take(k + 1) =~= target.take(k as int).push(target[k as int]));
        }
        k += 1;
    }
    proof {
        assert(target.take(chunks@.len() as int) =~= target);
    }
    rows
}

/// The rows of one file in the diff pane.
pub fn render_file(update: &DiffUpdate, width: u16) -> (rows: Vec<Row>)
    requires
        starts_printable(*update),
    ensures
        row_models(rows@) == file_rows_model(*update, width),
{
    let mut out: Vec<Row> = Vec::new();
    out.push(header_line(update));
    proof {
        assert(row_models(out@) =~= seq![header_row(*update)]);
    }
    if update.binary {
        let ghost base = out@;
        out.push(one_span_row("  (binary — diff suppressed)".to_owned(), style(Some(Color::DarkGray), None, false)));
        proof {
            assert(row_models(out@) =~= row_models(base).push(note_row("  (binary — diff suppressed)"@)));
        }
        return out;
    }
    if update.hunks.len() == 0 && !matches!(update.status, ChangeKind::Deleted) {
        let ghost base = out@;
        out.push(one_span_row("  (no textual change)".to_owned(), style(Some(Color::DarkGray), None, false)));
        proof {
            assert(row_models(out@) =~= row_models(base).push(note_row("  (no textual change)"@)));
        }
        return out;
    }
    let content_w = width.saturating_sub(4);
    let ghost hs = hunk_models(update.hunks@);
    let mut h: usize = 0;
    while h < update.hunks.len()
        invariant
            h <= update.hunks@.len(),
            starts_printable(*update),
            hs == hunk_models(update.hunks@),
            content_w == content_width(width),
            row_models(out@) == seq![header_row(*update)] + hunks_rows_model(hs.take(h as int), content_w),
        decreases update.hunks.len() - h,
    {
        let hunk = &update.hunks[h];
        let ghost base = row_models(out@);
        out.push(hunk_header_line(hunk));
        proof {
            assert(row_models(out@) =~= base.push(hunk_header_row(hunk.model())));
        }
        let ghost mid = row_models(out@);
        let mut j: usize = 0;
        while j < hunk.lines.len()
            invariant
                j <= hunk.lines@.len(),
                row_models(out@) == mid + lines_rows_model(hunk.model().lines.take(j as int), content_w),
            decreases hunk.lines.len() - j,
        {
            let rows = diff_line_lines(&hunk.lines[j], content_w);
            push_rows(&mut out, rows);
            proof {
                let t = hunk.model().lines.take(j + 1);
                assert(t.drop_last() =~= hunk.model().lines.take(j as int));
                assert(t.last() == hunk.lines@[j as int].model());
            }
            j += 1;
        }
        proof {
            assert(hunk.model().lines.take(hunk.lines@.len() as int) =~= hunk.model().lines);
            let t = hs.take(h + 1);
            assert(t.drop_last() =~= hs.take(h as int));
            assert(t.last() == hunk.model());
        }
        h += 1;
    }
    proof {
        assert(hs.take(update.hunks@.len() as int) =~= hs);
    }
    out
}

/// Every file is renderable.
pub open spec fn all_starts_printable(s: Seq<DiffUpdate>) -> bool {
    forall|i: int| 0 <= i < s.len() ==> starts_printable(#[trigger] s[i])
}

/// The rows of the diff pane.
pub fn render_lines(state: &State, width: u16) -> (rows: Vec<Row>)
    requires
        all_starts_printable(state@),
    ensures
        row_models(rows@) == pane_rows_model(state@, width),
{
    let entries = state.iter_ordered();
    let mut out: Vec<Row> = Vec::new();
    if entries.len() == 0 {
        out.push(one_span_row("  (no changes — waiting for edits)".to_owned(), style(Some(Color::DarkGray), None, false)));
        proof {
            assert(row_models(out@) =~= seq![note_row("  (no changes — waiting for edits)"@)]);
        }
        return out;
    }
    let mut i: usize = 0;
    proof {
        assert(row_models(out@) =~= Seq::<RowModel>::empty());
    }
    while i < entries.len()
        invariant
            i <= entries@.len(),
            entries@ == state@,
            all_starts_printable(state@),
            row_models(out@) == files_rows_model(state@, width, i as int),
        decreases entries.len() - i,
    {
        let ghost base = row_models(out@);
        if i > 0 {
            let blank = Row { spans: Vec::new() };
            let sep = separator_line(width);
            proof {
                assert(blank.model() =~= Seq::<SpanModel>::empty());
            }
            let ghost raw0 = out@;
            out.push(blank);
            out.push(sep);
            proof {
                assert(out@ =~= raw0.push(blank).push(sep));
                assert(row_models(out@) =~= base + seq![Seq::<SpanModel>::empty(), separator_model(width)]);
            }
        } else {
            proof {
                assert(base + Seq::<RowModel>::empty() =~= base);
            }
        }
        let file = render_file(&entries[i], width);
        push_rows(&mut out, file);
        i += 1;
    }
    out
}

/// `n` spaces.
pub open spec fn blanks(n: nat) -> Seq<char> {
    Seq::new(n, |i: int| ' ')
}

fn spaces_string(n: usize) -> (s: String)
    ensures
        s@ == blanks(n as nat),
{
    let mut s = String::new();
    let mut i: usize = 0;
    while i < n
        invariant
            i <= n,
            s@ == blanks(i as nat),
        decreases n - i,
    {
        s.push(' ');
        proof {
            assert(blanks((i + 1) as nat) =~= blanks(i as nat).push(' '));
        }
        i += 1;
    }
    s
}

/// `a + b` capped at `usize::MAX`.
pub open spec fn add_sat(a: int, b: int) -> int {
    if a + b > usize::MAX {
        usize::MAX as int
    } else {
        a + b
    }
}

/// `a - b`, or 0 below zero.
pub open spec fn sub_sat(a: int, b: int) -> int {
    if a >= b {
        a - b
    } else {
        0
    }
}

/// Sidebar badge letter of a change kind.
pub open spec fn badge_letter(k: ChangeKind) -> char {
    match k {
        ChangeKind::Modified => 'M',
        ChangeKind::Deleted => 'D',
        ChangeKind::Untracked => '?',
    }
}

/// `s` with background `c` when highlighted.
pub open spec fn with_bg(s: Style, highlighted: bool) -> Style {
    if highlighted {
        Style { fg: s.fg, bg: Some(Color::RowBackground), bold: s.bold }
    } else {
        s
    }
}

/// The cursor column of a sidebar entry.
pub open spec fn cursor_text(highlighted: bool) -> Seq<char> {
    if highlighted {
        "▎"@
    } else {
        " "@
    }
}

/// The three rows of a sidebar entry: cursor, badge and the path cut from
/// the left to fit; cursor and `+added -removed`; a spacer that carries the
/// cursor and the row tint when highlighted. Highlighted rows are padded
/// to the full width.
pub open spec fn sidebar_rows_model(u: DiffUpdate, highlighted: bool, width: u16) -> Seq<RowModel> {
    let color = status_color(u.status);
    let cursor = cursor_text(highlighted);
    let cursor_style = with_bg(
        if highlighted {
            Style { fg: Some(color), bg: None, bold: true }
        } else {
            fg(Color::DarkGray)
        },
        highlighted,
    );
    let badge = seq![' ', badge_letter(u.status), ' '];
    let badge_style = Style { fg: Some(Color::Black), bg: Some(color), bold: true };
    let path_style = with_bg(
        if highlighted {
            Style { fg: Some(Color::HighlightForeground), bg: None, bold: true }
        } else {
            plain()
        },
        highlighted,
    );
    let counts_style = with_bg(dim(), highlighted);
    let pad_style = with_bg(plain(), highlighted);
    let counts = "+"@ + decimal(u.added as nat) + " -"@ + decimal(u.removed as nat);
    let prefix_len = 5int;
    let path_max = sub_sat(width as int, prefix_len);
    let path_cut = spec_truncate_left(u.path@, path_max as usize);
    let used1 = add_sat(prefix_len, str_width(path_cut) as int);
    let pad1 = sub_sat(width as int, used1);
    let used2 = 5 + counts.len() as int;
    let pad2 = sub_sat(width as int, used2);
    let line1 = seq![(cursor, cursor_style), (badge, badge_style), (" "@, pad_style), (path_cut, path_style)]
        + if highlighted && pad1 > 0 {
        seq![(blanks(pad1 as nat), pad_style)]
    } else {
        Seq::empty()
    };
    let line2 = seq![(cursor, cursor_style), ("    "@, pad_style), (counts, counts_style)] + if highlighted
        && pad2 > 0 {
        seq![(blanks(pad2 as nat), pad_style)]
    } else {
        Seq::empty()
    };
    let line3 = if highlighted {
        seq![(cursor, cursor_style), (blanks(sub_sat(width as int, 1) as nat), pad_style)]
    } else {
        Seq::empty()
    };
    seq![line1, line2, line3]
}

fn with_bg_exec(s: Style, highlighted: bool) -> (r: Style)
    ensures
        r == with_bg(s, highlighted),
{
    if highlighted {
        Style { fg: s.fg, bg: Some(Color::RowBackground), bold: s.bold }
    } else {
        s
    }
}

/// The rows of one sidebar entry.
pub fn sidebar_row(update: &DiffUpdate, highlighted: bool, width: u16) -> (rows: Vec<Row>)
    ensures
        row_models(rows@) == sidebar_rows_model(*update, highlighted, width),
{
    let (letter, color) = match update.status {
        ChangeKind::Modified => ('M', Color::Yellow),
        ChangeKind::Deleted => ('D', Color::Red),
        ChangeKind::Untracked => ('?', Color::Cyan),
    };
    let cursor = if highlighted {
        "▎"
    } else {
        " "
    };
    let cursor_style = with_bg_exec(
        if highlighted {
            style(Some(color), None, true)
        } else {
            style(Some(Color::DarkGray), None, false)
        },
        highlighted,
    );
    let mut badge = String::new();
    badge.push(' ');
    badge.push(letter);
    badge.push(' ');
    let badge_style = style(Some(Color::Black), Some(color), true);
    let path_style = with_bg_exec(
        if highlighted {
            style(Some(Color::HighlightForeground), None, true)
        } else {
            style(None, None, false)
        },
        highlighted,
    );
    let counts_style = with_bg_exec(style(Some(Color::DarkGray), None, false), highlighted);
    let pad_style = with_bg_exec(style(None, None, false), highlighted);
    let mut counts = "+".to_owned();
    push_decimal(&mut counts, update.added as u64);
    counts.append(" -");
    push_decimal(&mut counts, update.removed as u64);
    proof {
        reveal_strlit("▎");
        reveal_strlit(" ");
        reveal_strlit("+");
        reveal_strlit(" -");
        lemma_decimal_narrow(update.added as nat);
        lemma_decimal_narrow(update.removed as nat);
        assert(all_narrow(counts@)) by {
            let c = counts@;
            let a = decimal(update.added as nat);
            assert(c =~= "+"@ + a + " -"@ + decimal(update.removed as nat));
            assert forall|i: int| 0 <= i < c.len() implies narrow(#[trigger] c[i]) by {
                if 1 <= i < 1 + a.len() {
                    assert(c[i] == a[i - 1]);
                } else if i >= 3 + a.len() {
                    assert(c[i] == decimal(update.removed as nat)[i - 3 - a.len()]);
                }
            }
        }
        assert(all_narrow(cursor@));
        assert(all_narrow(badge@));
    }
    let prefix_len = display_width(cursor).saturating_add(display_width(badge.as_str())).saturating_add(1);
    let path_max = (width as usize).saturating_sub(prefix_len);
    let path_cut = truncate_left(update.path.as_str(), path_max);
    let line1_used = prefix_len.saturating_add(display_width(path_cut.as_str()));
    let line1_pad = (width as usize).saturating_sub(line1_used);
    let line2_used = (5usize).saturating_add(display_width(counts.as_str()));
    let line2_pad = (width as usize).saturating_sub(line2_used);
    let ghost model = sidebar_rows_model(*update, highlighted, width);
    proof {
        assert(badge@ =~= seq![' ', badge_letter(update.status), ' ']);
    }
    let mut s1: Vec<Span> = Vec::new();
    s1.push(span(cursor.to_owned(), cursor_style));
    s1.push(span(badge, badge_style));
    s1.push(span(" ".to_owned(), pad_style));
    s1.push(span(path_cut, path_style));
    if highlighted && line1_pad > 0 {
        s1.push(span(spaces_string(line1_pad), pad_style));
    }
    let r1 = Row { spans: s1 };
    proof {
        assert(r1.model() =~= model[0]);
    }
    let mut s2: Vec<Span> = Vec::new();
    s2.push(span(cursor.to_owned(), cursor_style));
    s2.push(span("    ".to_owned(), pad_style));
    s2.push(span(counts, counts_style));
    if highlighted && line2_pad > 0 {
        s2.push(span(spaces_string(line2_pad), pad_style));
    }
    let r2 = Row { spans: s2 };
    proof {
        assert(r2.model() =~= model[1]);
    }
    let mut s3: Vec<Span> = Vec::new();
    if highlighted {
        s3.push(span(cursor.to_owned(), cursor_style));
        s3.push(span(spaces_string((width as usize).saturating_sub(1)), pad_style));
    }
    let r3 = Row { spans: s3 };
    proof {
        assert(r3.model() =~= model[2]);
    }
    let mut rows: Vec<Row> = Vec::new();
    rows.push(r1);
    rows.push(r2);
    rows.push(r3);
    proof {
        assert(row_models(rows@) =~= model);
    }
    rows
}

/// Sidebar rows for the first `n` shown entries, starting at `first`.
pub open spec fn sidebar_window(
    s: Seq<DiffUpdate>,
    current: int,
    width: u16,
    first: int,
    n: int,
) -> Seq<RowModel>
    decreases n,
{
    if n <= 0 {
        Seq::empty()
    } else {
        sidebar_window(s, current, width, first, n - 1) + sidebar_rows_model(
            s[first + n - 1],
            first + n - 1 == current,
            width,
        )
    }
}

/// What the sidebar shows inside its borders: `(none)` without entries,
/// else as many entries as fit (three rows each, at least one entry),
/// scrolled to keep the focused one in view.
pub open spec fn sidebar_model(s: Seq<DiffUpdate>, current: usize, height: u16, width: u16) -> Seq<
    RowModel,
> {
    if s.len() == 0 {
        seq![note_row("  (none)"@)]
    } else {
        let visible: int = if height / 3 >= 1 {
            (height / 3) as int
        } else {
            1
        };
        let first = spec_sidebar_scroll(current, visible as usize, s.len() as usize) as int;
        let shown = if s.len() - first < visible {
            s.len() - first
        } else {
            visible
        };
        sidebar_window(s, current as int, width, first, shown)
    }
}

/// A file's first row is its header: the status label, two spaces, the
/// path, and `  +added -removed`.
pub proof fn lemma_header_row(u: DiffUpdate, width: u16)
    ensures
        file_rows_model(u, width).len() >= 1,
        file_rows_model(u, width)[0].len() == 4,
        file_rows_model(u, width)[0][0].0 == match u.status {
            ChangeKind::Modified => " MODIFIED "@,
            ChangeKind::Deleted => " DELETED "@,
            ChangeKind::Untracked => " UNTRACKED "@,
        },
        file_rows_model(u, width)[0][1].0 == "  "@,
        file_rows_model(u, width)[0][2].0 == u.path@,
        file_rows_model(u, width)[0][3].0 == "  +"@ + decimal(u.added as nat) + " -"@ + decimal(u.removed as nat),
{
}

/// The sidebar window from entry `first` on: three rows per entry, the
/// entry at list index `i` drawn highlighted exactly when `i` is the
/// current one (its first span is then the cursor bar `▎`, else a space).
pub proof fn lemma_sidebar_window_entries(s: Seq<DiffUpdate>, current: int, width: u16, first: int, n: int)
    requires
        0 <= first,
        0 <= n,
        first + n <= s.len(),
    ensures
        sidebar_window(s, current, width, first, n).len() == 3 * n,
        forall|k: int|
            0 <= k < n ==> #[trigger] sidebar_window(s, current, width, first, n).subrange(3 * k, 3 * k + 3)
                == sidebar_rows_model(s[first + k], first + k == current, width),
        forall|k: int|
            0 <= k < n ==> (#[trigger] sidebar_window(s, current, width, first, n)[3 * k])[0].0 == if first + k
                == current {
                "▎"@
            } else {
                " "@
            },
    decreases n,
{
    if n > 0 {
        lemma_sidebar_window_entries(s, current, width, first, n - 1);
        let prev = sidebar_window(s, current, width, first, n - 1);
        let last = sidebar_rows_model(s[first + n - 1], first + n - 1 == current, width);
        let w = sidebar_window(s, current, width, first, n);
        assert(w == prev + last);
        assert forall|k: int| 0 <= k < n implies #[trigger] w.subrange(3 * k, 3 * k + 3)
            == sidebar_rows_model(s[first + k], first + k == current, width) by {
            if k < n - 1 {
                assert(w.subrange(3 * k, 3 * k + 3) =~= prev.subrange(3 * k, 3 * k + 3));
            } else {
                assert(w.subrange(3 * k, 3 * k + 3) =~= last);
            }
        }
        assert forall|k: int| 0 <= k < n implies (#[trigger] w[3 * k])[0].0 == if first + k == current {
            "▎"@
        } else {
            " "@
        } by {
            assert(w.subrange(3 * k, 3 * k + 3) == sidebar_rows_model(s[first + k], first + k == current, width));
            assert(w[3 * k] == w.subrange(3 * k, 3 * k + 3)[0]);
        }
    }
}

/// The sidebar shows a window of whole entries that holds the focused one:
/// the focused entry, and it alone, is drawn highlighted.
pub proof fn lemma_sidebar_highlights_focus(s: Seq<DiffUpdate>, current: usize, height: u16, width: u16)
    requires
        current < s.len(),
        s.len() <= usize::MAX,
    ensures
        ({
            let visible: int = if height / 3 >= 1 {
                (height / 3) as int
            } else {
                1
            };
            let first = spec_sidebar_scroll(current, visible as usize, s.len() as usize) as int;
            let rows = sidebar_model(s, current, height, width);
            &&& first <= current
            &&& 3 * (current - first) + 3 <= rows.len()
            &&& rows.subrange(3 * (current - first), 3 * (current - first) + 3) == sidebar_rows_model(
                s[current as int],
                true,
                width,
            )
            &&& forall|k: int|
                0 <= k < rows.len() / 3 && first + k != current ==> #[trigger] rows.subrange(3 * k, 3 * k + 3)
                    == sidebar_rows_model(s[first + k], false, width)
        }),
{
    let visible: int = if height / 3 >= 1 {
        (height / 3) as int
    } else {
        1
    };
    let first = spec_sidebar_scroll(current, visible as usize, s.len() as usize) as int;
    let shown = if s.len() - first < visible {
        s.len() - first
    } else {
        visible
    };
    crate::layout::lemma_sidebar_window_shows_highlight(current, visible as usize, s.len() as usize);
    lemma_sidebar_window_entries(s, current as int, width, first, shown);
    let rows = sidebar_model(s, current, height, width);
    assert(rows == sidebar_window(s, current as int, width, first, shown));
    assert(current - first < shown);
    let c = current - first;
    assert(rows.subrange(3 * c, 3 * c + 3) == sidebar_rows_model(s[first + c], first + c == current, width));
}

/// The sidebar's rows for an inner area of `height` by `width` cells.
pub fn sidebar_lines(state: &State, current_idx: usize, height: u16, width: u16) -> (rows: Vec<Row>)
    ensures
        row_models(rows@) == sidebar_model(state@, current_idx, height, width),
{
    let entries = state.iter_ordered();
    let mut out: Vec<Row> = Vec::new();
    if entries.len() == 0 {
        out.push(one_span_row("  (none)".to_owned(), style(Some(Color::DarkGray), None, false)));
        proof {
            assert(row_models(out@) =~= seq![note_row("  (none)"@)]);
        }
        return out;
    }
    let visible: usize = if height / 3 >= 1 {
        (height / 3) as usize
    } else {
        1
    };
    let total = entries.len();
    let first = sidebar_scroll(current_idx, visible, total);
    proof {
        assert(first <= total) by {
            reveal_with_fuel(spec_sidebar_scroll, 1);
        }
    }
    let shown = if total - first < visible {
        total - first
    } else {
        visible
    };
    let mut k: usize = 0;
    proof {
        assert(row_models(out@) =~= Seq::<RowModel>::empty());
    }
    while k < shown
        invariant
            k <= shown,
            first + shown <= total,
            total == state@.len(),
            entries@ == state@,
            row_models(out@) == sidebar_window(state@, current_idx as int, width, first as int, k as int),
        decreases shown - k,
    {
        let idx = first + k;
        let rows = sidebar_row(&entries[idx], idx == current_idx, width);
        push_rows(&mut out, rows);
        k += 1;
    }
    out
}

/// The footer: a dim line of key hints.
pub open spec fn footer_model() -> RowModel {
    note_row(" q quit · j/k line · u/d or PgUp/PgDn page · n/b file · g top · s sidebar · e edit "@)
}

/// The footer row.
pub fn footer_row() -> (r: Row)
    ensures
        r.model() == footer_model(),
{
    one_span_row(
        " q quit · j/k line · u/d or PgUp/PgDn page · n/b file · g top · s sidebar · e edit ".to_owned(),
        style(Some(Color::DarkGray), None, false),
    )
}

/// The diff pane's title: the repository name, then the focused path when
/// there is a non-empty one.
pub open spec fn spec_pane_title(repo_name: Seq<char>, focused: Option<Seq<char>>) -> Seq<char> {
    match focused {
        Some(p) => if p.len() > 0 {
            " "@ + repo_name + " · "@ + p + " "@
        } else {
            " "@ + repo_name + " "@
        },
        None => " "@ + repo_name + " "@,
    }
}

pub fn pane_title(repo_name: &str, focused: Option<&str>) -> (t: String)
    ensures
        t@ == spec_pane_title(repo_name@, match focused {
            Some(p) => Some(p@),
            None => None,
        }),
{
    let mut t = " ".to_owned();
    t.append(repo_name);
    match focused {
        Some(p) => {
            if !p.is_empty() {
                t.append(" · ");
                t.append(p);
            }
        },
        None => {},
    }
    t.append(" ");
    t
}

/// The sidebar's title with the number of files.
pub fn sidebar_title(n: usize) -> (t: String)
    ensures
        t@ == " files ("@ + decimal(n as nat) + ") "@,
{
    let mut t = " files (".to_owned();
    push_decimal(&mut t, n as u64);
    t.append(") ");
    t
}

/// The path of the entry at `idx`, if there is one.
pub fn path_at_index(state: &State, idx: usize) -> (p: Option<String>)
    ensures
        match p {
            Some(s) => idx < state@.len() && s@ == state@[idx as int].path@,
            None => idx >= state@.len(),
        },
{
    let entries = state.iter_ordered();
    if idx < entries.len() {
        Some(entries[idx].path.clone())
    } else {
        None
    }
}

proof fn lemma_cuts_past_index(st: Seq<int>, k: int)
    requires
        st.len() >= 1,
        st[0] >= 0,
        forall|j: int| 0 <= j < st.len() - 1 ==> #[trigger] st[j] < st[j + 1],
        0 <= k < st.len(),
    ensures
        st[k] >= k,
    decreases k,
{
    if k > 0 {
        lemma_cuts_past_index(st, k - 1);
        assert(st[k - 1] < st[k]);
    }
}

/// A line is cut into at least one chunk and at most one per character.
pub proof fn lemma_wrap_len(t: Seq<char>, content_w: u16)
    ensures
        1 <= spec_wrap(t, content_w).len(),
        spec_wrap(t, content_w).len() <= if t.len() == 0 {
            1
        } else {
            t.len() as int
        },
{
    let max: int = if content_w == 0 {
        1
    } else {
        content_w as int
    };
    let n = t.len() as int;
    lemma_cut_state(t, max, n);
    let st = cut_state(t, max, n).0;
    if n > 0 {
        lemma_cuts_past_index(st, st.len() - 1);
    }
}

/// A line shorter than `u32::MAX` characters is cut into as many chunks as
/// the row count the view reserves for it.
pub proof fn lemma_wrap_rows(t: Seq<char>, content_w: u16)
    requires
        t.len() < u32::MAX,
    ensures
        spec_wrap(t, content_w).len() == line_rows(t, content_w) as int,
{
    lemma_wrap_len(t, content_w);
}

proof fn lemma_lines_rows_match(v: Seq<HunkLine>, content_w: u16)
    requires
        forall|l: int| 0 <= l < v.len() ==> (#[trigger] v[l].text()).len() < u32::MAX,
    ensures
        lines_rows_model(line_models(v), content_w).len() == lines_rows(v, content_w),
    decreases v.len(),
{
    if v.len() > 0 {
        assert(line_models(v).drop_last() =~= line_models(v.drop_last()));
        lemma_lines_rows_match(v.drop_last(), content_w);
        let last = v.last();
        assert(line_models(v).last() == last.model());
        assert(line_look(last.model()).2 == last.text());
        lemma_wrap_rows(last.text(), content_w);
    }
}

proof fn lemma_hunks_rows_match(v: Seq<Hunk>, content_w: u16)
    requires
        forall|h: int, l: int|
            0 <= h < v.len() && 0 <= l < v[h].lines@.len() ==> (#[trigger] v[h].lines@[l].text()).len()
                < u32::MAX,
    ensures
        hunks_rows_model(hunk_models(v), content_w).len() == hunks_rows(v, content_w),
    decreases v.len(),
{
    if v.len() > 0 {
        assert(hunk_models(v).drop_last() =~= hunk_models(v.drop_last()));
        assert forall|h: int, l: int|
            0 <= h < v.drop_last().len() && 0 <= l < v.drop_last()[h].lines@.len() implies (
            #[trigger] v.drop_last()[h].lines@[l].text()).len() < u32::MAX by {
            assert(v.drop_last()[h] == v[h]);
        }
        lemma_hunks_rows_match(v.drop_last(), content_w);
        let last = v.last();
        assert(hunk_models(v).last() == last.model());
        assert forall|l: int| 0 <= l < last.lines@.len() implies (#[trigger] last.lines@[l].text()).len()
            < u32::MAX by {
            assert(v[v.len() - 1] == last);
        }
        lemma_lines_rows_match(last.lines@, content_w);
    }
}

/// Every diff line in `s` is shorter than `u32::MAX` characters.
pub open spec fn short_lines(s: Seq<DiffUpdate>) -> bool {
    forall|i: int, h: int, l: int|
        0 <= i < s.len() && 0 <= h < s[i].hunks@.len() && 0 <= l < s[i].hunks@[h].lines@.len()
            ==> (#[trigger] s[i].hunks@[h].lines@[l].text()).len() < u32::MAX
}

proof fn lemma_file_rows_match(s: Seq<DiffUpdate>, i: int, width: u16)
    requires
        short_lines(s),
        0 <= i < s.len(),
    ensures
        file_rows_model(s[i], width).len() == visual_rows(s[i], width),
{
    let u = s[i];
    assert forall|h: int, l: int|
        0 <= h < u.hunks@.len() && 0 <= l < u.hunks@[h].lines@.len() implies (
        #[trigger] u.hunks@[h].lines@[l].text()).len() < u32::MAX by {
        assert(s[i].hunks@[h].lines@[l].text().len() < u32::MAX);
    }
    lemma_hunks_rows_match(u.hunks@, content_width(width));
}

/// `render_file` draws exactly as many rows as the view counts for the file
/// (`visual_rows`, which `file_visual_rows` gives clamped into `u32`), for
/// any file whose lines are shorter than `u32::MAX` characters.
pub proof fn lemma_render_file_rows(u: DiffUpdate, width: u16)
    requires
        short_lines(seq![u]),
    ensures
        file_rows_model(u, width).len() == visual_rows(u, width),
        visual_rows(u, width) <= u32::MAX ==> file_rows_model(u, width).len() == file_rows(u, width),
{
    lemma_file_rows_match(seq![u], 0, width);
}

proof fn lemma_files_rows(s: Seq<DiffUpdate>, width: u16, n: int)
    requires
        short_lines(s),
        0 <= n <= s.len(),
        forall|k: int| 0 <= k < s.len() ==> visual_rows(#[trigger] s[k], width) <= u32::MAX,
    ensures
        n == 0 ==> files_rows_model(s, width, n).len() == 0,
        n > 0 ==> files_rows_model(s, width, n).len() == rows_before(s, width, n) - 2,
        forall|k: int|
            0 <= k < n ==> #[trigger] files_rows_model(s, width, n)[rows_before(s, width, k)] == header_row(
                s[k],
            ),
    decreases n,
{
    if n > 0 {
        lemma_files_rows(s, width, n - 1);
        lemma_file_rows_match(s, n - 1, width);
        let prev = files_rows_model(s, width, n - 1);
        let cur = files_rows_model(s, width, n);
        assert(visual_rows(s[n - 1], width) <= u32::MAX);
        assert(file_rows(s[n - 1], width) == visual_rows(s[n - 1], width));
        assert(rows_before(s, width, n) == rows_before(s, width, n - 1) + file_rows(s[n - 1], width) + 2);
        if n == 1 {
            assert(rows_before(s, width, 0) == 0);
        }
        assert forall|k: int| 0 <= k < n implies #[trigger] cur[rows_before(s, width, k)] == header_row(
            s[k],
        ) by {
            if k < n - 1 {
                lemma_rows_before_lt(s, width, k, n - 1);
                lemma_visual_rows_pos(s[k], width);
                lemma_rows_before_nonneg(s, width, k);
                assert(cur[rows_before(s, width, k)] == prev[rows_before(s, width, k)]);
            } else {
                assert(file_rows_model(s[n - 1], width)[0] == header_row(s[n - 1]));
            }
        }
    }
}

proof fn lemma_lines_rows_nonneg(v: Seq<HunkLine>, content_w: u16)
    ensures
        lines_rows(v, content_w) >= 0,
    decreases v.len(),
{
    if v.len() > 0 {
        lemma_lines_rows_nonneg(v.drop_last(), content_w);
    }
}

proof fn lemma_hunks_rows_nonneg(v: Seq<Hunk>, content_w: u16)
    ensures
        hunks_rows(v, content_w) >= 0,
    decreases v.len(),
{
    if v.len() > 0 {
        lemma_hunks_rows_nonneg(v.drop_last(), content_w);
        lemma_lines_rows_nonneg(v.last().lines@, content_w);
    }
}

/// Every file takes at least one row (its header).
pub proof fn lemma_visual_rows_pos(u: DiffUpdate, width: u16)
    ensures
        visual_rows(u, width) >= 1,
        file_rows(u, width) >= 1,
{
    lemma_hunks_rows_nonneg(u.hunks@, content_width(width));
}

proof fn lemma_rows_before_lt(s: Seq<DiffUpdate>, width: u16, k: int, n: int)
    requires
        0 <= k < n,
    ensures
        rows_before(s, width, k) + file_rows(s[k], width) + 2 <= rows_before(s, width, n),
    decreases n,
{
    if k < n - 1 {
        lemma_rows_before_lt(s, width, k, n - 1);
    }
}

/// The diff pane and the view agree: when every diff line is shorter than
/// `u32::MAX` characters and the pane fits in `u16` rows, the pane has exactly as many rows as the
/// view counts (`total_rows`), and each file's header row sits at the row
/// that `offsets_of` gives it, so that scrolling to a file's offset shows
/// its header at the top.
pub proof fn lemma_pane_matches_offsets(s: Seq<DiffUpdate>, width: u16)
    requires
        short_lines(s),
        s.len() > 0,
        total_rows(s, width) <= u16::MAX,
    ensures
        pane_rows_model(s, width).len() == total_rows(s, width),
        forall|k: int|
            0 <= k < s.len() ==> #[trigger] pane_rows_model(s, width)[offsets_of(s, width)[k] as int]
                == header_row(s[k]),
{
    assert forall|k: int| 0 <= k < s.len() implies visual_rows(#[trigger] s[k], width) <= u32::MAX by {
        lemma_rows_before_lt(s, width, k, s.len() as int);
        lemma_rows_before_nonneg(s, width, k);
        if visual_rows(s[k], width) > u32::MAX {
            assert(file_rows(s[k], width) == u32::MAX);
        }
    }
    lemma_files_rows(s, width, s.len() as int);
    assert forall|k: int| 0 <= k < s.len() implies #[trigger] pane_rows_model(s, width)[offsets_of(
        s,
        width,
    )[k] as int] == header_row(s[k]) by {
        lemma_rows_before_lt(s, width, k, s.len() as int);
        lemma_rows_before_nonneg(s, width, k);
        assert(offsets_of(s, width)[k] as int == rows_before(s, width, k));
    }
}

proof fn lemma_rows_before_nonneg(s: Seq<DiffUpdate>, width: u16, k: int)
    ensures
        rows_before(s, width, k) >= 0,
    decreases k,
{
    if k > 0 {
        lemma_rows_before_nonneg(s, width, k - 1);
    }
}

} // verus!
