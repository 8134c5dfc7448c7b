//! The in-memory model: one entry per changed path, most recently modified
//! first.

use vstd::prelude::*;
use crate::path::{path_lt, path_less, lemma_path_lt_transitive, lemma_path_lt_total, lemma_path_lt_asymmetric};

verus! {

/// How a path differs from HEAD.
#[derive(Debug, Clone, PartialEq, Eq)]
pub enum ChangeKind {
    Modified,
    Deleted,
    Untracked,
}

/// One line of a hunk, without its line terminator.
#[derive(Debug)]
pub enum HunkLine {
    Context(String),
    Added(String),
    Removed(String),
}

impl HunkLine {
    /// The text of the line, whatever its kind.
    pub open spec fn text(&self) -> Seq<char> {
        match self {
            HunkLine::Context(s) => s@,
            HunkLine::Added(s) => s@,
            HunkLine::Removed(s) => s@,
        }
    }

    /// The text of the line, whatever its kind.
    pub fn content(&self) -> (s: &String)
        ensures
            s@ == self.text(),
    {
        match self {
            HunkLine::Context(s) => s,
            HunkLine::Added(s) => s,
            HunkLine::Removed(s) => s,
        }
    }
}

/// What a `HunkLine` holds: its kind and its characters.
pub ghost enum LineModel {
    Context(Seq<char>),
    Added(Seq<char>),
    Removed(Seq<char>),
}

impl HunkLine {
    pub open spec fn model(&self) -> LineModel {
        match self {
            HunkLine::Context(s) => LineModel::Context(s@),
            HunkLine::Added(s) => LineModel::Added(s@),
            HunkLine::Removed(s) => LineModel::Removed(s@),
        }
    }
}

/// What a `Hunk` holds, with its lines as `LineModel`s.
pub ghost struct HunkModel {
    pub old_range: (u32, u32),
    pub new_range: (u32, u32),
    pub lines: Seq<LineModel>,
}

impl Hunk {
    pub open spec fn model(&self) -> HunkModel {
        HunkModel {
            old_range: self.old_range,
            new_range: self.new_range,
            lines: line_models(self.lines@),
        }
    }
}

/// The models of a sequence of lines.
pub open spec fn line_models(v: Seq<HunkLine>) -> Seq<LineModel> {
    v.map_values(|l: HunkLine| l.model())
}

/// The models of a sequence of hunks.
pub open spec fn hunk_models(v: Seq<Hunk>) -> Seq<HunkModel> {
    v.map_values(|h: Hunk| h.model())
}

/// A run of changed lines with its surrounding context. Ranges are
/// `(start, count)` with a 0-based start.
#[derive(Debug)]
pub struct Hunk {
    pub old_range: (u32, u32),
    pub new_range: (u32, u32),
    pub lines: Vec<HunkLine>,
}

impl Clone for HunkLine {
    fn clone(&self) -> (res: Self)
        ensures
            res.model() == self.model(),
    {
        match self {
            HunkLine::Context(s) => HunkLine::Context(s.clone()),
            HunkLine::Added(s) => HunkLine::Added(s.clone()),
            HunkLine::Removed(s) => HunkLine::Removed(s.clone()),
        }
    }
}

fn clone_lines(v: &Vec<HunkLine>) -> (out: Vec<HunkLine>)
    ensures
        line_models(out@) == line_models(v@),
{
    let mut out: Vec<HunkLine> = Vec::new();
    let mut i: usize = 0;
    while i < v.len()
        invariant
            i <= v@.len(),
            out@.len() == i,
            forall|k: int| 0 <= k < i ==> (#[trigger] out@[k]).model() == v@[k].model(),
        decreases v.len() - i,
    {
        out.push(v[i].clone());
        i += 1;
    }
    proof {
        assert(line_models(out@) =~= line_models(v@));
    }
    out
}

impl Clone for Hunk {
    fn clone(&self) -> (res: Self)
        ensures
            res.model() == self.model(),
    {
        Hunk { old_range: self.old_range, new_range: self.new_range, lines: clone_lines(&self.lines) }
    }
}

/// The diff of one path against HEAD. `mtime` is the modification time in
/// nanoseconds since the Unix epoch (negative before it).
#[derive(Debug)]
pub struct DiffUpdate {
    pub path: String,
    pub mtime: i128,
    pub status: ChangeKind,
    pub hunks: Vec<Hunk>,
    pub added: u32,
    pub removed: u32,
    pub binary: bool,
}

fn copy_kind(k: &ChangeKind) -> (r: ChangeKind)
    ensures
        r == *k,
{
    match k {
        ChangeKind::Modified => ChangeKind::Modified,
        ChangeKind::Deleted => ChangeKind::Deleted,
        ChangeKind::Untracked => ChangeKind::Untracked,
    }
}

fn clone_hunks(v: &Vec<Hunk>) -> (out: Vec<Hunk>)
    ensures
        hunk_models(out@) == hunk_models(v@),
{
    let mut out: Vec<Hunk> = Vec::new();
    let mut i: usize = 0;
    while i < v.len()
        invariant
            i <= v@.len(),
            out@.len() == i,
            forall|k: int| 0 <= k < i ==> (#[trigger] out@[k]).model() == v@[k].model(),
        decreases v.len() - i,
    {
        out.push(v[i].clone());
        i += 1;
    }
    proof {
        assert(hunk_models(out@) =~= hunk_models(v@));
    }
    out
}

impl Clone for DiffUpdate {
    fn clone(&self) -> (res: Self)
        ensures
            res.path@ == self.path@,
            res.mtime == self.mtime,
            res.status == self.status,
            hunk_models(res.hunks@) == hunk_models(self.hunks@),
            res.added == self.added,
            res.removed == self.removed,
            res.binary == self.binary,
    {
        DiffUpdate {
            path: self.path.clone(),
            mtime: self.mtime,
            status: copy_kind(&self.status),
            hunks: clone_hunks(&self.hunks),
            added: self.added,
            removed: self.removed,
            binary: self.binary,
        }
    }
}

impl DiffUpdate {
    /// A clean update carries no change: nothing added or removed, not
    /// binary and not a deletion.
    pub open spec fn spec_is_clean(&self) -> bool {
        &&& self.added == 0
        &&& self.removed == 0
        &&& !self.binary
        &&& !(self.status is Deleted)
    }

    pub fn is_clean(&self) -> (res: bool)
        ensures
            res == self.spec_is_clean(),
    {
        self.added == 0 && self.removed == 0 && !self.binary && !matches!(
            self.status,
            ChangeKind::Deleted
        )
    }
}

/// `a` is listed before `b`: newer first, ties broken by path order.
pub open spec fn precedes(a: DiffUpdate, b: DiffUpdate) -> bool {
    a.mtime > b.mtime || (a.mtime == b.mtime && path_lt(a.path@, b.path@))
}

/// Some entry of `s` has path `p`.
pub open spec fn has_path(s: Seq<DiffUpdate>, p: Seq<char>) -> bool {
    exists|i: int| 0 <= i < s.len() && (#[trigger] s[i]).path@ == p
}

/// The well-formed entry lists: strictly ordered by `precedes`, no path
/// twice, no clean entry.
pub open spec fn entries_wf(s: Seq<DiffUpdate>) -> bool {
    &&& forall|i: int, j: int| 0 <= i < j < s.len() ==> precedes(#[trigger] s[i], #[trigger] s[j])
    &&& forall|i: int, j: int|
        0 <= i < s.len() && 0 <= j < s.len() && i != j ==> (#[trigger] s[i]).path@ != (
        #[trigger] s[j]).path@
    &&& forall|i: int| 0 <= i < s.len() ==> !(#[trigger] s[i]).spec_is_clean()
}

/// `s` without the entry for path `p`.
pub open spec fn without_path(s: Seq<DiffUpdate>, p: Seq<char>) -> Seq<DiffUpdate> {
    s.filter(other_path(p))
}

/// Holds of the entries whose path is not `p`.
pub open spec fn other_path(p: Seq<char>) -> spec_fn(DiffUpdate) -> bool {
    |u: DiffUpdate| u.path@ != p
}

/// Holds of the entries that precede `u`.
pub open spec fn before(u: DiffUpdate) -> spec_fn(DiffUpdate) -> bool {
    |x: DiffUpdate| precedes(x, u)
}

/// Holds of the entries that do not precede `u`.
pub open spec fn not_before(u: DiffUpdate) -> spec_fn(DiffUpdate) -> bool {
    |x: DiffUpdate| !precedes(x, u)
}

/// `u` placed after every entry of `s` that precedes it and before all the
/// others.
pub open spec fn place(s: Seq<DiffUpdate>, u: DiffUpdate) -> Seq<DiffUpdate> {
    s.filter(before(u)) + seq![u] + s.filter(not_before(u))
}

/// The entries after applying `u` to `s`: a clean update removes the path,
/// any other replaces or adds the entry for its path at its place in the
/// order.
pub open spec fn applied(s: Seq<DiffUpdate>, u: DiffUpdate) -> Seq<DiffUpdate> {
    if u.spec_is_clean() {
        without_path(s, u.path@)
    } else {
        place(without_path(s, u.path@), u)
    }
}

proof fn lemma_filter_all<A>(s: Seq<A>, p: spec_fn(A) -> bool)
    requires
        forall|i: int| 0 <= i < s.len() ==> p(#[trigger] s[i]),
    ensures
        s.filter(p) == s,
    decreases s.len(),
{
    reveal(Seq::filter);
    if s.len() > 0 {
        lemma_filter_all(s.drop_last(), p);
        assert(s.drop_last().push(s.last()) =~= s);
    }
}

proof fn lemma_filter_none<A>(s: Seq<A>, p: spec_fn(A) -> bool)
    requires
        forall|i: int| 0 <= i < s.len() ==> !p(#[trigger] s[i]),
    ensures
        s.filter(p) == Seq::<A>::empty(),
    decreases s.len(),
{
    reveal(Seq::filter);
    if s.len() > 0 {
        lemma_filter_none(s.drop_last(), p);
    }
}

/// `precedes` is transitive.
pub proof fn lemma_precedes_transitive(a: DiffUpdate, b: DiffUpdate, c: DiffUpdate)
    requires
        precedes(a, b),
        precedes(b, c),
    ensures
        precedes(a, c),
{
    if a.mtime == b.mtime && b.mtime == c.mtime {
        lemma_path_lt_transitive(a.path@, b.path@, c.path@);
    }
}

/// Of two entries with different paths, one precedes the other.
pub proof fn lemma_precedes_total(a: DiffUpdate, b: DiffUpdate)
    requires
        a.path@ != b.path@,
    ensures
        precedes(a, b) || precedes(b, a),
{
    lemma_path_lt_total(a.path@, b.path@);
}

/// No entry precedes itself, and of two entries at most one precedes the
/// other.
pub proof fn lemma_precedes_asymmetric(a: DiffUpdate, b: DiffUpdate)
    ensures
        !(precedes(a, b) && precedes(b, a)),
{
    lemma_path_lt_asymmetric(a.path@, b.path@);
}

/// Removing the entry at its unique index is removing its path.
proof fn lemma_without_path_at(s: Seq<DiffUpdate>, i: int)
    requires
        entries_wf(s),
        0 <= i < s.len(),
    ensures
        without_path(s, s[i].path@) == s.remove(i),
        entries_wf(s.remove(i)),
{
    let p = s[i].path@;
    let f = other_path(p);
    let a = s.take(i);
    let b = s.skip(i + 1);
    assert(s =~= a + seq![s[i]] + b);
    Seq::filter_distributes_over_add(a + seq![s[i]], b, f);
    Seq::filter_distributes_over_add(a, seq![s[i]], f);
    lemma_filter_all(a, f);
    assert forall|k: int| 0 <= k < b.len() implies f(#[trigger] b[k]) by {
        assert(b[k] == s[i + 1 + k]);
    }
    lemma_filter_all(b, f);
    lemma_filter_none(seq![s[i]], f);
    assert(s.remove(i) =~= a + b);
    let r = s.remove(i);
    assert forall|x: int, y: int| 0 <= x < y < r.len() implies precedes(#[trigger] r[x], #[trigger] r[y]) by {
        let sx = if x < i { x } else { x + 1 };
        let sy = if y < i { y } else { y + 1 };
        assert(r[x] == s[sx] && r[y] == s[sy]);
    }
    assert forall|x: int, y: int|
        0 <= x < r.len() && 0 <= y < r.len() && x != y implies (#[trigger] r[x]).path@ != (
        #[trigger] r[y]).path@ by {
        let sx = if x < i { x } else { x + 1 };
        let sy = if y < i { y } else { y + 1 };
        assert(r[x] == s[sx] && r[y] == s[sy]);
    }
    assert forall|x: int| 0 <= x < r.len() implies !(#[trigger] r[x]).spec_is_clean() by {
        let sx = if x < i { x } else { x + 1 };
        assert(r[x] == s[sx]);
    }
}

/// After removing `p` no entry has path `p`.
proof fn lemma_without_has_no_path(s: Seq<DiffUpdate>, p: Seq<char>)
    ensures
        !has_path(without_path(s, p), p),
{
    let f = other_path(p);
    let w = s.filter(f);
    if has_path(w, p) {
        let i = choose|i: int| 0 <= i < w.len() && (#[trigger] w[i]).path@ == p;
        s.lemma_filter_pred(f, i);
    }
}

/// Without an entry for `p`, removing `p` changes nothing.
proof fn lemma_without_absent(s: Seq<DiffUpdate>, p: Seq<char>)
    requires
        !has_path(s, p),
    ensures
        without_path(s, p) == s,
{
    let f = other_path(p);
    assert forall|k: int| 0 <= k < s.len() implies f(#[trigger] s[k]) by {
        if s[k].path@ == p {
            assert(has_path(s, p));
        }
    }
    lemma_filter_all(s, f);
}

/// The changed paths, one entry each, most recently modified first.
///
/// The collection is a `Vec` kept free of duplicate paths (its `wf`) rather
/// than a hash map or set keyed by path: vstd's specifications of `HashMap`
/// and `HashSet` let nothing be proved of lookups by `String` key.
pub struct State {
    entries: Vec<DiffUpdate>,
}

impl View for State {
    type V = Seq<DiffUpdate>;

    closed spec fn view(&self) -> Seq<DiffUpdate> {
        self.entries@
    }
}

impl State {
    pub open spec fn wf(&self) -> bool {
        entries_wf(self@)
    }

    /// An empty state.
    pub fn new() -> (res: State)
        ensures
            res.wf(),
            res@ == Seq::<DiffUpdate>::empty(),
    {
        State { entries: Vec::new() }
    }

    /// Index of the entry for `path`, if any.
    fn find(&self, path: &str) -> (res: Option<usize>)
        ensures
            match res {
                Some(i) => i < self@.len() && self@[i as int].path@ == path@,
                None => !has_path(self@, path@),
            },
    {
        let key = path.to_owned();
        let mut i: usize = 0;
        while i < self.entries.len()
            invariant
                i <= self.entries@.len(),
                key@ == path@,
                forall|k: int| 0 <= k < i ==> (#[trigger] self.entries@[k]).path@ != path@,
            decreases self.entries.len() - i,
        {
            if self.entries[i].path == key {
                return Some(i);
            }
            i += 1;
        }
        None
    }

    /// Remove the entry for `path`, if there is one.
    pub fn drop_path(&mut self, path: &str)
        requires
            old(self).wf(),
        ensures
            final(self).wf(),
            final(self)@ == without_path(old(self)@, path@),
    {
        match self.find(path) {
            Some(i) => {
                proof {
                    lemma_without_path_at(self@, i as int);
                }
                self.entries.remove(i);
            },
            None => {
                proof {
                    lemma_without_absent(self@, path@);
                }
            },
        }
    }

    /// First index whose entry does not precede `u`.
    fn insertion_point(&self, u: &DiffUpdate) -> (k: usize)
        ensures
            k <= self@.len(),
            forall|i: int| 0 <= i < k ==> precedes(#[trigger] self@[i], *u),
            k < self@.len() ==> !precedes(self@[k as int], *u),
    {
        let mut i: usize = 0;
        while i < self.entries.len() && precedes_exec(&self.entries[i], u)
            invariant
                i <= self.entries@.len(),
                forall|k: int| 0 <= k < i ==> precedes(#[trigger] self.entries@[k], *u),
            decreases self.entries.len() - i,
        {
            i += 1;
        }
        i
    }

    /// Record an update: a clean one drops its path, any other replaces the
    /// entry for its path (or adds one) and keeps the list in order.
    pub fn apply(&mut self, update: DiffUpdate)
        requires
            old(self).wf(),
        ensures
            final(self).wf(),
            final(self)@ == applied(old(self)@, update),
    {
        if update.is_clean() {
            self.drop_path(update.path.as_str());
            return ;
        }
        self.drop_path(update.path.as_str());
        let ghost s = self@;
        proof {
            lemma_without_has_no_path(old(self)@, update.path@);
        }
        let k = self.insertion_point(&update);
        proof {
            lemma_place_at(s, update, k as int);
        }
        self.entries.insert(k, update);
    }

    /// The entries, most recently modified first.
    pub fn iter_ordered(&self) -> (res: &[DiffUpdate])
        ensures
            res@ == self@,
    {
        self.entries.as_slice()
    }

    /// The entry for `path`, if any.
    pub fn get(&self, path: &str) -> (res: Option<&DiffUpdate>)
        ensures
            res is Some <==> has_path(self@, path@),
            res matches Some(u) ==> u.path@ == path@ && self@.contains(*u),
    {
        match self.find(path) {
            Some(i) => Some(&self.entries[i]),
            None => None,
        }
    }

    /// Number of entries.
    pub fn len(&self) -> (n: usize)
        ensures
            n == self@.len(),
    {
        self.entries.len()
    }

    pub fn is_empty(&self) -> (b: bool)
        ensures
            b == (self@.len() == 0),
    {
        self.entries.len() == 0
    }

    /// The paths of the entries, in order.
    pub fn order(&self) -> (paths: Vec<String>)
        ensures
            paths@.len() == self@.len(),
            forall|i: int| 0 <= i < self@.len() ==> (#[trigger] paths@[i])@ == self@[i].path@,
    {
        let mut out: Vec<String> = Vec::new();
        let mut i: usize = 0;
        while i < self.entries.len()
            invariant
                i <= self.entries@.len(),
                out@.len() == i,
                forall|k: int| 0 <= k < i ==> (#[trigger] out@[k])@ == self.entries@[k].path@,
            decreases self.entries.len() - i,
        {
            out.push(self.entries[i].path.clone());
            i += 1;
        }
        out
    }
}

/// Whether `a` precedes `b`.
pub fn precedes_exec(a: &DiffUpdate, b: &DiffUpdate) -> (res: bool)
    ensures
        res == precedes(*a, *b),
{
    a.mtime > b.mtime || (a.mtime == b.mtime && path_less(a.path.as_str(), b.path.as_str()))
}

/// Inserting `u` at the first index that does not precede it is placing it.
proof fn lemma_place_at(s: Seq<DiffUpdate>, u: DiffUpdate, k: int)
    requires
        entries_wf(s),
        !has_path(s, u.path@),
        !u.spec_is_clean(),
        0 <= k <= s.len(),
        forall|i: int| 0 <= i < k ==> precedes(#[trigger] s[i], u),
        k < s.len() ==> !precedes(s[k], u),
    ensures
        place(s, u) == s.insert(k, u),
        entries_wf(s.insert(k, u)),
{
    let p = before(u);
    let q = not_before(u);
    let a = s.take(k);
    let b = s.skip(k);
    assert(s =~= a + b);
    assert forall|j: int| 0 <= j < b.len() implies !precedes(#[trigger] b[j], u) by {
        assert(b[j] == s[k + j]);
        if j > 0 && precedes(s[k + j], u) {
            assert(precedes(s[k], s[k + j]));
            lemma_precedes_transitive(s[k], s[k + j], u);
        }
    }
    Seq::filter_distributes_over_add(a, b, p);
    Seq::filter_distributes_over_add(a, b, q);
    assert forall|j: int| 0 <= j < a.len() implies p(#[trigger] a[j]) by {
        assert(a[j] == s[j]);
    }
    lemma_filter_all(a, p);
    lemma_filter_none(b, p);
    assert forall|j: int| 0 <= j < a.len() implies !q(#[trigger] a[j]) by {
        assert(a[j] == s[j]);
    }
    lemma_filter_none(a, q);
    assert forall|j: int| 0 <= j < b.len() implies q(#[trigger] b[j]) by {
    }
    lemma_filter_all(b, q);
    let r = s.insert(k, u);
    assert(r =~= a + seq![u] + b);
    assert(place(s, u) =~= r);
    // u precedes every entry after it
    assert forall|j: int| k <= j < s.len() implies precedes(u, #[trigger] s[j]) by {
        assert(s[j].path@ != u.path@) by {
            if s[j].path@ == u.path@ {
                assert(has_path(s, u.path@));
            }
        }
        lemma_precedes_total(u, s[j]);
        assert(!precedes(s[j], u)) by {
            assert(b[j - k] == s[j]);
        }
    }
    assert forall|x: int, y: int| 0 <= x < y < r.len() implies precedes(#[trigger] r[x], #[trigger] r[y]) by {
        if y < k {
            assert(r[x] == s[x] && r[y] == s[y]);
        } else if y == k {
            assert(r[x] == s[x] && r[y] == u);
        } else if x < k {
            assert(r[x] == s[x] && r[y] == s[y - 1]);
            lemma_precedes_transitive(s[x], u, s[y - 1]);
        } else if x == k {
            assert(r[x] == u && r[y] == s[y - 1]);
        } else {
            assert(r[x] == s[x - 1] && r[y] == s[y - 1]);
        }
    }
    assert forall|x: int, y: int|
        0 <= x < r.len() && 0 <= y < r.len() && x != y implies (#[trigger] r[x]).path@ != (
        #[trigger] r[y]).path@ by {
        let sx = if x < k { x } else { x - 1 };
        let sy = if y < k { y } else { y - 1 };
        if x != k && y != k {
            assert(r[x] == s[sx] && r[y] == s[sy]);
        } else if x == k {
            assert(r[y] == s[sy]);
            if r[y].path@ == u.path@ {
                assert(has_path(s, u.path@));
            }
        } else {
            assert(r[x] == s[sx]);
            if r[x].path@ == u.path@ {
                assert(has_path(s, u.path@));
            }
        }
    }
    assert forall|x: int| 0 <= x < r.len() implies !(#[trigger] r[x]).spec_is_clean() by {
        if x < k {
            assert(r[x] == s[x]);
        } else if x > k {
            assert(r[x] == s[x - 1]);
        }
    }
}

/// What `apply` keeps and changes: after a non-clean update the list holds
/// that update as the entry for its path; after a clean one no entry has
/// its path; entries for every other path are kept, nothing else is added,
/// and the length changes accordingly.
pub proof fn lemma_applied_contents(s: Seq<DiffUpdate>, u: DiffUpdate)
    requires
        entries_wf(s),
    ensures
        !u.spec_is_clean() ==> applied(s, u).contains(u),
        !has_path(applied(s, u), u.path@) <==> u.spec_is_clean(),
        forall|x: DiffUpdate| #[trigger]
            s.contains(x) && x.path@ != u.path@ ==> applied(s, u).contains(x),
        forall|x: DiffUpdate| #[trigger]
            applied(s, u).contains(x) && x != u ==> s.contains(x) && x.path@ != u.path@,
        applied(s, u).len() == s.len() - (if has_path(s, u.path@) {
            1int
        } else {
            0
        }) + (if u.spec_is_clean() {
            0int
        } else {
            1
        }),
{
    let p = u.path@;
    let f = other_path(p);
    let w = without_path(s, p);
    lemma_without_has_no_path(s, p);
    assert forall|x: DiffUpdate| s.contains(x) && x.path@ != p implies w.contains(x) by {
        let i = choose|i: int| 0 <= i < s.len() && s[i] == x;
        s.lemma_filter_contains(f, i);
    }
    assert forall|x: DiffUpdate| w.contains(x) implies s.contains(x) && x.path@ != p by {
        let i = choose|i: int| 0 <= i < w.len() && w[i] == x;
        s.lemma_filter_pred(f, i);
        s.lemma_filter_contains_rev(f, x);
    }
    if has_path(s, p) {
        let i = choose|i: int| 0 <= i < s.len() && (#[trigger] s[i]).path@ == p;
        lemma_without_path_at(s, i);
    } else {
        lemma_without_absent(s, p);
    }
    if !u.spec_is_clean() {
        let r = place(w, u);
        let a = w.filter(before(u));
        let b = w.filter(not_before(u));
        assert(r[a.len() as int] == u);
        assert forall|x: DiffUpdate| w.contains(x) implies r.contains(x) by {
            let i = choose|i: int| 0 <= i < w.len() && w[i] == x;
            if precedes(x, u) {
                w.lemma_filter_contains(before(u), i);
                let j = choose|j: int| 0 <= j < a.len() && a[j] == x;
                assert(r[j] == x);
            } else {
                w.lemma_filter_contains(not_before(u), i);
                let j = choose|j: int| 0 <= j < b.len() && b[j] == x;
                assert(r[a.len() + 1 + j] == x);
            }
        }
        assert forall|x: DiffUpdate| r.contains(x) && x != u implies w.contains(x) by {
            let j = choose|j: int| 0 <= j < r.len() && r[j] == x;
            if j < a.len() {
                assert(a[j] == x);
                w.lemma_filter_contains_rev(before(u), x);
            } else {
                assert(j > a.len());
                assert(b[j - a.len() - 1] == x);
                w.lemma_filter_contains_rev(not_before(u), x);
            }
        }
        assert(has_path(r, p));
        lemma_filter_partition_len(w, before(u), not_before(u));
    }
}

/// `k` is where `u` goes among the first `n` entries of `w`: every entry
/// before it precedes `u`, the one at it (if any) does not.
spec fn insert_ok(w: Seq<DiffUpdate>, u: DiffUpdate, n: int, k: int) -> bool {
    &&& 0 <= k <= n
    &&& forall|i: int| 0 <= i < k ==> precedes(#[trigger] w[i], u)
    &&& k < n ==> !precedes(w[k], u)
}

proof fn lemma_insertion_exists(w: Seq<DiffUpdate>, u: DiffUpdate, n: int)
    requires
        0 <= n <= w.len(),
    ensures
        exists|k: int| #[trigger] insert_ok(w, u, n, k),
    decreases n,
{
    if n == 0 {
        assert(insert_ok(w, u, 0, 0));
    } else {
        lemma_insertion_exists(w, u, n - 1);
        let k = choose|k: int| #[trigger] insert_ok(w, u, n - 1, k);
        if k < n - 1 {
            assert(insert_ok(w, u, n, k));
        } else if precedes(w[n - 1], u) {
            assert(insert_ok(w, u, n, n));
        } else {
            assert(insert_ok(w, u, n, n - 1));
        }
    }
}

/// Applying any update to a well-formed list gives a well-formed list.
pub proof fn lemma_applied_wf(s: Seq<DiffUpdate>, u: DiffUpdate)
    requires
        entries_wf(s),
    ensures
        entries_wf(applied(s, u)),
{
    let p = u.path@;
    let w = without_path(s, p);
    if has_path(s, p) {
        let i = choose|i: int| 0 <= i < s.len() && (#[trigger] s[i]).path@ == p;
        lemma_without_path_at(s, i);
    } else {
        lemma_without_absent(s, p);
    }
    if !u.spec_is_clean() {
        lemma_without_has_no_path(s, p);
        lemma_insertion_exists(w, u, w.len() as int);
        let k = choose|k: int| #[trigger] insert_ok(w, u, w.len() as int, k);
        lemma_place_at(w, u, k);
    }
}

/// The paths that have an entry in `s`.
pub open spec fn entry_paths(s: Seq<DiffUpdate>) -> Set<Seq<char>> {
    Set::new(|p: Seq<char>| has_path(s, p))
}

/// Applying an update adds its path to the listed paths, or, for a clean
/// one, takes it away; every other path stays listed or unlisted.
pub proof fn lemma_applied_paths(s: Seq<DiffUpdate>, u: DiffUpdate)
    requires
        entries_wf(s),
    ensures
        entry_paths(applied(s, u)) == if u.spec_is_clean() {
            entry_paths(s).remove(u.path@)
        } else {
            entry_paths(s).insert(u.path@)
        },
{
    lemma_applied_contents(s, u);
    let p = u.path@;
    let r = applied(s, u);
    let target = if u.spec_is_clean() {
        entry_paths(s).remove(p)
    } else {
        entry_paths(s).insert(p)
    };
    assert forall|q: Seq<char>| #[trigger] entry_paths(r).contains(q) == target.contains(q) by {
        if q != p {
            if has_path(r, q) {
                let i = choose|i: int| 0 <= i < r.len() && (#[trigger] r[i]).path@ == q;
                let x = r[i];
                assert(r.contains(x));
                let j = choose|j: int| 0 <= j < s.len() && s[j] == x;
                assert(s[j].path@ == q);
            }
            if has_path(s, q) {
                let j = choose|j: int| 0 <= j < s.len() && (#[trigger] s[j]).path@ == q;
                let x = s[j];
                assert(s.contains(x));
                let i = choose|i: int| 0 <= i < r.len() && r[i] == x;
                assert(r[i].path@ == q);
            }
        }
    }
    assert(entry_paths(r) =~= target);
}

/// The entry for path `p` in `s`, if any.
pub open spec fn entry_for(s: Seq<DiffUpdate>, p: Seq<char>) -> Option<DiffUpdate> {
    if has_path(s, p) {
        Some(s[choose|i: int| 0 <= i < s.len() && (#[trigger] s[i]).path@ == p])
    } else {
        None
    }
}

/// In a list with distinct paths, the entry for the path of `s[i]` is `s[i]`.
proof fn lemma_entry_for_at(s: Seq<DiffUpdate>, i: int)
    requires
        entries_wf(s),
        0 <= i < s.len(),
    ensures
        entry_for(s, s[i].path@) == Some(s[i]),
{
    let p = s[i].path@;
    assert(has_path(s, p));
    let j = choose|j: int| 0 <= j < s.len() && (#[trigger] s[j]).path@ == p;
    if j != i {
        assert(s[j].path@ != s[i].path@);
    }
}

/// Placing `u` in a list that lacks its path makes it that path's entry,
/// and removing the path again gives the list back.
proof fn lemma_place_own_path(w: Seq<DiffUpdate>, u: DiffUpdate)
    requires
        entries_wf(w),
        !has_path(w, u.path@),
        !u.spec_is_clean(),
    ensures
        entry_for(place(w, u), u.path@) == Some(u),
        without_path(place(w, u), u.path@) == w,
{
    lemma_insertion_exists(w, u, w.len() as int);
    let k = choose|k: int| #[trigger] insert_ok(w, u, w.len() as int, k);
    lemma_place_at(w, u, k);
    let r = w.insert(k, u);
    assert(r[k] == u);
    lemma_entry_for_at(r, k);
    lemma_without_path_at(r, k);
    assert(r.remove(k) =~= w);
}

/// Applying `u` gives it its path's entry (none when clean), and without
/// that path the list is the old one without it.
proof fn lemma_apply_own_path(s: Seq<DiffUpdate>, u: DiffUpdate)
    requires
        entries_wf(s),
    ensures
        entry_for(applied(s, u), u.path@) == if u.spec_is_clean() {
            None
        } else {
            Some(u)
        },
        without_path(applied(s, u), u.path@) == without_path(s, u.path@),
{
    let p = u.path@;
    let w = without_path(s, p);
    assert(entries_wf(w) && !has_path(w, p)) by {
        lemma_without_has_no_path(s, p);
        if has_path(s, p) {
            let i = choose|i: int| 0 <= i < s.len() && (#[trigger] s[i]).path@ == p;
            lemma_without_path_at(s, i);
        } else {
            lemma_without_absent(s, p);
        }
    }
    if u.spec_is_clean() {
        assert(applied(s, u) == w);
        lemma_without_absent(w, p);
    } else {
        assert(applied(s, u) == place(w, u));
        lemma_place_own_path(w, u);
    }
}

/// Applying `u` keeps the entry of every other path.
proof fn lemma_apply_other_path(s: Seq<DiffUpdate>, u: DiffUpdate, q: Seq<char>)
    requires
        entries_wf(s),
        q != u.path@,
    ensures
        entry_for(applied(s, u), q) == entry_for(s, q),
{
    let r = applied(s, u);
    lemma_applied_contents(s, u);
    lemma_applied_wf(s, u);
    if has_path(s, q) {
        let i = choose|i: int| 0 <= i < s.len() && (#[trigger] s[i]).path@ == q;
        lemma_entry_for_at(s, i);
        assert(s.contains(s[i]));
        assert(r.contains(s[i]));
        let j = choose|j: int| 0 <= j < r.len() && r[j] == s[i];
        lemma_entry_for_at(r, j);
    } else if has_path(r, q) {
        let j = choose|j: int| 0 <= j < r.len() && (#[trigger] r[j]).path@ == q;
        assert(r.contains(r[j]));
        assert(s.contains(r[j]));
        let i = choose|i: int| 0 <= i < s.len() && s[i] == r[j];
        assert(s[i].path@ == q);
        assert(has_path(s, q));
    }
}

/// Applying an update, path by path: a non-clean update becomes the entry
/// for its path and a clean one leaves no entry for it; every other path
/// keeps its entry (or its lack of one); and without the update's path the
/// list is the old list without it, in the same order.
pub proof fn lemma_apply_per_path(s: Seq<DiffUpdate>, u: DiffUpdate)
    requires
        entries_wf(s),
    ensures
        entry_for(applied(s, u), u.path@) == if u.spec_is_clean() {
            None
        } else {
            Some(u)
        },
        forall|q: Seq<char>| q != u.path@ ==> #[trigger] entry_for(applied(s, u), q) == entry_for(s, q),
        without_path(applied(s, u), u.path@) == without_path(s, u.path@),
{
    lemma_apply_own_path(s, u);
    assert forall|q: Seq<char>| q != u.path@ implies #[trigger] entry_for(applied(s, u), q) == entry_for(s, q) by {
        lemma_apply_other_path(s, u, q);
    }
}

proof fn lemma_without_wf(s: Seq<DiffUpdate>, p: Seq<char>)
    requires
        entries_wf(s),
    ensures
        entries_wf(without_path(s, p)),
{
    if has_path(s, p) {
        let i = choose|i: int| 0 <= i < s.len() && (#[trigger] s[i]).path@ == p;
        lemma_without_path_at(s, i);
    } else {
        lemma_without_absent(s, p);
    }
}

/// Dropping `p` keeps the entry of every other path.
proof fn lemma_drop_other_path(s: Seq<DiffUpdate>, p: Seq<char>, q: Seq<char>)
    requires
        entries_wf(s),
        q != p,
    ensures
        entry_for(without_path(s, p), q) == entry_for(s, q),
{
    let w = without_path(s, p);
    let f = other_path(p);
    lemma_without_wf(s, p);
    if has_path(s, q) {
        let i = choose|i: int| 0 <= i < s.len() && (#[trigger] s[i]).path@ == q;
        lemma_entry_for_at(s, i);
        s.lemma_filter_contains(f, i);
        let j = choose|j: int| 0 <= j < w.len() && w[j] == s[i];
        lemma_entry_for_at(w, j);
    } else if has_path(w, q) {
        let j = choose|j: int| 0 <= j < w.len() && (#[trigger] w[j]).path@ == q;
        s.lemma_filter_contains_rev(f, w[j]);
        let i = choose|i: int| 0 <= i < s.len() && s[i] == w[j];
        assert(s[i].path@ == q);
        assert(has_path(s, q));
    }
}

/// Dropping a path leaves no entry for it and keeps every other path's
/// entry, in the same order; dropping a path the list lacks changes
/// nothing, so dropping twice is dropping once.
pub proof fn lemma_drop_path_per_path(s: Seq<DiffUpdate>, p: Seq<char>)
    requires
        entries_wf(s),
    ensures
        entry_for(without_path(s, p), p) is None,
        forall|q: Seq<char>| q != p ==> #[trigger] entry_for(without_path(s, p), q) == entry_for(s, q),
        !has_path(s, p) ==> without_path(s, p) == s,
        without_path(without_path(s, p), p) == without_path(s, p),
{
    lemma_without_has_no_path(s, p);
    lemma_without_absent(without_path(s, p), p);
    if !has_path(s, p) {
        lemma_without_absent(s, p);
    }
    assert forall|q: Seq<char>| q != p implies #[trigger] entry_for(without_path(s, p), q) == entry_for(s, q) by {
        lemma_drop_other_path(s, p, q);
    }
}

/// The entries after applying the updates `us` in order.
pub open spec fn applied_all(s: Seq<DiffUpdate>, us: Seq<DiffUpdate>) -> Seq<DiffUpdate>
    decreases us.len(),
{
    if us.len() == 0 {
        s
    } else {
        applied(applied_all(s, us.drop_last()), us.last())
    }
}

/// Splitting by a predicate and its negation keeps the length.
proof fn lemma_filter_partition_len(
    s: Seq<DiffUpdate>,
    p: spec_fn(DiffUpdate) -> bool,
    q: spec_fn(DiffUpdate) -> bool,
)
    requires
        forall|x: DiffUpdate| #[trigger] q(x) == !p(x),
    ensures
        s.filter(p).len() + s.filter(q).len() == s.len(),
    decreases s.len(),
{
    reveal(Seq::filter);
    if s.len() > 0 {
        lemma_filter_partition_len(s.drop_last(), p, q);
    }
}

} // verus!
