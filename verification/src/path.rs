//! Paths as strings of `/`-separated components.
//!
//! The ordering is the one a component-wise comparison gives on normalized
//! paths: characters compare by code point, except that the separator sorts
//! below every other character, so `a/b` comes before `a-b` and `a` before
//! `a/b`.

use vstd::prelude::*;
use crate::text::{chars_of, string_of};

verus! {

/// Character order within paths: the separator first, then every other
/// character by code point.
pub open spec fn char_lt(x: char, y: char) -> bool {
    x != y && (x == '/' || (y != '/' && (x as int) < (y as int)))
}

/// Strict path order: lexicographic by `char_rank`, a proper prefix first.
pub open spec fn path_lt(a: Seq<char>, b: Seq<char>) -> bool
    decreases a.len(),
{
    if a.len() == 0 {
        b.len() > 0
    } else if b.len() == 0 {
        false
    } else if a[0] == b[0] {
        path_lt(a.drop_first(), b.drop_first())
    } else {
        char_lt(a[0], b[0])
    }
}

/// No path comes before itself.
pub proof fn lemma_path_lt_irreflexive(a: Seq<char>)
    ensures
        !path_lt(a, a),
    decreases a.len(),
{
    if a.len() > 0 {
        lemma_path_lt_irreflexive(a.drop_first());
    }
}

/// Of two paths, at most one comes before the other.
pub proof fn lemma_path_lt_asymmetric(a: Seq<char>, b: Seq<char>)
    ensures
        !(path_lt(a, b) && path_lt(b, a)),
    decreases a.len(),
{
    if a.len() > 0 && b.len() > 0 && a[0] == b[0] {
        lemma_path_lt_asymmetric(a.drop_first(), b.drop_first());
    }
}

/// The path order is transitive.
pub proof fn lemma_path_lt_transitive(a: Seq<char>, b: Seq<char>, c: Seq<char>)
    requires
        path_lt(a, b),
        path_lt(b, c),
    ensures
        path_lt(a, c),
    decreases a.len(),
{
    if a.len() > 0 && b.len() > 0 && c.len() > 0 {
        if a[0] == b[0] && b[0] == c[0] {
            lemma_path_lt_transitive(a.drop_first(), b.drop_first(), c.drop_first());
        }
    }
}

/// Two different paths are ordered one way or the other.
pub proof fn lemma_path_lt_total(a: Seq<char>, b: Seq<char>)
    requires
        a != b,
    ensures
        path_lt(a, b) || path_lt(b, a),
    decreases a.len(),
{
    if a.len() == 0 {
        assert(b.len() > 0) by {
            if b.len() == 0 {
                assert(a =~= b);
            }
        }
    } else if b.len() == 0 {
    } else if a[0] == b[0] {
        assert(a.drop_first() != b.drop_first()) by {
            if a.drop_first() == b.drop_first() {
                assert(a =~= seq![a[0]] + a.drop_first());
                assert(b =~= seq![b[0]] + b.drop_first());
            }
        }
        lemma_path_lt_total(a.drop_first(), b.drop_first());
    } else {
        let x = a[0];
        let y = b[0];
        assert(x as int != y as int);
    }
}

/// Whether `a` comes strictly before `b` in the path order.
pub fn path_less(a: &str, b: &str) -> (res: bool)
    ensures
        res == path_lt(a@, b@),
{
    let ca = chars_of(a);
    let cb = chars_of(b);
    let mut i: usize = 0;
    proof {
        assert(a@.skip(0) =~= a@);
        assert(b@.skip(0) =~= b@);
    }
    while i < ca.len() && i < cb.len() && ca[i] == cb[i]
        invariant
            i <= ca@.len(),
            i <= cb@.len(),
            ca@ == a@,
            cb@ == b@,
            path_lt(a@, b@) == path_lt(a@.skip(i as int), b@.skip(i as int)),
        decreases ca.len() - i,
    {
        proof {
            assert(a@.skip(i as int).drop_first() =~= a@.skip(i + 1));
            assert(b@.skip(i as int).drop_first() =~= b@.skip(i + 1));
        }
        i += 1;
    }
    if i == ca.len() {
        i < cb.len()
    } else if i == cb.len() {
        false
    } else {
        let x = ca[i];
        let y = cb[i];
        if x == '/' {
            true
        } else if y == '/' {
            false
        } else {
            x < y
        }
    }
}

/// The `/`-separated segments of `p`, empty ones included: `"/a//b"` has
/// segments `""`, `"a"`, `""`, `"b"`.
pub open spec fn segments(p: Seq<char>) -> Seq<Seq<char>>
    decreases p.len(),
{
    if p.len() == 0 {
        seq![Seq::<char>::empty()]
    } else {
        let s = segments(p.drop_last());
        if p.last() == '/' {
            s.push(Seq::empty())
        } else {
            s.update(s.len() - 1, s.last().push(p.last()))
        }
    }
}

/// Whether a segment at position `idx` is a component: empty segments and
/// `.` are dropped, except a leading `.`.
pub open spec fn keeps(seg: Seq<char>, idx: int) -> bool {
    seg.len() > 0 && (seg != seq!['.'] || idx == 0)
}

/// The components among the first `n` segments.
pub open spec fn components_upto(segs: Seq<Seq<char>>, n: int) -> Seq<Seq<char>>
    decreases n,
{
    if n <= 0 {
        Seq::empty()
    } else {
        let c = components_upto(segs, n - 1);
        if keeps(segs[n - 1], n - 1) {
            c.push(segs[n - 1])
        } else {
            c
        }
    }
}

/// The components of a path, the root aside: `"/a/./b/"` has `a`, `b`.
pub open spec fn components(p: Seq<char>) -> Seq<Seq<char>> {
    components_upto(segments(p), segments(p).len() as int)
}

/// A path starting at the root.
pub open spec fn is_absolute(p: Seq<char>) -> bool {
    p.len() > 0 && p[0] == '/'
}

/// Components joined by `/`.
pub open spec fn join(cs: Seq<Seq<char>>) -> Seq<char>
    decreases cs.len(),
{
    if cs.len() == 0 {
        Seq::empty()
    } else if cs.len() == 1 {
        cs[0]
    } else {
        join(cs.drop_last()) + seq!['/'] + cs.last()
    }
}

/// A path made of a root (when `absolute`) and components.
pub open spec fn render(absolute: bool, cs: Seq<Seq<char>>) -> Seq<char> {
    if absolute {
        seq!['/'] + join(cs)
    } else {
        join(cs)
    }
}

/// `root` is a prefix of `p`: both absolute or both relative, and the
/// components of `root` start those of `p`.
pub open spec fn has_prefix(root: Seq<char>, p: Seq<char>) -> bool {
    is_absolute(root) == is_absolute(p) && components(root).is_prefix_of(components(p))
}

/// What is left of `p` after `root`, joined, when `root` is a prefix of `p`.
pub open spec fn spec_strip_prefix(root: Seq<char>, p: Seq<char>) -> Option<Seq<char>> {
    if has_prefix(root, p) {
        Some(join(components(p).skip(components(root).len() as int)))
    } else {
        None
    }
}

proof fn lemma_components_upto_prefix(a: Seq<Seq<char>>, b: Seq<Seq<char>>, n: int)
    requires
        0 <= n <= a.len(),
        n <= b.len(),
        a.take(n) == b.take(n),
    ensures
        components_upto(a, n) == components_upto(b, n),
    decreases n,
{
    if n > 0 {
        assert(a.take(n - 1) =~= a.take(n).take(n - 1));
        assert(b.take(n - 1) =~= b.take(n).take(n - 1));
        lemma_components_upto_prefix(a, b, n - 1);
        assert(a[n - 1] == a.take(n)[n - 1]);
        assert(b[n - 1] == b.take(n)[n - 1]);
    }
}

/// Whether two character vectors hold the same characters.
fn chars_equal(a: &Vec<char>, b: &Vec<char>) -> (res: bool)
    ensures
        res == (a@ == b@),
{
    if a.len() != b.len() {
        return false;
    }
    let mut i: usize = 0;
    while i < a.len()
        invariant
            i <= a@.len(),
            a@.len() == b@.len(),
            forall|k: int| 0 <= k < i ==> a@[k] == b@[k],
        decreases a.len() - i,
    {
        if a[i] != b[i] {
            return false;
        }
        i += 1;
    }
    proof {
        assert(a@ =~= b@);
    }
    true
}

/// Whether a segment is the single character `.`.
fn is_dot(seg: &Vec<char>) -> (res: bool)
    ensures
        res == (seg@ == seq!['.']),
{
    let r = seg.len() == 1 && seg[0] == '.';
    proof {
        if seg@.len() == 1 && seg@[0] == '.' {
            assert(seg@ =~= seq!['.']);
        }
    }
    r
}

/// Whether `p` is absolute, and its components.
pub fn split_components(p: &str) -> (res: (bool, Vec<Vec<char>>))
    ensures
        res.0 == is_absolute(p@),
        res.1@.len() == components(p@).len(),
        forall|k: int| 0 <= k < res.1@.len() ==> (#[trigger] res.1@[k])@ == components(p@)[k],
{
    let cs = chars_of(p);
    let absolute = cs.len() > 0 && cs[0] == '/';
    let ghost full = p@;
    let mut comps: Vec<Vec<char>> = Vec::new();
    let ghost mut comp_views: Seq<Seq<char>> = Seq::empty();
    let ghost mut done: Seq<Seq<char>> = Seq::empty();
    let mut cur: Vec<char> = Vec::new();
    let mut idx: usize = 0;
    let mut i: usize = 0;
    proof {
        assert(full.take(0) =~= Seq::<char>::empty());
        assert(done.push(cur@) =~= segments(full.take(0)));
    }
    while i < cs.len()
        invariant
            cs@ == full,
            i <= cs@.len(),
            idx == done.len(),
            idx <= i,
            done.push(cur@) == segments(full.take(i as int)),
            comp_views == components_upto(done, done.len() as int),
            comps@.len() == comp_views.len(),
            forall|k: int| 0 <= k < comps@.len() ==> (#[trigger] comps@[k])@ == comp_views[k],
        decreases cs.len() - i,
    {
        let ch = cs[i];
        proof {
            assert(full.take(i + 1).drop_last() =~= full.take(i as int));
            assert(full.take(i + 1).last() == ch);
        }
        if ch == '/' {
            let keep = cur.len() > 0 && (!is_dot(&cur) || idx == 0);
            let ghost segs = done.push(cur@);
            proof {
                assert(segs.take(done.len() as int) =~= done);
                assert(done.take(done.len() as int) =~= done);
                lemma_components_upto_prefix(done, segs, done.len() as int);
            }
            if keep {
                comps.push(cur);
                proof {
                    comp_views = comp_views.push(segs[done.len() as int]);
                }
            }
            proof {
                done = segs;
            }
            cur = Vec::new();
            idx = idx + 1;
            proof {
                assert(done.push(cur@) =~= segments(full.take(i + 1)));
            }
        } else {
            let ghost old_cur = cur@;
            cur.push(ch);
            proof {
                assert(done.push(cur@) =~= done.push(old_cur).update(done.len() as int, old_cur.push(ch)));
            }
        }
        i += 1;
    }
    let ghost segs = done.push(cur@);
    proof {
        assert(full.take(cs@.len() as int) =~= full);
        assert(segs.take(done.len() as int) =~= done);
        assert(done.take(done.len() as int) =~= done);
        lemma_components_upto_prefix(done, segs, done.len() as int);
    }
    if cur.len() > 0 && (!is_dot(&cur) || idx == 0) {
        comps.push(cur);
        proof {
            comp_views = comp_views.push(segs[done.len() as int]);
        }
    }
    proof {
        assert(comp_views == components(full));
    }
    (absolute, comps)
}

/// The characters of components joined by `/`.
fn join_components(cs: &[Vec<char>], from: usize, to: usize) -> (s: String)
    requires
        from <= to <= cs@.len(),
    ensures
        s@ == join(cs@.subrange(from as int, to as int).map_values(|c: Vec<char>| c@)),
{
    let ghost target = cs@.subrange(from as int, to as int).map_values(|c: Vec<char>| c@);
    let mut out = String::new();
    let mut k: usize = from;
    proof {
        assert(target.take(0) =~= Seq::<Seq<char>>::empty());
    }
    while k < to
        invariant
            from <= k <= to <= cs@.len(),
            target == cs@.subrange(from as int, to as int).map_values(|c: Vec<char>| c@),
            out@ == join(target.take(k - from)),
        decreases to - k,
    {
        let ghost before = target.take(k - from);
        if k > from {
            out.push('/');
        }
        let c = &cs[k];
        let mut m: usize = 0;
        let ghost base = out@;
        while m < c.len()
            invariant
                m <= c@.len(),
                out@ == base + c@.take(m as int),
            decreases c.len() - m,
        {
            out.push(c[m]);
            proof {
                assert(c@.take(m + 1) =~= c@.take(m as int).push(c@[m as int]));
            }
            m += 1;
        }
        proof {
            assert(c@.take(c@.len() as int) =~= c@);
            let next = target.take(k + 1 - from);
            assert(next.drop_last() =~= before);
            assert(next.last() == c@);
            if k == from {
                assert(next.len() == 1);
                assert(base =~= Seq::<char>::empty());
                assert(out@ =~= c@);
            } else {
                assert(out@ =~= join(before) + seq!['/'] + c@);
            }
        }
        k += 1;
    }
    proof {
        assert(target.take(to - from) =~= target);
    }
    out
}

/// What is left of `p` after the prefix `root`, if `root` is one.
pub fn strip_prefix(root: &str, p: &str) -> (res: Option<String>)
    ensures
        match (res, spec_strip_prefix(root@, p@)) {
            (Some(a), Some(b)) => a@ == b,
            (None, None) => true,
            _ => false,
        },
{
    let (ra, rc) = split_components(root);
    let (pa, pc) = split_components(p);
    let ghost rcs = components(root@);
    let ghost pcs = components(p@);
    if ra != pa || rc.len() > pc.len() {
        proof {
            if ra == pa {
                assert(!rcs.is_prefix_of(pcs));
            }
        }
        return None;
    }
    let mut k: usize = 0;
    while k < rc.len()
        invariant
            k <= rc@.len() <= pc@.len(),
            rcs == components(root@),
            pcs == components(p@),
            rc@.len() == rcs.len(),
            pc@.len() == pcs.len(),
            forall|m: int| 0 <= m < rc@.len() ==> (#[trigger] rc@[m])@ == rcs[m],
            forall|m: int| 0 <= m < pc@.len() ==> (#[trigger] pc@[m])@ == pcs[m],
            forall|m: int| 0 <= m < k ==> rcs[m] == pcs[m],
        decreases rc.len() - k,
    {
        if !chars_equal(&rc[k], &pc[k]) {
            proof {
                assert(rcs[k as int] != pcs[k as int]);
                if rcs.is_prefix_of(pcs) {
                    assert(rcs[k as int] == pcs.subrange(0, rcs.len() as int)[k as int]);
                }
            }
            return None;
        }
        k += 1;
    }
    proof {
        assert(rcs.is_prefix_of(pcs)) by {
            assert(rcs =~= pcs.take(rcs.len() as int));
        }
    }
    let rest = join_components(pc.as_slice(), rc.len(), pc.len());
    proof {
        assert(pc@.subrange(rc@.len() as int, pc@.len() as int).map_values(|c: Vec<char>| c@) =~= pcs.skip(rcs.len() as int));
    }
    Some(rest)
}

/// `abs` relative to `repo_root` when it lies under it, else `abs` itself.
pub fn relative_or_absolute(repo_root: &str, abs: &str) -> (rel: String)
    ensures
        rel@ == match spec_strip_prefix(repo_root@, abs@) {
            Some(r) => r,
            None => abs@,
        },
{
    match strip_prefix(repo_root, abs) {
        Some(r) => r,
        None => abs.to_owned(),
    }
}

/// The path of `abs` inside the repository rooted at `repo_root`: none when
/// `abs` is not under the root or is the root itself.
pub fn repo_relative(repo_root: &str, abs: &str) -> (rel: Option<String>)
    ensures
        match (rel, spec_strip_prefix(repo_root@, abs@)) {
            (Some(a), Some(b)) => a@ == b && b.len() > 0,
            (None, Some(b)) => b.len() == 0,
            (None, None) => true,
            _ => false,
        },
{
    match strip_prefix(repo_root, abs) {
        Some(r) => if r.as_str().is_empty() {
            None
        } else {
            Some(r)
        },
        None => None,
    }
}

/// A path lies inside the repository's `.git` directory: relative to the
/// root when it is under it, its first component is `.git`; otherwise any
/// component of it is `.git`.
pub open spec fn spec_is_in_dotgit(p: Seq<char>, root: Seq<char>) -> bool {
    if has_prefix(root, p) {
        let rest = components(p).skip(components(root).len() as int);
        rest.len() > 0 && rest[0] == seq!['.', 'g', 'i', 't']
    } else {
        exists|i: int| 0 <= i < components(p).len() && components(p)[i] == seq!['.', 'g', 'i', 't']
    }
}

fn is_dotgit(c: &Vec<char>) -> (res: bool)
    ensures
        res == (c@ == seq!['.', 'g', 'i', 't']),
{
    let r = c.len() == 4 && c[0] == '.' && c[1] == 'g' && c[2] == 'i' && c[3] == 't';
    proof {
        if c@.len() == 4 && c@[0] == '.' && c@[1] == 'g' && c@[2] == 'i' && c@[3] == 't' {
            assert(c@ =~= seq!['.', 'g', 'i', 't']);
        }
    }
    r
}

/// The components of `path` below `repo_root`, when `path` lies under it.
pub fn rel_components(path: &str, repo_root: &str) -> (res: Option<Vec<Vec<char>>>)
    ensures
        res is Some <==> has_prefix(repo_root@, path@),
        res matches Some(cs) ==> cs@.len() == components(path@).skip(components(repo_root@).len() as int).len()
            && forall|m: int|
            0 <= m < cs@.len() ==> (#[trigger] cs@[m])@ == components(path@).skip(
                components(repo_root@).len() as int,
            )[m],
{
    let (ra, rc) = split_components(repo_root);
    let (pa, pc) = split_components(path);
    let ghost rcs = components(repo_root@);
    let ghost pcs = components(path@);
    let mut prefix = ra == pa && rc.len() <= pc.len();
    let mut k: usize = 0;
    while prefix && k < rc.len()
        invariant
            k <= rc@.len(),
            rcs == components(repo_root@),
            pcs == components(path@),
            ra == is_absolute(repo_root@),
            pa == is_absolute(path@),
            prefix ==> rc@.len() <= pc@.len(),
            rc@.len() == rcs.len(),
            pc@.len() == pcs.len(),
            forall|m: int| 0 <= m < rc@.len() ==> (#[trigger] rc@[m])@ == rcs[m],
            forall|m: int| 0 <= m < pc@.len() ==> (#[trigger] pc@[m])@ == pcs[m],
            prefix ==> forall|m: int| 0 <= m < k ==> rcs[m] == pcs[m],
            prefix ==> ra == pa,
            !prefix ==> !has_prefix(repo_root@, path@),
        decreases rc.len() - k,
    {
        if !chars_equal(&rc[k], &pc[k]) {
            prefix = false;
            proof {
                assert(rcs[k as int] != pcs[k as int]);
                if rcs.is_prefix_of(pcs) {
                    assert(rcs[k as int] == pcs.subrange(0, rcs.len() as int)[k as int]);
                }
            }
        }
        k += 1;
    }
    if !prefix {
        return None;
    }
    proof {
        assert(rcs =~= pcs.take(rcs.len() as int));
        assert(has_prefix(repo_root@, path@));
    }
    let mut out: Vec<Vec<char>> = Vec::new();
    let mut m: usize = rc.len();
    while m < pc.len()
        invariant
            rc@.len() <= m <= pc@.len(),
            rc@.len() == rcs.len(),
            pc@.len() == pcs.len(),
            forall|x: int| 0 <= x < pc@.len() ==> (#[trigger] pc@[x])@ == pcs[x],
            out@.len() == m - rc@.len(),
            forall|x: int| 0 <= x < out@.len() ==> (#[trigger] out@[x])@ == pcs[rcs.len() + x],
        decreases pc.len() - m,
    {
        out.push(pc[m].clone());
        m += 1;
    }
    Some(out)
}

/// Whether a watched path is inside the repository's `.git` directory.
pub fn is_in_dotgit(path: &str, repo_root: &str) -> (res: bool)
    ensures
        res == spec_is_in_dotgit(path@, repo_root@),
{
    let (ra, rc) = split_components(repo_root);
    let (pa, pc) = split_components(path);
    let ghost rcs = components(repo_root@);
    let ghost pcs = components(path@);
    let mut prefix = ra == pa && rc.len() <= pc.len();
    let mut k: usize = 0;
    while prefix && k < rc.len()
        invariant
            k <= rc@.len(),
            rcs == components(repo_root@),
            pcs == components(path@),
            ra == is_absolute(repo_root@),
            pa == is_absolute(path@),
            prefix ==> rc@.len() <= pc@.len(),
            rc@.len() == rcs.len(),
            pc@.len() == pcs.len(),
            forall|m: int| 0 <= m < rc@.len() ==> (#[trigger] rc@[m])@ == rcs[m],
            forall|m: int| 0 <= m < pc@.len() ==> (#[trigger] pc@[m])@ == pcs[m],
            prefix ==> forall|m: int| 0 <= m < k ==> rcs[m] == pcs[m],
            prefix ==> ra == pa,
            !prefix ==> !has_prefix(repo_root@, path@),
        decreases rc.len() - k,
    {
        if !chars_equal(&rc[k], &pc[k]) {
            prefix = false;
            proof {
                assert(rcs[k as int] != pcs[k as int]);
                if rcs.is_prefix_of(pcs) {
                    assert(rcs[k as int] == pcs.subrange(0, rcs.len() as int)[k as int]);
                }
            }
        }
        k += 1;
    }
    if prefix {
        proof {
            assert(rcs =~= pcs.take(rcs.len() as int));
            assert(has_prefix(repo_root@, path@));
        }
        if rc.len() < pc.len() {
            is_dotgit(&pc[rc.len()])
        } else {
            false
        }
    } else {
        let mut m: usize = 0;
        while m < pc.len()
            invariant
                m <= pc@.len(),
                pcs == components(path@),
                !has_prefix(repo_root@, path@),
                pc@.len() == pcs.len(),
                forall|x: int| 0 <= x < pc@.len() ==> (#[trigger] pc@[x])@ == pcs[x],
                forall|x: int| 0 <= x < m ==> pcs[x] != seq!['.', 'g', 'i', 't'],
            decreases pc.len() - m,
        {
            if is_dotgit(&pc[m]) {
                proof {
                    assert(pcs[m as int] == seq!['.', 'g', 'i', 't']);
                }
                return true;
            }
            m += 1;
        }
        false
    }
}

/// The parent of a path: its components but the last, under the same root;
/// none for a path with no components (`""` or `"/"`).
pub open spec fn spec_parent(p: Seq<char>) -> Option<Seq<char>> {
    if components(p).len() == 0 {
        None
    } else {
        Some(render(is_absolute(p), components(p).drop_last()))
    }
}

/// The parent directory of `p`, if it has one.
pub fn parent(p: &str) -> (res: Option<String>)
    ensures
        match (res, spec_parent(p@)) {
            (Some(a), Some(b)) => a@ == b,
            (None, None) => true,
            _ => false,
        },
{
    let (absolute, comps) = split_components(p);
    if comps.len() == 0 {
        return None;
    }
    let body = join_components(comps.as_slice(), 0, comps.len() - 1);
    let ghost cs = components(p@);
    proof {
        assert(comps@.subrange(0, comps@.len() - 1).map_values(|c: Vec<char>| c@) =~= cs.drop_last());
    }
    if absolute {
        let mut out = String::new();
        out.push('/');
        out.append(body.as_str());
        proof {
            assert(out@ =~= seq!['/'] + join(cs.drop_last()));
        }
        Some(out)
    } else {
        Some(body)
    }
}

/// The candidates a repository search visits, nearest first: `start`
/// itself, then each directory above it, up to the root (or to the empty
/// path for a relative `start`).
pub open spec fn spec_ancestors(start: Seq<char>) -> Seq<Seq<char>> {
    let cs = components(start);
    Seq::new(
        cs.len() + 1,
        |k: int|
            if k == 0 {
                start
            } else {
                render(is_absolute(start), cs.take(cs.len() - k))
            },
    )
}

/// `start` and the directories above it, nearest first.
pub fn ancestors(start: &str) -> (res: Vec<String>)
    ensures
        res@.len() == spec_ancestors(start@).len(),
        forall|k: int| 0 <= k < res@.len() ==> (#[trigger] res@[k])@ == spec_ancestors(start@)[k],
{
    let (absolute, comps) = split_components(start);
    let ghost cs = components(start@);
    let ghost target = spec_ancestors(start@);
    let mut res: Vec<String> = Vec::new();
    res.push(start.to_owned());
    let n = comps.len();
    let mut rem: usize = n;
    while rem > 0
        invariant
            rem <= n,
            n == cs.len(),
            comps@.len() == cs.len(),
            forall|m: int| 0 <= m < comps@.len() ==> (#[trigger] comps@[m])@ == cs[m],
            absolute == is_absolute(start@),
            cs == components(start@),
            target == spec_ancestors(start@),
            res@.len() == n - rem + 1,
            forall|m: int| 0 <= m < res@.len() ==> (#[trigger] res@[m])@ == target[m],
        decreases rem,
    {
        rem -= 1;
        let body = join_components(comps.as_slice(), 0, rem);
        proof {
            assert(comps@.subrange(0, rem as int).map_values(|c: Vec<char>| c@) =~= cs.take(rem as int));
        }
        if absolute {
            let mut out = String::new();
            out.push('/');
            out.append(body.as_str());
            proof {
                assert(out@ =~= seq!['/'] + join(cs.take(rem as int)));
            }
            res.push(out);
        } else {
            res.push(body);
        }
    }
    res
}

/// The repository root: the first candidate, nearest first, that holds a
/// `.git` entry.
pub fn find_repo_root(candidates: &[String], has_dotgit: &[bool]) -> (root: Option<String>)
    requires
        candidates@.len() == has_dotgit@.len(),
    ensures
        match root {
            Some(r) => exists|k: int|
                0 <= k < candidates@.len() && has_dotgit@[k] && r == candidates@[k] && forall|m: int|
                    0 <= m < k ==> !has_dotgit@[m],
            None => forall|m: int| 0 <= m < has_dotgit@.len() ==> !has_dotgit@[m],
        },
{
    let mut k: usize = 0;
    while k < candidates.len()
        invariant
            k <= candidates@.len(),
            candidates@.len() == has_dotgit@.len(),
            forall|m: int| 0 <= m < k ==> !has_dotgit@[m],
        decreases candidates.len() - k,
    {
        if has_dotgit[k] {
            return Some(candidates[k].clone());
        }
        k += 1;
    }
    None
}

} // verus!
