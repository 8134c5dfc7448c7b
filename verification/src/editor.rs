//! Which editor to start, from the `VISUAL` and `EDITOR` settings.

use vstd::prelude::*;
use crate::text::chars_of;

verus! {

/// The characters with the Unicode `White_Space` property: tab through
/// carriage return, space, U+0085, U+00A0, U+1680, U+2000 through U+200A,
/// U+2028, U+2029, U+202F, U+205F and U+3000.
pub open spec fn whitespace(c: char) -> bool {
    let x = c as int;
    ||| 9 <= x <= 13
    ||| x == 0x20
    ||| x == 0x85
    ||| x == 0xa0
    ||| x == 0x1680
    ||| 0x2000 <= x <= 0x200a
    ||| x == 0x2028
    ||| x == 0x2029
    ||| x == 0x202f
    ||| x == 0x205f
    ||| x == 0x3000
}

/// Whether `c` has the Unicode `White_Space` property, which is what
/// `char::is_whitespace` tests.
pub(crate) fn is_whitespace(c: char) -> (b: bool)
    ensures
        b == whitespace(c),
{
    let x = c as u32;
    (9 <= x && x <= 13) || x == 0x20 || x == 0x85 || x == 0xa0 || x == 0x1680 || (0x2000 <= x && x <= 0x200a)
        || x == 0x2028 || x == 0x2029 || x == 0x202f || x == 0x205f || x == 0x3000
}

/// Nothing but whitespace (what `trim().is_empty()` tests).
pub open spec fn blank(s: Seq<char>) -> bool {
    forall|i: int| 0 <= i < s.len() ==> whitespace(#[trigger] s[i])
}

/// Words found so far and the word being read, after scanning `s`.
pub open spec fn words_scan(s: Seq<char>) -> (Seq<Seq<char>>, Seq<char>)
    decreases s.len(),
{
    if s.len() == 0 {
        (Seq::empty(), Seq::empty())
    } else {
        let prev = words_scan(s.drop_last());
        if whitespace(s.last()) {
            if prev.1.len() > 0 {
                (prev.0.push(prev.1), Seq::empty())
            } else {
                (prev.0, Seq::empty())
            }
        } else {
            (prev.0, prev.1.push(s.last()))
        }
    }
}

/// The maximal runs of non-whitespace characters of `s`, in order (what
/// `split_whitespace` yields).
pub open spec fn words(s: Seq<char>) -> Seq<Seq<char>> {
    let st = words_scan(s);
    if st.1.len() > 0 {
        st.0.push(st.1)
    } else {
        st.0
    }
}

/// The editor setting in force: `VISUAL` unless unset or blank, then
/// `EDITOR` likewise, else `vi`.
pub open spec fn chosen_editor(visual: Option<Seq<char>>, editor: Option<Seq<char>>) -> Seq<char> {
    match visual {
        Some(v) if !blank(v) => v,
        _ => match editor {
            Some(e) if !blank(e) => e,
            _ => "vi"@,
        },
    }
}

/// The program (first word, `vi` when there is none) and its arguments
/// (the other words) of an editor setting.
pub open spec fn spec_editor_command(visual: Option<Seq<char>>, editor: Option<Seq<char>>) -> (
    Seq<char>,
    Seq<Seq<char>>,
) {
    let ws = words(chosen_editor(visual, editor));
    if ws.len() > 0 {
        (ws[0], ws.skip(1))
    } else {
        ("vi"@, Seq::empty())
    }
}

fn is_blank(s: &str) -> (b: bool)
    ensures
        b == blank(s@),
{
    let cs = chars_of(s);
    let mut i: usize = 0;
    while i < cs.len()
        invariant
            i <= cs@.len(),
            cs@ == s@,
            forall|k: int| 0 <= k < i ==> whitespace(#[trigger] cs@[k]),
        decreases cs.len() - i,
    {
        if !is_whitespace(cs[i]) {
            return false;
        }
        i += 1;
    }
    true
}

/// The words of `s`.
pub fn split_words(s: &str) -> (ws: Vec<String>)
    ensures
        ws@.len() == words(s@).len(),
        forall|k: int| 0 <= k < ws@.len() ==> (#[trigger] ws@[k])@ == words(s@)[k],
{
    let cs = chars_of(s);
    let ghost full = s@;
    let mut out: Vec<String> = Vec::new();
    let mut cur = String::new();
    let mut i: usize = 0;
    proof {
        assert(full.take(0) =~= Seq::<char>::empty());
    }
    while i < cs.len()
        invariant
            i <= cs@.len(),
            cs@ == full,
            out@.len() == words_scan(full.take(i as int)).0.len(),
            forall|k: int| 0 <= k < out@.len() ==> (#[trigger] out@[k])@ == words_scan(full.take(i as int)).0[k],
            cur@ == words_scan(full.take(i as int)).1,
        decreases cs.len() - i,
    {
        let c = cs[i];
        proof {
            assert(full.take(i + 1).drop_last() =~= full.take(i as int));
            assert(full.take(i + 1).last() == c);
        }
        if is_whitespace(c) {
            if cur.as_str().is_empty() {
            } else {
                let ghost old_out = out@;
                out.push(cur);
                cur = String::new();
                proof {
                    assert forall|k: int| 0 <= k < out@.len() implies (#[trigger] out@[k])@ == words_scan(
                        full.take(i + 1),
                    ).0[k] by {
                        if k < old_out.len() {
                            assert(out@[k] == old_out[k]);
                        }
                    }
                }
            }
        } else {
            cur.push(c);
        }
        i += 1;
    }
    proof {
        assert(full.take(cs@.len() as int) =~= full);
    }
    if !cur.as_str().is_empty() {
        let ghost old_out = out@;
        out.push(cur);
        proof {
            assert forall|k: int| 0 <= k < out@.len() implies (#[trigger] out@[k])@ == words(full)[k] by {
                if k < old_out.len() {
                    assert(out@[k] == old_out[k]);
                }
            }
        }
    }
    out
}

/// The editor program and arguments to run from the `VISUAL` and `EDITOR`
/// settings (`None` when unset).
pub fn editor_command(visual: Option<&str>, editor: Option<&str>) -> (cmd: (String, Vec<String>))
    ensures
        ({
            let spec = spec_editor_command(
                match visual {
                    Some(v) => Some(v@),
                    None => None,
                },
                match editor {
                    Some(e) => Some(e@),
                    None => None,
                },
            );
            &&& cmd.0@ == spec.0
            &&& cmd.1@.len() == spec.1.len()
            &&& forall|k: int| 0 <= k < cmd.1@.len() ==> (#[trigger] cmd.1@[k])@ == spec.1[k]
        }),
{
    let chosen: &str = match visual {
        Some(v) if !is_blank(v) => v,
        _ => match editor {
            Some(e) if !is_blank(e) => e,
            _ => "vi",
        },
    };
    let ws = split_words(chosen);
    if ws.len() == 0 {
        return ("vi".to_owned(), Vec::new());
    }
    let mut args: Vec<String> = Vec::new();
    let mut k: usize = 1;
    while k < ws.len()
        invariant
            1 <= k <= ws@.len(),
            args@.len() == k - 1,
            forall|m: int| 0 <= m < args@.len() ==> (#[trigger] args@[m])@ == ws@[m + 1]@,
        decreases ws.len() - k,
    {
        args.push(ws[k].clone());
        k += 1;
    }
    (ws[0].clone(), args)
}

} // verus!
