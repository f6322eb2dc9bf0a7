use vstd::prelude::*;
use crate::value::Value;
use crate::serialize::ser;
use crate::text::{is_opener, is_closer, string_of};

verus! {

/// Indentation for a nesting level: `width` spaces per level, or one tab per level.
pub open spec fn indentation(level: nat, width: nat, spaces: bool) -> Seq<char> {
    if spaces {
        Seq::new(level * width, |i: int| ' ')
    } else {
        Seq::new(level, |i: int| '\t')
    }
}

/// Indented text from compact text, scanning with the quoting rule of the parser: an
/// opening bracket outside quotes is followed by a line break and the next level's
/// indentation; a closing one comes after a line break and the indentation of the
/// level it returns to (never below zero); a comma outside quotes is followed by a line
/// break and the current indentation. Everything else is copied.
pub open spec fn pretty(
    s: Seq<char>,
    in_quote: bool,
    escaped: bool,
    level: nat,
    width: nat,
    spaces: bool,
) -> Seq<char>
    decreases s.len(),
{
    if s.len() == 0 {
        Seq::empty()
    } else {
        let c = s[0];
        let rest = s.subrange(1, s.len() as int);
        if c == '"' {
            let q = if escaped { in_quote } else { !in_quote };
            seq![c] + pretty(rest, q, false, level, width, spaces)
        } else if !in_quote && is_opener(c) {
            seq![c, '\n'] + indentation(level + 1, width, spaces) + pretty(
                rest,
                in_quote,
                false,
                level + 1,
                width,
                spaces,
            )
        } else if !in_quote && is_closer(c) {
            let l = if level > 0 { (level - 1) as nat } else { 0 };
            seq!['\n'] + indentation(l, width, spaces) + seq![c] + pretty(
                rest,
                in_quote,
                false,
                l,
                width,
                spaces,
            )
        } else if !in_quote && c == ',' {
            seq![c, '\n'] + indentation(level, width, spaces) + pretty(
                rest,
                in_quote,
                false,
                level,
                width,
                spaces,
            )
        } else {
            seq![c] + pretty(rest, in_quote, c == '\\', level, width, spaces)
        }
    }
}

/// Appends the indentation for `level`.
pub fn indent(out: &mut Vec<char>, tab_width: usize, level: usize, spaces: bool)
    ensures
        final(out)@ == old(out)@ + indentation(level as nat, tab_width as nat, spaces),
{
    let mut l: usize = 0;
    while l < level
        invariant
            l <= level,
            out@ == old(out)@ + indentation(l as nat, tab_width as nat, spaces),
        decreases level - l,
    {
        let ghost before = out@;
        if spaces {
            let mut k: usize = 0;
            while k < tab_width
                invariant
                    k <= tab_width,
                    out@ == before + Seq::new(k as nat, |i: int| ' '),
                decreases tab_width - k,
            {
                out.push(' ');
                k = k + 1;
                assert(out@ =~= before + Seq::new(k as nat, |i: int| ' '));
            }
            assert((l + 1) * tab_width == l * tab_width + tab_width) by (nonlinear_arith);
        } else {
            out.push('\t');
        }
        l = l + 1;
        assert(out@ =~= old(out)@ + indentation(l as nat, tab_width as nat, spaces));
    }
}

#[verifier::rlimit(50)]
pub(crate) fn pretty_text(v: &Value, tab_width: usize, spaces: bool) -> (r: String)
    ensures
        r@ == pretty(ser(v@), false, false, 0, tab_width as nat, spaces),
{
    let compact = v.to_string();
    let cs = crate::text::chars_of(compact.as_str());
    let n = cs.len();
    let mut out: Vec<char> = Vec::new();
    let mut in_quote = false;
    let mut escaped = false;
    let mut level: usize = 0;
    let mut j: usize = 0;
    assert(cs@.subrange(0, n as int) =~= cs@);
    assert(out@ + pretty(cs@, false, false, 0, tab_width as nat, spaces) =~= pretty(
        cs@,
        false,
        false,
        0,
        tab_width as nat,
        spaces,
    ));
    while j < n
        invariant
            n == cs@.len(),
            j <= n,
            level <= j,
            out@ + pretty(cs@.subrange(j as int, n as int), in_quote, escaped, level as nat, tab_width as nat, spaces)
                == pretty(cs@, false, false, 0, tab_width as nat, spaces),
        decreases n - j,
    {
        let c = cs[j];
        let ghost rest = cs@.subrange(j as int, n as int);
        let ghost before = out@;
        let ghost q0 = in_quote;
        let ghost e0 = escaped;
        let ghost l0 = level as nat;
        assert(rest.subrange(1, rest.len() as int) =~= cs@.subrange(j + 1, n as int));
        assert(rest[0] == c);
        if c == '"' {
            if !escaped {
                in_quote = !in_quote;
            }
            escaped = false;
            out.push(c);
        } else if !in_quote && (c == '{' || c == '[') {
            out.push(c);
            out.push('\n');
            level = level + 1;
            indent(&mut out, tab_width, level, spaces);
            escaped = false;
        } else if !in_quote && (c == '}' || c == ']') {
            if level > 0 {
                level = level - 1;
            }
            out.push('\n');
            indent(&mut out, tab_width, level, spaces);
            out.push(c);
            escaped = false;
        } else if !in_quote && c == ',' {
            out.push(c);
            out.push('\n');
            indent(&mut out, tab_width, level, spaces);
            escaped = false;
        } else {
            out.push(c);
            escaped = c == '\\';
        }
        j = j + 1;
        assert(out@ + pretty(cs@.subrange(j as int, n as int), in_quote, escaped, level as nat, tab_width as nat, spaces)
            =~= before + pretty(rest, q0, e0, l0, tab_width as nat, spaces));
    }
    assert(cs@.subrange(n as int, n as int) =~= Seq::<char>::empty());
    assert(out@ =~= out@ + Seq::<char>::empty());
    string_of(out.as_slice())
}

/// Indented text of a document: its compact text, broken into lines after each opening
/// bracket and comma and before each closing bracket, each line indented by its
/// nesting level.
pub fn format(to_print: Value, tab_width: usize, spaces: bool) -> (r: String)
    ensures
        r@ == pretty(ser(to_print@), false, false, 0, tab_width as nat, spaces),
{
    pretty_text(&to_print, tab_width, spaces)
}

} // verus!
