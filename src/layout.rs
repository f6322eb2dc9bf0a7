use vstd::prelude::*;
use crate::value::{Json, Value};
use crate::text::{quote_safe, is_opener, is_closer};
use crate::serialize::{ser, join, quoted, member_text, item_texts, member_texts};
use crate::format::{pretty, indentation};
use crate::roundtrip::{round_trips, writable, plain, lemma_tail, lemma_number_chars, lemma_value_round_trips};

verus! {

/// What the indented printer knows after some text: whether it is inside quotes, whether
/// the last character was a backslash, and the nesting level.
pub open spec fn pretty_state(s: Seq<char>, in_quote: bool, escaped: bool, level: nat) -> (
    bool,
    bool,
    nat,
)
    decreases s.len(),
{
    if s.len() == 0 {
        (in_quote, escaped, level)
    } else {
        let c = s[0];
        let rest = s.subrange(1, s.len() as int);
        if c == '"' {
            pretty_state(rest, if escaped { in_quote } else { !in_quote }, false, level)
        } else if !in_quote && is_opener(c) {
            pretty_state(rest, in_quote, false, level + 1)
        } else if !in_quote && is_closer(c) {
            pretty_state(rest, in_quote, false, if level > 0 { (level - 1) as nat } else { 0 })
        } else if !in_quote && c == ',' {
            pretty_state(rest, in_quote, false, level)
        } else {
            pretty_state(rest, in_quote, c == '\\', level)
        }
    }
}

/// A line break followed by the indentation of `level`.
pub open spec fn break_to(level: nat, width: nat, spaces: bool) -> Seq<char> {
    seq!['\n'] + indentation(level, width, spaces)
}

/// The texts joined with `sep` between each two.
pub open spec fn join_with(parts: Seq<Seq<char>>, sep: Seq<char>) -> Seq<char>
    decreases parts.len(),
{
    if parts.len() == 0 {
        Seq::empty()
    } else if parts.len() == 1 {
        parts[0]
    } else {
        parts[0] + sep + join_with(parts.subrange(1, parts.len() as int), sep)
    }
}

pub open spec fn item_layouts(xs: Seq<Json>, level: nat, width: nat, spaces: bool) -> Seq<Seq<char>>
    decreases xs,
{
    Seq::new(
        xs.len(),
        |i: int| if 0 <= i < xs.len() { layout(xs[i], level, width, spaces) } else { Seq::empty() },
    )
}

pub open spec fn member_layouts(
    ms: Seq<(Seq<char>, Json)>,
    level: nat,
    width: nat,
    spaces: bool,
) -> Seq<Seq<char>>
    decreases ms,
{
    Seq::new(
        ms.len(),
        |i: int|
            if 0 <= i < ms.len() {
                member_text(ms[i].0, layout(ms[i].1, level, width, spaces))
            } else {
                Seq::empty()
            },
    )
}

/// The indented layout of a document whose first line stands at nesting level `level`:
/// a container opens on that line, each child starts a line one level deeper, a comma
/// ends each child's last line but the last, and the closing bracket starts a line at
/// `level` again. A scalar is its compact text.
pub open spec fn layout(j: Json, level: nat, width: nat, spaces: bool) -> Seq<char>
    decreases j,
{
    match j {
        Json::Object(ms) => seq!['{'] + break_to(level + 1, width, spaces) + join_with(
            member_layouts(ms, level + 1, width, spaces),
            seq![','] + break_to(level + 1, width, spaces),
        ) + break_to(level, width, spaces) + seq!['}'],
        Json::Array(xs) => seq!['['] + break_to(level + 1, width, spaces) + join_with(
            item_layouts(xs, level + 1, width, spaces),
            seq![','] + break_to(level + 1, width, spaces),
        ) + break_to(level, width, spaces) + seq![']'],
        _ => ser(j),
    }
}

proof fn lemma_pretty_empty(w: nat, sp: bool)
    ensures
        forall|q: bool, e: bool, l: nat| #[trigger] pretty(Seq::<char>::empty(), q, e, l, w, sp) == Seq::<char>::empty(),
        forall|q: bool, e: bool, l: nat| #[trigger] pretty_state(Seq::<char>::empty(), q, e, l) == (q, e, l),
{
}

/// What printing one character emits.
pub open spec fn pretty_head(c: char, q: bool, l: nat, w: nat, sp: bool) -> Seq<char> {
    if c == '"' {
        seq![c]
    } else if !q && is_opener(c) {
        seq![c, '\n'] + indentation(l + 1, w, sp)
    } else if !q && is_closer(c) {
        seq!['\n'] + indentation(if l > 0 { (l - 1) as nat } else { 0 }, w, sp) + seq![c]
    } else if !q && c == ',' {
        seq![c, '\n'] + indentation(l, w, sp)
    } else {
        seq![c]
    }
}

proof fn lemma_pretty_one(c: char, q: bool, e: bool, l: nat, w: nat, sp: bool)
    ensures
        pretty(seq![c], q, e, l, w, sp) == pretty_head(c, q, l, w, sp),
        c == '"' ==> pretty_state(seq![c], q, e, l) == (if e { q } else { !q }, false, l),
        c != '"' && !q && is_opener(c) ==> pretty_state(seq![c], q, e, l) == (q, false, l + 1),
        c != '"' && !q && is_closer(c) ==> pretty_state(seq![c], q, e, l) == (
            q,
            false,
            if l > 0 { (l - 1) as nat } else { 0 },
        ),
        c != '"' && !q && c == ',' ==> pretty_state(seq![c], q, e, l) == (q, false, l),
        c != '"' && !(!q && (is_opener(c) || is_closer(c) || c == ',')) ==> pretty_state(
            seq![c],
            q,
            e,
            l,
        ) == (q, c == '\\', l),
{
    let s = seq![c];
    let r = s.subrange(1, s.len() as int);
    assert(r =~= Seq::<char>::empty());
    lemma_pretty_empty(w, sp);
    assert(s[0] == c);
    let l2: nat = if l > 0 { (l - 1) as nat } else { 0 };
    if c == '"' {
        let q2 = if e { q } else { !q };
        assert(pretty(r, q2, false, l, w, sp) == Seq::<char>::empty());
        assert(pretty_state(r, q2, false, l) == (q2, false, l));
        assert(pretty(s, q, e, l, w, sp) =~= pretty_head(c, q, l, w, sp));
    } else if !q && is_opener(c) {
        assert(pretty(r, q, false, l + 1, w, sp) == Seq::<char>::empty());
        assert(pretty_state(r, q, false, l + 1) == (q, false, (l + 1) as nat));
        assert(pretty(s, q, e, l, w, sp) =~= pretty_head(c, q, l, w, sp));
    } else if !q && is_closer(c) {
        assert(pretty(r, q, false, l2, w, sp) == Seq::<char>::empty());
        assert(pretty_state(r, q, false, l2) == (q, false, l2));
        assert(pretty(s, q, e, l, w, sp) =~= pretty_head(c, q, l, w, sp));
    } else if !q && c == ',' {
        assert(pretty(r, q, false, l, w, sp) == Seq::<char>::empty());
        assert(pretty_state(r, q, false, l) == (q, false, l));
        assert(pretty(s, q, e, l, w, sp) =~= pretty_head(c, q, l, w, sp));
    } else {
        assert(pretty(r, q, c == '\\', l, w, sp) == Seq::<char>::empty());
        assert(pretty_state(r, q, c == '\\', l) == (q, c == '\\', l));
        assert(pretty(s, q, e, l, w, sp) =~= pretty_head(c, q, l, w, sp));
    }
}

#[verifier::rlimit(80)]
proof fn lemma_pretty_concat(
    a: Seq<char>,
    b: Seq<char>,
    q: bool,
    e: bool,
    l: nat,
    w: nat,
    sp: bool,
)
    ensures
        pretty(a + b, q, e, l, w, sp) == pretty(a, q, e, l, w, sp) + pretty(
            b,
            pretty_state(a, q, e, l).0,
            pretty_state(a, q, e, l).1,
            pretty_state(a, q, e, l).2,
            w,
            sp,
        ),
        pretty_state(a + b, q, e, l) == pretty_state(
            b,
            pretty_state(a, q, e, l).0,
            pretty_state(a, q, e, l).1,
            pretty_state(a, q, e, l).2,
        ),
    decreases a.len(),
{
    lemma_pretty_empty(w, sp);
    if a.len() == 0 {
        assert(a + b =~= b);
        assert(pretty(a, q, e, l, w, sp) =~= Seq::<char>::empty());
        assert(pretty(a + b, q, e, l, w, sp) =~= pretty(a, q, e, l, w, sp) + pretty(b, q, e, l, w, sp));
    } else {
        lemma_tail(a, b);
        let c = a[0];
        let ar = a.subrange(1, a.len() as int);
        let l2 = if l > 0 { (l - 1) as nat } else { 0 };
        if c == '"' {
            lemma_pretty_concat(ar, b, if e { q } else { !q }, false, l, w, sp);
        } else if !q && is_opener(c) {
            lemma_pretty_concat(ar, b, q, false, l + 1, w, sp);
        } else if !q && is_closer(c) {
            lemma_pretty_concat(ar, b, q, false, l2, w, sp);
        } else if !q && c == ',' {
            lemma_pretty_concat(ar, b, q, false, l, w, sp);
        } else {
            lemma_pretty_concat(ar, b, q, c == '\\', l, w, sp);
        }
        assert(pretty(a + b, q, e, l, w, sp) =~= pretty(a, q, e, l, w, sp) + pretty(
            b,
            pretty_state(a, q, e, l).0,
            pretty_state(a, q, e, l).1,
            pretty_state(a, q, e, l).2,
            w,
            sp,
        ));
    }
}

proof fn lemma_pretty_plain(s: Seq<char>, l: nat, w: nat, sp: bool)
    requires
        forall|k: int| 0 <= k < s.len() ==> plain(#[trigger] s[k]) && s[k] != ',',
    ensures
        pretty(s, false, false, l, w, sp) == s,
        pretty_state(s, false, false, l) == (false, false, l),
    decreases s.len(),
{
    lemma_pretty_empty(w, sp);
    if s.len() > 0 {
        let rest = s.subrange(1, s.len() as int);
        assert(forall|k: int| 0 <= k < rest.len() ==> rest[k] == s[k + 1]);
        lemma_pretty_plain(rest, l, w, sp);
        assert(seq![s[0]] + rest =~= s);
    }
}

proof fn lemma_pretty_in_quote(t: Seq<char>, e: bool, l: nat, w: nat, sp: bool)
    requires
        quote_safe(t, e),
    ensures
        pretty(t, true, e, l, w, sp) == t,
        pretty_state(t, true, e, l) == (true, false, l),
    decreases t.len(),
{
    lemma_pretty_empty(w, sp);
    if t.len() > 0 {
        let rest = t.subrange(1, t.len() as int);
        lemma_pretty_in_quote(rest, t[0] == '\\', l, w, sp);
        assert(seq![t[0]] + rest =~= t);
    }
}

proof fn lemma_pretty_quoted(t: Seq<char>, l: nat, w: nat, sp: bool)
    requires
        quote_safe(t, false),
    ensures
        pretty(quoted(t), false, false, l, w, sp) == quoted(t),
        pretty_state(quoted(t), false, false, l) == (false, false, l),
{
    let q = seq!['"'];
    let e = q.subrange(1, q.len() as int);
    assert(e =~= Seq::<char>::empty());
    lemma_pretty_empty(w, sp);
    lemma_pretty_one('"', false, false, l, w, sp);
    lemma_pretty_one('"', true, false, l, w, sp);
    lemma_pretty_in_quote(t, false, l, w, sp);
    lemma_pretty_concat(q, t, false, false, l, w, sp);
    lemma_pretty_concat(q + t, q, false, false, l, w, sp);
}

/// Printing one separator between parts at level `l`.
proof fn lemma_pretty_sep(l: nat, w: nat, sp: bool)
    ensures
        pretty(seq![','], false, false, l, w, sp) == seq![','] + break_to(l, w, sp),
        pretty_state(seq![','], false, false, l) == (false, false, l),
        pretty(seq![':'], false, false, l, w, sp) == seq![':'],
        pretty_state(seq![':'], false, false, l) == (false, false, l),
{
    let e = seq![','].subrange(1, seq![','].len() as int);
    assert(e =~= Seq::<char>::empty());
    assert(seq![':'].subrange(1, seq![':'].len() as int) =~= Seq::<char>::empty());
    lemma_pretty_empty(w, sp);
    lemma_pretty_one(',', false, false, l, w, sp);
    lemma_pretty_one(':', false, false, l, w, sp);
    assert(pretty_head(',', false, l, w, sp) =~= seq![','] + break_to(l, w, sp));
}

proof fn lemma_pretty_join(parts: Seq<Seq<char>>, outs: Seq<Seq<char>>, l: nat, w: nat, sp: bool)
    requires
        parts.len() == outs.len(),
        forall|i: int|
            0 <= i < parts.len() ==> pretty(#[trigger] parts[i], false, false, l, w, sp) == outs[i]
                && pretty_state(parts[i], false, false, l) == (false, false, l),
    ensures
        pretty(join(parts), false, false, l, w, sp) == join_with(outs, seq![','] + break_to(l, w, sp)),
        pretty_state(join(parts), false, false, l) == (false, false, l),
    decreases parts.len(),
{
    lemma_pretty_empty(w, sp);
    if parts.len() > 1 {
        let rest = parts.subrange(1, parts.len() as int);
        let orest = outs.subrange(1, outs.len() as int);
        assert(forall|i: int| 0 <= i < rest.len() ==> rest[i] == parts[i + 1] && orest[i] == outs[i + 1]);
        lemma_pretty_join(rest, orest, l, w, sp);
        lemma_pretty_sep(l, w, sp);
        assert(parts[0] + seq![','] + join(rest) == parts[0] + (seq![','] + join(rest)));
        lemma_pretty_concat(parts[0], seq![','] + join(rest), false, false, l, w, sp);
        lemma_pretty_concat(seq![','], join(rest), false, false, l, w, sp);
        assert(join(parts) =~= parts[0] + (seq![','] + join(rest)));
        assert(join_with(outs, seq![','] + break_to(l, w, sp)) =~= outs[0] + (seq![','] + break_to(
            l,
            w,
            sp,
        )) + join_with(orest, seq![','] + break_to(l, w, sp)));
    }
}

proof fn lemma_pretty_wrap(
    open: char,
    body: Seq<char>,
    close: char,
    out: Seq<char>,
    l: nat,
    w: nat,
    sp: bool,
)
    requires
        is_opener(open),
        is_closer(close),
        pretty(body, false, false, l + 1, w, sp) == out,
        pretty_state(body, false, false, l + 1) == (false, false, (l + 1) as nat),
    ensures
        pretty(seq![open] + body + seq![close], false, false, l, w, sp) == seq![open] + break_to(
            l + 1,
            w,
            sp,
        ) + out + break_to(l, w, sp) + seq![close],
        pretty_state(seq![open] + body + seq![close], false, false, l) == (false, false, l),
{
    let o = seq![open];
    let c = seq![close];
    assert(o.subrange(1, o.len() as int) =~= Seq::<char>::empty());
    assert(c.subrange(1, c.len() as int) =~= Seq::<char>::empty());
    lemma_pretty_empty(w, sp);
    lemma_pretty_one(open, false, false, l, w, sp);
    lemma_pretty_one(close, false, false, (l + 1) as nat, w, sp);
    assert(pretty_head(open, false, l, w, sp) =~= seq![open] + break_to(l + 1, w, sp));
    assert(pretty_head(close, false, (l + 1) as nat, w, sp) =~= break_to(l, w, sp) + seq![close]);
    assert(pretty_state(o, false, false, l) == (false, false, (l + 1) as nat));
    assert(pretty_state(c, false, false, (l + 1) as nat) == (false, false, l));
    lemma_pretty_concat(o, body, false, false, l, w, sp);
    lemma_pretty_concat(o + body, c, false, false, l, w, sp);
    assert(pretty(seq![open] + body + seq![close], false, false, l, w, sp) =~= seq![open] + break_to(
        l + 1,
        w,
        sp,
    ) + out + break_to(l, w, sp) + seq![close]);
}

proof fn lemma_layout(j: Json, l: nat, w: nat, sp: bool)
    requires
        round_trips(j),
    ensures
        pretty(ser(j), false, false, l, w, sp) == layout(j, l, w, sp),
        pretty_state(ser(j), false, false, l) == (false, false, l),
    decreases j, 0int,
{
    match j {
        Json::Null => {
            lemma_pretty_plain(ser(j), l, w, sp);
        },
        Json::Bool(b) => {
            lemma_pretty_plain(ser(j), l, w, sp);
        },
        Json::Number(t) => {
            lemma_number_chars(t);
            lemma_pretty_plain(t, l, w, sp);
        },
        Json::Text(t) => {
            lemma_pretty_quoted(t, l, w, sp);
        },
        Json::Array(xs) => {
            let parts = item_texts(xs);
            let outs = item_layouts(xs, l + 1, w, sp);
            assert forall|i: int| 0 <= i < parts.len() implies pretty(
                #[trigger] parts[i],
                false,
                false,
                l + 1,
                w,
                sp,
            ) == outs[i] && pretty_state(parts[i], false, false, l + 1) == (false, false, (l
                + 1) as nat) by {
                lemma_layout(xs[i], l + 1, w, sp);
            }
            lemma_pretty_join(parts, outs, l + 1, w, sp);
            lemma_pretty_wrap('[', join(parts), ']', join_with(outs, seq![','] + break_to(l + 1, w, sp)), l, w, sp);
        },
        Json::Object(ms) => {
            let parts = member_texts(ms);
            let outs = member_layouts(ms, l + 1, w, sp);
            assert forall|i: int| 0 <= i < parts.len() implies pretty(
                #[trigger] parts[i],
                false,
                false,
                l + 1,
                w,
                sp,
            ) == outs[i] && pretty_state(parts[i], false, false, l + 1) == (false, false, (l
                + 1) as nat) by {
                assert(decreases_to!(ms => ms[i]));
                assert(decreases_to!(ms[i] => ms[i].1));
                lemma_member_layout(ms[i].0, ms[i].1, l + 1, w, sp);
            }
            lemma_pretty_join(parts, outs, l + 1, w, sp);
            lemma_pretty_wrap('{', join(parts), '}', join_with(outs, seq![','] + break_to(l + 1, w, sp)), l, w, sp);
        },
        Json::Invalid => {},
    }
}

proof fn lemma_member_layout(k: Seq<char>, v: Json, l: nat, w: nat, sp: bool)
    requires
        quote_safe(k, false),
        round_trips(v),
    ensures
        pretty(member_text(k, ser(v)), false, false, l, w, sp) == member_text(k, layout(v, l, w, sp)),
        pretty_state(member_text(k, ser(v)), false, false, l) == (false, false, l),
    decreases v, 1int,
{
    lemma_pretty_quoted(k, l, w, sp);
    lemma_pretty_sep(l, w, sp);
    lemma_layout(v, l, w, sp);
    lemma_pretty_concat(quoted(k), seq![':'], false, false, l, w, sp);
    lemma_pretty_concat(quoted(k) + seq![':'], ser(v), false, false, l, w, sp);
}

/// The indented text of a document is its layout: every container opens at the end of a
/// line, each of its children starts a line one indentation level deeper than the line
/// that opened it, and its closing bracket starts a line at that line's level.
pub proof fn lemma_format_layout(j: Json, width: nat, spaces: bool)
    requires
        round_trips(j),
    ensures
        pretty(ser(j), false, false, 0, width, spaces) == layout(j, 0, width, spaces),
{
    lemma_layout(j, 0, width, spaces);
}


/// The same for a value: whenever `writable` admits it, `format` gives its layout.
pub proof fn lemma_format_value_layout(v: &Value, width: nat, spaces: bool)
    requires
        writable(v@),
    ensures
        pretty(ser(v@), false, false, 0, width, spaces) == layout(v@, 0, width, spaces),
{
    lemma_value_round_trips(v);
    lemma_layout(v@, 0, width, spaces);
}

} // verus!
