use vstd::prelude::*;
use crate::value::{Json, Value, members_view, items_view, lemma_number_literal, keys_unique, key_pos, put, first_with_key, lemma_first_exists};
use crate::text::{
    Scan, scan_start, step, run, strip, first_top, dips, balanced, quote_safe, is_ws,
    is_text_literal, is_number_literal, is_digit, digits_end, mantissa_end,
};
use crate::serialize::{ser, join, quoted, member_text, item_texts, member_texts};
use crate::parse::{parse_tok, parse_json, items_into, members_into, parse_member};

verus! {

/// Documents that survive writing out and reading back: no `Invalid` node, number
/// literals that the parser accepts, texts and keys whose quotes are all escaped and
/// that do not end in a backslash, and unique keys in each object.
pub open spec fn round_trips(j: Json) -> bool
    decreases j,
{
    match j {
        Json::Invalid => false,
        Json::Null => true,
        Json::Bool(_) => true,
        Json::Number(t) => is_number_literal(t),
        Json::Text(t) => quote_safe(t, false),
        Json::Object(ms) => keys_unique(ms) && forall|i: int|
            0 <= i < ms.len() ==> quote_safe(#[trigger] ms[i].0, false) && round_trips(ms[i].1),
        Json::Array(xs) => forall|i: int| 0 <= i < xs.len() ==> round_trips(#[trigger] xs[i]),
    }
}

pub open spec fn at_depth(d: int) -> Scan {
    Scan { in_quote: false, escaped: false, depth: d }
}

/// No whitespace stands outside quotes.
pub open spec fn tight(s: Seq<char>, st: Scan) -> bool
    decreases s.len(),
{
    s.len() == 0 || (!(is_ws(s[0]) && !st.in_quote) && tight(
        s.subrange(1, s.len() as int),
        step(st, s[0]),
    ))
}

/// Scanned from outside quotes at depth `d`, the text keeps no whitespace outside
/// quotes, never closes below `d`, and ends outside quotes at depth `d`.
pub open spec fn closed_at(s: Seq<char>, d: int) -> bool {
    &&& run(s, at_depth(d)) == at_depth(d)
    &&& tight(s, at_depth(d))
    &&& !dips(s, at_depth(d))
}

/// The text holds no top-level separator when scanned from depth `d`.
pub open spec fn no_top(s: Seq<char>, d: int) -> bool {
    &&& first_top(s, at_depth(d), ',') == s.len()
    &&& first_top(s, at_depth(d), ':') == s.len()
}

pub(crate) proof fn lemma_tail<A>(a: Seq<A>, b: Seq<A>)
    requires
        a.len() > 0,
    ensures
        (a + b).subrange(1, (a + b).len() as int) == a.subrange(1, a.len() as int) + b,
        (a + b)[0] == a[0],
{
    assert((a + b).subrange(1, (a + b).len() as int) =~= a.subrange(1, a.len() as int) + b);
}

proof fn lemma_concat(a: Seq<char>, b: Seq<char>, st: Scan, sep: char)
    ensures
        run(a + b, st) == run(b, run(a, st)),
        tight(a, st) && tight(b, run(a, st)) ==> tight(a + b, st),
        dips(a + b, st) == (dips(a, st) || dips(b, run(a, st))),
        first_top(a, st, sep) == a.len() ==> first_top(a + b, st, sep) == a.len() + first_top(
            b,
            run(a, st),
            sep,
        ),
    decreases a.len(),
{
    if a.len() == 0 {
        assert(a + b =~= b);
    } else {
        lemma_tail(a, b);
        lemma_concat(a.subrange(1, a.len() as int), b, step(st, a[0]), sep);
    }
}

proof fn lemma_strip_tight(s: Seq<char>, st: Scan)
    requires
        tight(s, st),
    ensures
        strip(s, st) == s,
    decreases s.len(),
{
    if s.len() > 0 {
        lemma_strip_tight(s.subrange(1, s.len() as int), step(st, s[0]));
        assert(seq![s[0]] + s.subrange(1, s.len() as int) =~= s);
    }
}

/// Characters that change no scan state but the backslash flag, which they clear.
pub open spec fn plain(c: char) -> bool {
    c != '"' && c != '{' && c != '[' && c != '}' && c != ']' && c != '\\' && !is_ws(c)
}

proof fn lemma_plain(s: Seq<char>, d: int)
    requires
        forall|k: int| 0 <= k < s.len() ==> plain(#[trigger] s[k]) && s[k] != ',' && s[k] != ':',
    ensures
        closed_at(s, d),
        no_top(s, d),
    decreases s.len(),
{
    if s.len() > 0 {
        let rest = s.subrange(1, s.len() as int);
        assert(forall|k: int| 0 <= k < rest.len() ==> rest[k] == s[k + 1]);
        lemma_plain(rest, d);
        assert(step(at_depth(d), s[0]) == at_depth(d));
    }
}

proof fn lemma_single(c: char, st: Scan, sep: char)
    ensures
        run(seq![c], st) == step(st, c),
        tight(seq![c], st) == !(is_ws(c) && !st.in_quote),
        dips(seq![c], st) == (!st.in_quote && crate::text::is_closer(c) && st.depth <= 0),
        first_top(seq![c], st, sep) == (if c == sep && !st.in_quote && st.depth == 0 {
            0int
        } else {
            1int
        }),
{
    let s = seq![c];
    let e = s.subrange(1, 1);
    assert(e =~= Seq::<char>::empty());
    assert(run(e, step(st, c)) == step(st, c));
    assert(tight(e, step(st, c)));
    assert(!dips(e, step(st, c)));
    assert(first_top(e, step(st, c), sep) == 0);
}

proof fn lemma_sep(c: char, d: int)
    requires
        c == ',' || c == ':',
    ensures
        closed_at(seq![c], d),
        d != 0 ==> no_top(seq![c], d),
        d == 0 ==> first_top(seq![c], at_depth(d), c) == 0,
        c == ':' ==> first_top(seq![c], at_depth(d), ',') == 1,
{
    lemma_single(c, at_depth(d), ',');
    lemma_single(c, at_depth(d), ':');
    assert(step(at_depth(d), c) == at_depth(d));
}

proof fn lemma_closed_concat(a: Seq<char>, b: Seq<char>, d: int)
    requires
        closed_at(a, d),
        closed_at(b, d),
    ensures
        closed_at(a + b, d),
        no_top(a, d) && no_top(b, d) ==> no_top(a + b, d),
{
    lemma_concat(a, b, at_depth(d), ',');
    lemma_concat(a, b, at_depth(d), ':');
}

pub open spec fn quoting(esc: bool, d: int) -> Scan {
    Scan { in_quote: true, escaped: esc, depth: d }
}

proof fn lemma_in_quote(t: Seq<char>, esc: bool, d: int)
    requires
        quote_safe(t, esc),
    ensures
        run(t, quoting(esc, d)) == quoting(false, d),
        tight(t, quoting(esc, d)),
        !dips(t, quoting(esc, d)),
        first_top(t, quoting(esc, d), ',') == t.len(),
        first_top(t, quoting(esc, d), ':') == t.len(),
    decreases t.len(),
{
    if t.len() > 0 {
        lemma_in_quote(t.subrange(1, t.len() as int), t[0] == '\\', d);
    }
}

proof fn lemma_quoted(t: Seq<char>, d: int)
    requires
        quote_safe(t, false),
    ensures
        closed_at(quoted(t), d),
        no_top(quoted(t), d),
{
    let q = seq!['"'];
    let st1 = quoting(false, d);
    lemma_single('"', at_depth(d), ',');
    lemma_single('"', at_depth(d), ':');
    lemma_single('"', st1, ',');
    lemma_single('"', st1, ':');
    assert(run(q, at_depth(d)) == st1);
    lemma_in_quote(t, false, d);
    lemma_concat(q, t, at_depth(d), ',');
    lemma_concat(q, t, at_depth(d), ':');
    assert(run(q, st1) == at_depth(d));
    lemma_concat(q + t, q, at_depth(d), ',');
    lemma_concat(q + t, q, at_depth(d), ':');
}

proof fn lemma_wrap(open: char, inner: Seq<char>, close: char, d: int)
    requires
        (open == '{' && close == '}') || (open == '[' && close == ']'),
        d >= 0,
        closed_at(inner, d + 1),
        no_top(inner, d + 1),
    ensures
        closed_at(seq![open] + inner + seq![close], d),
        no_top(seq![open] + inner + seq![close], d),
{
    let o = seq![open];
    let c = seq![close];
    lemma_single(open, at_depth(d), ',');
    lemma_single(open, at_depth(d), ':');
    lemma_single(close, at_depth(d + 1), ',');
    lemma_single(close, at_depth(d + 1), ':');
    assert(run(o, at_depth(d)) == at_depth(d + 1));
    assert(run(c, at_depth(d + 1)) == at_depth(d));
    lemma_concat(o, inner, at_depth(d), ',');
    lemma_concat(o, inner, at_depth(d), ':');
    lemma_concat(o + inner, c, at_depth(d), ',');
    lemma_concat(o + inner, c, at_depth(d), ':');
}

proof fn lemma_join_closed(parts: Seq<Seq<char>>, d: int)
    requires
        d >= 1,
        forall|i: int| 0 <= i < parts.len() ==> closed_at(#[trigger] parts[i], d) && no_top(parts[i], d),
    ensures
        closed_at(join(parts), d),
        no_top(join(parts), d),
    decreases parts.len(),
{
    if parts.len() == 0 {
        lemma_plain(Seq::empty(), d);
    } else if parts.len() > 1 {
        let rest = parts.subrange(1, parts.len() as int);
        assert(forall|i: int| 0 <= i < rest.len() ==> rest[i] == parts[i + 1]);
        lemma_join_closed(rest, d);
        lemma_sep(',', d);
        lemma_closed_concat(parts[0], seq![','], d);
        lemma_closed_concat(parts[0] + seq![','], join(rest), d);
    }
}

proof fn lemma_join_closed_top(parts: Seq<Seq<char>>)
    requires
        forall|i: int| 0 <= i < parts.len() ==> closed_at(#[trigger] parts[i], 0),
    ensures
        closed_at(join(parts), 0),
    decreases parts.len(),
{
    if parts.len() == 0 {
        lemma_plain(Seq::empty(), 0);
    } else if parts.len() > 1 {
        let rest = parts.subrange(1, parts.len() as int);
        assert(forall|i: int| 0 <= i < rest.len() ==> rest[i] == parts[i + 1]);
        lemma_join_closed_top(rest);
        lemma_sep(',', 0);
        lemma_closed_concat(parts[0], seq![','], 0);
        lemma_closed_concat(parts[0] + seq![','], join(rest), 0);
    }
}


proof fn lemma_digits_end(s: Seq<char>, i: int)
    requires
        0 <= i <= s.len(),
    ensures
        i <= digits_end(s, i) <= s.len(),
        forall|k: int| i <= k < digits_end(s, i) ==> is_digit(#[trigger] s[k]),
    decreases s.len() - i,
{
    if i < s.len() && is_digit(s[i]) {
        lemma_digits_end(s, i + 1);
    }
}

/// Number literals hold digits, signs, a point and exponent letters only.
pub(crate) proof fn lemma_number_chars(t: Seq<char>)
    requires
        is_number_literal(t),
    ensures
        forall|k: int| 0 <= k < t.len() ==> plain(#[trigger] t[k]) && t[k] != ',' && t[k] != ':',
        t.len() > 0,
        t[0] == '-' || is_digit(t[0]),
{
    let a = if t.len() > 0 && t[0] == '-' { 1int } else { 0int };
    lemma_digits_end(t, a);
    let b = digits_end(t, a);
    if b < t.len() && t[b] == '.' {
        lemma_digits_end(t, b + 1);
    }
    let c = mantissa_end(t);
    if c < t.len() {
        let d = if c + 1 < t.len() && (t[c + 1] == '+' || t[c + 1] == '-') {
            c + 2
        } else {
            c + 1
        };
        lemma_digits_end(t, d);
    }
    assert forall|k: int| 0 <= k < t.len() implies plain(#[trigger] t[k]) && t[k] != ',' && t[k]
        != ':' by {
        if k < a {
        } else if k < b {
        } else if b < t.len() && t[b] == '.' && k == b {
        } else if k < c {
        } else if k == c {
        } else {
        }
    }
}

proof fn lemma_ser_closed(j: Json, d: int)
    requires
        round_trips(j),
        d >= 0,
    ensures
        closed_at(ser(j), d),
        no_top(ser(j), d),
        ser(j).len() > 0,
    decreases j, 0int,
{
    match j {
        Json::Null => {
            lemma_plain(ser(j), d);
        },
        Json::Bool(b) => {
            lemma_plain(ser(j), d);
        },
        Json::Number(t) => {
            lemma_number_chars(t);
            lemma_plain(t, d);
        },
        Json::Text(t) => {
            lemma_quoted(t, d);
        },
        Json::Array(xs) => {
            let parts = item_texts(xs);
            assert forall|i: int| 0 <= i < parts.len() implies closed_at(#[trigger] parts[i], d + 1)
                && no_top(parts[i], d + 1) by {
                lemma_ser_closed(xs[i], d + 1);
            }
            lemma_join_closed(parts, d + 1);
            lemma_wrap('[', join(parts), ']', d);
        },
        Json::Object(ms) => {
            let parts = member_texts(ms);
            assert forall|i: int| 0 <= i < parts.len() implies closed_at(#[trigger] parts[i], d + 1)
                && no_top(parts[i], d + 1) by {
                assert(decreases_to!(ms => ms[i]));
                assert(decreases_to!(ms[i] => ms[i].1));
                lemma_member_closed(ms[i].0, ms[i].1, d + 1);
            }
            lemma_join_closed(parts, d + 1);
            lemma_wrap('{', join(parts), '}', d);
        },
        Json::Invalid => {},
    }
}

proof fn lemma_member_closed(k: Seq<char>, v: Json, d: int)
    requires
        quote_safe(k, false),
        round_trips(v),
        d >= 0,
    ensures
        closed_at(member_text(k, ser(v)), d),
        d >= 1 ==> no_top(member_text(k, ser(v)), d),
    decreases v, 1int,
{
    lemma_quoted(k, d);
    lemma_sep(':', d);
    lemma_ser_closed(v, d);
    lemma_closed_concat(quoted(k), seq![':'], d);
    lemma_closed_concat(quoted(k) + seq![':'], ser(v), d);
}


proof fn lemma_keywords()
    ensures
        seq!['t', 'r', 'u', 'e'][0] == 't',
        seq!['f', 'a', 'l', 's', 'e'][0] == 'f',
        seq!['n', 'u', 'l', 'l'][0] == 'n',
        seq!['t', 'r', 'u', 'e'].len() == 4,
        seq!['f', 'a', 'l', 's', 'e'].len() == 5,
        seq!['n', 'u', 'l', 'l'].len() == 4,
{
}

proof fn lemma_parse_ser(j: Json)
    requires
        round_trips(j),
    ensures
        parse_tok(ser(j)) == j,
    decreases j, 0int,
{
    lemma_keywords();
    let s = ser(j);
    match j {
        Json::Null => {
            assert(s[0] == 'n');
            assert(s != seq!['t', 'r', 'u', 'e']);
            assert(s != seq!['f', 'a', 'l', 's', 'e']);
            assert(s =~= seq!['n', 'u', 'l', 'l']);
            assert(s.len() != 0);
            assert(!(s[0] == '{' || s[0] == '['));
            assert(s[0] != '"');
            assert(parse_tok(s) == Json::Null);
            assert(parse_tok(ser(j)) == j);
        },
        Json::Bool(b) => {
            if b {
                assert(s =~= seq!['t', 'r', 'u', 'e']);
            } else {
                assert(s[0] == 'f');
                assert(s != seq!['t', 'r', 'u', 'e']);
                assert(s =~= seq!['f', 'a', 'l', 's', 'e']);
            }
            assert(parse_tok(ser(j)) == j);
        },
        Json::Number(t) => {
            lemma_number_chars(t);
            assert(parse_tok(ser(j)) == j);
        },
        Json::Text(t) => {
            assert(s.subrange(1, s.len() - 1) =~= t);
            assert(parse_tok(ser(j)) == j);
        },
        Json::Array(xs) => {
            let parts = item_texts(xs);
            let body = join(parts);
            assert(s.subrange(1, s.len() - 1) =~= body);
            assert forall|i: int| 0 <= i < parts.len() implies closed_at(#[trigger] parts[i], 0) by {
                lemma_ser_closed(xs[i], 0);
            }
            lemma_join_closed_top(parts);
            assert(s[0] == '[');
            assert(s[s.len() - 1] == ']');
            assert(balanced(body));
            if xs.len() == 0 {
                assert(body =~= Seq::<char>::empty());
                assert(xs =~= Seq::<Json>::empty());
            } else {
                lemma_items(xs, Seq::empty());
                assert(Seq::<Json>::empty() + xs =~= xs);
                lemma_ser_closed(xs[0], 0);
                assert(parts[0] == ser(xs[0]));
                assert(body.len() != 0);
            }
            assert(parse_tok(ser(j)) == j);
        },
        Json::Object(ms) => {
            let parts = member_texts(ms);
            let body = join(parts);
            assert(s.subrange(1, s.len() - 1) =~= body);
            assert forall|i: int| 0 <= i < parts.len() implies closed_at(#[trigger] parts[i], 0) by {
                lemma_member_closed(ms[i].0, ms[i].1, 0);
            }
            lemma_join_closed_top(parts);
            if ms.len() == 0 {
                assert(body =~= Seq::<char>::empty());
                assert(ms =~= Seq::<(Seq<char>, Json)>::empty());
            } else {
                lemma_members(ms, Seq::empty());
                assert(Seq::<(Seq<char>, Json)>::empty() + ms =~= ms);
            }
            assert(parse_tok(ser(j)) == j);
        },
        Json::Invalid => {},
    }
}

/// The first part of a comma-joined list is read off up to the first top-level comma.
proof fn lemma_join_split(parts: Seq<Seq<char>>)
    requires
        parts.len() >= 2,
        first_top(parts[0], at_depth(0), ',') == parts[0].len(),
        closed_at(parts[0], 0),
    ensures
        ({
            let t = join(parts);
            let c = parts[0].len() as int;
            &&& first_top(t, scan_start(), ',') == c
            &&& t.subrange(0, c) == parts[0]
            &&& t.subrange(c + 1, t.len() as int) == join(parts.subrange(1, parts.len() as int))
        }),
{
    let rest = join(parts.subrange(1, parts.len() as int));
    let t = join(parts);
    assert(t =~= parts[0] + (seq![','] + rest));
    lemma_concat(parts[0], seq![','] + rest, at_depth(0), ',');
    lemma_tail(seq![','], rest);
    assert(t.subrange(0, parts[0].len() as int) =~= parts[0]);
    assert(t.subrange(parts[0].len() as int + 1, t.len() as int) =~= rest);
}

proof fn lemma_items(xs: Seq<Json>, acc: Seq<Json>)
    requires
        xs.len() >= 1,
        forall|i: int| 0 <= i < xs.len() ==> round_trips(#[trigger] xs[i]),
    ensures
        items_into(acc, join(item_texts(xs))) == Some(acc + xs),
    decreases xs, 0int,
{
    let parts = item_texts(xs);
    let t = join(parts);
    lemma_ser_closed(xs[0], 0);
    lemma_parse_ser(xs[0]);
    if xs.len() == 1 {
        assert(t == parts[0]);
        assert(acc.push(xs[0]) =~= acc + xs);
    } else {
        let rest = xs.subrange(1, xs.len() as int);
        assert(parts.subrange(1, parts.len() as int) =~= item_texts(rest));
        lemma_join_split(parts);
        lemma_items(rest, acc.push(xs[0]));
        assert(acc.push(xs[0]) + rest =~= acc + xs);
    }
}

proof fn lemma_parse_member(k: Seq<char>, v: Json)
    requires
        quote_safe(k, false),
        round_trips(v),
    ensures
        parse_member(member_text(k, ser(v))) == Some((k, v)),
    decreases v, 1int,
{
    let m = member_text(k, ser(v));
    let q = quoted(k);
    lemma_quoted(k, 0);
    lemma_parse_ser(v);
    assert(m =~= q + (seq![':'] + ser(v)));
    lemma_concat(q, seq![':'] + ser(v), at_depth(0), ':');
    lemma_tail(seq![':'], ser(v));
    let c = q.len() as int;
    assert(m.subrange(0, c) =~= q);
    assert(q.subrange(1, q.len() - 1) =~= k);
    assert(m.subrange(c + 1, m.len() as int) =~= ser(v));
    assert(m.subrange(1, c - 1) =~= k);
}

proof fn lemma_key_absent(ms: Seq<(Seq<char>, Json)>, k: Seq<char>)
    requires
        forall|i: int| 0 <= i < ms.len() ==> (#[trigger] ms[i]).0 != k,
    ensures
        key_pos(ms, k) == -1,
{
    if exists|i: int| first_with_key(ms, k, i) {
        let i = choose|i: int| first_with_key(ms, k, i);
        assert(ms[i].0 == k);
    }
}

proof fn lemma_members(ms: Seq<(Seq<char>, Json)>, acc: Seq<(Seq<char>, Json)>)
    requires
        ms.len() >= 1,
        keys_unique(ms),
        forall|i: int| 0 <= i < ms.len() ==> quote_safe(#[trigger] ms[i].0, false) && round_trips(ms[i].1),
        forall|i: int, j: int| 0 <= i < acc.len() && 0 <= j < ms.len() ==> acc[i].0 != ms[j].0,
    ensures
        members_into(acc, join(member_texts(ms))) == Some(acc + ms),
    decreases ms, 0int,
{
    let parts = member_texts(ms);
    let t = join(parts);
    let k0 = ms[0].0;
    let v0 = ms[0].1;
    assert(decreases_to!(ms => ms[0]));
    lemma_member_closed(k0, v0, 0);
    lemma_parse_member(k0, v0);
    assert(forall|i: int| 0 <= i < acc.len() ==> (#[trigger] acc[i]).0 != k0);
    lemma_key_absent(acc, k0);
    assert(put(acc, k0, v0) == acc.push((k0, v0)));
    assert(parts[0] == member_text(k0, ser(v0)));
    if ms.len() == 1 {
        assert(t == parts[0]);
        lemma_quoted(k0, 0);
        lemma_ser_closed(v0, 0);
        lemma_sep(':', 0);
        lemma_concat(quoted(k0), seq![':'], at_depth(0), ',');
        lemma_concat(quoted(k0) + seq![':'], ser(v0), at_depth(0), ',');
        assert(first_top(t, scan_start(), ',') == t.len());
        assert(acc.push((k0, v0)) =~= acc + ms);
    } else {
        let rest = ms.subrange(1, ms.len() as int);
        assert(parts.subrange(1, parts.len() as int) =~= member_texts(rest));
        lemma_quoted(k0, 0);
        lemma_ser_closed(v0, 0);
        lemma_sep(':', 0);
        lemma_concat(quoted(k0), seq![':'], at_depth(0), ',');
        lemma_concat(quoted(k0) + seq![':'], ser(v0), at_depth(0), ',');
        lemma_concat(quoted(k0), seq![':'], at_depth(0), ':');
        lemma_concat(quoted(k0) + seq![':'], ser(v0), at_depth(0), ':');
        lemma_join_split(parts);
        let acc2 = acc.push((k0, v0));
        assert forall|i: int, j: int| 0 <= i < acc2.len() && 0 <= j < rest.len() implies acc2[i].0
            != rest[j].0 by {
            assert(rest[j] == ms[j + 1]);
            if i < acc.len() {
                assert(acc2[i] == acc[i]);
            }
        }
        assert(forall|i: int| 0 <= i < rest.len() ==> rest[i] == ms[i + 1]);
        lemma_members(rest, acc2);
        assert(acc2 + rest =~= acc + ms);
    }
}


/// Objects whose keys are unique and safe to quote and whose values round-trip.
pub open spec fn members_ok(ms: Seq<(Seq<char>, Json)>) -> bool {
    &&& keys_unique(ms)
    &&& forall|i: int| 0 <= i < ms.len() ==> quote_safe(#[trigger] ms[i].0, false) && round_trips(ms[i].1)
}

proof fn lemma_put_ok(ms: Seq<(Seq<char>, Json)>, k: Seq<char>, v: Json)
    requires
        members_ok(ms),
        quote_safe(k, false),
        round_trips(v),
    ensures
        members_ok(put(ms, k, v)),
{
    let r = put(ms, k, v);
    if key_pos(ms, k) >= 0 {
        let p = key_pos(ms, k);
        assert(exists|i: int| first_with_key(ms, k, i));
        assert(first_with_key(ms, k, p));
        assert forall|i: int, j: int| 0 <= i < j < r.len() implies r[i].0 != r[j].0 by {
            assert(r[i].0 == ms[i].0);
            assert(r[j].0 == ms[j].0);
        }
    } else {
        assert forall|i: int| 0 <= i < ms.len() implies ms[i].0 != k by {
            if ms[i].0 == k {
                lemma_first_exists(ms, k, i);
            }
        }
        assert forall|i: int, j: int| 0 <= i < j < r.len() implies r[i].0 != r[j].0 by {
            assert(r[i] == ms[i]);
            if j < ms.len() {
                assert(r[j] == ms[j]);
            }
        }
    }
}

proof fn lemma_parse_result(s: Seq<char>)
    ensures
        parse_tok(s) is Invalid || round_trips(parse_tok(s)),
    decreases s.len(), 0int,
{
    if s.len() > 0 && (s[0] == '{' || s[0] == '[') && s.len() >= 2 {
        let body = s.subrange(1, s.len() - 1);
        if body.len() > 0 {
            if s[0] == '[' {
                lemma_items_result(Seq::empty(), body);
            } else {
                lemma_members_result(Seq::empty(), body);
            }
        } else {
            assert(keys_unique(Seq::<(Seq<char>, Json)>::empty()));
        }
    } else if s.len() > 0 && s[0] == '"' {
    }
}

proof fn lemma_member_result(m: Seq<char>)
    ensures
        parse_member(m) matches Some(kv) ==> quote_safe(kv.0, false) && round_trips(kv.1),
    decreases m.len(), 1int,
{
    let k = first_top(m, scan_start(), ':');
    if 0 <= k < m.len() && is_text_literal(m.subrange(0, k)) {
        lemma_parse_result(m.subrange(k + 1, m.len() as int));
        let key = m.subrange(0, k);
        assert(key.subrange(1, key.len() - 1) =~= m.subrange(1, k - 1));
    }
}

proof fn lemma_items_result(acc: Seq<Json>, t: Seq<char>)
    requires
        forall|i: int| 0 <= i < acc.len() ==> round_trips(#[trigger] acc[i]),
    ensures
        items_into(acc, t) matches Some(xs) ==> forall|i: int|
            0 <= i < xs.len() ==> round_trips(#[trigger] xs[i]),
    decreases t.len(), 2int,
{
    let c = first_top(t, scan_start(), ',');
    if 0 <= c < t.len() {
        let v = parse_tok(t.subrange(0, c));
        lemma_parse_result(t.subrange(0, c));
        if !(v is Invalid) {
            let acc2 = acc.push(v);
            assert(forall|i: int| 0 <= i < acc2.len() ==> round_trips(#[trigger] acc2[i]));
            lemma_items_result(acc2, t.subrange(c + 1, t.len() as int));
        }
    } else {
        lemma_parse_result(t);
        let v = parse_tok(t);
        let acc2 = acc.push(v);
        if !(v is Invalid) {
            assert(forall|i: int| 0 <= i < acc2.len() ==> round_trips(#[trigger] acc2[i]));
        }
    }
}

proof fn lemma_members_result(acc: Seq<(Seq<char>, Json)>, t: Seq<char>)
    requires
        members_ok(acc),
    ensures
        members_into(acc, t) matches Some(ms) ==> members_ok(ms),
    decreases t.len(), 2int,
{
    let c = first_top(t, scan_start(), ',');
    if 0 <= c < t.len() {
        lemma_member_result(t.subrange(0, c));
        if let Some(kv) = parse_member(t.subrange(0, c)) {
            lemma_put_ok(acc, kv.0, kv.1);
            lemma_members_result(put(acc, kv.0, kv.1), t.subrange(c + 1, t.len() as int));
        }
    } else {
        lemma_member_result(t);
        if let Some(kv) = parse_member(t) {
            lemma_put_ok(acc, kv.0, kv.1);
        }
    }
}

/// Writing a document out in compact form and reading the text back gives the same
/// document, whenever `round_trips` admits it.
pub proof fn lemma_round_trip(j: Json)
    requires
        round_trips(j),
    ensures
        parse_json(ser(j)) == j,
{
    lemma_ser_closed(j, 0);
    lemma_strip_tight(ser(j), scan_start());
    lemma_parse_ser(j);
}

/// What the parser gives is `Invalid` or a document that round-trips.
pub proof fn lemma_parse_round_trips(s: Seq<char>)
    ensures
        parse_json(s) is Invalid || round_trips(parse_json(s)),
{
    lemma_parse_result(strip(s, scan_start()));
}

/// Writing out and reading back a second time changes nothing: the document read from
/// the compact text of any document reads back as itself.
pub proof fn lemma_reparse_stable(j: Json)
    ensures
        parse_json(ser(parse_json(ser(j)))) == parse_json(ser(j)),
{
    let w = parse_json(ser(j));
    lemma_parse_round_trips(ser(j));
    if w is Invalid {
        let t = ser(w);
        assert(t == seq!['I', 'N', 'V', 'A', 'L', 'I', 'D']);
        lemma_plain(t, 0);
        lemma_strip_tight(t, scan_start());
        assert(t[0] == 'I');
        assert(digits_end(t, 0) == 0);
        assert(parse_tok(t) is Invalid);
    } else {
        lemma_round_trip(w);
    }
}


/// What a document must be to come back from its compact text: no `Invalid` node,
/// texts and keys whose quotes are all escaped and that do not end in a backslash, and
/// unique keys in each object. Numbers need nothing: every `Number` is a literal.
pub open spec fn writable(j: Json) -> bool
    decreases j,
{
    match j {
        Json::Invalid => false,
        Json::Null => true,
        Json::Bool(_) => true,
        Json::Number(_) => true,
        Json::Text(t) => quote_safe(t, false),
        Json::Object(ms) => keys_unique(ms) && forall|i: int|
            0 <= i < ms.len() ==> quote_safe(#[trigger] ms[i].0, false) && writable(ms[i].1),
        Json::Array(xs) => forall|i: int| 0 <= i < xs.len() ==> writable(#[trigger] xs[i]),
    }
}

proof fn lemma_writable_parts(j: Json)
    requires
        writable(j),
    ensures
        j is Object ==> forall|i: int|
            0 <= i < j->Object_0.len() ==> quote_safe(#[trigger] j->Object_0[i].0, false) && writable(
                j->Object_0[i].1,
            ),
        j is Array ==> forall|i: int| 0 <= i < j->Array_0.len() ==> writable(#[trigger] j->Array_0[i]),
{
}

pub(crate) proof fn lemma_value_round_trips(v: &Value)
    requires
        writable(v@),
    ensures
        round_trips(v@),
    decreases v,
{
    broadcast use vstd::std_specs::vec::axiom_vec_index_decreases;

    match v {
        Value::Number(n) => {
            lemma_number_literal(*n);
        },
        Value::Object(m) => {
            let ms = members_view(m@);
            assert(v@ == Json::Object(ms));
            assert forall|i: int| 0 <= i < ms.len() implies quote_safe(#[trigger] ms[i].0, false)
                && round_trips(ms[i].1) by {
                assert(decreases_to!(*v => v->Object_0));
                assert(decreases_to!(*m => m[i]));
                assert(decreases_to!(m[i] => m[i].1));
                assert(ms[i] == (m[i].0@, m[i].1@));
                lemma_writable_parts(v@);
                assert(quote_safe(ms[i].0, false) && writable(ms[i].1));
                lemma_value_round_trips(&m[i].1);
            }
        },
        Value::Array(a) => {
            let xs = items_view(a@);
            assert(v@ == Json::Array(xs));
            assert forall|i: int| 0 <= i < xs.len() implies round_trips(#[trigger] xs[i]) by {
                assert(decreases_to!(*v => v->Array_0));
                assert(decreases_to!(*a => a[i]));
                assert(xs[i] == a[i]@);
                lemma_writable_parts(v@);
                assert(writable(xs[i]));
                lemma_value_round_trips(&a[i]);
            }
        },
        _ => {},
    }
}

/// Writing a value out in compact form and reading the text back gives the same value,
/// whenever `writable` admits it.
pub proof fn lemma_value_round_trip(v: &Value)
    requires
        writable(v@),
    ensures
        parse_json(ser(v@)) == v@,
{
    lemma_value_round_trips(v);
    lemma_round_trip(v@);
}

} // verus!
