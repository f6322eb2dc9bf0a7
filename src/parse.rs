use vstd::prelude::*;
use crate::value::{Json, Value, Number, put, put_member, members_view, items_view};
use crate::text::{
    Scan, scan_start, first_top, step, balanced, strip, is_text_literal, is_number_literal,
    is_number_literal_exec, chars_of, string_of, remove_whitespace, find_top, is_balanced,
    is_text_literal_at, is_word_at, copy_range,
};

verus! {

pub open spec fn closer_of(c: char) -> char {
    if c == '{' {
        '}'
    } else {
        ']'
    }
}

/// The document that compact text (whitespace already stripped) denotes, or `Invalid`.
/// The first character picks the kind; containers must close with the matching
/// bracket and balance, and each part is read on its own.
pub open spec fn parse_tok(s: Seq<char>) -> Json
    decreases s.len(), 0int,
{
    if s.len() == 0 {
        Json::Invalid
    } else if s[0] == '{' || s[0] == '[' {
        if s.len() >= 2 && s[s.len() - 1] == closer_of(s[0]) && balanced(
            s.subrange(1, s.len() - 1),
        ) {
            let body = s.subrange(1, s.len() - 1);
            if s[0] == '[' {
                if body.len() == 0 {
                    Json::Array(Seq::empty())
                } else {
                    match items_into(Seq::empty(), body) {
                        Some(xs) => Json::Array(xs),
                        None => Json::Invalid,
                    }
                }
            } else {
                if body.len() == 0 {
                    Json::Object(Seq::empty())
                } else {
                    match members_into(Seq::empty(), body) {
                        Some(ms) => Json::Object(ms),
                        None => Json::Invalid,
                    }
                }
            }
        } else {
            Json::Invalid
        }
    } else if s[0] == '"' {
        if is_text_literal(s) {
            Json::Text(s.subrange(1, s.len() - 1))
        } else {
            Json::Invalid
        }
    } else if s == seq!['t', 'r', 'u', 'e'] {
        Json::Bool(true)
    } else if s == seq!['f', 'a', 'l', 's', 'e'] {
        Json::Bool(false)
    } else if s == seq!['n', 'u', 'l', 'l'] {
        Json::Null
    } else if is_number_literal(s) {
        Json::Number(s)
    } else {
        Json::Invalid
    }
}

/// A member `"key":value`, split at its first top-level colon.
pub open spec fn parse_member(m: Seq<char>) -> Option<(Seq<char>, Json)>
    decreases m.len(), 1int,
{
    let k = first_top(m, scan_start(), ':');
    if 0 <= k < m.len() && is_text_literal(m.subrange(0, k)) {
        let v = parse_tok(m.subrange(k + 1, m.len() as int));
        if v is Invalid {
            None
        } else {
            Some((m.subrange(1, k - 1), v))
        }
    } else {
        None
    }
}

/// The elements read from the comma-separated parts of `t`, after those in `acc`;
/// `None` when a part is not a valid document.
pub open spec fn items_into(acc: Seq<Json>, t: Seq<char>) -> Option<Seq<Json>>
    decreases t.len(), 2int,
{
    let c = first_top(t, scan_start(), ',');
    if 0 <= c < t.len() {
        let v = parse_tok(t.subrange(0, c));
        if v is Invalid {
            None
        } else {
            items_into(acc.push(v), t.subrange(c + 1, t.len() as int))
        }
    } else {
        let v = parse_tok(t);
        if v is Invalid {
            None
        } else {
            Some(acc.push(v))
        }
    }
}

/// The members read from the comma-separated parts of `t`, set in turn on `acc`;
/// `None` when a part is not a valid member.
pub open spec fn members_into(acc: Seq<(Seq<char>, Json)>, t: Seq<char>) -> Option<
    Seq<(Seq<char>, Json)>,
>
    decreases t.len(), 2int,
{
    let c = first_top(t, scan_start(), ',');
    if 0 <= c < t.len() {
        match parse_member(t.subrange(0, c)) {
            Some(kv) => members_into(put(acc, kv.0, kv.1), t.subrange(c + 1, t.len() as int)),
            None => None,
        }
    } else {
        match parse_member(t) {
            Some(kv) => Some(put(acc, kv.0, kv.1)),
            None => None,
        }
    }
}

/// The document that JSON text denotes: whitespace outside strings is dropped first.
pub open spec fn parse_json(s: Seq<char>) -> Json {
    parse_tok(strip(s, scan_start()))
}

pub proof fn lemma_first_top_bounds(s: Seq<char>, st: Scan, sep: char)
    ensures
        0 <= first_top(s, st, sep) <= s.len(),
        first_top(s, st, sep) < s.len() ==> s[first_top(s, st, sep)] == sep,
    decreases s.len(),
{
    if s.len() > 0 && !(s[0] == sep && !st.in_quote && st.depth == 0) {
        let rest = s.subrange(1, s.len() as int);
        lemma_first_top_bounds(rest, step(st, s[0]), sep);
        let r = first_top(rest, step(st, s[0]), sep);
        if r < rest.len() {
            assert(s[1 + r] == rest[r]);
        }
    }
}


/// Reads `s[lo..hi]` as one document.
fn parse_range(s: &Vec<char>, lo: usize, hi: usize) -> (r: Value)
    requires
        lo <= hi <= s@.len(),
    ensures
        r@ == parse_tok(s@.subrange(lo as int, hi as int)),
    decreases hi - lo, 0int,
{
    let ghost t = s@.subrange(lo as int, hi as int);
    if lo == hi {
        return Value::Invalid;
    }
    let c0 = s[lo];
    assert(t[0] == c0);
    if c0 == '{' || c0 == '[' {
        let closer = if c0 == '{' { '}' } else { ']' };
        if hi - lo < 2 || s[hi - 1] != closer || !is_balanced(s, lo + 1, hi - 1) {
            assert(hi - lo >= 2 ==> t.subrange(1, t.len() - 1) =~= s@.subrange(lo + 1, hi - 1));
            assert(hi - lo >= 2 ==> t[t.len() - 1] == s@[hi - 1]);
            return Value::Invalid;
        }
        assert(t.subrange(1, t.len() - 1) =~= s@.subrange(lo + 1, hi - 1));
        assert(t[t.len() - 1] == s@[hi - 1]);
        let b = lo + 1;
        let e = hi - 1;
        if c0 == '[' {
            if b == e {
                return Value::arr();
            }
            match parse_items_at(s, b, e) {
                Some(xs) => Value::Array(xs),
                None => Value::Invalid,
            }
        } else {
            if b == e {
                return Value::obj();
            }
            match parse_members_at(s, b, e) {
                Some(ms) => Value::Object(ms),
                None => Value::Invalid,
            }
        }
    } else if c0 == '"' {
        if is_text_literal_at(s, lo, hi) {
            let inner = copy_range(s, lo + 1, hi - 1);
            assert(inner@ =~= t.subrange(1, t.len() - 1));
            Value::Text(string_of(inner.as_slice()))
        } else {
            Value::Invalid
        }
    } else if is_word_at(s, lo, hi, &['t', 'r', 'u', 'e']) {
        Value::Bool(true)
    } else if is_word_at(s, lo, hi, &['f', 'a', 'l', 's', 'e']) {
        Value::Bool(false)
    } else if is_word_at(s, lo, hi, &['n', 'u', 'l', 'l']) {
        Value::Null
    } else {
        let lit = copy_range(s, lo, hi);
        if is_number_literal_exec(&lit) {
            Value::Number(Number::from_literal(lit.as_slice()))
        } else {
            Value::Invalid
        }
    }
}

/// Reads the elements of an array body `s[b..e]`.
fn parse_items_at(s: &Vec<char>, b: usize, e: usize) -> (r: Option<Vec<Value>>)
    requires
        b < e <= s@.len(),
    ensures
        match items_into(Seq::empty(), s@.subrange(b as int, e as int)) {
            Some(xs) => r is Some && items_view(r->0@) == xs,
            None => r is None,
        },
    decreases e - b, 1int,
{
    let mut out: Vec<Value> = Vec::new();
    let mut p: usize = b;
    assert(items_view(out@) =~= Seq::<Json>::empty());
    loop
        invariant
            b <= p <= e <= s@.len(),
            items_into(Seq::empty(), s@.subrange(b as int, e as int)) == items_into(
                items_view(out@),
                s@.subrange(p as int, e as int),
            ),
        decreases e - p,
    {
        let ghost t = s@.subrange(p as int, e as int);
        let ghost acc = items_view(out@);
        let c = find_top(s, p, e, ',');
        proof {
            lemma_first_top_bounds(t, scan_start(), ',');
        }
        assert(t.subrange(0, c - p) =~= s@.subrange(p as int, c as int));
        let v = parse_range(s, p, c);
        if v.is_invalid() {
            assert(c == e ==> t =~= s@.subrange(p as int, c as int));
            return None;
        }
        out.push(v);
        assert(items_view(out@) =~= acc.push(v@));
        if c == e {
            assert(t =~= s@.subrange(p as int, c as int));
            return Some(out);
        }
        assert(t.subrange(c - p + 1, t.len() as int) =~= s@.subrange(c + 1, e as int));
        p = c + 1;
    }
}

/// Reads the members of an object body `s[b..e]`.
fn parse_members_at(s: &Vec<char>, b: usize, e: usize) -> (r: Option<Vec<(String, Value)>>)
    requires
        b < e <= s@.len(),
    ensures
        match members_into(Seq::empty(), s@.subrange(b as int, e as int)) {
            Some(ms) => r is Some && members_view(r->0@) == ms,
            None => r is None,
        },
    decreases e - b, 1int,
{
    let mut out: Vec<(String, Value)> = Vec::new();
    let mut p: usize = b;
    assert(members_view(out@) =~= Seq::<(Seq<char>, Json)>::empty());
    loop
        invariant
            b <= p <= e <= s@.len(),
            members_into(Seq::empty(), s@.subrange(b as int, e as int)) == members_into(
                members_view(out@),
                s@.subrange(p as int, e as int),
            ),
        decreases e - p,
    {
        let ghost t = s@.subrange(p as int, e as int);
        let c = find_top(s, p, e, ',');
        proof {
            lemma_first_top_bounds(t, scan_start(), ',');
        }
        let ghost m = s@.subrange(p as int, c as int);
        assert(t.subrange(0, c - p) =~= m);
        assert(c == e ==> t =~= m);
        let k = find_top(s, p, c, ':');
        proof {
            lemma_first_top_bounds(m, scan_start(), ':');
        }
        if k >= c || !is_text_literal_at(s, p, k) {
            assert(k < c ==> m.subrange(0, k - p) =~= s@.subrange(p as int, k as int));
            assert(parse_member(m) is None);
            return None;
        }
        assert(m.subrange(0, k - p) =~= s@.subrange(p as int, k as int));
        assert(m.subrange(k - p + 1, m.len() as int) =~= s@.subrange(k + 1, c as int));
        let v = parse_range(s, k + 1, c);
        if v.is_invalid() {
            assert(parse_member(m) is None);
            return None;
        }
        let key_chars = copy_range(s, p + 1, k - 1);
        assert(key_chars@ =~= m.subrange(1, k - p - 1));
        let key = string_of(key_chars.as_slice());
        assert(parse_member(m) == Some((key@, v@)));
        put_member(&mut out, key, v);
        if c == e {
            return Some(out);
        }
        assert(t.subrange(c - p + 1, t.len() as int) =~= s@.subrange(c + 1, e as int));
        p = c + 1;
    }
}

/// Reads JSON text. Whitespace outside strings is dropped first; malformed text gives
/// `Invalid`, never a partial tree.
pub fn parse(text: &str) -> (r: Value)
    ensures
        r@ == parse_json(text@),
{
    let cs = chars_of(text);
    let s = remove_whitespace(&cs);
    assert(s@.subrange(0, s@.len() as int) =~= s@);
    parse_range(&s, 0, s.len())
}


/// Whether the text's first character outside whitespace is `c`.
pub open spec fn opens_with(text: Seq<char>, c: char) -> bool {
    let s = strip(text, scan_start());
    s.len() > 0 && s[0] == c
}

/// Reads any JSON document.
pub fn parse_value(text: &str) -> (r: Value)
    ensures
        r@ == parse_json(text@),
{
    parse(text)
}

/// Reads JSON text that must hold an object; anything else gives `Invalid`.
pub fn parse_object(text: &str) -> (r: Value)
    ensures
        r@ == (if opens_with(text@, '{') {
            parse_json(text@)
        } else {
            Json::Invalid
        }),
{
    parse_opening_with(text, '{')
}

/// Reads JSON text that must hold an array; anything else gives `Invalid`.
pub fn parse_array(text: &str) -> (r: Value)
    ensures
        r@ == (if opens_with(text@, '[') {
            parse_json(text@)
        } else {
            Json::Invalid
        }),
{
    parse_opening_with(text, '[')
}

fn parse_opening_with(text: &str, c: char) -> (r: Value)
    ensures
        r@ == (if opens_with(text@, c) {
            parse_json(text@)
        } else {
            Json::Invalid
        }),
{
    let cs = chars_of(text);
    let s = remove_whitespace(&cs);
    if s.len() > 0 && s[0] == c {
        assert(s@.subrange(0, s@.len() as int) =~= s@);
        parse_range(&s, 0, s.len())
    } else {
        Value::Invalid
    }
}

impl Value {
    /// Reads JSON text that must hold an object; anything else gives `Invalid`.
    pub fn from_str(input: &str) -> (r: Value)
        ensures
            r@ == (if opens_with(input@, '{') {
                parse_json(input@)
            } else {
                Json::Invalid
            }),
    {
        parse_object(input)
    }
}

} // verus!
