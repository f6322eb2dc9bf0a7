use vstd::prelude::*;
use vstd::std_specs::iter::IteratorSpec;

verus! {

/// The characters of a string slice, in order.
pub(crate) fn chars_of(s: &str) -> (r: Vec<char>)
    ensures
        r@ == s@,
{
    broadcast use vstd::string::axiom_spec_iter, vstd::string::next_postcondition;

    let mut it = s.chars();
    let mut out: Vec<char> = Vec::new();
    assert(out@ + it.remaining() =~= s@);
    loop
        invariant
            out@ + it.remaining() == s@,
            it.obeys_prophetic_iter_laws(),
            it.decrease() is Some,
        decreases it.decrease()->0,
    {
        match it.next() {
            Some(c) => {
                out.push(c);
                assert(out@ + it.remaining() =~= s@);
            },
            None => {
                assert(out@ =~= s@);
                return out;
            },
        }
    }
}

/// Relies on `String`'s `FromIterator<&char>`, through `collect`: a string made of the
/// given characters, in order.
#[verifier::external_body]
pub(crate) fn string_of(cs: &[char]) -> (r: String)
    ensures
        r@ == cs@,
{
    cs.iter().collect()
}

/// The characters that Unicode classes as White_Space.
pub open spec fn is_ws(c: char) -> bool {
    let u = c as u32;
    (0x9 <= u && u <= 0xd) || u == 0x20 || u == 0x85 || u == 0xa0 || u == 0x1680 || (0x2000 <= u
        && u <= 0x200a) || u == 0x2028 || u == 0x2029 || u == 0x202f || u == 0x205f || u == 0x3000
}

/// Whether `c` is whitespace in the sense of `char::is_whitespace`.
pub fn is_whitespace(c: char) -> (r: bool)
    ensures
        r == is_ws(c),
{
    let u = c as u32;
    (0x9 <= u && u <= 0xd) || u == 0x20 || u == 0x85 || u == 0xa0 || u == 0x1680 || (0x2000 <= u
        && u <= 0x200a) || u == 0x2028 || u == 0x2029 || u == 0x202f || u == 0x205f || u == 0x3000
}

pub open spec fn is_opener(c: char) -> bool {
    c == '{' || c == '['
}

pub open spec fn is_closer(c: char) -> bool {
    c == '}' || c == ']'
}

/// What a left-to-right scan of JSON text knows at a position: whether it is inside a
/// quoted string, whether the previous character was a backslash, and the combined
/// object and array nesting depth.
pub struct Scan {
    pub in_quote: bool,
    pub escaped: bool,
    pub depth: int,
}

pub open spec fn scan_start() -> Scan {
    Scan { in_quote: false, escaped: false, depth: 0 }
}

/// The scan after one more character. A quote toggles the quoting state unless a
/// backslash comes right before it; brackets count only outside quotes.
pub open spec fn step(st: Scan, c: char) -> Scan {
    if c == '"' {
        Scan { in_quote: if st.escaped { st.in_quote } else { !st.in_quote }, escaped: false, ..st }
    } else if !st.in_quote && is_opener(c) {
        Scan { escaped: false, depth: st.depth + 1, ..st }
    } else if !st.in_quote && is_closer(c) {
        Scan { escaped: false, depth: st.depth - 1, ..st }
    } else {
        Scan { escaped: c == '\\', ..st }
    }
}

/// The scan state after all of `s`.
pub open spec fn run(s: Seq<char>, st: Scan) -> Scan
    decreases s.len(),
{
    if s.len() == 0 {
        st
    } else {
        run(s.subrange(1, s.len() as int), step(st, s[0]))
    }
}

/// `s` without the whitespace that stands outside quotes. A dropped character leaves
/// the scan state as it was.
pub open spec fn strip(s: Seq<char>, st: Scan) -> Seq<char>
    decreases s.len(),
{
    if s.len() == 0 {
        Seq::empty()
    } else if is_ws(s[0]) && !st.in_quote {
        strip(s.subrange(1, s.len() as int), st)
    } else {
        seq![s[0]] + strip(s.subrange(1, s.len() as int), step(st, s[0]))
    }
}

/// Position of the first `sep` outside quotes at depth zero, or `s.len()` when there is none.
pub open spec fn first_top(s: Seq<char>, st: Scan, sep: char) -> int
    decreases s.len(),
{
    if s.len() == 0 {
        0
    } else if s[0] == sep && !st.in_quote && st.depth == 0 {
        0
    } else {
        1 + first_top(s.subrange(1, s.len() as int), step(st, s[0]), sep)
    }
}

/// Whether a closing bracket outside quotes comes at depth zero or below.
pub open spec fn dips(s: Seq<char>, st: Scan) -> bool
    decreases s.len(),
{
    if s.len() == 0 {
        false
    } else if !st.in_quote && is_closer(s[0]) && st.depth <= 0 {
        true
    } else {
        dips(s.subrange(1, s.len() as int), step(st, s[0]))
    }
}

/// Brackets balance and every quote is closed.
pub open spec fn balanced(s: Seq<char>) -> bool {
    &&& !dips(s, scan_start())
    &&& !run(s, scan_start()).in_quote
    &&& run(s, scan_start()).depth == 0
}

/// Text that may stand between two quotes: each quote in it comes right after a
/// backslash, and it does not end in a backslash. `escaped` tells whether a backslash
/// came just before.
pub open spec fn quote_safe(t: Seq<char>, escaped: bool) -> bool
    decreases t.len(),
{
    if t.len() == 0 {
        !escaped
    } else {
        (t[0] == '"' ==> escaped) && quote_safe(t.subrange(1, t.len() as int), t[0] == '\\')
    }
}

/// A quoted string literal.
pub open spec fn is_text_literal(s: Seq<char>) -> bool {
    &&& s.len() >= 2
    &&& s[0] == '"'
    &&& s[s.len() - 1] == '"'
    &&& quote_safe(s.subrange(1, s.len() - 1), false)
}

pub open spec fn is_digit(c: char) -> bool {
    '0' <= c && c <= '9'
}

/// The first position at or after `i` that holds no decimal digit.
pub open spec fn digits_end(s: Seq<char>, i: int) -> int
    decreases s.len() - i,
{
    if 0 <= i < s.len() && is_digit(s[i]) {
        digits_end(s, i + 1)
    } else {
        i
    }
}

/// Where the exponent part of a number literal would start.
pub open spec fn mantissa_end(s: Seq<char>) -> int {
    let a = if s.len() > 0 && s[0] == '-' { 1int } else { 0int };
    let b = digits_end(s, a);
    if b < s.len() && s[b] == '.' {
        digits_end(s, b + 1)
    } else {
        b
    }
}

/// Whether the mantissa of a literal holds at least one digit, before or after the point.
pub open spec fn mantissa_has_digit(s: Seq<char>) -> bool {
    let a = if s.len() > 0 && s[0] == '-' { 1int } else { 0int };
    let b = digits_end(s, a);
    b > a || (b < s.len() && s[b] == '.' && mantissa_end(s) > b + 1)
}

/// A decimal number literal, starting with a digit or a minus sign: an optional minus
/// sign, a mantissa of digits with an optional point and at least one digit, and an
/// optional exponent with one or more digits.
pub open spec fn is_number_literal(s: Seq<char>) -> bool {
    let c = mantissa_end(s);
    &&& s.len() > 0
    &&& (s[0] == '-' || is_digit(s[0]))
    &&& mantissa_has_digit(s)
    &&& (c == s.len() || ((s[c] == 'e' || s[c] == 'E') && {
        let d = if c + 1 < s.len() && (s[c + 1] == '+' || s[c + 1] == '-') {
            c + 2
        } else {
            c + 1
        };
        digits_end(s, d) > d && digits_end(s, d) == s.len()
    }))
}

fn digits_end_exec(s: &Vec<char>, i: usize) -> (r: usize)
    requires
        i <= s@.len(),
    ensures
        r as int == digits_end(s@, i as int),
        i <= r <= s@.len(),
{
    let mut k = i;
    while k < s.len() && '0' <= s[k] && s[k] <= '9'
        invariant
            i <= k <= s@.len(),
            digits_end(s@, k as int) == digits_end(s@, i as int),
        decreases s@.len() - k,
    {
        k = k + 1;
    }
    k
}

pub(crate) fn is_number_literal_exec(s: &Vec<char>) -> (r: bool)
    ensures
        r == is_number_literal(s@),
{
    if s.len() == 0 || !(s[0] == '-' || ('0' <= s[0] && s[0] <= '9')) {
        return false;
    }
    let a: usize = if s[0] == '-' { 1 } else { 0 };
    let b = digits_end_exec(s, a);
    let point = b < s.len() && s[b] == '.';
    let c = if point { digits_end_exec(s, b + 1) } else { b };
    assert(c as int == mantissa_end(s@));
    if !(b > a || (point && c > b + 1)) {
        return false;
    }
    if c == s.len() {
        return true;
    }
    if s[c] != 'e' && s[c] != 'E' {
        return false;
    }
    let d = if c + 1 < s.len() && (s[c + 1] == '+' || s[c + 1] == '-') { c + 2 } else { c + 1 };
    let e = digits_end_exec(s, d);
    e > d && e == s.len()
}


/// Scan state at run time: the depth is the count of opening brackets less the count
/// of closing ones.
pub(crate) struct Scanner {
    pub(crate) in_quote: bool,
    pub(crate) escaped: bool,
    pub(crate) opens: usize,
    pub(crate) closes: usize,
}

impl Scanner {
    pub(crate) open spec fn state(&self) -> Scan {
        Scan {
            in_quote: self.in_quote,
            escaped: self.escaped,
            depth: self.opens as int - self.closes as int,
        }
    }

    pub(crate) fn new() -> (r: Scanner)
        ensures
            r.state() == scan_start(),
            r.opens == 0,
            r.closes == 0,
    {
        Scanner { in_quote: false, escaped: false, opens: 0, closes: 0 }
    }

    pub(crate) fn at_top(&self) -> (r: bool)
        ensures
            r == (!self.state().in_quote && self.state().depth == 0),
    {
        !self.in_quote && self.opens == self.closes
    }

    pub(crate) fn advance(&mut self, c: char)
        requires
            old(self).opens < usize::MAX,
            old(self).closes < usize::MAX,
        ensures
            final(self).state() == step(old(self).state(), c),
            final(self).opens <= old(self).opens + 1,
            final(self).closes <= old(self).closes + 1,
    {
        if c == '"' {
            if !self.escaped {
                self.in_quote = !self.in_quote;
            }
            self.escaped = false;
        } else if !self.in_quote && (c == '{' || c == '[') {
            self.opens = self.opens + 1;
            self.escaped = false;
        } else if !self.in_quote && (c == '}' || c == ']') {
            self.closes = self.closes + 1;
            self.escaped = false;
        } else {
            self.escaped = c == '\\';
        }
    }
}

/// `cs` without the whitespace that stands outside quotes.
pub fn remove_whitespace(cs: &Vec<char>) -> (r: Vec<char>)
    ensures
        r@ == strip(cs@, scan_start()),
{
    let mut out: Vec<char> = Vec::new();
    let mut sc = Scanner::new();
    let n = cs.len();
    let mut j: usize = 0;
    assert(cs@.subrange(0, n as int) =~= cs@);
    assert(out@ + strip(cs@, scan_start()) =~= strip(cs@, scan_start()));
    while j < n
        invariant
            n == cs@.len(),
            j <= n,
            sc.opens <= j,
            sc.closes <= j,
            out@ + strip(cs@.subrange(j as int, n as int), sc.state()) == strip(cs@, scan_start()),
        decreases n - j,
    {
        let c = cs[j];
        let ghost st = sc.state();
        let ghost rest = cs@.subrange(j as int, n as int);
        assert(rest.subrange(1, rest.len() as int) =~= cs@.subrange(j + 1, n as int));
        if is_whitespace(c) && !sc.in_quote {
        } else {
            out.push(c);
            sc.advance(c);
            assert(out@ + strip(cs@.subrange(j + 1, n as int), sc.state()) =~= out@.subrange(
                0,
                out@.len() - 1,
            ) + (seq![c] + strip(cs@.subrange(j + 1, n as int), sc.state())));
        }
        j = j + 1;
    }
    assert(cs@.subrange(n as int, n as int) =~= Seq::<char>::empty());
    assert(out@ + Seq::<char>::empty() =~= out@);
    out
}


/// Absolute position of the first `sep` at top level within `s[lo..hi]`, or `hi`.
pub(crate) fn find_top(s: &Vec<char>, lo: usize, hi: usize, sep: char) -> (r: usize)
    requires
        lo <= hi <= s@.len(),
    ensures
        lo <= r <= hi,
        r - lo == first_top(s@.subrange(lo as int, hi as int), scan_start(), sep),
{
    let mut sc = Scanner::new();
    let mut j: usize = lo;
    while j < hi
        invariant
            lo <= j <= hi <= s@.len(),
            sc.opens <= j - lo,
            sc.closes <= j - lo,
            first_top(s@.subrange(lo as int, hi as int), scan_start(), sep) == (j - lo)
                + first_top(s@.subrange(j as int, hi as int), sc.state(), sep),
        decreases hi - j,
    {
        let c = s[j];
        let ghost rest = s@.subrange(j as int, hi as int);
        assert(rest.subrange(1, rest.len() as int) =~= s@.subrange(j + 1, hi as int));
        if c == sep && sc.at_top() {
            return j;
        }
        sc.advance(c);
        j = j + 1;
    }
    j
}

/// Whether `s[lo..hi]` is balanced.
pub(crate) fn is_balanced(s: &Vec<char>, lo: usize, hi: usize) -> (r: bool)
    requires
        lo <= hi <= s@.len(),
    ensures
        r == balanced(s@.subrange(lo as int, hi as int)),
{
    let ghost t = s@.subrange(lo as int, hi as int);
    let mut sc = Scanner::new();
    let mut j: usize = lo;
    while j < hi
        invariant
            lo <= j <= hi <= s@.len(),
            t == s@.subrange(lo as int, hi as int),
            sc.opens <= j - lo,
            sc.closes <= j - lo,
            dips(t, scan_start()) == dips(s@.subrange(j as int, hi as int), sc.state()),
            run(t, scan_start()) == run(s@.subrange(j as int, hi as int), sc.state()),
        decreases hi - j,
    {
        let c = s[j];
        let ghost rest = s@.subrange(j as int, hi as int);
        assert(rest.subrange(1, rest.len() as int) =~= s@.subrange(j + 1, hi as int));
        if !sc.in_quote && (c == '}' || c == ']') && sc.opens <= sc.closes {
            return false;
        }
        sc.advance(c);
        j = j + 1;
    }
    !sc.in_quote && sc.opens == sc.closes
}

/// Whether `s[lo..hi]` is a quoted string literal.
pub(crate) fn is_text_literal_at(s: &Vec<char>, lo: usize, hi: usize) -> (r: bool)
    requires
        lo <= hi <= s@.len(),
    ensures
        r == is_text_literal(s@.subrange(lo as int, hi as int)),
{
    if hi - lo < 2 || s[lo] != '"' || s[hi - 1] != '"' {
        return false;
    }
    let ghost t = s@.subrange(lo as int, hi as int);
    let ghost inner = t.subrange(1, t.len() - 1);
    assert(inner =~= s@.subrange(lo + 1, hi - 1));
    let e = hi - 1;
    let mut escaped = false;
    let mut j: usize = lo + 1;
    while j < e
        invariant
            lo + 1 <= j <= e,
            e == hi - 1,
            hi <= s@.len(),
            inner == s@.subrange(lo + 1, hi - 1),
            t == s@.subrange(lo as int, hi as int),
            inner == t.subrange(1, t.len() - 1),
            quote_safe(inner, false) == quote_safe(s@.subrange(j as int, e as int), escaped),
        decreases e - j,
    {
        let c = s[j];
        let ghost rest = s@.subrange(j as int, e as int);
        assert(rest.subrange(1, rest.len() as int) =~= s@.subrange(j + 1, e as int));
        assert(rest[0] == c);
        if c == '"' && !escaped {
            assert(!quote_safe(rest, escaped));
            return false;
        }
        escaped = c == '\\';
        j = j + 1;
    }
    !escaped
}

/// Whether `s[lo..hi]` is the word `w`.
pub(crate) fn is_word_at(s: &Vec<char>, lo: usize, hi: usize, w: &[char]) -> (r: bool)
    requires
        lo <= hi <= s@.len(),
    ensures
        r == (s@.subrange(lo as int, hi as int) == w@),
{
    if hi - lo != w.len() {
        return false;
    }
    let mut j: usize = 0;
    while j < w.len()
        invariant
            hi - lo == w@.len(),
            lo <= hi <= s@.len(),
            j <= w@.len(),
            forall|k: int| 0 <= k < j ==> s@[lo + k] == w@[k],
        decreases w@.len() - j,
    {
        if s[lo + j] != w[j] {
            assert(s@.subrange(lo as int, hi as int)[j as int] != w@[j as int]);
            return false;
        }
        j = j + 1;
    }
    assert(s@.subrange(lo as int, hi as int) =~= w@);
    true
}

/// A copy of `s[lo..hi]`.
pub(crate) fn copy_range(s: &Vec<char>, lo: usize, hi: usize) -> (r: Vec<char>)
    requires
        lo <= hi <= s@.len(),
    ensures
        r@ == s@.subrange(lo as int, hi as int),
{
    let mut out: Vec<char> = Vec::new();
    let mut j: usize = lo;
    while j < hi
        invariant
            lo <= j <= hi <= s@.len(),
            out@ == s@.subrange(lo as int, j as int),
        decreases hi - j,
    {
        out.push(s[j]);
        j = j + 1;
        assert(out@ =~= s@.subrange(lo as int, j as int));
    }
    out
}

} // verus!
