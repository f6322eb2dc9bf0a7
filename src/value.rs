use vstd::prelude::*;
use crate::text::{chars_of, string_of, is_number_literal_exec, is_number_literal, is_digit, digits_end};

verus! {

/// Mathematical model of a JSON document tree.
pub enum Json {
    Invalid,
    Null,
    Number(Seq<char>),
    Text(Seq<char>),
    Bool(bool),
    Object(Seq<(Seq<char>, Json)>),
    Array(Seq<Json>),
}

/// A number, kept as the decimal literal that denotes it.
pub struct Number {
    text: String,
}

impl Number {
    /// The text of every number is a number literal.
    #[verifier::type_invariant]
    spec fn is_literal(&self) -> bool {
        is_number_literal(self.text@)
    }
}

impl View for Number {
    type V = Seq<char>;

    /// The literal. The type invariant makes it the stored text; the other branch only
    /// lets the model of every number be a literal without reference to the invariant.
    closed spec fn view(&self) -> Seq<char> {
        if is_number_literal(self.text@) {
            self.text@
        } else {
            seq!['0']
        }
    }
}

/// The model of every number is a number literal.
pub proof fn lemma_number_literal(n: Number)
    ensures
        is_number_literal(n@),
{
    if !is_number_literal(n.text@) {
        let z = seq!['0'];
        assert(z.subrange(1, 1) =~= Seq::<char>::empty());
        assert(digits_end(z, 1) == 1);
        assert(digits_end(z, 0) == 1);
    }
}

/// A JSON document node. Object members keep their insertion order.
pub enum Value {
    Invalid,
    Null,
    Number(Number),
    Text(String),
    Bool(bool),
    Object(Vec<(String, Value)>),
    Array(Vec<Value>),
}

impl Number {
    /// The literal text of the number.
    pub fn as_str(&self) -> (r: &str)
        ensures
            r@ == self@,
    {
        proof {
            use_type_invariant(self);
        }
        self.text.as_str()
    }
}

/// The model of each member, in order.
pub open spec fn members_view(m: Seq<(String, Value)>) -> Seq<(Seq<char>, Json)>
    decreases m,
{
    Seq::new(
        m.len(),
        |i: int| if 0 <= i < m.len() { (m[i].0@, m[i].1.view()) } else { (Seq::empty(), Json::Null) },
    )
}

/// The model of each element, in order.
pub open spec fn items_view(a: Seq<Value>) -> Seq<Json>
    decreases a,
{
    Seq::new(a.len(), |i: int| if 0 <= i < a.len() { a[i].view() } else { Json::Null })
}

impl View for Value {
    type V = Json;

    open spec fn view(&self) -> Json
        decreases self,
    {
        match self {
            Value::Invalid => Json::Invalid,
            Value::Null => Json::Null,
            Value::Number(n) => Json::Number(n@),
            Value::Text(t) => Json::Text(t@),
            Value::Bool(b) => Json::Bool(*b),
            Value::Object(m) => Json::Object(members_view(m@)),
            Value::Array(a) => Json::Array(items_view(a@)),
        }
    }
}


/// Member `i` is the first with key `k`.
pub open spec fn first_with_key(ms: Seq<(Seq<char>, Json)>, k: Seq<char>, i: int) -> bool {
    &&& 0 <= i < ms.len()
    &&& ms[i].0 == k
    &&& forall|j: int| 0 <= j < i ==> ms[j].0 != k
}

/// Position of the first member with key `k`, or -1 when there is none.
pub open spec fn key_pos(ms: Seq<(Seq<char>, Json)>, k: Seq<char>) -> int {
    if exists|i: int| first_with_key(ms, k, i) {
        choose|i: int| first_with_key(ms, k, i)
    } else {
        -1
    }
}

pub proof fn lemma_first_exists(ms: Seq<(Seq<char>, Json)>, k: Seq<char>, j: int)
    requires
        0 <= j < ms.len(),
        ms[j].0 == k,
    ensures
        key_pos(ms, k) >= 0,
        first_with_key(ms, k, key_pos(ms, k)),
    decreases j,
{
    if exists|i: int| 0 <= i < j && ms[i].0 == k {
        let i = choose|i: int| 0 <= i < j && ms[i].0 == k;
        lemma_first_exists(ms, k, i);
    } else {
        assert(first_with_key(ms, k, j));
    }
}

/// The members after setting key `k` to `v`: the first member with that key takes the
/// new value in place, or a new member is added at the end.
pub open spec fn put(ms: Seq<(Seq<char>, Json)>, k: Seq<char>, v: Json) -> Seq<(Seq<char>, Json)> {
    if key_pos(ms, k) >= 0 {
        ms.update(key_pos(ms, k), (k, v))
    } else {
        ms.push((k, v))
    }
}

/// Keys of an object are unique.
pub open spec fn keys_unique(ms: Seq<(Seq<char>, Json)>) -> bool {
    forall|i: int, j: int| 0 <= i < j < ms.len() ==> ms[i].0 != ms[j].0
}

/// Reading by key: the value of that member of an object, else `Invalid`.
pub open spec fn get_key(j: Json, k: Seq<char>) -> Json {
    match j {
        Json::Object(ms) => if key_pos(ms, k) >= 0 {
            ms[key_pos(ms, k)].1
        } else {
            Json::Invalid
        },
        _ => Json::Invalid,
    }
}

/// Reading by position: that element of an array, else `Invalid`.
pub open spec fn get_index(j: Json, i: int) -> Json {
    match j {
        Json::Array(xs) => if 0 <= i < xs.len() {
            xs[i]
        } else {
            Json::Invalid
        },
        _ => Json::Invalid,
    }
}

/// Number of children of a container; a scalar has none.
pub open spec fn len_of(j: Json) -> nat {
    match j {
        Json::Object(ms) => ms.len(),
        Json::Array(xs) => xs.len(),
        _ => 0,
    }
}

pub open spec fn has_key(j: Json, k: Seq<char>) -> bool {
    match j {
        Json::Object(ms) => key_pos(ms, k) >= 0,
        _ => false,
    }
}

/// The members that a write by key starts from: those of an object, none for any
/// other kind, whose content the write discards.
pub open spec fn members_for_write(j: Json) -> Seq<(Seq<char>, Json)> {
    match j {
        Json::Object(ms) => ms,
        _ => Seq::empty(),
    }
}

/// The elements that a write at position `i` works on: those of an array (none for any
/// other kind), padded with `Null` up to and including position `i`.
pub open spec fn items_for_write(j: Json, i: int) -> Seq<Json> {
    let xs = match j {
        Json::Array(xs) => xs,
        _ => Seq::empty(),
    };
    if i < xs.len() {
        xs
    } else {
        xs + Seq::new((i + 1 - xs.len()) as nat, |k: int| Json::Null)
    }
}

pub open spec fn digit_char(d: int) -> char {
    if d == 0 { '0' } else if d == 1 { '1' } else if d == 2 { '2' } else if d == 3 { '3' }
    else if d == 4 { '4' } else if d == 5 { '5' } else if d == 6 { '6' } else if d == 7 { '7' }
    else if d == 8 { '8' } else { '9' }
}

/// Decimal digits of a natural number, most significant first.
pub open spec fn nat_text(n: nat) -> Seq<char>
    decreases n,
{
    if n < 10 {
        seq![digit_char(n as int)]
    } else {
        nat_text(n / 10).push(digit_char((n % 10) as int))
    }
}

/// Decimal text of an integer.
pub open spec fn int_text(n: int) -> Seq<char> {
    if n < 0 {
        seq!['-'] + nat_text((-n) as nat)
    } else {
        nat_text(n as nat)
    }
}

proof fn lemma_nat_text_digits(n: nat)
    ensures
        nat_text(n).len() >= 1,
        forall|k: int| 0 <= k < nat_text(n).len() ==> is_digit(#[trigger] nat_text(n)[k]),
    decreases n,
{
    if n >= 10 {
        lemma_nat_text_digits(n / 10);
    }
}

proof fn lemma_all_digits(s: Seq<char>, i: int)
    requires
        0 <= i <= s.len(),
        forall|k: int| i <= k < s.len() ==> is_digit(#[trigger] s[k]),
    ensures
        digits_end(s, i) == s.len(),
    decreases s.len() - i,
{
    if i < s.len() {
        lemma_all_digits(s, i + 1);
    }
}

/// The decimal text of an integer is a number literal.
pub proof fn lemma_int_text_literal(n: int)
    ensures
        is_number_literal(int_text(n)),
{
    let s = int_text(n);
    if n < 0 {
        let t = nat_text((-n) as nat);
        lemma_nat_text_digits((-n) as nat);
        assert(forall|k: int| 1 <= k < s.len() ==> s[k] == t[k - 1]);
        lemma_all_digits(s, 1);
    } else {
        lemma_nat_text_digits(n as nat);
        lemma_all_digits(s, 0);
    }
}

fn digit_of(d: u64) -> (c: char)
    requires
        d < 10,
    ensures
        c == digit_char(d as int),
{
    if d == 0 { '0' } else if d == 1 { '1' } else if d == 2 { '2' } else if d == 3 { '3' }
    else if d == 4 { '4' } else if d == 5 { '5' } else if d == 6 { '6' } else if d == 7 { '7' }
    else if d == 8 { '8' } else { '9' }
}

fn push_nat(out: &mut Vec<char>, n: u64)
    ensures
        final(out)@ == old(out)@ + nat_text(n as nat),
    decreases n,
{
    if n >= 10 {
        push_nat(out, n / 10);
    }
    out.push(digit_of(n % 10));
    assert(out@ =~= old(out)@ + nat_text(n as nat));
}

impl Number {
    /// A second number equal to this one.
    pub fn copy(&self) -> (r: Number)
        ensures
            r@ == self@,
    {
        proof {
            use_type_invariant(self);
        }
        Number::from_literal(chars_of(self.as_str()).as_slice())
    }

    /// The number that the literal denotes, where `text` is a decimal number literal.
    pub fn parse(text: &str) -> (r: Option<Number>)
        ensures
            r is Some <==> is_number_literal(text@),
            r matches Some(n) ==> n@ == text@,
    {
        let cs = chars_of(text);
        if is_number_literal_exec(&cs) {
            Some(Number { text: string_of(cs.as_slice()) })
        } else {
            None
        }
    }

    pub(crate) fn from_literal(cs: &[char]) -> (r: Number)
        requires
            is_number_literal(cs@),
        ensures
            r@ == cs@,
    {
        Number { text: string_of(cs) }
    }

    /// The number written in decimal.
    pub fn from_i64(n: i64) -> (r: Number)
        ensures
            r@ == int_text(n as int),
            is_number_literal(r@),
    {
        proof {
            lemma_int_text_literal(n as int);
        }
        let mut out: Vec<char> = Vec::new();
        if n < 0 {
            out.push('-');
            let m: u64 = (-(n as i128)) as u64;
            push_nat(&mut out, m);
        } else {
            push_nat(&mut out, n as u64);
        }
        assert(out@ =~= int_text(n as int));
        Number { text: string_of(out.as_slice()) }
    }
}


/// Position of the first member whose key is `k`, or `None`.
fn find_member(ms: &Vec<(String, Value)>, k: &String) -> (r: Option<usize>)
    ensures
        r matches Some(i) ==> key_pos(members_view(ms@), k@) == i as int,
        r is None ==> key_pos(members_view(ms@), k@) == -1,
        r matches Some(i) ==> i < ms@.len(),
{
    let ghost js = members_view(ms@);
    let mut i: usize = 0;
    while i < ms.len()
        invariant
            i <= ms@.len(),
            js == members_view(ms@),
            forall|j: int| 0 <= j < i ==> js[j].0 != k@,
        decreases ms@.len() - i,
    {
        if ms[i].0 == *k {
            assert(first_with_key(js, k@, i as int));
            let ghost p = key_pos(js, k@);
            assert(first_with_key(js, k@, p));
            assert(p == i as int) by {
                if p < i as int {
                    assert(js[p].0 != k@);
                } else if p > i as int {
                    assert(js[i as int].0 != k@);
                }
            }
            return Some(i);
        }
        i = i + 1;
    }
    assert(!exists|p: int| first_with_key(js, k@, p)) by {
        if exists|p: int| first_with_key(js, k@, p) {
            let p = choose|p: int| first_with_key(js, k@, p);
            assert(js[p].0 != k@);
        }
    }
    None
}

/// Sets key `k` among the members: the first member with that key takes `v` in place,
/// or the pair is added at the end.
pub(crate) fn put_member(ms: &mut Vec<(String, Value)>, k: String, v: Value)
    ensures
        members_view(final(ms)@) == put(members_view(old(ms)@), k@, v@),
{
    let ghost js = members_view(ms@);
    match find_member(ms, &k) {
        Some(i) => {
            ms.set(i, (k, v));
            assert(members_view(ms@) =~= put(js, k@, v@));
        },
        None => {
            ms.push((k, v));
            assert(members_view(ms@) =~= put(js, k@, v@));
        },
    }
}

/// A reference to the member with key `k`, added with an empty object as its value
/// when missing.
fn member_mut<'a>(ms: &'a mut Vec<(String, Value)>, k: &str) -> (r: &'a mut Value)
    ensures
        key_pos(members_view(old(ms)@), k@) >= 0 ==> {
            &&& r@ == members_view(old(ms)@)[key_pos(members_view(old(ms)@), k@)].1
            &&& members_view(final(ms)@) == members_view(old(ms)@).update(
                key_pos(members_view(old(ms)@), k@),
                (k@, final(r)@),
            )
        },
        key_pos(members_view(old(ms)@), k@) < 0 ==> {
            &&& r@ == Json::Object(Seq::empty())
            &&& members_view(final(ms)@) == members_view(old(ms)@).push((k@, final(r)@))
        },
{
    let key = k.to_owned();
    let ghost js = members_view(ms@);
    let found = find_member(ms, &key);
    let i = match found {
        Some(i) => i,
        None => {
            let fresh = Value::obj();
            ms.push((key, fresh));
            assert(members_view(ms@)[ms@.len() - 1] == (k@, Json::Object(Seq::empty()))) by {
                assert(members_view(ms@)[ms@.len() - 1] == (ms@[ms@.len() - 1].0@, ms@[ms@.len() - 1].1@));
            }
            ms.len() - 1
        },
    };
    let ghost mid = ms@;
    let slot = &mut ms[i];
    &mut slot.1
}

impl Value {
    /// A new empty object.
    pub fn obj() -> (r: Value)
        ensures
            r@ == Json::Object(Seq::empty()),
    {
        let v: Vec<(String, Value)> = Vec::new();
        assert(members_view(v@) =~= Seq::empty());
        let r = Value::Object(v);
        r
    }

    /// A new empty array.
    pub fn arr() -> (r: Value)
        ensures
            r@ == Json::Array(Seq::empty()),
    {
        let v: Vec<Value> = Vec::new();
        let r = Value::Array(v);
        assert(r@->Array_0 =~= Seq::empty());
        r
    }

    /// Number of children of an array or object; 0 for every other kind.
    pub fn len(&self) -> (r: usize)
        ensures
            r as nat == len_of(self@),
    {
        match self {
            Value::Array(x) => x.len(),
            Value::Object(x) => {
                assert(self@ == Json::Object(members_view(x@)));
                x.len()
            },
            _ => 0,
        }
    }

    /// Whether the value is an object with a member of that key.
    pub fn has(&self, key: &str) -> (r: bool)
        ensures
            r == has_key(self@, key@),
    {
        match self {
            Value::Object(x) => {
                assert(self@ == Json::Object(members_view(x@)));
                let k = key.to_owned();
                find_member(x, &k).is_some()
            },
            _ => false,
        }
    }

    /// Appends to an array; any other kind is left as it is.
    pub fn append(&mut self, val: Value)
        ensures
            old(self)@ is Array ==> final(self)@ == Json::Array(old(self)@->Array_0.push(val@)),
            !(old(self)@ is Array) ==> final(self)@ == old(self)@,
    {
        match self {
            Value::Array(x) => {
                let ghost before = x@;
                x.push(val);
                proof {
                    assert(final(self)@->Array_0 =~= old(self)@->Array_0.push(val@));
                }
            },
            _ => {},
        }
    }

    /// Sets a member of an object; any other kind is left as it is.
    pub fn add(&mut self, key: &str, val: Value)
        ensures
            old(self)@ is Object ==> final(self)@ == Json::Object(put(old(self)@->Object_0, key@, val@)),
            !(old(self)@ is Object) ==> final(self)@ == old(self)@,
    {
        match self {
            Value::Object(x) => {
                assert(old(self)@ == Json::Object(members_view(x@)));
                put_member(x, key.to_owned(), val);
            },
            _ => {},
        }
    }

    /// Reserves room for `n` more children of an array or object; the value is unchanged.
    pub fn pre_alloc(&mut self, n: usize)
        ensures
            final(self)@ == old(self)@,
    {
        match self {
            Value::Array(x) => {
                x.reserve(n);
            },
            Value::Object(x) => {
                x.reserve(n);
            },
            _ => {},
        }
    }

    pub fn as_ref(&self) -> (r: &Value)
        ensures
            r == self,
    {
        self
    }

    pub fn as_mut(&mut self) -> (r: &mut Value)
        ensures
            *r == *old(self),
            *final(self) == *final(r),
    {
        self
    }
}


/// A reference to element `i`, the vector first padded with `Null` up to it.
fn element_mut(xs: &mut Vec<Value>, i: usize) -> (r: &mut Value)
    ensures
        ({
            let ys = items_view(old(xs)@);
            let padded = if (i as int) < ys.len() {
                ys
            } else {
                ys + Seq::new((i + 1 - ys.len()) as nat, |k: int| Json::Null)
            };
            &&& r@ == padded[i as int]
            &&& items_view(final(xs)@) == padded.update(i as int, final(r)@)
        }),
{
    let ghost base = items_view(xs@);
    let ghost n0 = xs@.len();
    while xs.len() <= i
        invariant
            xs@.len() >= n0,
            xs@.len() <= i + 1 || xs@.len() == n0,
            forall|k: int| 0 <= k < n0 ==> xs@[k]@ == base[k],
            forall|k: int| n0 <= k < xs@.len() ==> xs@[k]@ == Json::Null,
        decreases i + 1 - xs@.len(),
    {
        xs.push(Value::Null);
    }
    let ghost full = items_view(xs@);
    assert(full =~= (if (i as int) < base.len() {
        base
    } else {
        base + Seq::new((i + 1 - base.len()) as nat, |k: int| Json::Null)
    }));
    &mut xs[i]
}

impl Value {
    /// The member with that key, or `Invalid` when the value is no object or has no
    /// such member.
    pub fn get(&self, key: &str) -> (r: &Value)
        ensures
            r@ == get_key(self@, key@),
    {
        match self {
            Value::Object(ms) => {
                assert(self@ == Json::Object(members_view(ms@)));
                let k = key.to_owned();
                match find_member(ms, &k) {
                    Some(i) => &ms[i].1,
                    None => &Value::Invalid,
                }
            },
            _ => &Value::Invalid,
        }
    }

    /// The element at that position, or `Invalid` when the value is no array or the
    /// position is out of range.
    pub fn at(&self, i: usize) -> (r: &Value)
        ensures
            r@ == get_index(self@, i as int),
    {
        match self {
            Value::Array(xs) => {
                if i < xs.len() {
                    &xs[i]
                } else {
                    &Value::Invalid
                }
            },
            _ => &Value::Invalid,
        }
    }

    /// The member with that key, for writing. A value of another kind first becomes an
    /// empty object, its content discarded; a missing member is added with an empty
    /// object as its value.
    pub fn get_mut(&mut self, key: &str) -> (r: &mut Value)
        ensures
            ({
                let ms = members_for_write(old(self)@);
                let p = key_pos(ms, key@);
                &&& p >= 0 ==> r@ == ms[p].1 && final(self)@ == Json::Object(
                    ms.update(p, (key@, final(r)@)),
                )
                &&& p < 0 ==> r@ == Json::Object(Seq::empty()) && final(self)@ == Json::Object(
                    ms.push((key@, final(r)@)),
                )
            }),
    {
        match self {
            Value::Object(_) => {},
            _ => {
                *self = Value::obj();
            },
        }
        match self {
            Value::Object(ms) => {
                assert(members_view(ms@) == members_for_write(old(self)@));
                member_mut(ms, key)
            },
            other => other,
        }
    }

    /// The element at that position, for writing. A value of another kind first becomes
    /// an empty array, its content discarded; an array shorter than the position is
    /// padded with `Null` up to it.
    pub fn at_mut(&mut self, i: usize) -> (r: &mut Value)
        ensures
            ({
                let xs = items_for_write(old(self)@, i as int);
                &&& r@ == xs[i as int]
                &&& final(self)@ == Json::Array(xs.update(i as int, final(r)@))
            }),
    {
        match self {
            Value::Array(_) => {},
            _ => {
                *self = Value::arr();
            },
        }
        match self {
            Value::Array(xs) => {
                assert(items_view(xs@) == match old(self)@ {
                    Json::Array(ys) => ys,
                    _ => Seq::empty(),
                });
                element_mut(xs, i)
            },
            other => other,
        }
    }
}


impl Value {
    /// A text value.
    pub fn from_text(t: &str) -> (r: Value)
        ensures
            r@ == Json::Text(t@),
    {
        Value::Text(t.to_owned())
    }

    /// A number value holding the integer.
    pub fn from_i64(n: i64) -> (r: Value)
        ensures
            r@ == Json::Number(int_text(n as int)),
    {
        Value::Number(Number::from_i64(n))
    }

    /// The text of a text value; empty for every other kind.
    pub fn as_text(&self) -> (r: String)
        ensures
            r@ == (match self@ {
                Json::Text(t) => t,
                _ => Seq::empty(),
            }),
    {
        match self {
            Value::Text(t) => t.clone(),
            _ => String::new(),
        }
    }

    /// The flag of a boolean value; false for every other kind.
    pub fn as_bool(&self) -> (r: bool)
        ensures
            r == (self@ == Json::Bool(true)),
    {
        match self {
            Value::Bool(b) => *b,
            _ => false,
        }
    }

    /// The number of a number value, or `None`.
    pub fn as_number(&self) -> (r: Option<&Number>)
        ensures
            r is Some <==> self@ is Number,
            r matches Some(n) ==> self@ == Json::Number(n@),
    {
        match self {
            Value::Number(n) => Some(n),
            _ => None,
        }
    }

    pub fn is_invalid(&self) -> (r: bool)
        ensures
            r == (self@ is Invalid),
    {
        match self {
            Value::Invalid => true,
            _ => false,
        }
    }

    pub fn is_null(&self) -> (r: bool)
        ensures
            r == (self@ is Null),
    {
        match self {
            Value::Null => true,
            _ => false,
        }
    }

    pub fn is_text(&self) -> (r: bool)
        ensures
            r == (self@ is Text),
    {
        match self {
            Value::Text(_) => true,
            _ => false,
        }
    }

    pub fn is_number(&self) -> (r: bool)
        ensures
            r == (self@ is Number),
    {
        match self {
            Value::Number(_) => true,
            _ => false,
        }
    }

    pub fn is_object(&self) -> (r: bool)
        ensures
            r == (self@ is Object),
    {
        match self {
            Value::Object(_) => true,
            _ => false,
        }
    }

    pub fn is_array(&self) -> (r: bool)
        ensures
            r == (self@ is Array),
    {
        match self {
            Value::Array(_) => true,
            _ => false,
        }
    }
}

} // verus!
