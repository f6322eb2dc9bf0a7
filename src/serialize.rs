use vstd::prelude::*;
use crate::value::{Json, Value, members_view};
use crate::text::{chars_of, string_of};

verus! {

/// The texts joined with a comma between each two.
pub open spec fn join(parts: Seq<Seq<char>>) -> Seq<char>
    decreases parts.len(),
{
    if parts.len() == 0 {
        Seq::empty()
    } else if parts.len() == 1 {
        parts[0]
    } else {
        parts[0] + seq![','] + join(parts.subrange(1, parts.len() as int))
    }
}

pub open spec fn quoted(t: Seq<char>) -> Seq<char> {
    seq!['"'] + t + seq!['"']
}

pub open spec fn member_text(key: Seq<char>, value_text: Seq<char>) -> Seq<char> {
    quoted(key) + seq![':'] + value_text
}

/// Compact text of each element, in order.
pub open spec fn item_texts(xs: Seq<Json>) -> Seq<Seq<char>>
    decreases xs,
{
    Seq::new(xs.len(), |i: int| if 0 <= i < xs.len() { ser(xs[i]) } else { Seq::empty() })
}

/// Compact text of each member, in order.
pub open spec fn member_texts(ms: Seq<(Seq<char>, Json)>) -> Seq<Seq<char>>
    decreases ms,
{
    Seq::new(
        ms.len(),
        |i: int|
            if 0 <= i < ms.len() {
                member_text(ms[i].0, ser(ms[i].1))
            } else {
                Seq::empty()
            },
    )
}

/// The compact text of a document: no whitespace outside strings, strings copied
/// between quotes as they are, members and elements in order.
pub open spec fn ser(j: Json) -> Seq<char>
    decreases j,
{
    match j {
        Json::Invalid => seq!['I', 'N', 'V', 'A', 'L', 'I', 'D'],
        Json::Null => seq!['n', 'u', 'l', 'l'],
        Json::Number(t) => t,
        Json::Text(t) => quoted(t),
        Json::Bool(b) => if b {
            seq!['t', 'r', 'u', 'e']
        } else {
            seq!['f', 'a', 'l', 's', 'e']
        },
        Json::Object(ms) => seq!['{'] + join(member_texts(ms)) + seq!['}'],
        Json::Array(xs) => seq!['['] + join(item_texts(xs)) + seq![']'],
    }
}

pub proof fn lemma_join_push(parts: Seq<Seq<char>>, p: Seq<char>)
    requires
        parts.len() >= 1,
    ensures
        join(parts.push(p)) == join(parts) + seq![','] + p,
    decreases parts.len(),
{
    let q = parts.push(p);
    if parts.len() == 1 {
        assert(q.subrange(1, q.len() as int) =~= seq![p]);
        assert(join(seq![p]) == p);
    } else {
        let rest = parts.subrange(1, parts.len() as int);
        lemma_join_push(rest, p);
        assert(q.subrange(1, q.len() as int) =~= rest.push(p));
        assert(join(q) =~= join(parts) + seq![','] + p);
    }
}

pub(crate) fn push_all(out: &mut Vec<char>, cs: &[char])
    ensures
        final(out)@ == old(out)@ + cs@,
{
    let mut i: usize = 0;
    while i < cs.len()
        invariant
            i <= cs@.len(),
            out@ == old(out)@ + cs@.subrange(0, i as int),
        decreases cs@.len() - i,
    {
        out.push(cs[i]);
        i = i + 1;
        assert(out@ =~= old(out)@ + cs@.subrange(0, i as int));
    }
    assert(cs@.subrange(0, i as int) =~= cs@);
}

pub(crate) fn push_quoted(out: &mut Vec<char>, s: &String)
    ensures
        final(out)@ == old(out)@ + quoted(s@),
{
    out.push('"');
    let cs = chars_of(s.as_str());
    push_all(out, cs.as_slice());
    out.push('"');
    assert(out@ =~= old(out)@ + quoted(s@));
}

fn write_value(v: &Value, out: &mut Vec<char>)
    ensures
        final(out)@ == old(out)@ + ser(v@),
    decreases v,
{
    match v {
        Value::Invalid => {
            push_all(out, &['I', 'N', 'V', 'A', 'L', 'I', 'D']);
            assert(out@ =~= old(out)@ + ser(v@));
        },
        Value::Null => {
            push_all(out, &['n', 'u', 'l', 'l']);
            assert(out@ =~= old(out)@ + ser(v@));
        },
        Value::Number(n) => {
            let cs = chars_of(n.as_str());
            push_all(out, cs.as_slice());
        },
        Value::Text(t) => {
            push_quoted(out, t);
        },
        Value::Bool(b) => {
            if *b {
                push_all(out, &['t', 'r', 'u', 'e']);
            } else {
                push_all(out, &['f', 'a', 'l', 's', 'e']);
            }
            assert(out@ =~= old(out)@ + ser(v@));
        },
        Value::Object(ms) => {
            let ghost js = v@->Object_0;
            assert(js == members_view(ms@));
            out.push('{');
            let ghost start = out@;
            let mut i: usize = 0;
            while i < ms.len()
                invariant
                    i <= ms@.len(),
                    *v == Value::Object(*ms),
                    js.len() == ms@.len(),
                    forall|k: int| 0 <= k < ms@.len() ==> js[k] == (ms@[k].0@, ms@[k].1@),
                    out@ == start + join(member_texts(js).subrange(0, i as int)),
                decreases ms@.len() - i,
            {
                let ghost before = out@;
                if i > 0 {
                    out.push(',');
                }
                push_quoted(out, &ms[i].0);
                out.push(':');
                proof {
                    assert(decreases_to!(*v => ms[i as int].1)) by {
                        broadcast use vstd::std_specs::vec::axiom_vec_index_decreases;
                        assert(decreases_to!(*v => v->Object_0));
                        assert(decreases_to!(*ms => ms[i as int]));
                        assert(decreases_to!(ms[i as int] => ms[i as int].1));
                    }
                }
                write_value(&ms[i].1, out);
                proof {
                    let texts = member_texts(js);
                    assert(texts.subrange(0, i + 1) =~= texts.subrange(0, i as int).push(texts[i as int]));
                    if i > 0 {
                        lemma_join_push(texts.subrange(0, i as int), texts[i as int]);
                    } else {
                        assert(texts.subrange(0, 1) =~= seq![texts[0]]);
                    }
                    assert(out@ =~= start + join(texts.subrange(0, i + 1)));
                }
                i = i + 1;
            }
            out.push('}');
            assert(member_texts(js).subrange(0, i as int) =~= member_texts(js));
            assert(out@ =~= old(out)@ + ser(v@));
        },
        Value::Array(xs) => {
            let ghost js = v@->Array_0;
            out.push('[');
            let ghost start = out@;
            let mut i: usize = 0;
            while i < xs.len()
                invariant
                    i <= xs@.len(),
                    *v == Value::Array(*xs),
                    js.len() == xs@.len(),
                    forall|k: int| 0 <= k < xs@.len() ==> js[k] == xs@[k]@,
                    out@ == start + join(item_texts(js).subrange(0, i as int)),
                decreases xs@.len() - i,
            {
                if i > 0 {
                    out.push(',');
                }
                proof {
                    assert(decreases_to!(*v => xs[i as int])) by {
                        broadcast use vstd::std_specs::vec::axiom_vec_index_decreases;
                        assert(decreases_to!(*v => v->Array_0));
                        assert(decreases_to!(*xs => xs[i as int]));
                    }
                }
                write_value(&xs[i], out);
                proof {
                    let texts = item_texts(js);
                    assert(texts.subrange(0, i + 1) =~= texts.subrange(0, i as int).push(texts[i as int]));
                    if i > 0 {
                        lemma_join_push(texts.subrange(0, i as int), texts[i as int]);
                    } else {
                        assert(texts.subrange(0, 1) =~= seq![texts[0]]);
                    }
                    assert(out@ =~= start + join(texts.subrange(0, i + 1)));
                }
                i = i + 1;
            }
            out.push(']');
            assert(item_texts(js).subrange(0, i as int) =~= item_texts(js));
            assert(out@ =~= old(out)@ + ser(v@));
        },
    }
}

impl Value {
    /// The compact text of the document.
    pub fn to_string(&self) -> (r: String)
        ensures
            r@ == ser(self@),
    {
        let mut out: Vec<char> = Vec::new();
        write_value(self, &mut out);
        assert(out@ =~= Seq::empty() + ser(self@));
        string_of(out.as_slice())
    }
}

} // verus!
