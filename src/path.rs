use vstd::prelude::*;
use crate::value::{Json, Value, key_pos, get_key, get_index, has_key, members_for_write};

verus! {

/// One step from a node to a child: by key into an object, by position into an array.
pub enum Step {
    Key(String),
    Index(usize),
}

/// Model of a step.
pub enum StepV {
    Key(Seq<char>),
    Index(int),
}

impl View for Step {
    type V = StepV;

    open spec fn view(&self) -> StepV {
        match self {
            Step::Key(k) => StepV::Key(k@),
            Step::Index(i) => StepV::Index(*i as int),
        }
    }
}

pub open spec fn steps_view(p: Seq<Step>) -> Seq<StepV> {
    Seq::new(p.len(), |i: int| p[i]@)
}

pub open spec fn child(j: Json, s: StepV) -> Json {
    match s {
        StepV::Key(k) => get_key(j, k),
        StepV::Index(i) => get_index(j, i),
    }
}

/// The step leads to an existing child of the right kind of container.
pub open spec fn step_ok(j: Json, s: StepV) -> bool {
    match s {
        StepV::Key(k) => has_key(j, k),
        StepV::Index(i) => j is Array && 0 <= i < j->Array_0.len(),
    }
}

/// Each step of the path leads to an existing child.
pub open spec fn path_ok(j: Json, p: Seq<StepV>) -> bool
    decreases p.len(),
{
    p.len() == 0 || (step_ok(j, p[0]) && path_ok(child(j, p[0]), p.subrange(1, p.len() as int)))
}

/// The node that the path leads to.
pub open spec fn node_at(j: Json, p: Seq<StepV>) -> Json
    decreases p.len(),
{
    if p.len() == 0 {
        j
    } else {
        node_at(child(j, p[0]), p.subrange(1, p.len() as int))
    }
}

/// The node with the child that the step leads to replaced.
pub open spec fn with_child(j: Json, s: StepV, c: Json) -> Json {
    match s {
        StepV::Key(k) => match j {
            Json::Object(ms) => Json::Object(ms.update(key_pos(ms, k), (k, c))),
            _ => j,
        },
        StepV::Index(i) => match j {
            Json::Array(xs) => Json::Array(xs.update(i, c)),
            _ => j,
        },
    }
}

/// The tree with the node that the path leads to replaced by `n`.
pub open spec fn replace_at(j: Json, p: Seq<StepV>, n: Json) -> Json
    decreases p.len(),
{
    if p.len() == 0 {
        n
    } else {
        with_child(j, p[0], replace_at(child(j, p[0]), p.subrange(1, p.len() as int), n))
    }
}

pub proof fn lemma_replace_at(j: Json, p: Seq<StepV>, n: Json)
    requires
        path_ok(j, p),
    ensures
        path_ok(replace_at(j, p, n), p),
        node_at(replace_at(j, p, n), p) == n,
    decreases p.len(),
{
    if p.len() > 0 {
        let rest = p.subrange(1, p.len() as int);
        let c = replace_at(child(j, p[0]), rest, n);
        lemma_replace_at(child(j, p[0]), rest, n);
        let r = replace_at(j, p, n);
        match p[0] {
            StepV::Key(k) => {
                let ms = j->Object_0;
                let q = key_pos(ms, k);
                let ms2 = ms.update(q, (k, c));
                assert(exists|i: int| crate::value::first_with_key(ms, k, i));
                assert(crate::value::first_with_key(ms, k, q));
                assert(crate::value::first_with_key(ms2, k, q));
                assert(key_pos(ms2, k) == q) by {
                    let q2 = key_pos(ms2, k);
                    assert(crate::value::first_with_key(ms2, k, q2));
                    if q2 < q {
                        assert(ms2[q2].0 == ms[q2].0);
                    } else if q2 > q {
                        assert(ms2[q].0 == k);
                    }
                }
                assert(child(r, p[0]) == c);
            },
            StepV::Index(i) => {
                assert(child(r, p[0]) == c);
            },
        }
    }
}

pub proof fn lemma_path_push(j: Json, p: Seq<StepV>, s: StepV)
    requires
        path_ok(j, p),
        step_ok(node_at(j, p), s),
    ensures
        path_ok(j, p.push(s)),
        node_at(j, p.push(s)) == child(node_at(j, p), s),
    decreases p.len(),
{
    let q = p.push(s);
    if p.len() == 0 {
        assert(q.subrange(1, q.len() as int) =~= Seq::<StepV>::empty());
        assert(q[0] == s);
        assert(path_ok(child(j, s), Seq::<StepV>::empty()));
        assert(node_at(child(j, s), Seq::<StepV>::empty()) == child(j, s));
    } else {
        let rest = p.subrange(1, p.len() as int);
        lemma_path_push(child(j, p[0]), rest, s);
        assert(q.subrange(1, q.len() as int) =~= rest.push(s));
        assert(q[0] == p[0]);
    }
}

/// The node that a valid path leads to, for reading.
pub fn node_ref<'a>(v: &'a Value, path: &Vec<Step>, d: usize) -> (r: &'a Value)
    requires
        d <= path@.len(),
        path_ok(v@, steps_view(path@).subrange(d as int, path@.len() as int)),
    ensures
        r@ == node_at(v@, steps_view(path@).subrange(d as int, path@.len() as int)),
    decreases path@.len() - d,
{
    let ghost p = steps_view(path@).subrange(d as int, path@.len() as int);
    if d == path.len() {
        return v;
    }
    assert(p.subrange(1, p.len() as int) =~= steps_view(path@).subrange(d + 1, path@.len() as int));
    assert(p[0] == path@[d as int]@);
    match &path[d] {
        Step::Key(k) => node_ref(v.get(k.as_str()), path, d + 1),
        Step::Index(i) => node_ref(v.at(*i), path, d + 1),
    }
}

/// The node that a valid path leads to, for writing.
pub fn node_mut<'a>(v: &'a mut Value, path: &Vec<Step>, d: usize) -> (r: &'a mut Value)
    requires
        d <= path@.len(),
        path_ok(old(v)@, steps_view(path@).subrange(d as int, path@.len() as int)),
    ensures
        r@ == node_at(old(v)@, steps_view(path@).subrange(d as int, path@.len() as int)),
        final(v)@ == replace_at(
            old(v)@,
            steps_view(path@).subrange(d as int, path@.len() as int),
            final(r)@,
        ),
    decreases path@.len() - d,
{
    let ghost p = steps_view(path@).subrange(d as int, path@.len() as int);
    if d == path.len() {
        return v;
    }
    assert(p.subrange(1, p.len() as int) =~= steps_view(path@).subrange(d + 1, path@.len() as int));
    assert(p[0] == path@[d as int]@);
    match &path[d] {
        Step::Key(k) => {
            assert(members_for_write(old(v)@) == old(v)@->Object_0);
            node_mut(v.get_mut(k.as_str()), path, d + 1)
        },
        Step::Index(i) => node_mut(v.at_mut(*i), path, d + 1),
    }
}

} // verus!
