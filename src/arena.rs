use vstd::prelude::*;
use crate::value::{Json, Value, Number, key_pos, put, members_for_write, len_of, has_key, first_with_key, lemma_first_exists};
use crate::path::{Step, StepV, steps_view, path_ok, node_at, replace_at, step_ok, child, node_ref, node_mut, lemma_replace_at, lemma_path_push};
use crate::registry::{ids_unique, holds_id, id_map, lemma_id_map_index, lemma_id_map_update, lemma_id_map_push, lemma_id_map_remove, find_id};
use crate::serialize::ser;
use crate::format::pretty;

verus! {

/// A document owned by the arena with its cursor, the path from the root to the node
/// that operations act on.
pub struct Doc {
    root: Value,
    path: Vec<Step>,
}

/// Model of a document and its cursor.
pub struct DocV {
    pub root: Json,
    pub path: Seq<StepV>,
}

impl View for Doc {
    type V = DocV;

    closed spec fn view(&self) -> DocV {
        DocV { root: self.root@, path: steps_view(self.path@) }
    }
}

/// The node under the cursor.
pub open spec fn cursor(d: DocV) -> Json {
    node_at(d.root, d.path)
}

/// Model of the arena: the documents and the exported strings by handle, and the next
/// handle to issue.
pub struct ArenaV {
    pub docs: Map<u64, DocV>,
    pub strings: Map<u64, Seq<char>>,
    pub next: u64,
}

/// Registries of owned documents and exported strings. Callers hold plain handles,
/// never references into the trees; a handle that was never issued or was freed
/// resolves to nothing, and every operation on it gives a neutral result.
pub struct Arena {
    docs: Vec<(u64, Doc)>,
    strings: Vec<(u64, String)>,
    next: u64,
}

impl View for Arena {
    type V = ArenaV;

    closed spec fn view(&self) -> ArenaV {
        ArenaV { docs: id_map(self.docs@), strings: id_map(self.strings@), next: self.next }
    }
}

/// The cursor node of document `h`, or `None` for a handle that holds no document.
pub open spec fn node_of(a: ArenaV, h: u64) -> Option<Json> {
    if a.docs.contains_key(h) {
        Some(cursor(a.docs[h]))
    } else {
        None
    }
}

/// The node after a read by key for writing: an object (a node of another kind loses
/// its content) that holds the key, with an empty object added under it if missing.
pub open spec fn vivify(n: Json, k: Seq<char>) -> Json {
    let ms = members_for_write(n);
    if key_pos(ms, k) >= 0 {
        Json::Object(ms)
    } else {
        Json::Object(ms.push((k, Json::Object(Seq::empty()))))
    }
}

/// The node after setting key `k` to `v` (a node of another kind becomes an object).
pub open spec fn with_member(n: Json, k: Seq<char>, v: Json) -> Json {
    Json::Object(put(members_for_write(n), k, v))
}

/// The node after appending `v`; only an array changes.
pub open spec fn with_element(n: Json, v: Json) -> Json {
    match n {
        Json::Array(xs) => Json::Array(xs.push(v)),
        _ => n,
    }
}

/// The value that an optional argument stands for: none means `Null`.
pub open spec fn or_null(v: Option<Value>) -> Json {
    match v {
        Some(x) => x@,
        None => Json::Null,
    }
}

pub open spec fn set_doc(a: ArenaV, h: u64, d: DocV) -> ArenaV {
    ArenaV { docs: a.docs.insert(h, d), ..a }
}

impl Arena {
    pub closed spec fn wf(&self) -> bool {
        &&& self.next > 0
        &&& ids_unique(self.docs@)
        &&& ids_unique(self.strings@)
        &&& forall|i: int| 0 <= i < self.docs@.len() ==> 0 < #[trigger] self.docs@[i].0 < self.next
        &&& forall|i: int| 0 <= i < self.strings@.len() ==> 0 < #[trigger] self.strings@[i].0 < self.next
        &&& forall|i: int|
            0 <= i < self.docs@.len() ==> path_ok(
                #[trigger] self.docs@[i].1.root@,
                steps_view(self.docs@[i].1.path@),
            )
    }

    /// Every live handle was issued before `next`, so a handle issued later, which is
    /// `next` or above, is never one that was live or released before.
    pub proof fn lemma_handles_below_next(&self)
        requires
            self.wf(),
        ensures
            forall|h: u64| #[trigger] self@.docs.contains_key(h) ==> 0 < h < self@.next,
            forall|h: u64| #[trigger] self@.strings.contains_key(h) ==> 0 < h < self@.next,
    {
        assert forall|h: u64| #[trigger] self@.docs.contains_key(h) implies 0 < h < self@.next by {
            let k = choose|k: int| 0 <= k < self.docs@.len() && self.docs@[k].0 == h;
        }
        assert forall|h: u64| #[trigger] self@.strings.contains_key(h) implies 0 < h < self@.next by {
            let k = choose|k: int| 0 <= k < self.strings@.len() && self.strings@[k].0 == h;
        }
    }

    /// An empty arena.
    pub fn new() -> (r: Arena)
        ensures
            r.wf(),
            r@.docs == Map::<u64, DocV>::empty(),
            r@.strings == Map::<u64, Seq<char>>::empty(),
    {
        let r = Arena { docs: Vec::new(), strings: Vec::new(), next: 1 };
        assert(r@.docs =~= Map::<u64, DocV>::empty());
        assert(r@.strings =~= Map::<u64, Seq<char>>::empty());
        r
    }

    /// Takes ownership of a tree under a fresh handle, with the cursor at its root.
    /// Gives 0, the handle of nothing, once handles have run out.
    pub fn adopt(&mut self, v: Value) -> (r: u64)
        requires
            old(self).wf(),
        ensures
            final(self).wf(),
            r == 0 ==> final(self)@ == old(self)@,
            r == 0 <==> old(self)@.next == u64::MAX,
            r != 0 ==> r == old(self)@.next && final(self)@.next == r + 1 && !old(self)@.docs.contains_key(r)
                && final(self)@.docs == old(self)@.docs.insert(r, DocV { root: v@, path: Seq::empty() })
                && final(self)@.strings == old(self)@.strings,
    {
        if self.next == u64::MAX {
            return 0;
        }
        let id = self.next;
        proof {
            assert(!holds_id(self.docs@, id));
        }
        let path: Vec<Step> = Vec::new();
        let doc = Doc { root: v, path };
        proof {
            lemma_id_map_push(self.docs@, id, doc);
            assert(steps_view(doc.path@) =~= Seq::<StepV>::empty());
        }
        self.docs.push((id, doc));
        self.next = self.next + 1;
        proof {
            assert forall|i: int| 0 <= i < self.docs@.len() implies path_ok(
                #[trigger] self.docs@[i].1.root@,
                steps_view(self.docs@[i].1.path@),
            ) by {
                if i < self.docs@.len() - 1 {
                    assert(self.docs@[i] == old(self).docs@[i]);
                }
            }
            assert(forall|i: int| 0 <= i < self.docs@.len() - 1 ==> self.docs@[i] == old(self).docs@[i]);
        }
        id
    }

    /// A new document holding an empty object.
    pub fn new_root(&mut self) -> (r: u64)
        requires
            old(self).wf(),
        ensures
            final(self).wf(),
            r == 0 ==> final(self)@ == old(self)@,
            r == 0 <==> old(self)@.next == u64::MAX,
            r != 0 ==> r == old(self)@.next && final(self)@.next == r + 1 && !old(self)@.docs.contains_key(r)
                && final(self)@.docs == old(self)@.docs.insert(
                r,
                DocV { root: Json::Object(Seq::empty()), path: Seq::empty() },
            ) && final(self)@.strings == old(self)@.strings,
    {
        self.adopt(Value::obj())
    }

    /// Registers a string for export under a fresh handle; 0 once handles have run out.
    fn export(&mut self, s: String) -> (r: u64)
        requires
            old(self).wf(),
        ensures
            final(self).wf(),
            r == 0 ==> final(self)@ == old(self)@,
            r == 0 <==> old(self)@.next == u64::MAX,
            r != 0 ==> r == old(self)@.next && final(self)@.next == r + 1 && !old(self)@.strings.contains_key(r)
                && final(self)@.strings == old(self)@.strings.insert(r, s@)
                && final(self)@.docs == old(self)@.docs,
    {
        if self.next == u64::MAX {
            return 0;
        }
        let id = self.next;
        proof {
            assert(!holds_id(self.strings@, id));
            lemma_id_map_push(self.strings@, id, s);
        }
        self.strings.push((id, s));
        self.next = self.next + 1;
        proof {
            assert(forall|i: int| 0 <= i < self.strings@.len() - 1 ==> self.strings@[i] == old(self).strings@[i]);
        }
        id
    }

    proof fn lemma_doc_replaced(a: Arena, b: Arena, i: int)
        requires
            a.wf(),
            0 <= i < a.docs@.len(),
            b.docs@ == a.docs@.update(i, (a.docs@[i].0, b.docs@[i].1)),
            b.strings == a.strings,
            b.next == a.next,
            path_ok(b.docs@[i].1.root@, steps_view(b.docs@[i].1.path@)),
        ensures
            b.wf(),
            b@ == set_doc(a@, a.docs@[i].0, b.docs@[i].1@),
    {
        lemma_id_map_update(a.docs@, i, b.docs@[i].1);
        assert forall|k: int| 0 <= k < b.docs@.len() implies path_ok(
            #[trigger] b.docs@[k].1.root@,
            steps_view(b.docs@[k].1.path@),
        ) by {
            if k != i {
                assert(b.docs@[k] == a.docs@[k]);
            }
        }
        assert(forall|k: int| 0 <= k < b.docs@.len() && k != i ==> b.docs@[k] == a.docs@[k]);
        assert(b@.docs == set_doc(a@, a.docs@[i].0, b.docs@[i].1@).docs);
    }

    /// The cursor node of document `h`.
    fn cursor_ref(&self, h: u64) -> (r: Option<&Value>)
        requires
            self.wf(),
        ensures
            match node_of(self@, h) {
                Some(n) => r is Some && r->0@ == n,
                None => r is None,
            },
    {
        match find_id(&self.docs, h) {
            None => None,
            Some(i) => {
                proof {
                    lemma_id_map_index(self.docs@, i as int);
                }
                let doc = &self.docs[i].1;
                assert(steps_view(doc.path@).subrange(0, doc.path@.len() as int) =~= steps_view(doc.path@));
                Some(node_ref(&doc.root, &doc.path, 0))
            },
        }
    }
}

fn doc_entry_mut(docs: &mut Vec<(u64, Doc)>, i: usize) -> (r: &mut Doc)
    requires
        i < old(docs)@.len(),
    ensures
        *r == old(docs)@[i as int].1,
        final(docs)@ == old(docs)@.update(i as int, (old(docs)@[i as int].0, *final(r))),
{
    let e = &mut docs[i];
    &mut e.1
}

impl Arena {
    /// Moves the cursor to the member with that key, creating it (and turning the node
    /// into an object) as a write by key does.
    pub fn get_property(&mut self, h: u64, key: &str)
        requires
            old(self).wf(),
        ensures
            final(self).wf(),
            old(self)@.docs.contains_key(h) ==> {
                let d = old(self)@.docs[h];
                final(self)@ == set_doc(
                    old(self)@,
                    h,
                    DocV {
                        root: replace_at(d.root, d.path, vivify(cursor(d), key@)),
                        path: d.path.push(StepV::Key(key@)),
                    },
                )
            },
            !old(self)@.docs.contains_key(h) ==> final(self)@ == old(self)@,
    {
        match find_id(&self.docs, h) {
            None => {},
            Some(i) => {
                proof {
                    lemma_id_map_index(self.docs@, i as int);
                }
                let ghost d = self.docs@[i as int].1@;
                let ghost p = self.docs@[i as int].1.path@;
                let doc = doc_entry_mut(&mut self.docs, i);
                assert(steps_view(doc.path@).subrange(0, doc.path@.len() as int) =~= steps_view(doc.path@));
                let node = node_mut(&mut doc.root, &doc.path, 0);
                let ghost n0 = node@;
                let slot = node.get_mut(key);
                proof {
                    let ms = members_for_write(n0);
                    if key_pos(ms, key@) >= 0 {
                        assert(exists|k: int| first_with_key(ms, key@, k));
                        assert(first_with_key(ms, key@, key_pos(ms, key@)));
                        assert(ms.update(key_pos(ms, key@), (key@, ms[key_pos(ms, key@)].1)) =~= ms);
                    }
                }
                doc.path.push(Step::Key(key.to_owned()));
                proof {
                    let nn = vivify(n0, key@);
                    lemma_replace_at(d.root, d.path, nn);
                    assert(step_ok(nn, StepV::Key(key@))) by {
                        let ms2 = nn->Object_0;
                        let ms = members_for_write(n0);
                        if key_pos(ms, key@) < 0 {
                            assert(first_with_key(ms2, key@, ms.len() as int)) by {
                                assert forall|j: int| 0 <= j < ms.len() implies ms2[j].0 != key@ by {
                                    assert(ms2[j] == ms[j]);
                                    if ms[j].0 == key@ {
                                        lemma_first_exists(ms, key@, j);
                                    }
                                }
                            }
                        }
                    }
                    lemma_path_push(replace_at(d.root, d.path, nn), d.path, StepV::Key(key@));
                    assert(steps_view(doc.path@) =~= d.path.push(StepV::Key(key@)));
                }
                proof {
                    Self::lemma_doc_replaced(*old(self), *self, i as int);
                }
            },
        }
    }
}


impl Arena {
    /// Sets the member with that key at the cursor, as a write by key does; no value
    /// stands for `Null`. The cursor stays.
    pub fn set_property(&mut self, h: u64, key: &str, val: Option<Value>)
        requires
            old(self).wf(),
        ensures
            final(self).wf(),
            old(self)@.docs.contains_key(h) ==> {
                let d = old(self)@.docs[h];
                final(self)@ == set_doc(
                    old(self)@,
                    h,
                    DocV {
                        root: replace_at(d.root, d.path, with_member(cursor(d), key@, or_null(val))),
                        path: d.path,
                    },
                )
            },
            !old(self)@.docs.contains_key(h) ==> final(self)@ == old(self)@,
    {
        match find_id(&self.docs, h) {
            None => {},
            Some(i) => {
                proof {
                    lemma_id_map_index(self.docs@, i as int);
                }
                let ghost d = self.docs@[i as int].1@;
                let v = match val {
                    Some(x) => x,
                    None => Value::Null,
                };
                let doc = doc_entry_mut(&mut self.docs, i);
                assert(steps_view(doc.path@).subrange(0, doc.path@.len() as int) =~= steps_view(doc.path@));
                let node = node_mut(&mut doc.root, &doc.path, 0);
                let ghost n0 = node@;
                let slot = node.get_mut(key);
                *slot = v;
                proof {
                    let ms = members_for_write(n0);
                    assert(with_member(n0, key@, or_null(val)) == node@);
                    lemma_replace_at(d.root, d.path, node@);
                }
                proof {
                    Self::lemma_doc_replaced(*old(self), *self, i as int);
                }
            },
        }
    }

    /// Appends to the array at the cursor; no value stands for `Null`. A node of another
    /// kind is left as it is.
    pub fn add(&mut self, h: u64, val: Option<Value>)
        requires
            old(self).wf(),
        ensures
            final(self).wf(),
            old(self)@.docs.contains_key(h) ==> {
                let d = old(self)@.docs[h];
                final(self)@ == set_doc(
                    old(self)@,
                    h,
                    DocV {
                        root: replace_at(d.root, d.path, with_element(cursor(d), or_null(val))),
                        path: d.path,
                    },
                )
            },
            !old(self)@.docs.contains_key(h) ==> final(self)@ == old(self)@,
    {
        match find_id(&self.docs, h) {
            None => {},
            Some(i) => {
                proof {
                    lemma_id_map_index(self.docs@, i as int);
                }
                let ghost d = self.docs@[i as int].1@;
                let v = match val {
                    Some(x) => x,
                    None => Value::Null,
                };
                let doc = doc_entry_mut(&mut self.docs, i);
                assert(steps_view(doc.path@).subrange(0, doc.path@.len() as int) =~= steps_view(doc.path@));
                let node = node_mut(&mut doc.root, &doc.path, 0);
                node.append(v);
                proof {
                    lemma_replace_at(d.root, d.path, node@);
                }
                proof {
                    Self::lemma_doc_replaced(*old(self), *self, i as int);
                }
            },
        }
    }

    /// Reserves room for `n` more children at the cursor; the document is unchanged.
    pub fn prealloc(&mut self, h: u64, n: usize)
        requires
            old(self).wf(),
        ensures
            final(self).wf(),
            final(self)@ == old(self)@,
    {
        match find_id(&self.docs, h) {
            None => {},
            Some(i) => {
                proof {
                    lemma_id_map_index(self.docs@, i as int);
                }
                let ghost d = self.docs@[i as int].1@;
                let doc = doc_entry_mut(&mut self.docs, i);
                assert(steps_view(doc.path@).subrange(0, doc.path@.len() as int) =~= steps_view(doc.path@));
                let node = node_mut(&mut doc.root, &doc.path, 0);
                let ghost n0 = node@;
                node.pre_alloc(n);
                proof {
                    lemma_replace_at(d.root, d.path, node@);
                    lemma_replace_same(d.root, d.path);
                }
                proof {
                    Self::lemma_doc_replaced(*old(self), *self, i as int);
                    assert(old(self)@.docs.insert(h, d) =~= old(self)@.docs);
                }
            },
        }
    }

    /// Moves the cursor to element `i` of the array at the cursor; nothing happens when
    /// the node is no array or `i` is out of range.
    pub fn get_index(&mut self, h: u64, i: usize)
        requires
            old(self).wf(),
        ensures
            final(self).wf(),
            (node_of(old(self)@, h) matches Some(n) && n is Array && (i as int) < n->Array_0.len())
                ==> {
                let d = old(self)@.docs[h];
                final(self)@ == set_doc(
                    old(self)@,
                    h,
                    DocV { root: d.root, path: d.path.push(StepV::Index(i as int)) },
                )
            },
            !(node_of(old(self)@, h) matches Some(n) && n is Array && (i as int) < n->Array_0.len())
                ==> final(self)@ == old(self)@,
    {
        let moves = match self.cursor_ref(h) {
            Some(n) => n.is_array() && i < n.len(),
            None => false,
        };
        if !moves {
            return;
        }
        match find_id(&self.docs, h) {
            None => {},
            Some(k) => {
                proof {
                    lemma_id_map_index(self.docs@, k as int);
                }
                let ghost d = self.docs@[k as int].1@;
                let doc = doc_entry_mut(&mut self.docs, k);
                doc.path.push(Step::Index(i));
                proof {
                    lemma_path_push(d.root, d.path, StepV::Index(i as int));
                    assert(steps_view(doc.path@) =~= d.path.push(StepV::Index(i as int)));
                }
                proof {
                    Self::lemma_doc_replaced(*old(self), *self, k as int);
                }
            },
        }
    }
}

pub proof fn lemma_replace_same(j: Json, p: Seq<StepV>)
    requires
        path_ok(j, p),
    ensures
        replace_at(j, p, node_at(j, p)) == j,
    decreases p.len(),
{
    if p.len() > 0 {
        let rest = p.subrange(1, p.len() as int);
        lemma_replace_same(child(j, p[0]), rest);
        match p[0] {
            StepV::Key(k) => {
                let ms = j->Object_0;
                assert(exists|i: int| first_with_key(ms, k, i));
                assert(first_with_key(ms, k, key_pos(ms, k)));
                assert(ms.update(key_pos(ms, k), (k, ms[key_pos(ms, k)].1)) =~= ms);
            },
            StepV::Index(i) => {
                assert(j->Array_0.update(i, j->Array_0[i]) =~= j->Array_0);
            },
        }
    }
}


/// The arena after releasing document `h`.
pub open spec fn without_doc(a: ArenaV, h: u64) -> ArenaV {
    ArenaV { docs: a.docs.remove(h), ..a }
}

/// The arena after releasing string `h`.
pub open spec fn without_string(a: ArenaV, h: u64) -> ArenaV {
    ArenaV { strings: a.strings.remove(h), ..a }
}

impl Arena {
    /// Number of children of the cursor node; 0 for a scalar or a handle without document.
    pub fn get_len(&self, h: u64) -> (r: usize)
        requires
            self.wf(),
        ensures
            r as nat == match node_of(self@, h) {
                Some(n) => len_of(n),
                None => 0,
            },
    {
        match self.cursor_ref(h) {
            Some(n) => n.len(),
            None => 0,
        }
    }

    /// Whether the cursor node is an object with that key.
    pub fn has_key(&self, h: u64, key: &str) -> (r: bool)
        requires
            self.wf(),
        ensures
            r == (node_of(self@, h) matches Some(n) && has_key(n, key@)),
    {
        match self.cursor_ref(h) {
            Some(n) => n.has(key),
            None => false,
        }
    }

    /// The flag of the cursor node when it is a boolean; false otherwise.
    pub fn get_bool(&self, h: u64) -> (r: bool)
        requires
            self.wf(),
        ensures
            r == (node_of(self@, h) == Some(Json::Bool(true))),
    {
        match self.cursor_ref(h) {
            Some(n) => n.as_bool(),
            None => false,
        }
    }

    /// The number at the cursor, or `None` when the node is no number.
    pub fn get_num(&self, h: u64) -> (r: Option<Number>)
        requires
            self.wf(),
        ensures
            r is Some <==> (node_of(self@, h) matches Some(n) && n is Number),
            r matches Some(x) ==> node_of(self@, h) == Some(Json::Number(x@)),
    {
        match self.cursor_ref(h) {
            Some(n) => match n.as_number() {
                Some(x) => Some(x.copy()),
                None => None,
            },
            None => None,
        }
    }

    pub fn is_null(&self, h: u64) -> (r: bool)
        requires
            self.wf(),
        ensures
            r == (node_of(self@, h) == Some(Json::Null)),
    {
        match self.cursor_ref(h) {
            Some(n) => n.is_null(),
            None => false,
        }
    }

    /// Whether there is a cursor node and it is not `Invalid`.
    pub fn is_valid(&self, h: u64) -> (r: bool)
        requires
            self.wf(),
        ensures
            r == (node_of(self@, h) matches Some(n) && !(n is Invalid)),
    {
        match self.cursor_ref(h) {
            Some(n) => !n.is_invalid(),
            None => false,
        }
    }

    pub fn is_text(&self, h: u64) -> (r: bool)
        requires
            self.wf(),
        ensures
            r == (node_of(self@, h) matches Some(n) && n is Text),
    {
        match self.cursor_ref(h) {
            Some(n) => n.is_text(),
            None => false,
        }
    }

    pub fn is_num(&self, h: u64) -> (r: bool)
        requires
            self.wf(),
        ensures
            r == (node_of(self@, h) matches Some(n) && n is Number),
    {
        match self.cursor_ref(h) {
            Some(n) => n.is_number(),
            None => false,
        }
    }

    pub fn is_obj(&self, h: u64) -> (r: bool)
        requires
            self.wf(),
        ensures
            r == (node_of(self@, h) matches Some(n) && n is Object),
    {
        match self.cursor_ref(h) {
            Some(n) => n.is_object(),
            None => false,
        }
    }

    pub fn is_arr(&self, h: u64) -> (r: bool)
        requires
            self.wf(),
        ensures
            r == (node_of(self@, h) matches Some(n) && n is Array),
    {
        match self.cursor_ref(h) {
            Some(n) => n.is_array(),
            None => false,
        }
    }

    /// Exports the compact text of the cursor node, or `Null` for a handle without
    /// document. Gives the string's handle, 0 once handles have run out.
    pub fn to_string(&mut self, h: u64) -> (r: u64)
        requires
            old(self).wf(),
        ensures
            final(self).wf(),
            final(self)@.docs == old(self)@.docs,
            r == 0 ==> final(self)@ == old(self)@,
            r == 0 <==> old(self)@.next == u64::MAX,
            r != 0 ==> r == old(self)@.next && final(self)@.next == r + 1 && !old(self)@.strings.contains_key(r)
                && final(self)@.strings == old(self)@.strings.insert(
                r,
                match node_of(old(self)@, h) {
                    Some(n) => ser(n),
                    None => seq!['N', 'u', 'l', 'l'],
                },
            ),
    {
        let s = match self.cursor_ref(h) {
            Some(n) => n.to_string(),
            None => {
                let cs = ['N', 'u', 'l', 'l'];
                crate::text::string_of(&cs)
            },
        };
        self.export(s)
    }

    /// Exports the indented text of the cursor node: `spaces` spaces per level, or one
    /// tab per level when `spaces` is 0. Empty for a handle without document.
    pub fn to_pretty(&mut self, h: u64, spaces: usize) -> (r: u64)
        requires
            old(self).wf(),
        ensures
            final(self).wf(),
            final(self)@.docs == old(self)@.docs,
            r == 0 ==> final(self)@ == old(self)@,
            r == 0 <==> old(self)@.next == u64::MAX,
            r != 0 ==> r == old(self)@.next && final(self)@.next == r + 1 && !old(self)@.strings.contains_key(r)
                && final(self)@.strings == old(self)@.strings.insert(
                r,
                match node_of(old(self)@, h) {
                    Some(n) => pretty(ser(n), false, false, 0, spaces as nat, spaces > 0),
                    None => Seq::empty(),
                },
            ),
    {
        let s = match self.cursor_ref(h) {
            Some(n) => crate::format::pretty_text(n, spaces, spaces > 0),
            None => String::new(),
        };
        self.export(s)
    }

    /// Exports the text of the cursor node when it is a text; gives 0 otherwise.
    pub fn get_text(&mut self, h: u64) -> (r: u64)
        requires
            old(self).wf(),
        ensures
            final(self).wf(),
            final(self)@.docs == old(self)@.docs,
            r == 0 ==> final(self)@ == old(self)@,
            r == 0 <==> !(node_of(old(self)@, h) matches Some(n) && n is Text) || old(self)@.next
                == u64::MAX,
            r != 0 ==> r == old(self)@.next && final(self)@.next == r + 1 && !old(self)@.strings.contains_key(r) && (node_of(
                old(self)@,
                h,
            ) matches Some(n) && n is Text && final(self)@.strings == old(self)@.strings.insert(
                r,
                n->Text_0,
            )),
    {
        let t = match self.cursor_ref(h) {
            Some(n) => {
                if n.is_text() {
                    Some(n.as_text())
                } else {
                    None
                }
            },
            None => None,
        };
        match t {
            Some(s) => self.export(s),
            None => 0,
        }
    }

    /// The characters of exported string `h`, or `None` when `h` owns no string.
    pub fn string_text(&self, h: u64) -> (r: Option<String>)
        requires
            self.wf(),
        ensures
            r is Some <==> self@.strings.contains_key(h),
            r matches Some(s) ==> s@ == self@.strings[h],
    {
        match find_id(&self.strings, h) {
            Some(i) => {
                proof {
                    lemma_id_map_index(self.strings@, i as int);
                }
                Some(self.strings[i].1.clone())
            },
            None => None,
        }
    }

    /// Parses JSON text into a new document; gives its handle.
    pub fn from_str(&mut self, text: &str) -> (r: u64)
        requires
            old(self).wf(),
        ensures
            final(self).wf(),
            r == 0 ==> final(self)@ == old(self)@,
            r == 0 <==> old(self)@.next == u64::MAX,
            r != 0 ==> r == old(self)@.next && final(self)@.next == r + 1 && !old(self)@.docs.contains_key(r)
                && final(self)@.docs == old(self)@.docs.insert(
                r,
                DocV { root: crate::parse::parse_json(text@), path: Seq::empty() },
            ) && final(self)@.strings == old(self)@.strings,
    {
        let v = crate::parse::parse(text);
        self.adopt(v)
    }

    /// Releases document `h` and everything in it; nothing happens when `h` holds none.
    pub fn free_value(&mut self, h: u64)
        requires
            old(self).wf(),
        ensures
            final(self).wf(),
            final(self)@ == without_doc(old(self)@, h),
    {
        match find_id(&self.docs, h) {
            Some(i) => {
                proof {
                    lemma_id_map_remove(self.docs@, i as int);
                }
                self.docs.remove(i);
                proof {
                    assert(forall|k: int| 0 <= k < self.docs@.len() ==> self.docs@[k] == old(self).docs@[if k < i { k } else { k + 1 }]);
                }
            },
            None => {
                assert(old(self)@.docs.remove(h) =~= old(self)@.docs);
            },
        }
    }

    /// Releases exported string `h`; nothing happens when `h` owns none.
    pub fn free_string(&mut self, h: u64)
        requires
            old(self).wf(),
        ensures
            final(self).wf(),
            final(self)@ == without_string(old(self)@, h),
    {
        match find_id(&self.strings, h) {
            Some(i) => {
                proof {
                    lemma_id_map_remove(self.strings@, i as int);
                }
                self.strings.remove(i);
                proof {
                    assert(forall|k: int| 0 <= k < self.strings@.len() ==> self.strings@[k] == old(self).strings@[if k < i { k } else { k + 1 }]);
                }
            },
            None => {
                assert(old(self)@.strings.remove(h) =~= old(self)@.strings);
            },
        }
    }

    /// Releases every document and every string at once.
    pub fn cleanup(&mut self)
        requires
            old(self).wf(),
        ensures
            final(self).wf(),
            final(self)@.docs == Map::<u64, DocV>::empty(),
            final(self)@.strings == Map::<u64, Seq<char>>::empty(),
            final(self)@.next == old(self)@.next,
    {
        self.docs.clear();
        self.strings.clear();
        assert(self@.docs =~= Map::<u64, DocV>::empty());
        assert(self@.strings =~= Map::<u64, Seq<char>>::empty());
    }
}


/// Releasing a document leaves nothing under its handle, so every operation on it
/// afterwards gives its neutral result and changes nothing, while every other handle
/// keeps its document, its cursor and its strings.
pub proof fn lemma_free_isolates(a: ArenaV, h: u64)
    ensures
        node_of(without_doc(a, h), h) is None,
        forall|g: u64| g != h ==> #[trigger] node_of(without_doc(a, h), g) == node_of(a, g),
        forall|g: u64|
            g != h ==> (#[trigger] without_doc(a, h).docs.contains_key(g) == a.docs.contains_key(g)),
        forall|g: u64|
            g != h && a.docs.contains_key(g) ==> #[trigger] without_doc(a, h).docs[g] == a.docs[g],
        without_doc(a, h).strings == a.strings,
{
}

/// After a cleanup no handle leads to a document or a string.
pub proof fn lemma_cleanup_invalidates(a: ArenaV)
    requires
        a.docs == Map::<u64, DocV>::empty(),
        a.strings == Map::<u64, Seq<char>>::empty(),
    ensures
        forall|g: u64| #[trigger] node_of(a, g) is None && !a.strings.contains_key(g),
{
}

} // verus!
