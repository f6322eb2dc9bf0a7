use vstd::prelude::*;

verus! {

/// Handles of the entries are pairwise distinct.
pub open spec fn ids_unique<T>(s: Seq<(u64, T)>) -> bool {
    forall|i: int, j: int| 0 <= i < s.len() && 0 <= j < s.len() && i != j ==> s[i].0 != s[j].0
}

pub open spec fn holds_id<T>(s: Seq<(u64, T)>, h: u64) -> bool {
    exists|i: int| 0 <= i < s.len() && s[i].0 == h
}

/// The entries of a registry as a map from handle to the model of what it owns.
pub open spec fn id_map<T: View>(s: Seq<(u64, T)>) -> Map<u64, T::V> {
    Map::new(
        |h: u64| holds_id(s, h),
        |h: u64| s[choose|i: int| 0 <= i < s.len() && s[i].0 == h].1@,
    )
}

pub proof fn lemma_id_map_index<T: View>(s: Seq<(u64, T)>, i: int)
    requires
        ids_unique(s),
        0 <= i < s.len(),
    ensures
        id_map(s).contains_key(s[i].0),
        id_map(s)[s[i].0] == s[i].1@,
{
    let h = s[i].0;
    assert(holds_id(s, h));
    let k = choose|k: int| 0 <= k < s.len() && s[k].0 == h;
    assert(k == i);
}

pub proof fn lemma_id_map_update<T: View>(s: Seq<(u64, T)>, i: int, t: T)
    requires
        ids_unique(s),
        0 <= i < s.len(),
    ensures
        ids_unique(s.update(i, (s[i].0, t))),
        id_map(s.update(i, (s[i].0, t))) == id_map(s).insert(s[i].0, t@),
{
    let s2 = s.update(i, (s[i].0, t));
    assert(ids_unique(s2)) by {
        assert forall|a: int, b: int| 0 <= a < s2.len() && 0 <= b < s2.len() && a != b implies s2[a].0
            != s2[b].0 by {
            assert(s2[a].0 == s[a].0);
            assert(s2[b].0 == s[b].0);
        }
    }
    let m = id_map(s).insert(s[i].0, t@);
    assert forall|h: u64| #[trigger] id_map(s2).contains_key(h) == m.contains_key(h) by {
        if holds_id(s, h) {
            let k = choose|k: int| 0 <= k < s.len() && s[k].0 == h;
            assert(s2[k].0 == h);
        }
        if holds_id(s2, h) {
            let k = choose|k: int| 0 <= k < s2.len() && s2[k].0 == h;
            assert(s[k].0 == h);
        }
    }
    assert forall|h: u64| #[trigger] id_map(s2).contains_key(h) implies id_map(s2)[h] == m[h] by {
        let k = choose|k: int| 0 <= k < s2.len() && s2[k].0 == h;
        if h == s[i].0 {
            assert(k == i);
        } else {
            assert(k != i);
            lemma_id_map_index(s, k);
        }
    }
    assert(id_map(s2) =~= m);
}

pub proof fn lemma_id_map_push<T: View>(s: Seq<(u64, T)>, h: u64, t: T)
    requires
        ids_unique(s),
        !holds_id(s, h),
    ensures
        ids_unique(s.push((h, t))),
        id_map(s.push((h, t))) == id_map(s).insert(h, t@),
{
    let s2 = s.push((h, t));
    assert(ids_unique(s2)) by {
        assert forall|a: int, b: int| 0 <= a < s2.len() && 0 <= b < s2.len() && a != b implies s2[a].0
            != s2[b].0 by {
            if a < s.len() && b < s.len() {
                assert(s2[a] == s[a] && s2[b] == s[b]);
            } else if a < s.len() {
                assert(s2[a] == s[a]);
            } else if b < s.len() {
                assert(s2[b] == s[b]);
            }
        }
    }
    lemma_id_map_index(s2, s.len() as int);
    let m = id_map(s).insert(h, t@);
    assert forall|g: u64| #[trigger] id_map(s2).contains_key(g) == m.contains_key(g) by {
        if holds_id(s, g) {
            let k = choose|k: int| 0 <= k < s.len() && s[k].0 == g;
            assert(s2[k].0 == g);
        }
        if holds_id(s2, g) && g != h {
            let k = choose|k: int| 0 <= k < s2.len() && s2[k].0 == g;
            assert(s[k].0 == g);
        }
    }
    assert forall|g: u64| #[trigger] id_map(s2).contains_key(g) implies id_map(s2)[g] == m[g] by {
        if g != h {
            let k = choose|k: int| 0 <= k < s2.len() && s2[k].0 == g;
            assert(k < s.len());
            assert(s2[k] == s[k]);
            lemma_id_map_index(s, k);
            lemma_id_map_index(s2, k);
        }
    }
    assert(id_map(s2) =~= m);
}

pub proof fn lemma_id_map_remove<T: View>(s: Seq<(u64, T)>, i: int)
    requires
        ids_unique(s),
        0 <= i < s.len(),
    ensures
        ids_unique(s.remove(i)),
        id_map(s.remove(i)) == id_map(s).remove(s[i].0),
{
    let s2 = s.remove(i);
    let h = s[i].0;
    assert(forall|k: int| 0 <= k < s2.len() ==> s2[k] == s[if k < i { k } else { k + 1 }]);
    assert(ids_unique(s2)) by {
        assert forall|a: int, b: int| 0 <= a < s2.len() && 0 <= b < s2.len() && a != b implies s2[a].0
            != s2[b].0 by {
            let a1 = if a < i { a } else { a + 1 };
            let b1 = if b < i { b } else { b + 1 };
            assert(s2[a] == s[a1]);
            assert(s2[b] == s[b1]);
        }
    }
    let m = id_map(s).remove(h);
    assert forall|g: u64| #[trigger] id_map(s2).contains_key(g) == m.contains_key(g) by {
        if holds_id(s, g) && g != h {
            let k = choose|k: int| 0 <= k < s.len() && s[k].0 == g;
            assert(k != i);
            let k2 = if k < i { k } else { k - 1 };
            assert(s2[k2] == s[k]);
        }
        if holds_id(s2, g) {
            let k = choose|k: int| 0 <= k < s2.len() && s2[k].0 == g;
            let k1 = if k < i { k } else { k + 1 };
            assert(s2[k] == s[k1]);
            assert(k1 != i);
        }
    }
    assert forall|g: u64| #[trigger] id_map(s2).contains_key(g) implies id_map(s2)[g] == m[g] by {
        let k = choose|k: int| 0 <= k < s2.len() && s2[k].0 == g;
        let k1 = if k < i { k } else { k + 1 };
        assert(s2[k] == s[k1]);
        lemma_id_map_index(s, k1);
        lemma_id_map_index(s2, k);
    }
    assert(id_map(s2) =~= m);
}

/// Position of the entry with handle `h`, or `None`.
pub fn find_id<T: View>(s: &Vec<(u64, T)>, h: u64) -> (r: Option<usize>)
    ensures
        r matches Some(i) ==> i < s@.len() && s@[i as int].0 == h,
        r is None ==> !holds_id(s@, h),
{
    let mut i: usize = 0;
    while i < s.len()
        invariant
            i <= s@.len(),
            forall|k: int| 0 <= k < i ==> s@[k].0 != h,
        decreases s@.len() - i,
    {
        if s[i].0 == h {
            return Some(i);
        }
        i = i + 1;
    }
    None
}

} // verus!
