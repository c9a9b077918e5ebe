//! Association lists: sequences of `(key, value)` pairs whose keys are distinct,
//! read as finite maps.

use vstd::prelude::*;

verus! {

/// No key occurs twice.
pub open spec fn keys_unique<V>(s: Seq<(Seq<char>, V)>) -> bool {
    forall|i: int, j: int| 0 <= i < s.len() && 0 <= j < s.len() && i != j ==> #[trigger] s[i].0 != #[trigger] s[j].0
}

/// `k` is the key of some pair.
pub open spec fn has_key<V>(s: Seq<(Seq<char>, V)>, k: Seq<char>) -> bool {
    exists|i: int| 0 <= i < s.len() && #[trigger] s[i].0 == k
}

/// The index of a pair with key `k`.
pub open spec fn key_index<V>(s: Seq<(Seq<char>, V)>, k: Seq<char>) -> int {
    choose|i: int| 0 <= i < s.len() && #[trigger] s[i].0 == k
}

/// The map that the pairs describe.
pub open spec fn to_map<V>(s: Seq<(Seq<char>, V)>) -> Map<Seq<char>, V> {
    Map::new(|k: Seq<char>| has_key(s, k), |k: Seq<char>| s[key_index(s, k)].1)
}

pub proof fn lemma_key_index<V>(s: Seq<(Seq<char>, V)>, i: int)
    requires
        keys_unique(s),
        0 <= i < s.len(),
    ensures
        has_key(s, s[i].0),
        key_index(s, s[i].0) == i,
        to_map(s).contains_key(s[i].0),
        to_map(s)[s[i].0] == s[i].1,
{
    assert(has_key(s, s[i].0));
    let j = key_index(s, s[i].0);
    assert(s[j].0 == s[i].0);
}

pub proof fn lemma_to_map_push<V>(s: Seq<(Seq<char>, V)>, k: Seq<char>, v: V)
    requires
        keys_unique(s),
        !has_key(s, k),
    ensures
        keys_unique(s.push((k, v))),
        to_map(s.push((k, v))) == to_map(s).insert(k, v),
{
    let t = s.push((k, v));
    assert forall|i: int, j: int| 0 <= i < t.len() && 0 <= j < t.len() && i != j implies #[trigger] t[i].0 != #[trigger] t[j].0 by {
        if i < s.len() && j < s.len() {
            assert(t[i] == s[i] && t[j] == s[j]);
        } else if i < s.len() {
            assert(t[i] == s[i]);
        } else {
            assert(t[j] == s[j]);
        }
    }
    assert forall|q: Seq<char>| #[trigger] to_map(t).contains_key(q) == to_map(s).insert(k, v).contains_key(q) by {
        if has_key(s, q) {
            let i = key_index(s, q);
            assert(t[i] == s[i]);
        }
        if has_key(t, q) && q != k {
            let i = key_index(t, q);
            assert(t[i] == s[i]);
        }
        if q == k {
            assert(t[s.len() as int].0 == k);
        }
    }
    assert forall|q: Seq<char>| #[trigger] to_map(t).contains_key(q) implies to_map(t)[q] == to_map(s).insert(k, v)[q] by {
        if q == k {
            lemma_key_index(t, s.len() as int);
        } else {
            let i = key_index(t, q);
            assert(t[i] == s[i]);
            lemma_key_index(s, i);
            lemma_key_index(t, i);
        }
    }
    assert(to_map(t) =~= to_map(s).insert(k, v));
}

pub proof fn lemma_to_map_update<V>(s: Seq<(Seq<char>, V)>, i: int, v: V)
    requires
        keys_unique(s),
        0 <= i < s.len(),
    ensures
        keys_unique(s.update(i, (s[i].0, v))),
        to_map(s.update(i, (s[i].0, v))) == to_map(s).insert(s[i].0, v),
{
    let k = s[i].0;
    let t = s.update(i, (k, v));
    assert forall|a: int, b: int| 0 <= a < t.len() && 0 <= b < t.len() && a != b implies #[trigger] t[a].0 != #[trigger] t[b].0 by {
        assert(t[a].0 == s[a].0 && t[b].0 == s[b].0);
    }
    assert forall|q: Seq<char>| #[trigger] to_map(t).contains_key(q) == to_map(s).insert(k, v).contains_key(q) by {
        if has_key(s, q) {
            let j = key_index(s, q);
            assert(t[j].0 == s[j].0);
        }
        if has_key(t, q) {
            let j = key_index(t, q);
            assert(t[j].0 == s[j].0);
        }
        if q == k {
            assert(s[i].0 == k);
        }
    }
    assert forall|q: Seq<char>| #[trigger] to_map(t).contains_key(q) implies to_map(t)[q] == to_map(s).insert(k, v)[q] by {
        let j = key_index(t, q);
        assert(t[j].0 == s[j].0);
        lemma_key_index(t, j);
        lemma_key_index(s, j);
    }
    assert(to_map(t) =~= to_map(s).insert(k, v));
}

pub proof fn lemma_to_map_remove<V>(s: Seq<(Seq<char>, V)>, i: int)
    requires
        keys_unique(s),
        0 <= i < s.len(),
    ensures
        keys_unique(s.remove(i)),
        to_map(s.remove(i)) == to_map(s).remove(s[i].0),
{
    let k = s[i].0;
    let t = s.remove(i);
    assert forall|a: int, b: int| 0 <= a < t.len() && 0 <= b < t.len() && a != b implies #[trigger] t[a].0 != #[trigger] t[b].0 by {
        let a2 = if a < i { a } else { a + 1 };
        let b2 = if b < i { b } else { b + 1 };
        assert(t[a] == s[a2] && t[b] == s[b2]);
    }
    assert forall|q: Seq<char>| #[trigger] to_map(t).contains_key(q) == to_map(s).remove(k).contains_key(q) by {
        if has_key(s, q) && q != k {
            let j = key_index(s, q);
            assert(j != i);
            let j2 = if j < i { j } else { j - 1 };
            assert(t[j2] == s[j]);
        }
        if has_key(t, q) {
            let j = key_index(t, q);
            let j2 = if j < i { j } else { j + 1 };
            assert(t[j] == s[j2]);
            assert(j2 != i);
        }
    }
    assert forall|q: Seq<char>| #[trigger] to_map(t).contains_key(q) implies to_map(t)[q] == to_map(s).remove(k)[q] by {
        let j = key_index(t, q);
        let j2 = if j < i { j } else { j + 1 };
        assert(t[j] == s[j2]);
        lemma_key_index(t, j);
        lemma_key_index(s, j2);
    }
    assert(to_map(t) =~= to_map(s).remove(k));
}

pub proof fn lemma_to_map_empty<V>(s: Seq<(Seq<char>, V)>)
    requires
        s.len() == 0,
    ensures
        keys_unique(s),
        to_map(s) == Map::<Seq<char>, V>::empty(),
{
    assert(to_map(s) =~= Map::<Seq<char>, V>::empty());
}

/// The map of a sequence of pairs has finitely many keys.
pub proof fn lemma_to_map_finite<V>(s: Seq<(Seq<char>, V)>)
    ensures
        to_map(s).dom().finite(),
{
    let keys = s.map_values(|p: (Seq<char>, V)| p.0);
    assert forall|k: Seq<char>| to_map(s).dom().contains(k) <==> keys.to_set().contains(k) by {
        if has_key(s, k) {
            let i = choose|i: int| 0 <= i < s.len() && #[trigger] s[i].0 == k;
            assert(keys[i] == k);
        }
        if keys.contains(k) {
            let i = choose|i: int| 0 <= i < keys.len() && keys[i] == k;
            assert(s[i].0 == k);
        }
    }
    assert(to_map(s).dom() =~= keys.to_set());
    vstd::seq_lib::seq_to_set_is_finite(keys);
}

} // verus!
