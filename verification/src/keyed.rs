//! Small maps kept as vectors of `(String, value)` pairs with distinct keys, and what
//! they stand for as mathematical maps.

use vstd::prelude::*;

verus! {

/// The map that a sequence of pairs stands for; a later pair wins over an earlier one
/// with the same key.
pub open spec fn keyed_map<V>(s: Seq<(Seq<char>, V)>) -> Map<Seq<char>, V>
    decreases s.len(),
{
    if s.len() == 0 {
        Map::empty()
    } else {
        keyed_map(s.drop_last()).insert(s.last().0, s.last().1)
    }
}

/// No key occurs twice.
pub open spec fn distinct_keys<V>(s: Seq<(Seq<char>, V)>) -> bool {
    forall|i: int, j: int|
        #![trigger s[i].0, s[j].0]
        0 <= i < s.len() && 0 <= j < s.len() && i != j ==> s[i].0 != s[j].0
}

/// A finite map whose keys are those of the pairs, each with its pair's value.
pub proof fn lemma_keyed_map<V>(s: Seq<(Seq<char>, V)>)
    requires
        distinct_keys(s),
    ensures
        keyed_map(s).dom().finite(),
        keyed_map(s).dom().len() == s.len(),
        forall|k: Seq<char>|
            #[trigger] keyed_map(s).contains_key(k) <==> exists|i: int| 0 <= i < s.len() && s[i].0 == k,
        forall|i: int| #![trigger s[i]] 0 <= i < s.len() ==> keyed_map(s)[s[i].0] == s[i].1,
    decreases s.len(),
{
    if s.len() > 0 {
        let p = s.drop_last();
        assert(distinct_keys(p)) by {
            assert forall|i: int, j: int|
                0 <= i < p.len() && 0 <= j < p.len() && i != j implies p[i].0 != p[j].0 by {
                assert(p[i] == s[i] && p[j] == s[j]);
            }
        }
        lemma_keyed_map(p);
        let last = s.len() - 1;
        assert(!keyed_map(p).contains_key(s.last().0)) by {
            if keyed_map(p).contains_key(s.last().0) {
                let i = choose|i: int| 0 <= i < p.len() && p[i].0 == s.last().0;
                assert(s[i].0 == s[last].0);
            }
        }
        assert forall|k: Seq<char>|
            #[trigger] keyed_map(s).contains_key(k) <==> exists|i: int| 0 <= i < s.len() && s[i].0 == k by {
            if keyed_map(p).contains_key(k) {
                let i = choose|i: int| 0 <= i < p.len() && p[i].0 == k;
                assert(s[i].0 == k);
            }
            if exists|i: int| 0 <= i < s.len() && s[i].0 == k {
                let i = choose|i: int| 0 <= i < s.len() && s[i].0 == k;
                if i < last {
                    assert(p[i].0 == k);
                }
            }
        }
        assert forall|i: int| #![trigger s[i]] 0 <= i < s.len() implies keyed_map(s)[s[i].0] == s[i].1 by {
            if i < last {
                assert(p[i] == s[i]);
                assert(s[i].0 != s[last].0);
            }
        }
    }
}

/// Replacing the value of the pair at `i` updates that key in the map.
pub proof fn lemma_keyed_map_update<V>(s: Seq<(Seq<char>, V)>, i: int, v: V)
    requires
        distinct_keys(s),
        0 <= i < s.len(),
    ensures
        distinct_keys(s.update(i, (s[i].0, v))),
        keyed_map(s.update(i, (s[i].0, v))) == keyed_map(s).insert(s[i].0, v),
{
    let t = s.update(i, (s[i].0, v));
    assert(distinct_keys(t)) by {
        assert forall|a: int, b: int|
            #![trigger t[a].0, t[b].0]
            0 <= a < t.len() && 0 <= b < t.len() && a != b implies t[a].0 != t[b].0 by {
            assert(t[a].0 == s[a].0 && t[b].0 == s[b].0);
        }
    }
    lemma_keyed_map(s);
    lemma_keyed_map(t);
    assert forall|k: Seq<char>| #[trigger] keyed_map(t).contains_key(k) <==> keyed_map(s).insert(
        s[i].0,
        v,
    ).contains_key(k) by {
        if exists|j: int| 0 <= j < t.len() && t[j].0 == k {
            let j = choose|j: int| 0 <= j < t.len() && t[j].0 == k;
            assert(s[j].0 == k);
        }
        if exists|j: int| 0 <= j < s.len() && s[j].0 == k {
            let j = choose|j: int| 0 <= j < s.len() && s[j].0 == k;
            assert(t[j].0 == k);
        }
    }
    assert forall|k: Seq<char>| #[trigger] keyed_map(t).contains_key(k) implies keyed_map(t)[k]
        == keyed_map(s).insert(s[i].0, v)[k] by {
        let j = choose|j: int| 0 <= j < t.len() && t[j].0 == k;
        assert(t[j].0 == k);
        if j != i {
            assert(s[j] == t[j]);
        }
    }
    assert(keyed_map(t) =~= keyed_map(s).insert(s[i].0, v));
}

/// Removing the pair at `i` removes its key from the map.
pub proof fn lemma_keyed_map_remove<V>(s: Seq<(Seq<char>, V)>, i: int)
    requires
        distinct_keys(s),
        0 <= i < s.len(),
    ensures
        distinct_keys(s.remove(i)),
        keyed_map(s.remove(i)) == keyed_map(s).remove(s[i].0),
{
    let t = s.remove(i);
    assert(forall|j: int| 0 <= j < t.len() ==> #[trigger] t[j] == if j < i { s[j] } else { s[j + 1] });
    assert(distinct_keys(t)) by {
        assert forall|a: int, b: int|
            #![trigger t[a].0, t[b].0]
            0 <= a < t.len() && 0 <= b < t.len() && a != b implies t[a].0 != t[b].0 by {
            let a2 = if a < i { a } else { a + 1 };
            let b2 = if b < i { b } else { b + 1 };
            assert(t[a] == s[a2] && t[b] == s[b2]);
        }
    }
    lemma_keyed_map(s);
    lemma_keyed_map(t);
    assert forall|k: Seq<char>| #[trigger] keyed_map(t).contains_key(k) <==> keyed_map(s).remove(
        s[i].0,
    ).contains_key(k) by {
        if exists|j: int| 0 <= j < t.len() && t[j].0 == k {
            let j = choose|j: int| 0 <= j < t.len() && t[j].0 == k;
            let j2 = if j < i { j } else { j + 1 };
            assert(s[j2].0 == k);
            assert(s[i].0 != s[j2].0);
        }
        if keyed_map(s).remove(s[i].0).contains_key(k) {
            let j = choose|j: int| 0 <= j < s.len() && s[j].0 == k;
            assert(j != i);
            let j2 = if j < i { j } else { j - 1 };
            assert(t[j2].0 == k);
        }
    }
    assert forall|k: Seq<char>| #[trigger] keyed_map(t).contains_key(k) implies keyed_map(t)[k]
        == keyed_map(s).remove(s[i].0)[k] by {
        let j = choose|j: int| 0 <= j < t.len() && t[j].0 == k;
        assert(t[j].0 == k);
        let j2 = if j < i { j } else { j + 1 };
        assert(s[j2] == t[j]);
    }
    assert(keyed_map(t) =~= keyed_map(s).remove(s[i].0));
}

/// Appending a pair with a new key inserts it into the map.
pub proof fn lemma_keyed_map_push<V>(s: Seq<(Seq<char>, V)>, k: Seq<char>, v: V)
    requires
        distinct_keys(s),
        !keyed_map(s).contains_key(k),
    ensures
        distinct_keys(s.push((k, v))),
        keyed_map(s.push((k, v))) == keyed_map(s).insert(k, v),
{
    let t = s.push((k, v));
    lemma_keyed_map(s);
    assert(t.drop_last() =~= s);
    assert(distinct_keys(t)) by {
        assert forall|a: int, b: int|
            #![trigger t[a].0, t[b].0]
            0 <= a < t.len() && 0 <= b < t.len() && a != b implies t[a].0 != t[b].0 by {
            if a < s.len() && b < s.len() {
                assert(t[a] == s[a] && t[b] == s[b]);
            } else if a < s.len() {
                assert(t[a] == s[a]);
            } else {
                assert(t[b] == s[b]);
            }
        }
    }
}

/// Finds the index of the pair whose key is `key`.
pub fn find_key<V>(pairs: &Vec<(String, V)>, key: &str) -> (r: Option<usize>)
    ensures
        r matches Some(i) ==> i < pairs@.len() && pairs@[i as int].0@ == key@,
        r is None ==> forall|i: int| 0 <= i < pairs@.len() ==> pairs@[i].0@ != key@,
{
    let mut i: usize = 0;
    while i < pairs.len()
        invariant
            i <= pairs@.len(),
            forall|j: int| 0 <= j < i ==> pairs@[j].0@ != key@,
        decreases pairs@.len() - i,
    {
        if crate::keyed::str_eq(pairs[i].0.as_str(), key) {
            return Some(i);
        }
        i = i + 1;
    }
    None
}

/// Whether two strings hold the same characters.
pub fn str_eq(a: &str, b: &str) -> (r: bool)
    ensures
        r == (a@ == b@),
{
    let x = crate::text::chars_of(a);
    let y = crate::text::chars_of(b);
    if x.len() != y.len() {
        return false;
    }
    let mut i: usize = 0;
    while i < x.len()
        invariant
            x@ == a@,
            y@ == b@,
            x@.len() == y@.len(),
            i <= x@.len(),
            forall|j: int| 0 <= j < i ==> x@[j] == y@[j],
        decreases x@.len() - i,
    {
        if x[i] != y[i] {
            return false;
        }
        i = i + 1;
    }
    assert(x@ =~= y@);
    true
}

} // verus!
