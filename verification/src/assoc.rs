//! Lists of keys and values as maps.

use vstd::prelude::*;

verus! {

/// The map of a list. Of two items with the same key the later one counts.
pub open spec fn assoc<K, V>(s: Seq<(K, V)>) -> Map<K, V>
    decreases s.len(),
{
    if s.len() == 0 {
        Map::empty()
    } else {
        assoc(s.drop_last()).insert(s.last().0, s.last().1)
    }
}

/// No two items have the same key.
pub open spec fn distinct_keys<K, V>(s: Seq<(K, V)>) -> bool {
    forall|i: int, j: int| 0 <= i < j < s.len() ==> (#[trigger] s[i]).0 != (#[trigger] s[j]).0
}

/// The map of a list of distinct keys has the value of each item.
pub proof fn lemma_assoc_at<K, V>(s: Seq<(K, V)>, i: int)
    requires
        distinct_keys(s),
        0 <= i < s.len(),
    ensures
        assoc(s).contains_key(s[i].0),
        assoc(s)[s[i].0] == s[i].1,
    decreases s.len(),
{
    if i < s.len() - 1 {
        lemma_assoc_at(s.drop_last(), i);
        assert(s.drop_last()[i] == s[i]);
        assert(s[i].0 != s[s.len() - 1].0);
    }
}

/// A key of the map belongs to an item.
pub proof fn lemma_assoc_item<K, V>(s: Seq<(K, V)>, k: K) -> (i: int)
    requires
        assoc(s).contains_key(k),
    ensures
        0 <= i < s.len(),
        s[i].0 == k,
    decreases s.len(),
{
    if s.last().0 == k {
        s.len() - 1
    } else {
        lemma_assoc_item(s.drop_last(), k)
    }
}

/// Replacing the value of an item.
pub proof fn lemma_assoc_update<K, V>(s: Seq<(K, V)>, i: int, v: V)
    requires
        distinct_keys(s),
        0 <= i < s.len(),
    ensures
        distinct_keys(s.update(i, (s[i].0, v))),
        assoc(s.update(i, (s[i].0, v))) == assoc(s).insert(s[i].0, v),
    decreases s.len(),
{
    let t = s.drop_last();
    let u = s.update(i, (s[i].0, v));
    if i == s.len() - 1 {
        assert(u.drop_last() =~= t);
    } else {
        assert(u.drop_last() =~= t.update(i, (s[i].0, v)));
        assert(t[i] == s[i]);
        lemma_assoc_update(t, i, v);
        assert(s[i].0 != s[s.len() - 1].0);
    }
    assert(assoc(u) =~= assoc(s).insert(s[i].0, v));
}

/// Appending an item with a new key.
pub proof fn lemma_assoc_push<K, V>(s: Seq<(K, V)>, k: K, v: V)
    requires
        distinct_keys(s),
        forall|i: int| 0 <= i < s.len() ==> (#[trigger] s[i]).0 != k,
    ensures
        distinct_keys(s.push((k, v))),
        !assoc(s).contains_key(k),
        assoc(s.push((k, v))) == assoc(s).insert(k, v),
{
    assert(s.push((k, v)).drop_last() =~= s);
    if assoc(s).contains_key(k) {
        let i = lemma_assoc_item(s, k);
        assert(s[i].0 == k);
    }
}

/// Removing an item.
pub proof fn lemma_assoc_remove<K, V>(s: Seq<(K, V)>, i: int)
    requires
        distinct_keys(s),
        0 <= i < s.len(),
    ensures
        distinct_keys(s.remove(i)),
        assoc(s.remove(i)) == assoc(s).remove(s[i].0),
    decreases s.len(),
{
    let t = s.drop_last();
    let u = s.remove(i);
    assert forall|a: int, b: int| 0 <= a < b < u.len() implies (#[trigger] u[a]).0 != (#[trigger] u[b]).0 by {
        let x = if a < i {
            a
        } else {
            a + 1
        };
        let y = if b < i {
            b
        } else {
            b + 1
        };
        assert(s[x].0 != s[y].0);
    }
    if i == s.len() - 1 {
        assert(u =~= t);
        if assoc(t).contains_key(s[i].0) {
            let j = lemma_assoc_item(t, s[i].0);
            assert(s[j].0 != s[i].0);
        }
        assert(assoc(u) =~= assoc(s).remove(s[i].0));
    } else {
        assert(u.drop_last() =~= t.remove(i));
        assert(t[i] == s[i]);
        lemma_assoc_remove(t, i);
        assert(s[i].0 != s[s.len() - 1].0);
        assert(assoc(u) =~= assoc(s).remove(s[i].0));
    }
}

/// The map of a list of distinct keys has as many keys as the list has items.
pub proof fn lemma_assoc_len<K, V>(s: Seq<(K, V)>)
    requires
        distinct_keys(s),
    ensures
        assoc(s).dom().finite(),
        assoc(s).dom().len() == s.len(),
    decreases s.len(),
{
    if s.len() > 0 {
        let t = s.drop_last();
        lemma_assoc_len(t);
        if assoc(t).contains_key(s.last().0) {
            let i = lemma_assoc_item(t, s.last().0);
            assert(s[i].0 != s[s.len() - 1].0);
        }
    }
}

} // verus!
