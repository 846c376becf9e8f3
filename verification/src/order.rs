//! Stable sorting: what the sorted form of a sequence is, and that it is
//! sorted, keeps every item, and keeps the order of items that rank alike.

use vstd::prelude::*;

verus! {

/// `s` with `x` put in behind every item at its end that ranks no higher.
pub open spec fn stable_insert<A>(s: Seq<A>, x: A, leq: spec_fn(A, A) -> bool) -> Seq<A>
    decreases s.len(),
{
    if s.len() == 0 || leq(s.last(), x) {
        s.push(x)
    } else {
        stable_insert(s.drop_last(), x, leq).push(s.last())
    }
}

/// The items of `s` in ascending order; items that rank alike stay in their
/// order.
pub open spec fn stable_sort<A>(s: Seq<A>, leq: spec_fn(A, A) -> bool) -> Seq<A>
    decreases s.len(),
{
    if s.len() == 0 {
        s
    } else {
        stable_insert(stable_sort(s.drop_last(), leq), s.last(), leq)
    }
}

/// `leq` ranks any two items, transitively.
pub open spec fn total_preorder<A>(leq: spec_fn(A, A) -> bool) -> bool {
    &&& forall|x: A, y: A| #[trigger] leq(x, y) || leq(y, x)
    &&& forall|x: A, y: A, z: A| #[trigger] leq(x, y) && #[trigger] leq(y, z) ==> leq(x, z)
}

/// No item ranks below one before it.
pub open spec fn ascending<A>(s: Seq<A>, leq: spec_fn(A, A) -> bool) -> bool {
    forall|i: int, j: int| 0 <= i < j < s.len() ==> #[trigger] leq(s[i], s[j])
}

proof fn lemma_insert_keeps<A>(s: Seq<A>, x: A, leq: spec_fn(A, A) -> bool)
    ensures
        stable_insert(s, x, leq).len() == s.len() + 1,
        stable_insert(s, x, leq).to_multiset() == s.to_multiset().insert(x),
    decreases s.len(),
{
    broadcast use vstd::seq_lib::group_to_multiset_ensures;

    if s.len() == 0 || leq(s.last(), x) {
    } else {
        lemma_insert_keeps(s.drop_last(), x, leq);
        let t = stable_insert(s.drop_last(), x, leq);
        assert(s =~= s.drop_last().push(s.last()));
        assert(t.push(s.last()).to_multiset() =~= s.to_multiset().insert(x));
    }
}

proof fn lemma_insert_members<A>(s: Seq<A>, x: A, leq: spec_fn(A, A) -> bool)
    ensures
        stable_insert(s, x, leq).len() == s.len() + 1,
        forall|i: int|
            0 <= i < s.len() + 1 ==> #[trigger] stable_insert(s, x, leq)[i] == x || s.contains(
                stable_insert(s, x, leq)[i],
            ),
    decreases s.len(),
{
    let r = stable_insert(s, x, leq);
    if s.len() == 0 || leq(s.last(), x) {
        assert forall|i: int| 0 <= i < s.len() + 1 implies #[trigger] r[i] == x || s.contains(r[i]) by {
            if i < s.len() {
                assert(s[i] == r[i]);
            }
        }
    } else {
        let t = s.drop_last();
        lemma_insert_members(t, x, leq);
        assert forall|i: int| 0 <= i < s.len() + 1 implies #[trigger] r[i] == x || s.contains(r[i]) by {
            if i < s.len() {
                let u = stable_insert(t, x, leq);
                assert(r[i] == u[i]);
                if u[i] != x {
                    let k = choose|k: int| 0 <= k < t.len() && t[k] == u[i];
                    assert(s[k] == u[i]);
                }
            } else {
                assert(s[s.len() - 1] == r[i]);
            }
        }
    }
}

proof fn lemma_insert_ascending<A>(s: Seq<A>, x: A, leq: spec_fn(A, A) -> bool)
    requires
        total_preorder(leq),
        ascending(s, leq),
    ensures
        ascending(stable_insert(s, x, leq), leq),
    decreases s.len(),
{
    let r = stable_insert(s, x, leq);
    if s.len() == 0 || leq(s.last(), x) {
        assert forall|i: int, j: int| 0 <= i < j < r.len() implies #[trigger] leq(r[i], r[j]) by {
            if j < s.len() {
                assert(leq(s[i], s[j]));
            } else if i < s.len() - 1 {
                assert(leq(s[i], s[s.len() - 1]));
            }
        }
    } else {
        let t = s.drop_last();
        let u = stable_insert(t, x, leq);
        assert forall|i: int, j: int| 0 <= i < j < t.len() implies #[trigger] leq(t[i], t[j]) by {
            assert(leq(s[i], s[j]));
        }
        lemma_insert_ascending(t, x, leq);
        lemma_insert_members(t, x, leq);
        assert(leq(x, s.last()));
        assert forall|i: int, j: int| 0 <= i < j < r.len() implies #[trigger] leq(r[i], r[j]) by {
            if j < u.len() {
                assert(leq(u[i], u[j]));
            } else {
                assert(r[j] == s.last());
                assert(r[i] == u[i]);
                if u[i] != x {
                    let k = choose|k: int| 0 <= k < t.len() && t[k] == u[i];
                    assert(leq(s[k], s[s.len() - 1]));
                }
            }
        }
    }
}

proof fn lemma_insert_filter<A>(s: Seq<A>, x: A, leq: spec_fn(A, A) -> bool, p: spec_fn(A) -> bool)
    requires
        total_preorder(leq),
        forall|a: A, b: A| #[trigger] p(a) && #[trigger] p(b) ==> leq(a, b),
    ensures
        stable_insert(s, x, leq).filter(p) == s.push(x).filter(p),
    decreases s.len(),
{
    broadcast use Seq::lemma_filter_push;

    if s.len() == 0 || leq(s.last(), x) {
    } else {
        let t = s.drop_last();
        let u = stable_insert(t, x, leq);
        lemma_insert_filter(t, x, leq, p);
        assert(s == t.push(s.last()));
        assert(!(p(s.last()) && p(x)));
        assert(u.push(s.last()).filter(p) == s.push(x).filter(p));
    }
}

/// The sorted form has the items of `s`, each as often.
pub proof fn law_sort_keeps_items<A>(s: Seq<A>, leq: spec_fn(A, A) -> bool)
    ensures
        stable_sort(s, leq).len() == s.len(),
        stable_sort(s, leq).to_multiset() == s.to_multiset(),
    decreases s.len(),
{
    broadcast use vstd::seq_lib::group_to_multiset_ensures;

    if s.len() > 0 {
        law_sort_keeps_items(s.drop_last(), leq);
        lemma_insert_keeps(stable_sort(s.drop_last(), leq), s.last(), leq);
        assert(s =~= s.drop_last().push(s.last()));
    }
}

/// The sorted form is in ascending order.
pub proof fn law_sort_ascending<A>(s: Seq<A>, leq: spec_fn(A, A) -> bool)
    requires
        total_preorder(leq),
    ensures
        ascending(stable_sort(s, leq), leq),
    decreases s.len(),
{
    if s.len() > 0 {
        law_sort_ascending(s.drop_last(), leq);
        lemma_insert_ascending(stable_sort(s.drop_last(), leq), s.last(), leq);
    }
}

/// Items that rank alike (all those that `p` picks) keep their order.
pub proof fn law_sort_stable<A>(s: Seq<A>, leq: spec_fn(A, A) -> bool, p: spec_fn(A) -> bool)
    requires
        total_preorder(leq),
        forall|a: A, b: A| #[trigger] p(a) && #[trigger] p(b) ==> leq(a, b),
    ensures
        stable_sort(s, leq).filter(p) == s.filter(p),
    decreases s.len(),
{
    if s.len() > 0 {
        let t = s.drop_last();
        law_sort_stable(t, leq, p);
        lemma_insert_filter(stable_sort(t, leq), s.last(), leq, p);
        assert(s =~= t.push(s.last()));
        broadcast use Seq::lemma_filter_push;

    }
}

/// How many of the first `n` items come before the item at place `i` in order:
/// those that rank lower, and those before it that rank alike.
pub open spec fn ahead<A>(s: Seq<A>, leq: spec_fn(A, A) -> bool, i: int, n: int) -> int
    decreases n,
{
    if n <= 0 {
        0
    } else {
        let j = n - 1;
        ahead(s, leq, i, j) + if j < i && leq(s[j], s[i]) || j > i && !leq(s[i], s[j]) {
            1int
        } else {
            0
        }
    }
}

/// How many items `p` picks.
spec fn picks<A>(s: Seq<A>, p: spec_fn(A) -> bool) -> int
    decreases s.len(),
{
    if s.len() == 0 {
        0
    } else {
        picks(s.drop_last(), p) + if p(s.last()) {
            1int
        } else {
            0
        }
    }
}

proof fn lemma_picks_insert<A>(s: Seq<A>, x: A, leq: spec_fn(A, A) -> bool, p: spec_fn(A) -> bool)
    ensures
        picks(stable_insert(s, x, leq), p) == picks(s, p) + if p(x) {
            1int
        } else {
            0
        },
    decreases s.len(),
{
    if s.len() == 0 || leq(s.last(), x) {
        assert(s.push(x).drop_last() =~= s);
    } else {
        lemma_picks_insert(s.drop_last(), x, leq, p);
        let t = stable_insert(s.drop_last(), x, leq);
        assert(t.push(s.last()).drop_last() =~= t);
    }
}

proof fn lemma_picks_sort<A>(s: Seq<A>, leq: spec_fn(A, A) -> bool, p: spec_fn(A) -> bool)
    ensures
        picks(stable_sort(s, leq), p) == picks(s, p),
    decreases s.len(),
{
    if s.len() > 0 {
        lemma_picks_sort(s.drop_last(), leq, p);
        lemma_picks_insert(stable_sort(s.drop_last(), leq), s.last(), leq, p);
    }
}

/// An item goes behind all that rank no higher, and before the others.
proof fn lemma_insert_place<A>(s: Seq<A>, x: A, leq: spec_fn(A, A) -> bool)
    requires
        total_preorder(leq),
        ascending(s, leq),
    ensures
        ({
            let k = picks(s, |y: A| leq(y, x));
            let r = stable_insert(s, x, leq);
            &&& 0 <= k <= s.len()
            &&& r.len() == s.len() + 1
            &&& r[k] == x
            &&& forall|q: int| 0 <= q < k ==> leq(#[trigger] s[q], x) && r[q] == s[q]
            &&& forall|q: int| k <= q < s.len() ==> !leq(#[trigger] s[q], x) && r[q + 1] == s[q]
        }),
    decreases s.len(),
{
    let p = |y: A| leq(y, x);
    let r = stable_insert(s, x, leq);
    if s.len() == 0 {
    } else {
        let t = s.drop_last();
        assert forall|i: int, j: int| 0 <= i < j < t.len() implies #[trigger] leq(t[i], t[j]) by {
            assert(leq(s[i], s[j]));
        }
        lemma_insert_place(t, x, leq);
        let kt = picks(t, p);
        if leq(s.last(), x) {
            assert forall|q: int| 0 <= q < s.len() implies leq(#[trigger] s[q], x) by {
                if q < s.len() - 1 {
                    assert(leq(s[q], s[s.len() - 1]));
                }
            }
            if kt < t.len() {
                assert(!leq(t[kt], x));
                assert(leq(s[kt], x));
            }
        } else {
            let u = stable_insert(t, x, leq);
            assert forall|q: int| 0 <= q < kt implies leq(#[trigger] s[q], x) && r[q] == s[q] by {
                assert(leq(t[q], x) && u[q] == t[q]);
            }
            assert forall|q: int| kt <= q < s.len() implies !leq(#[trigger] s[q], x) && r[q + 1] == s[q] by {
                if q < t.len() {
                    assert(!leq(t[q], x) && u[q + 1] == t[q]);
                }
            }
        }
    }
}

proof fn lemma_ahead_picks<A>(s: Seq<A>, leq: spec_fn(A, A) -> bool, x: A, n: int)
    requires
        0 <= n <= s.len(),
    ensures
        ahead(s.push(x), leq, s.len() as int, n) == picks(s.take(n), |y: A| leq(y, x)),
    decreases n,
{
    if n > 0 {
        lemma_ahead_picks(s, leq, x, n - 1);
        assert(s.take(n).drop_last() =~= s.take(n - 1));
        assert(s.take(n).last() == s[n - 1]);
        assert(s.push(x)[n - 1] == s[n - 1]);
    }
}

proof fn lemma_ahead_same<A>(s: Seq<A>, leq: spec_fn(A, A) -> bool, x: A, i: int, n: int)
    requires
        0 <= n <= s.len(),
        0 <= i < s.len(),
    ensures
        ahead(s.push(x), leq, i, n) == ahead(s, leq, i, n),
        0 <= ahead(s, leq, i, n) <= n,
    decreases n,
{
    if n > 0 {
        lemma_ahead_same(s, leq, x, i, n - 1);
        assert(s.push(x)[n - 1] == s[n - 1]);
        assert(s.push(x)[i] == s[i]);
    }
}

/// In the sorted form an item stands behind just as many others as rank lower,
/// or rank alike and came before it.
pub proof fn law_sort_places<A>(s: Seq<A>, leq: spec_fn(A, A) -> bool, i: int)
    requires
        total_preorder(leq),
        0 <= i < s.len(),
    ensures
        0 <= ahead(s, leq, i, s.len() as int) < s.len(),
        stable_sort(s, leq)[ahead(s, leq, i, s.len() as int)] == s[i],
    decreases s.len(),
{
    let t = s.drop_last();
    let x = s.last();
    let st = stable_sort(t, leq);
    let p = |y: A| leq(y, x);
    assert(s =~= t.push(x));
    law_sort_ascending(t, leq);
    law_sort_keeps_items(t, leq);
    lemma_insert_place(st, x, leq);
    lemma_picks_sort(t, leq, p);
    let n = s.len() as int;
    if i == n - 1 {
        lemma_ahead_picks(t, leq, x, n - 1);
        assert(t.take(n - 1) =~= t);
        assert(ahead(s, leq, i, n) == ahead(s, leq, i, n - 1));
    } else {
        law_sort_places(t, leq, i);
        lemma_ahead_same(t, leq, x, i, n - 1);
        let q = ahead(t, leq, i, n - 1);
        assert(st[q] == t[i]);
        let k = picks(st, p);
        if q < k {
            assert(leq(st[q], x));
        } else {
            assert(!leq(st[q], x));
        }
    }
}

} // verus!
