//! Ordered listings of keys, and going through them page by page.

use std::collections::VecDeque;

use vstd::prelude::*;

use crate::bytes::{bytes_less, lemma_lex_asymmetric, lemma_lex_total, lemma_lex_transitive, lex_less, views};

verus! {

/// Each key comes before the next ones.
pub open spec fn ascending_keys(s: Seq<Seq<u8>>) -> bool {
    forall|i: int, j: int| 0 <= i < j < s.len() ==> lex_less(#[trigger] s[i], #[trigger] s[j])
}

/// `s` is the ordered list of the keys that `p` picks.
pub open spec fn is_listing(s: Seq<Seq<u8>>, p: spec_fn(Seq<u8>) -> bool) -> bool {
    &&& ascending_keys(s)
    &&& forall|k: Seq<u8>| #[trigger] s.contains(k) <==> p(k)
}

/// The ordered list of the keys that `p` picks.
pub open spec fn listing(p: spec_fn(Seq<u8>) -> bool) -> Seq<Seq<u8>> {
    choose|s: Seq<Seq<u8>>| is_listing(s, p)
}

/// Keys have one ordered list at most.
pub proof fn law_listing_unique(a: Seq<Seq<u8>>, b: Seq<Seq<u8>>, p: spec_fn(Seq<u8>) -> bool)
    requires
        is_listing(a, p),
        is_listing(b, p),
    ensures
        a == b,
    decreases a.len(),
{
    if a.len() == 0 {
        if b.len() > 0 {
            assert(b.contains(b[0]));
            assert(a.contains(b[0]));
        }
        assert(a =~= b);
    } else {
        let x = a.last();
        assert(a.contains(x));
        assert(b.contains(x));
        let y = b.last();
        assert(b.contains(y));
        assert(a.contains(y));
        let i = choose|i: int| 0 <= i < a.len() && a[i] == y;
        let j = choose|j: int| 0 <= j < b.len() && b[j] == x;
        if i < a.len() - 1 && j < b.len() - 1 {
            assert(lex_less(a[i], a[a.len() - 1]));
            assert(lex_less(b[j], b[b.len() - 1]));
            lemma_lex_asymmetric(x, y);
        }
        assert(x == y);
        let q = |k: Seq<u8>| p(k) && k != x;
        let a1 = a.drop_last();
        let b1 = b.drop_last();
        lemma_shorter(a, p);
        lemma_shorter(b, p);
        law_listing_unique(a1, b1, q);
        assert(a =~= a1.push(x));
        assert(b =~= b1.push(y));
    }
}

proof fn lemma_shorter(a: Seq<Seq<u8>>, p: spec_fn(Seq<u8>) -> bool)
    requires
        a.len() > 0,
        is_listing(a, p),
    ensures
        is_listing(a.drop_last(), |k: Seq<u8>| p(k) && k != a.last()),
{
    let a1 = a.drop_last();
    let x = a.last();
    let q = |k: Seq<u8>| p(k) && k != x;
    assert forall|i: int, j: int| 0 <= i < j < a1.len() implies lex_less(#[trigger] a1[i], #[trigger] a1[j]) by {
        assert(lex_less(a[i], a[j]));
    }
    assert forall|k: Seq<u8>| #[trigger] a1.contains(k) <==> q(k) by {
        assert(a.contains(k) <==> p(k));
        if a1.contains(k) {
            let i = choose|i: int| 0 <= i < a1.len() && a1[i] == k;
            assert(a[i] == k);
            assert(lex_less(a[i], a[a.len() - 1]));
            lemma_lex_asymmetric(k, x);
        }
        if q(k) {
            let i = choose|i: int| 0 <= i < a.len() && a[i] == k;
            assert(a1[i] == k);
        }
    }
}

/// One page of a listing: the cursor of the next page (0 when there is none)
/// and up to `count` keys from the cursor on.
pub open spec fn page(all: Seq<Seq<u8>>, cursor: int, count: int) -> (int, Seq<Seq<u8>>) {
    if cursor >= all.len() {
        (0, Seq::empty())
    } else {
        let end = if cursor + count < all.len() { cursor + count } else { all.len() as int };
        (if end >= all.len() { 0 } else { end }, all.subrange(cursor, end))
    }
}

/// All pages from a cursor on, one behind the other.
pub open spec fn pages_from(all: Seq<Seq<u8>>, cursor: int, count: int) -> Seq<Seq<u8>>
    decreases all.len() - cursor,
{
    if count <= 0 || cursor < 0 || cursor >= all.len() {
        Seq::empty()
    } else {
        let (next, keys) = page(all, cursor, count);
        if next == 0 {
            keys
        } else {
            keys + pages_from(all, next, count)
        }
    }
}

/// Going from page to page until the cursor is 0 shows every key once, in
/// order.
pub proof fn law_pages_cover(all: Seq<Seq<u8>>, cursor: int, count: int)
    requires
        count > 0,
        0 <= cursor <= all.len(),
    ensures
        pages_from(all, cursor, count) == all.subrange(cursor, all.len() as int),
    decreases all.len() - cursor,
{
    if cursor < all.len() {
        let (next, keys) = page(all, cursor, count);
        if next != 0 {
            law_pages_cover(all, next, count);
        }
        assert(pages_from(all, cursor, count) =~= all.subrange(cursor, all.len() as int));
    } else {
        assert(all.subrange(cursor, all.len() as int) =~= Seq::empty());
    }
}

/// Whether a key is in one of three lists.
spec fn in_either(r: Seq<Seq<u8>>, a: Seq<Seq<u8>>, b: Seq<Seq<u8>>, k: Seq<u8>) -> bool {
    r.contains(k) || a.contains(k) || b.contains(k)
}

/// Every key of `a` comes before every key of `b`.
spec fn all_before(a: Seq<Seq<u8>>, b: Seq<Seq<u8>>) -> bool {
    forall|i: int, j: int| 0 <= i < a.len() && 0 <= j < b.len() ==> lex_less(#[trigger] a[i], #[trigger] b[j])
}

/// No key is in both.
spec fn apart(a: Seq<Seq<u8>>, b: Seq<Seq<u8>>) -> bool {
    forall|i: int, j: int| 0 <= i < a.len() && 0 <= j < b.len() ==> #[trigger] a[i] != #[trigger] b[j]
}

/// Moves the front of `a`, which comes before all of `b`, to the end of `r`.
proof fn lemma_move_front(r: Seq<Seq<u8>>, a: Seq<Seq<u8>>, b: Seq<Seq<u8>>)
    requires
        a.len() > 0,
        ascending_keys(r),
        ascending_keys(a),
        ascending_keys(b),
        all_before(r, a),
        all_before(r, b),
        apart(a, b),
        b.len() > 0 ==> lex_less(a[0], b[0]),
    ensures
        ascending_keys(r.push(a[0])),
        ascending_keys(a.subrange(1, a.len() as int)),
        all_before(r.push(a[0]), a.subrange(1, a.len() as int)),
        all_before(r.push(a[0]), b),
        apart(a.subrange(1, a.len() as int), b),
        forall|k: Seq<u8>| #[trigger] in_either(r.push(a[0]), a.subrange(1, a.len() as int), b, k) == in_either(r, a, b, k),
{
    let x = a[0];
    let t = a.subrange(1, a.len() as int);
    let q = r.push(x);
    assert forall|i: int, j: int| 0 <= i < j < q.len() implies lex_less(#[trigger] q[i], #[trigger] q[j]) by {
        if j < r.len() {
            assert(lex_less(r[i], r[j]));
        } else {
            assert(lex_less(r[i], a[0]));
        }
    }
    assert forall|i: int, j: int| 0 <= i < j < t.len() implies lex_less(#[trigger] t[i], #[trigger] t[j]) by {
        assert(lex_less(a[i + 1], a[j + 1]));
    }
    assert forall|i: int, j: int| 0 <= i < q.len() && 0 <= j < t.len() implies lex_less(#[trigger] q[i], #[trigger] t[j]) by {
        if i < r.len() {
            assert(lex_less(r[i], a[j + 1]));
        } else {
            assert(lex_less(a[0], a[j + 1]));
        }
    }
    assert forall|i: int, j: int| 0 <= i < q.len() && 0 <= j < b.len() implies lex_less(#[trigger] q[i], #[trigger] b[j]) by {
        if i < r.len() {
            assert(lex_less(r[i], b[j]));
        } else if j > 0 {
            assert(lex_less(b[0], b[j]));
            lemma_lex_transitive(a[0], b[0], b[j]);
        }
    }
    assert forall|i: int, j: int| 0 <= i < t.len() && 0 <= j < b.len() implies #[trigger] t[i] != #[trigger] b[j] by {
        assert(a[i + 1] != b[j]);
    }
    assert forall|k: Seq<u8>| #[trigger] in_either(q, t, b, k) == in_either(r, a, b, k) by {
        if r.contains(k) {
            let i = choose|i: int| 0 <= i < r.len() && r[i] == k;
            assert(q[i] == k);
        }
        if a.contains(k) {
            let i = choose|i: int| 0 <= i < a.len() && a[i] == k;
            if i == 0 {
                assert(q[r.len() as int] == k);
            } else {
                assert(t[i - 1] == k);
            }
        }
        if q.contains(k) {
            let i = choose|i: int| 0 <= i < q.len() && q[i] == k;
            if i < r.len() {
                assert(r[i] == k);
            } else {
                assert(a[0] == k);
            }
        }
        if t.contains(k) {
            let i = choose|i: int| 0 <= i < t.len() && t[i] == k;
            assert(a[i + 1] == k);
        }
    }
}

proof fn lemma_in_either_swap(r: Seq<Seq<u8>>, a: Seq<Seq<u8>>, b: Seq<Seq<u8>>)
    ensures
        forall|k: Seq<u8>| #[trigger] in_either(r, a, b, k) == in_either(r, b, a, k),
{
}

/// Merges two ordered lists without common keys into one.
fn merge(mut a: VecDeque<Vec<u8>>, mut b: VecDeque<Vec<u8>>) -> (r: VecDeque<Vec<u8>>)
    requires
        ascending_keys(views(a@)),
        ascending_keys(views(b@)),
        apart(views(a@), views(b@)),
    ensures
        ascending_keys(views(r@)),
        forall|k: Seq<u8>| #[trigger] views(r@).contains(k) <==> views(a@).contains(k) || views(b@).contains(k),
{
    let ghost a0 = views(a@);
    let ghost b0 = views(b@);
    let mut r: VecDeque<Vec<u8>> = VecDeque::new();
    assert forall|k: Seq<u8>| #[trigger] in_either(views(r@), views(a@), views(b@), k) == (a0.contains(k) || b0.contains(k)) by {
        assert(views(r@).len() == 0);
    }
    while a.len() > 0 || b.len() > 0
        invariant
            ascending_keys(views(r@)),
            ascending_keys(views(a@)),
            ascending_keys(views(b@)),
            all_before(views(r@), views(a@)),
            all_before(views(r@), views(b@)),
            apart(views(a@), views(b@)),
            forall|k: Seq<u8>| #[trigger] in_either(views(r@), views(a@), views(b@), k) == (a0.contains(k) || b0.contains(k)),
        decreases a@.len() + b@.len(),
    {
        let ghost ra = views(r@);
        let ghost aa = views(a@);
        let ghost bb = views(b@);
        let from_a: bool = if a.len() == 0 {
            false
        } else if b.len() == 0 {
            true
        } else {
            proof {
                lemma_lex_total(aa[0], bb[0]);
            }
            bytes_less(&a[0], &b[0])
        };
        if from_a {
            proof {
                lemma_move_front(ra, aa, bb);
            }
            if let Some(x) = a.pop_front() {
                r.push_back(x);
            }
            assert(views(a@) =~= aa.subrange(1, aa.len() as int));
            assert(views(r@) =~= ra.push(aa[0]));
        } else {
            proof {
                assert(apart(bb, aa)) by {
                    assert forall|i: int, j: int| 0 <= i < bb.len() && 0 <= j < aa.len() implies #[trigger] bb[i] != #[trigger] aa[j] by {
                        assert(aa[j] != bb[i]);
                    }
                }
                lemma_move_front(ra, bb, aa);
                lemma_in_either_swap(ra, bb, aa);
                lemma_in_either_swap(ra.push(bb[0]), aa, bb.subrange(1, bb.len() as int));
                assert(apart(aa, bb.subrange(1, bb.len() as int))) by {
                    let t = bb.subrange(1, bb.len() as int);
                    assert forall|i: int, j: int| 0 <= i < aa.len() && 0 <= j < t.len() implies #[trigger] aa[i] != #[trigger] t[j] by {
                        assert(aa[i] != bb[j + 1]);
                    }
                }
            }
            if let Some(x) = b.pop_front() {
                r.push_back(x);
            }
            assert(views(b@) =~= bb.subrange(1, bb.len() as int));
            assert(views(r@) =~= ra.push(bb[0]));
        }
    }
    assert forall|k: Seq<u8>| #[trigger] views(r@).contains(k) <==> a0.contains(k) || b0.contains(k) by {
        assert(in_either(views(r@), views(a@), views(b@), k) == (a0.contains(k) || b0.contains(k)));
    }
    r
}

/// Puts keys in order. No key may occur twice.
fn sort_deque(mut v: VecDeque<Vec<u8>>) -> (r: VecDeque<Vec<u8>>)
    requires
        views(v@).no_duplicates(),
    ensures
        ascending_keys(views(r@)),
        forall|k: Seq<u8>| #[trigger] views(r@).contains(k) <==> views(v@).contains(k),
    decreases v@.len(),
{
    let ghost all = views(v@);
    if v.len() <= 1 {
        return v;
    }
    let mid: usize = v.len() / 2;
    let tail = v.split_off(mid);
    proof {
        let h = views(v@);
        let t = views(tail@);
        assert(h =~= all.subrange(0, mid as int));
        assert(t =~= all.subrange(mid as int, all.len() as int));
        assert forall|i: int, j: int| 0 <= i < h.len() && 0 <= j < t.len() implies #[trigger] h[i] != #[trigger] t[j] by {
            assert(all[i] != all[mid + j]);
        }
        assert forall|k: Seq<u8>| #[trigger] all.contains(k) <==> h.contains(k) || t.contains(k) by {
            if all.contains(k) {
                let i = choose|i: int| 0 <= i < all.len() && all[i] == k;
                if i < mid {
                    assert(h[i] == k);
                } else {
                    assert(t[i - mid] == k);
                }
            }
            if h.contains(k) {
                let i = choose|i: int| 0 <= i < h.len() && h[i] == k;
                assert(all[i] == k);
            }
            if t.contains(k) {
                let i = choose|i: int| 0 <= i < t.len() && t[i] == k;
                assert(all[mid + i] == k);
            }
        }
    }
    let ghost h = views(v@);
    let ghost t = views(tail@);
    let a = sort_deque(v);
    let b = sort_deque(tail);
    proof {
        assert forall|i: int, j: int| 0 <= i < views(a@).len() && 0 <= j < views(b@).len() implies #[trigger] views(a@)[i] != #[trigger] views(b@)[j] by {
            assert(views(a@).contains(views(a@)[i]));
            assert(views(b@).contains(views(b@)[j]));
            let p = choose|p: int| 0 <= p < h.len() && h[p] == views(a@)[i];
            let q = choose|q: int| 0 <= q < t.len() && t[q] == views(b@)[j];
            assert(h[p] != t[q]);
        }
    }
    merge(a, b)
}

/// Puts keys in order. No key may occur twice.
pub fn sort_keys(v: VecDeque<Vec<u8>>) -> (r: Vec<Vec<u8>>)
    requires
        views(v@).no_duplicates(),
    ensures
        ascending_keys(views(r@)),
        forall|k: Seq<u8>| #[trigger] views(r@).contains(k) <==> views(v@).contains(k),
{
    let mut d = sort_deque(v);
    let ghost all = views(d@);
    let mut r: Vec<Vec<u8>> = Vec::new();
    assert(views(r@) + views(d@) =~= all);
    while d.len() > 0
        invariant
            views(r@) + views(d@) == all,
        decreases d@.len(),
    {
        let ghost dd = views(d@);
        let ghost rr = views(r@);
        if let Some(x) = d.pop_front() {
            r.push(x);
        }
        assert(views(d@) =~= dd.subrange(1, dd.len() as int));
        assert(views(r@) =~= rr.push(dd[0]));
        assert(views(r@) + views(d@) =~= rr + dd);
    }
    assert(views(r@) =~= all);
    r
}

} // verus!
