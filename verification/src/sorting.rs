//! Stable insertion, the order `slice::sort_by` leaves equal elements in, stated over
//! sequences with an arbitrary strict order.
use vstd::prelude::*;

verus! {

/// `x` placed into `s` after every element it does not sort strictly before: where a stable
/// sort leaves a newcomer that ties with what is already there.
pub open spec fn insert_by<A>(s: Seq<A>, x: A, lt: spec_fn(A, A) -> bool) -> Seq<A>
    decreases s.len(),
{
    if s.len() == 0 || !lt(x, s.last()) {
        s.push(x)
    } else {
        insert_by(s.drop_last(), x, lt).push(s.last())
    }
}

/// `s` stably sorted by `lt`: each element taken in turn and placed after every element
/// already there that it does not sort strictly before.
pub open spec fn sort_by<A>(s: Seq<A>, lt: spec_fn(A, A) -> bool) -> Seq<A>
    decreases s.len(),
{
    if s.len() == 0 {
        seq![]
    } else {
        insert_by(sort_by(s.drop_last(), lt), s.last(), lt)
    }
}

/// The place `insert_by` puts `x`: after `p` elements, when every element from `p` on sorts
/// strictly after `x` and the one before `p` does not.
pub proof fn lemma_insert_by_at<A>(s: Seq<A>, x: A, lt: spec_fn(A, A) -> bool, p: int)
    requires
        0 <= p <= s.len(),
        forall|j: int| p <= j < s.len() ==> lt(x, #[trigger] s[j]),
        p > 0 ==> !lt(x, s[p - 1]),
    ensures
        insert_by(s, x, lt) == s.take(p).push(x) + s.skip(p),
    decreases s.len(),
{
    if s.len() == 0 {
        assert(s.take(p).push(x) + s.skip(p) =~= s.push(x));
    } else if p == s.len() {
        assert(s.take(p) =~= s);
        assert(s.take(p).push(x) + s.skip(p) =~= s.push(x));
    } else {
        assert(lt(x, s[s.len() - 1]));
        let t = s.drop_last();
        assert forall|j: int| p <= j < t.len() implies lt(x, #[trigger] t[j]) by {
            assert(t[j] == s[j]);
        }
        if p > 0 {
            assert(t[p - 1] == s[p - 1]);
        }
        lemma_insert_by_at(t, x, lt, p);
        assert(t.take(p) =~= s.take(p));
        assert((t.take(p).push(x) + t.skip(p)).push(s.last()) =~= s.take(p).push(x) + s.skip(p));
    }
}

/// Inserting keeps every element and adds `x`.
pub proof fn lemma_insert_by_multiset<A>(s: Seq<A>, x: A, lt: spec_fn(A, A) -> bool)
    ensures
        insert_by(s, x, lt).to_multiset() == s.to_multiset().insert(x),
        insert_by(s, x, lt).len() == s.len() + 1,
    decreases s.len(),
{
    broadcast use vstd::seq_lib::group_seq_properties;
    if s.len() == 0 || !lt(x, s.last()) {
    } else {
        let t = s.drop_last();
        lemma_insert_by_multiset(t, x, lt);
        assert(s =~= t.push(s.last()));
        assert(insert_by(s, x, lt).to_multiset() =~= s.to_multiset().insert(x));
    }
}

/// Sorting keeps exactly the elements it was given.
pub proof fn lemma_sort_by_multiset<A>(s: Seq<A>, lt: spec_fn(A, A) -> bool)
    ensures
        sort_by(s, lt).to_multiset() == s.to_multiset(),
        sort_by(s, lt).len() == s.len(),
    decreases s.len(),
{
    broadcast use vstd::seq_lib::group_seq_properties;
    if s.len() > 0 {
        let t = s.drop_last();
        lemma_sort_by_multiset(t, lt);
        lemma_insert_by_multiset(sort_by(t, lt), s.last(), lt);
        assert(s =~= t.push(s.last()));
    }
}

/// `lt` is a strict weak order: irreflexive, transitive, and its incomparability transitive.
pub open spec fn strict_weak_order<A>(lt: spec_fn(A, A) -> bool) -> bool {
    &&& forall|a: A| !#[trigger] lt(a, a)
    &&& forall|a: A, b: A, c: A| #[trigger] lt(a, b) && #[trigger] lt(b, c) ==> lt(a, c)
    &&& forall|a: A, b: A, c: A| #![trigger lt(a, b), lt(b, c)] !lt(a, b) && !lt(b, c) ==> !lt(a, c)
}

/// No element sorts strictly before one to its left.
pub open spec fn sorted_by<A>(s: Seq<A>, lt: spec_fn(A, A) -> bool) -> bool {
    forall|i: int, j: int| 0 <= i < j < s.len() ==> !lt(#[trigger] s[j], #[trigger] s[i])
}

/// Every element after inserting was `x` or was already there.
pub proof fn lemma_insert_by_elements<A>(s: Seq<A>, x: A, lt: spec_fn(A, A) -> bool)
    ensures
        forall|k: int| 0 <= k < insert_by(s, x, lt).len() ==> #[trigger] insert_by(s, x, lt)[k] == x
            || s.contains(insert_by(s, x, lt)[k]),
        insert_by(s, x, lt).len() == s.len() + 1,
    decreases s.len(),
{
    if s.len() == 0 || !lt(x, s.last()) {
        assert forall|k: int| 0 <= k < s.len() + 1 implies #[trigger] s.push(x)[k] == x || s.contains(s.push(x)[k]) by {
            if k < s.len() {
                assert(s.push(x)[k] == s[k]);
            }
        }
    } else {
        let t = s.drop_last();
        lemma_insert_by_elements(t, x, lt);
        let u = insert_by(t, x, lt);
        assert forall|k: int| 0 <= k < u.len() + 1 implies #[trigger] u.push(s.last())[k] == x || s.contains(u.push(s.last())[k]) by {
            if k < u.len() {
                assert(u.push(s.last())[k] == u[k]);
                if u[k] != x {
                    let m = choose|m: int| 0 <= m < t.len() && t[m] == u[k];
                    assert(s[m] == t[m]);
                }
            } else {
                assert(s[s.len() - 1] == s.last());
            }
        }
    }
}

/// Inserting into a sorted sequence leaves it sorted.
pub proof fn lemma_insert_by_sorted<A>(s: Seq<A>, x: A, lt: spec_fn(A, A) -> bool)
    requires
        strict_weak_order(lt),
        sorted_by(s, lt),
    ensures
        sorted_by(insert_by(s, x, lt), lt),
    decreases s.len(),
{
    if s.len() == 0 || !lt(x, s.last()) {
        let r = s.push(x);
        assert forall|i: int, j: int| 0 <= i < j < r.len() implies !lt(#[trigger] r[j], #[trigger] r[i]) by {
            if j == s.len() {
                // x after s[i]: if x < s[i] then, as s[i] is not after s.last(), x < s.last().
                if lt(x, s[i]) {
                    if i < s.len() - 1 {
                        assert(!lt(s[s.len() - 1], s[i]));
                    }
                }
            }
        }
    } else {
        let t = s.drop_last();
        assert(sorted_by(t, lt)) by {
            assert forall|i: int, j: int| 0 <= i < j < t.len() implies !lt(#[trigger] t[j], #[trigger] t[i]) by {
                assert(t[i] == s[i] && t[j] == s[j]);
            }
        }
        lemma_insert_by_sorted(t, x, lt);
        lemma_insert_by_elements(t, x, lt);
        let u = insert_by(t, x, lt);
        let r = u.push(s.last());
        assert forall|k: int| 0 <= k < u.len() implies !lt(s.last(), #[trigger] u[k]) by {
            if u[k] != x {
                let m = choose|m: int| 0 <= m < t.len() && t[m] == u[k];
                assert(t[m] == s[m]);
                assert(!lt(s[s.len() - 1], s[m]));
            }
        }
        assert forall|i: int, j: int| 0 <= i < j < r.len() implies !lt(#[trigger] r[j], #[trigger] r[i]) by {
            if j == u.len() {
                assert(r[i] == u[i]);
            } else {
                assert(r[i] == u[i] && r[j] == u[j]);
            }
        }
    }
}

/// A stable sort leaves its result sorted.
pub proof fn lemma_sort_by_sorted<A>(s: Seq<A>, lt: spec_fn(A, A) -> bool)
    requires
        strict_weak_order(lt),
    ensures
        sorted_by(sort_by(s, lt), lt),
    decreases s.len(),
{
    if s.len() > 0 {
        lemma_sort_by_sorted(s.drop_last(), lt);
        lemma_insert_by_sorted(sort_by(s.drop_last(), lt), s.last(), lt);
    }
}

/// No two elements share a key.
pub open spec fn distinct_by<A, K>(s: Seq<A>, key: spec_fn(A) -> K) -> bool {
    forall|i: int, j: int| 0 <= i < j < s.len() ==> key(#[trigger] s[i]) != key(#[trigger] s[j])
}

/// Sorting keeps the elements it was given, no more and no fewer.
pub proof fn lemma_sort_by_elements<A>(s: Seq<A>, lt: spec_fn(A, A) -> bool)
    ensures
        sort_by(s, lt).len() == s.len(),
        forall|k: int| 0 <= k < sort_by(s, lt).len() ==> s.contains(#[trigger] sort_by(s, lt)[k]),
    decreases s.len(),
{
    if s.len() > 0 {
        let t = s.drop_last();
        lemma_sort_by_elements(t, lt);
        let u = sort_by(t, lt);
        lemma_insert_by_elements(u, s.last(), lt);
        assert forall|k: int| 0 <= k < sort_by(s, lt).len() implies s.contains(#[trigger] sort_by(s, lt)[k]) by {
            let e = insert_by(u, s.last(), lt)[k];
            if e == s.last() {
                assert(s[s.len() - 1] == e);
            } else {
                let m = choose|m: int| 0 <= m < u.len() && u[m] == e;
                let q = choose|q: int| 0 <= q < t.len() && t[q] == u[m];
                assert(s[q] == t[q]);
            }
        }
    }
}

/// Inserting an element whose key is new keeps the keys distinct.
pub proof fn lemma_insert_by_distinct<A, K>(s: Seq<A>, x: A, lt: spec_fn(A, A) -> bool, key: spec_fn(A) -> K)
    requires
        distinct_by(s, key),
        forall|i: int| 0 <= i < s.len() ==> key(#[trigger] s[i]) != key(x),
    ensures
        distinct_by(insert_by(s, x, lt), key),
    decreases s.len(),
{
    if s.len() == 0 || !lt(x, s.last()) {
        let r = s.push(x);
        assert forall|i: int, j: int| 0 <= i < j < r.len() implies key(#[trigger] r[i]) != key(#[trigger] r[j]) by {
            assert(r[i] == s[i]);
            if j < s.len() {
                assert(r[j] == s[j]);
            }
        }
    } else {
        let t = s.drop_last();
        assert forall|i: int, j: int| 0 <= i < j < t.len() implies key(#[trigger] t[i]) != key(#[trigger] t[j]) by {
            assert(t[i] == s[i] && t[j] == s[j]);
        }
        assert forall|i: int| 0 <= i < t.len() implies key(#[trigger] t[i]) != key(x) by {
            assert(t[i] == s[i]);
        }
        lemma_insert_by_distinct(t, x, lt, key);
        lemma_insert_by_elements(t, x, lt);
        let u = insert_by(t, x, lt);
        let r = u.push(s.last());
        assert forall|i: int, j: int| 0 <= i < j < r.len() implies key(#[trigger] r[i]) != key(#[trigger] r[j]) by {
            assert(r[i] == u[i]);
            if j < u.len() {
                assert(r[j] == u[j]);
            } else {
                assert(r[j] == s[s.len() - 1]);
                if u[i] != x {
                    let m = choose|m: int| 0 <= m < t.len() && t[m] == u[i];
                    assert(t[m] == s[m]);
                }
            }
        }
    }
}

/// Sorting keeps distinct keys distinct.
pub proof fn lemma_sort_by_distinct<A, K>(s: Seq<A>, lt: spec_fn(A, A) -> bool, key: spec_fn(A) -> K)
    requires
        distinct_by(s, key),
    ensures
        distinct_by(sort_by(s, lt), key),
    decreases s.len(),
{
    if s.len() > 0 {
        let t = s.drop_last();
        assert forall|i: int, j: int| 0 <= i < j < t.len() implies key(#[trigger] t[i]) != key(#[trigger] t[j]) by {
            assert(t[i] == s[i] && t[j] == s[j]);
        }
        lemma_sort_by_distinct(t, lt, key);
        lemma_sort_by_elements(t, lt);
        let u = sort_by(t, lt);
        assert forall|i: int| 0 <= i < u.len() implies key(#[trigger] u[i]) != key(s.last()) by {
            let m = choose|m: int| 0 <= m < t.len() && t[m] == u[i];
            assert(t[m] == s[m]);
            assert(s[s.len() - 1] == s.last());
        }
        lemma_insert_by_distinct(u, s.last(), lt, key);
    }
}

} // verus!
