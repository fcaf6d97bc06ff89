//! Ordering of reports and roots: a stable sort on keys made of a text, a
//! number and a second text, compared in that order.
use vstd::prelude::*;

use crate::text::{compare_text, text_less};

verus! {

/// The key an item is sorted by.
pub struct SortKey {
    pub first: String,
    pub number: usize,
    pub second: String,
}

pub type KeyView = (Seq<char>, nat, Seq<char>);

pub open spec fn key_view(k: SortKey) -> KeyView {
    (k.first@, k.number as nat, k.second@)
}

/// Strict lexicographic order on keys.
pub open spec fn key_less(a: KeyView, b: KeyView) -> bool {
    ||| text_less(a.0, b.0)
    ||| (a.0 == b.0 && a.1 < b.1)
    ||| (a.0 == b.0 && a.1 == b.1 && text_less(a.2, b.2))
}

/// `perm` lists each index below `n` exactly once.
pub open spec fn is_permutation(perm: Seq<usize>, n: nat) -> bool {
    &&& perm.len() == n
    &&& forall|i: int| 0 <= i < perm.len() ==> #[trigger] perm[i] < n
    &&& forall|i: int, j: int| 0 <= i < j < perm.len() ==> perm[i] != perm[j]
    &&& forall|v: usize| v < n ==> #[trigger] listed(perm, v)
}

/// `v` occurs in `perm`.
pub open spec fn listed(perm: Seq<usize>, v: usize) -> bool {
    exists|i: int| 0 <= i < perm.len() && perm[i] == v
}

/// The keys taken in the order of `perm` never decrease.
pub open spec fn sorted_by_keys(keys: Seq<SortKey>, perm: Seq<usize>) -> bool {
    forall|i: int, j: int|
        #![trigger perm[i], perm[j]]
        0 <= i < j < perm.len() ==> !key_less(key_view(keys[perm[j] as int]), key_view(keys[perm[i] as int]))
}

/// Items with equal keys keep their relative order.
pub open spec fn stable(keys: Seq<SortKey>, perm: Seq<usize>) -> bool {
    forall|i: int, j: int|
        #![trigger perm[i], perm[j]]
        0 <= i < j < perm.len() && key_view(keys[perm[i] as int]) == key_view(keys[perm[j] as int])
            ==> perm[i] < perm[j]
}

proof fn lemma_text_less_asymmetric(a: Seq<char>, b: Seq<char>)
    ensures
        text_less(a, b) ==> !text_less(b, a),
    decreases a.len(),
{
    if a.len() > 0 && b.len() > 0 && a[0] == b[0] {
        lemma_text_less_asymmetric(a.drop_first(), b.drop_first());
    }
}

proof fn lemma_text_less_transitive(a: Seq<char>, b: Seq<char>, c: Seq<char>)
    ensures
        text_less(a, b) && text_less(b, c) ==> text_less(a, c),
    decreases a.len(),
{
    if a.len() > 0 && b.len() > 0 && c.len() > 0 && a[0] == b[0] && b[0] == c[0] {
        lemma_text_less_transitive(a.drop_first(), b.drop_first(), c.drop_first());
    }
}

proof fn lemma_text_less_total(a: Seq<char>, b: Seq<char>)
    ensures
        a != b ==> text_less(a, b) || text_less(b, a),
    decreases a.len(),
{
    if a.len() > 0 && b.len() > 0 && a[0] == b[0] {
        lemma_text_less_total(a.drop_first(), b.drop_first());
        if a.drop_first() == b.drop_first() {
            assert(a =~= seq![a[0]] + a.drop_first());
            assert(b =~= seq![b[0]] + b.drop_first());
        }
    }
    if a.len() == 0 && b.len() == 0 {
        assert(a =~= b);
    }
}

proof fn lemma_text_less_irreflexive(a: Seq<char>)
    ensures
        !text_less(a, a),
    decreases a.len(),
{
    if a.len() > 0 {
        lemma_text_less_irreflexive(a.drop_first());
    }
}

/// `key_less` is a strict total order.
pub proof fn lemma_key_order(a: KeyView, b: KeyView, c: KeyView)
    ensures
        !key_less(a, a),
        key_less(a, b) ==> !key_less(b, a),
        key_less(a, b) && key_less(b, c) ==> key_less(a, c),
        a != b ==> key_less(a, b) || key_less(b, a),
{
    lemma_text_less_irreflexive(a.0);
    lemma_text_less_irreflexive(a.2);
    lemma_text_less_asymmetric(a.0, b.0);
    lemma_text_less_asymmetric(b.0, a.0);
    lemma_text_less_asymmetric(a.2, b.2);
    lemma_text_less_asymmetric(b.2, a.2);
    lemma_text_less_transitive(a.0, b.0, c.0);
    lemma_text_less_transitive(a.2, b.2, c.2);
    lemma_text_less_total(a.0, b.0);
    lemma_text_less_total(a.2, b.2);
}

/// `key_view(a) < key_view(b)`
pub fn less_key(a: &SortKey, b: &SortKey) -> (r: bool)
    ensures
        r == key_less(key_view(*a), key_view(*b)),
{
    proof {
        lemma_key_order(key_view(*a), key_view(*b), key_view(*b));
    }
    let c = compare_text(a.first.as_str(), b.first.as_str());
    if c != 0 {
        return c < 0;
    }
    if a.number != b.number {
        return a.number < b.number;
    }
    compare_text(a.second.as_str(), b.second.as_str()) < 0
}

/// The order in which to list items with these keys: a stable sort.
pub fn sort_order(keys: &Vec<SortKey>) -> (perm: Vec<usize>)
    ensures
        is_permutation(perm@, keys@.len()),
        sorted_by_keys(keys@, perm@),
        stable(keys@, perm@),
{
    let mut perm: Vec<usize> = Vec::new();
    let mut i: usize = 0;
    while i < keys.len()
        invariant
            i <= keys@.len(),
            is_permutation(perm@, i as nat),
            sorted_by_keys(keys@, perm@),
            stable(keys@, perm@),
        decreases keys@.len() - i,
    {
        // Insert `i` after every entry whose key is not greater than its own.
        let mut p: usize = perm.len();
        while p > 0 && less_key(&keys[i], &keys[perm[p - 1]])
            invariant
                i < keys@.len(),
                p <= perm@.len(),
                is_permutation(perm@, i as nat),
                sorted_by_keys(keys@, perm@),
                forall|q: int| p <= q < perm@.len() ==> key_less(
                    key_view(keys@[i as int]),
                    key_view(#[trigger] keys@[perm@[q] as int]),
                ),
            decreases p,
        {
            p = p - 1;
        }
        let ghost old_perm = perm@;
        proof {
            // Every entry before `p` is not greater than the new key.
            assert forall|q: int| 0 <= q < p implies !key_less(
                key_view(keys@[i as int]),
                key_view(#[trigger] keys@[old_perm[q] as int]),
            ) by {
                let kq = key_view(keys@[old_perm[q] as int]);
                let kp = key_view(keys@[old_perm[p - 1] as int]);
                let ki = key_view(keys@[i as int]);
                lemma_key_order(ki, kq, kp);
                lemma_key_order(kq, kp, ki);
                lemma_key_order(ki, kp, kq);
                if q < p - 1 {
                    assert(!key_less(kp, kq));
                }
            }
        }
        perm.insert(p, i);
        proof {
            let ki = key_view(keys@[i as int]);
            assert forall|a: int| 0 <= a < perm@.len() implies #[trigger] perm@[a] < i + 1 by {
                if a < p {
                    assert(perm@[a] == old_perm[a]);
                } else if a > p {
                    assert(perm@[a] == old_perm[a - 1]);
                }
            }
            assert forall|a: int, b: int| 0 <= a < b < perm@.len() implies perm@[a] != perm@[b] by {
                if a < p && b < p {
                    assert(perm@[a] == old_perm[a] && perm@[b] == old_perm[b]);
                } else if a < p && b == p {
                    assert(perm@[a] == old_perm[a]);
                } else if a < p && b > p {
                    assert(perm@[a] == old_perm[a] && perm@[b] == old_perm[b - 1]);
                } else if a == p {
                    assert(perm@[b] == old_perm[b - 1]);
                } else {
                    assert(perm@[a] == old_perm[a - 1] && perm@[b] == old_perm[b - 1]);
                }
            }
            assert forall|v: usize| v < i + 1 implies #[trigger] listed(perm@, v) by {
                if v == i {
                    assert(perm@[p as int] == v);
                } else {
                    assert(listed(old_perm, v));
                    let a = choose|a: int| 0 <= a < old_perm.len() && old_perm[a] == v;
                    if a < p {
                        assert(perm@[a] == v);
                    } else {
                        assert(perm@[a + 1] == v);
                    }
                }
            }
            assert forall|a: int, b: int|
                #![trigger perm@[a], perm@[b]]
                0 <= a < b < perm@.len() implies !key_less(
                    key_view(keys@[perm@[b] as int]),
                    key_view(keys@[perm@[a] as int]),
                ) by {
                if a < p && b < p {
                    assert(perm@[a] == old_perm[a] && perm@[b] == old_perm[b]);
                } else if a < p && b == p {
                    assert(perm@[a] == old_perm[a]);
                } else if a < p && b > p {
                    assert(perm@[a] == old_perm[a] && perm@[b] == old_perm[b - 1]);
                } else if a == p {
                    assert(perm@[b] == old_perm[b - 1]);
                    lemma_key_order(ki, key_view(keys@[perm@[b] as int]), ki);
                } else {
                    assert(perm@[a] == old_perm[a - 1] && perm@[b] == old_perm[b - 1]);
                }
            }
            assert forall|a: int, b: int|
                #![trigger perm@[a], perm@[b]]
                0 <= a < b < perm@.len() && key_view(keys@[perm@[a] as int]) == key_view(
                    keys@[perm@[b] as int],
                ) implies perm@[a] < perm@[b] by {
                if a < p && b < p {
                    assert(perm@[a] == old_perm[a] && perm@[b] == old_perm[b]);
                } else if a < p && b == p {
                    assert(perm@[a] == old_perm[a]);
                } else if a < p && b > p {
                    assert(perm@[a] == old_perm[a] && perm@[b] == old_perm[b - 1]);
                } else if a == p {
                    assert(perm@[b] == old_perm[b - 1]);
                    lemma_key_order(ki, ki, ki);
                } else {
                    assert(perm@[a] == old_perm[a - 1] && perm@[b] == old_perm[b - 1]);
                }
            }
        }
        i = i + 1;
    }
    perm
}

} // verus!
