//! The order in which the configuration lists its roots does not change how
//! they resolve.
use vstd::prelude::*;
use vstd::multiset::Multiset;
use vstd::relations::total_ordering;
use vstd::seq_lib::{commutative_foldl, lemma_fold_left_permutation, lemma_multiset_commutative, lemma_sorted_unique};
use vstd::set_lib::{lemma_int_range, lemma_len_subset, set_int_range};

use crate::config::{duplicated, expand_paths, expansions, root_fault, roots_resolved, ConfigFault, ProjectConfig, RootConfig, RootMatches};
use crate::order::{is_permutation, key_less, lemma_key_order, listed};

verus! {

/// A permutation lists at most as many indices as there are `usize` values.
proof fn lemma_permutation_fits(perm: Seq<usize>, n: nat)
    requires
        is_permutation(perm, n),
    ensures
        n <= usize::MAX + 1,
{
    let s = perm.map_values(|x: usize| x as int);
    assert(s.no_duplicates()) by {
        assert forall|i: int, j: int| 0 <= i < s.len() && 0 <= j < s.len() && i != j implies s[i] != s[j] by {
            if i < j {
                assert(perm[i] != perm[j]);
            } else {
                assert(perm[j] != perm[i]);
            }
        }
    }
    s.unique_seq_to_set();
    let range = set_int_range(0, usize::MAX + 1);
    lemma_int_range(0, usize::MAX + 1);
    assert(s.to_set().subset_of(range)) by {
        assert forall|x: int| s.to_set().contains(x) implies range.contains(x) by {
            assert(s.contains(x));
            let i = choose|i: int| 0 <= i < s.len() && s[i] == x;
        }
    }
    lemma_len_subset(s.to_set(), range);
}

/// A sequence that lists `all` in the order `perm` holds the same elements,
/// each as often.
proof fn lemma_permuted_multiset<A>(v: Seq<A>, all: Seq<A>, perm: Seq<usize>)
    requires
        is_permutation(perm, all.len()),
        v.len() == all.len(),
        forall|k: int| 0 <= k < v.len() ==> #[trigger] v[k] == all[perm[k] as int],
    ensures
        v.to_multiset() == all.to_multiset(),
    decreases v.len(),
{
    broadcast use vstd::seq_lib::group_to_multiset_ensures;
    broadcast use vstd::multiset::group_multiset_axioms;

    if v.len() == 0 {
        assert(v.to_multiset() =~= Multiset::empty());
        assert(all.to_multiset() =~= Multiset::empty());
    } else {
        lemma_permutation_fits(perm, all.len());
        let n = v.len() - 1;
        let k = perm[n] as int;
        let v2 = v.drop_last();
        let all2 = all.remove(k);
        let perm2 = Seq::new(n as nat, |i: int| if perm[i] > perm[n] { (perm[i] - 1) as usize } else { perm[i] });
        assert forall|i: int| 0 <= i < perm2.len() implies #[trigger] perm2[i] < n by {
            assert(perm[i] != perm[n]);
        }
        assert forall|i: int, j: int| 0 <= i < j < perm2.len() implies perm2[i] != perm2[j] by {
            assert(perm[i] != perm[j]);
            assert(perm[i] != perm[n]);
            assert(perm[j] != perm[n]);
        }
        assert forall|w: usize| w < n implies #[trigger] listed(perm2, w) by {
            let target: usize = if w >= perm[n] { (w + 1) as usize } else { w };
            assert(target < all.len());
            assert(listed(perm, target));
            let i = choose|i: int| 0 <= i < perm.len() && perm[i] == target;
            assert(i != n);
            assert(perm2[i] == w);
        }
        assert forall|i: int| 0 <= i < v2.len() implies #[trigger] v2[i] == all2[perm2[i] as int] by {
            assert(perm[i] != perm[n as int]);
            assert(v[i] == all[perm[i] as int]);
        }
        lemma_permuted_multiset(v2, all2, perm2);
        assert(v2.push(v[n]) =~= v);
        assert(all2.to_multiset() == all.to_multiset().remove(all[k]));
        assert(all.to_multiset().contains(all[k]));
        assert(v.to_multiset() =~= all.to_multiset());
    }
}

/// What the roots `0..n` expand to, root by root, as multisets.
spec fn expansion_parts(roots: Seq<RootConfig>, found: Seq<RootMatches>, n: int) -> Seq<Multiset<(Seq<char>, Seq<char>)>> {
    Seq::new(n as nat, |i: int| expand_paths(found[i].paths@, roots[i].module@).to_multiset())
}

/// Adding a multiset to a running sum, as a fold step.
spec fn add_up() -> spec_fn(Multiset<(Seq<char>, Seq<char>)>, Multiset<(Seq<char>, Seq<char>)>) -> Multiset<(Seq<char>, Seq<char>)> {
    |acc: Multiset<(Seq<char>, Seq<char>)>, m: Multiset<(Seq<char>, Seq<char>)>| acc.add(m)
}

/// What the first `n` roots expand to, as a sum of what each expands to.
proof fn lemma_expansions_sum(roots: Seq<RootConfig>, found: Seq<RootMatches>, n: int)
    requires
        0 <= n <= roots.len(),
        n <= found.len(),
    ensures
        expansions(roots, found, n).to_multiset() == expansion_parts(roots, found, n).fold_left(Multiset::empty(), add_up()),
    decreases n,
{
    broadcast use vstd::multiset::group_multiset_axioms;
    broadcast use vstd::seq_lib::group_to_multiset_ensures;

    if n == 0 {
        assert(expansions(roots, found, n).to_multiset() =~= Multiset::empty());
    } else {
        lemma_expansions_sum(roots, found, n - 1);
        let parts = expansion_parts(roots, found, n);
        assert(parts.drop_last() =~= expansion_parts(roots, found, n - 1));
        lemma_multiset_commutative(expansions(roots, found, n - 1), expand_paths(found[n - 1].paths@, roots[n - 1].module@));
    }
}

/// The roots expand to the same roots, each as often, in whatever order
/// they are listed.
proof fn lemma_expansions_permuted(
    r1: Seq<RootConfig>,
    f1: Seq<RootMatches>,
    r2: Seq<RootConfig>,
    f2: Seq<RootMatches>,
    perm: Seq<usize>,
)
    requires
        f1.len() == r1.len(),
        f2.len() == r2.len(),
        r2.len() == r1.len(),
        is_permutation(perm, r1.len()),
        forall|i: int| 0 <= i < r2.len() ==> #[trigger] r2[i] == r1[perm[i] as int] && f2[i] == f1[perm[i] as int],
    ensures
        expansions(r1, f1, r1.len() as int).to_multiset() == expansions(r2, f2, r2.len() as int).to_multiset(),
{
    broadcast use vstd::multiset::group_multiset_axioms;

    let n = r1.len() as int;
    let p1 = expansion_parts(r1, f1, n);
    let p2 = expansion_parts(r2, f2, n);
    assert forall|k: int| 0 <= k < p2.len() implies #[trigger] p2[k] == p1[perm[k] as int] by {
        assert(r2[k] == r1[perm[k] as int]);
    }
    lemma_permuted_multiset(p2, p1, perm);
    let f = add_up();
    assert(commutative_foldl(f)) by {
        assert forall|x: Multiset<(Seq<char>, Seq<char>)>, y: Multiset<(Seq<char>, Seq<char>)>, w: Multiset<(Seq<char>, Seq<char>)>|
            #[trigger] f(f(w, x), y) == f(f(w, y), x) by {
            assert(w.add(x).add(y) =~= w.add(y).add(x));
        }
    }
    lemma_fold_left_permutation(p1, p2, f, Multiset::empty());
    lemma_expansions_sum(r1, f1, n);
    lemma_expansions_sum(r2, f2, n);
}

/// The order of resolved roots: by module name, then path.
spec fn root_leq() -> spec_fn((Seq<char>, Seq<char>), (Seq<char>, Seq<char>)) -> bool {
    |x: (Seq<char>, Seq<char>), y: (Seq<char>, Seq<char>)| !key_less((y.1, 0, y.0), (x.1, 0, x.0))
}

proof fn lemma_root_leq_total()
    ensures
        total_ordering(root_leq()),
{
    let leq = root_leq();
    assert forall|x: (Seq<char>, Seq<char>), y: (Seq<char>, Seq<char>)| #[trigger] leq(x, y) && leq(y, x) implies x == y by {
        lemma_key_order((x.1, 0, x.0), (y.1, 0, y.0), (x.1, 0, x.0));
    }
    assert forall|x: (Seq<char>, Seq<char>), y: (Seq<char>, Seq<char>), z: (Seq<char>, Seq<char>)|
        #[trigger] leq(x, y) && #[trigger] leq(y, z) implies leq(x, z) by {
        lemma_key_order((z.1, 0, z.0), (x.1, 0, x.0), (y.1, 0, y.0));
        lemma_key_order((x.1, 0, x.0), (y.1, 0, y.0), (z.1, 0, z.0));
        lemma_key_order((z.1, 0, z.0), (y.1, 0, y.0), (x.1, 0, x.0));
    }
    assert forall|x: (Seq<char>, Seq<char>), y: (Seq<char>, Seq<char>)| #[trigger] leq(x, y) || leq(y, x) by {
        lemma_key_order((x.1, 0, x.0), (y.1, 0, y.0), (x.1, 0, x.0));
    }
    assert forall|x: (Seq<char>, Seq<char>)| #[trigger] leq(x, x) by {
        lemma_key_order((x.1, 0, x.0), (x.1, 0, x.0), (x.1, 0, x.0));
    }
}

/// A sequence holding `x` at two places counts it at least twice.
proof fn lemma_twice_counted<A>(s: Seq<A>, a: int, b: int)
    requires
        0 <= a < b < s.len(),
        s[a] == s[b],
    ensures
        s.to_multiset().count(s[a]) >= 2,
{
    broadcast use vstd::seq_lib::group_to_multiset_ensures;
    broadcast use vstd::multiset::group_multiset_axioms;

    let t = s.remove(b);
    assert(t[a] == s[a]);
    assert(t.to_multiset().contains(s[a]));
    assert(t.to_multiset() == s.to_multiset().remove(s[b]));
}

/// An element counted at least twice sits at two places.
proof fn lemma_counted_twice<A>(s: Seq<A>, x: A)
    requires
        s.to_multiset().count(x) >= 2,
    ensures
        exists|a: int, b: int| 0 <= a < b < s.len() && s[a] == x && s[b] == x,
{
    broadcast use vstd::seq_lib::group_to_multiset_ensures;
    broadcast use vstd::multiset::group_multiset_axioms;

    assert(s.to_multiset().contains(x));
    let i = choose|i: int| 0 <= i < s.len() && s[i] == x;
    let t = s.remove(i);
    assert(t.to_multiset() == s.to_multiset().remove(s[i]));
    assert(t.to_multiset().contains(x));
    let j = choose|j: int| 0 <= j < t.len() && t[j] == x;
    if j < i {
        assert(s[j] == x);
    } else {
        assert(s[j + 1] == x);
    }
}

/// A module named twice among roots is named twice among any roots that
/// hold the same roots, each as often.
proof fn lemma_duplicated_moves(s: Seq<(Seq<char>, Seq<char>)>, t: Seq<(Seq<char>, Seq<char>)>, m: Seq<char>)
    requires
        s.to_multiset() == t.to_multiset(),
        duplicated(s, m),
    ensures
        duplicated(t, m),
{
    broadcast use vstd::seq_lib::group_to_multiset_ensures;

    let (a, b) = choose|a: int, b: int| 0 <= a < b < s.len() && #[trigger] s[a].1 == m && #[trigger] s[b].1 == m;
    if s[a] == s[b] {
        lemma_twice_counted(s, a, b);
        lemma_counted_twice(t, s[a]);
        let (i, j) = choose|i: int, j: int| 0 <= i < j < t.len() && t[i] == s[a] && t[j] == s[a];
        assert(t[i].1 == m && t[j].1 == m);
    } else {
        assert(s.to_multiset().contains(s[a]));
        assert(s.to_multiset().contains(s[b]));
        let i = choose|i: int| 0 <= i < t.len() && t[i] == s[a];
        let j = choose|j: int| 0 <= j < t.len() && t[j] == s[b];
        assert(i != j);
        if i < j {
            assert(t[i].1 == m && t[j].1 == m);
        } else {
            assert(t[j].1 == m && t[i].1 == m);
        }
    }
}

/// Roots resolved without a repeated module have no module named twice in
/// what the roots expand to, and hold the same roots, each as often.
proof fn lemma_resolved_matches(all: Seq<(Seq<char>, Seq<char>)>, v: Seq<(Seq<char>, Seq<char>)>)
    requires
        exists|perm: Seq<usize>| is_permutation(perm, all.len()) && v.len() == all.len()
            && forall|k: int| 0 <= k < v.len() ==> #[trigger] v[k] == all[perm[k] as int],
        forall|a: int, b: int| 0 <= a < b < v.len() ==> v[a].1 != v[b].1,
    ensures
        v.to_multiset() == all.to_multiset(),
        forall|m: Seq<char>| !duplicated(all, m),
{
    let perm = choose|perm: Seq<usize>| is_permutation(perm, all.len()) && v.len() == all.len()
        && forall|k: int| 0 <= k < v.len() ==> #[trigger] v[k] == all[perm[k] as int];
    lemma_permuted_multiset(v, all, perm);
    assert forall|m: Seq<char>| !duplicated(all, m) by {
        if duplicated(all, m) {
            lemma_duplicated_moves(all, v, m);
            let (a, b) = choose|a: int, b: int| 0 <= a < b < v.len() && #[trigger] v[a].1 == m && #[trigger] v[b].1 == m;
        }
    }
}

/// The order in which the configuration lists its roots does not matter:
/// when every root matches something, resolving the roots in any order,
/// each with what exists for it, gives the same sorted roots, or the same
/// first repeated module.
pub proof fn lemma_root_order_irrelevant(
    c1: ProjectConfig,
    f1: Seq<RootMatches>,
    c2: ProjectConfig,
    f2: Seq<RootMatches>,
    perm: Seq<usize>,
    r1: Result<Seq<(Seq<char>, Seq<char>)>, ConfigFault>,
    r2: Result<Seq<(Seq<char>, Seq<char>)>, ConfigFault>,
)
    requires
        f1.len() == c1.roots@.len(),
        f2.len() == c2.roots@.len(),
        c2.roots@.len() == c1.roots@.len(),
        is_permutation(perm, c1.roots@.len()),
        forall|i: int|
            0 <= i < c2.roots@.len() ==> #[trigger] c2.roots@[i] == c1.roots@[perm[i] as int] && f2[i] == f1[perm[i] as int],
        forall|i: int| 0 <= i < c1.roots@.len() ==> #[trigger] root_fault(c1.roots@[i], f1[i]) is None,
        roots_resolved(c1, f1, r1),
        roots_resolved(c2, f2, r2),
    ensures
        r1 == r2,
{
    let n = c1.roots@.len() as int;
    if n == 0 {
        return;
    }
    assert forall|i: int| 0 <= i < n implies #[trigger] root_fault(c2.roots@[i], f2[i]) is None by {
        assert(root_fault(c1.roots@[perm[i] as int], f1[perm[i] as int]) is None);
    }
    let all1 = expansions(c1.roots@, f1, n);
    let all2 = expansions(c2.roots@, f2, n);
    lemma_expansions_permuted(c1.roots@, f1, c2.roots@, f2, perm);
    lemma_root_leq_total();
    match r1 {
        Ok(v1) => {
            lemma_resolved_matches(all1, v1);
            match r2 {
                Ok(v2) => {
                    lemma_resolved_matches(all2, v2);
                    lemma_sorted_unique(v1, v2, root_leq());
                },
                Err(e) => {
                    match e {
                        ConfigFault::DuplicateModule { module } => {
                            lemma_duplicated_moves(all2, all1, module);
                        },
                        _ => {},
                    }
                },
            }
        },
        Err(e1) => {
            match e1 {
                ConfigFault::DuplicateModule { module: m1 } => {
                    match r2 {
                        Ok(v2) => {
                            lemma_resolved_matches(all2, v2);
                            lemma_duplicated_moves(all1, all2, m1);
                        },
                        Err(e2) => {
                            match e2 {
                                ConfigFault::DuplicateModule { module: m2 } => {
                                    lemma_duplicated_moves(all1, all2, m1);
                                    lemma_duplicated_moves(all2, all1, m2);
                                    lemma_key_order((m1, 0, Seq::empty()), (m2, 0, Seq::empty()), (m1, 0, Seq::empty()));
                                },
                                _ => {},
                            }
                        },
                    }
                },
                _ => {},
            }
        },
    }
}

} // verus!
