//! The class hierarchy of the index: which classes a class derives from, and
//! where a member of a class is defined.
use vstd::prelude::*;

use crate::index::{ClassInfo, ModuleIndex, SymbolIndex, TypeBinding};
use crate::report::SymbolKind;
use crate::tables::{
    class_named, class_rows, find_class, has_symbol, is_symbol, kind_of, last_in_rows,
    lemma_last_in_rows, named_in_rows, symbol_kind, Keyed,
};
use crate::text::{
    contains_string, copy_string, dotted, has_char, holds, join_dot, same_text, starts_with, views,
};

verus! {

/// Number of bases recorded for the class `c` (0 when it is no class).
pub open spec fn base_count(index: SymbolIndex, c: Seq<char>) -> int {
    match class_named(index, c) {
        Some(info) => info.bases@.len() as int,
        None => 0,
    }
}

/// Name of the `k`-th recorded base of the class `c`.
pub open spec fn base_at(index: SymbolIndex, c: Seq<char>, k: int) -> Seq<char> {
    class_named(index, c)->0.bases@[k].base@
}

/// `from` reaches `to` in at most `n` steps from a class to one of its bases.
pub open spec fn reaches(index: SymbolIndex, from: Seq<char>, to: Seq<char>, n: nat) -> bool
    decreases n,
{
    from == to || (n > 0 && exists|k: int|
        0 <= k < base_count(index, from) && reaches(index, #[trigger] base_at(index, from, k), to, (n - 1) as nat))
}

/// `to` is `from` or one of its ancestors through the recorded bases.
pub open spec fn ancestor_or_self(index: SymbolIndex, from: Seq<char>, to: Seq<char>) -> bool {
    exists|n: nat| reaches(index, from, to, n)
}

/// The class `x` names `b` among its recorded bases.
pub open spec fn names_base(index: SymbolIndex, x: Seq<char>, b: Seq<char>) -> bool {
    exists|k: int| 0 <= k < base_count(index, x) && #[trigger] base_at(index, x, k) == b
}

/// `to` is named as a base by `from` or by one of its ancestors.
pub open spec fn strict_ancestor(index: SymbolIndex, from: Seq<char>, to: Seq<char>) -> bool {
    exists|x: Seq<char>| #[trigger] ancestor_or_self(index, from, x) && names_base(index, x, to)
}

/// Every base of `x`, if `x` is a class, is among `vs`.
pub open spec fn closed(index: SymbolIndex, vs: Seq<String>, x: Seq<char>) -> bool {
    match class_named(index, x) {
        Some(info) => forall|k: int| 0 <= k < info.bases@.len() ==> holds(vs, #[trigger] info.bases@[k].base@),
        None => true,
    }
}

/// No two strings of `vs` have the same characters.
pub open spec fn distinct(vs: Seq<String>) -> bool {
    forall|i: int, j: int| 0 <= i < j < vs.len() ==> vs[i]@ != vs[j]@
}

/// Class entries of a row whose names are not yet among `vs`.
pub open spec fn unvisited_in_row(row: Seq<ClassInfo>, vs: Seq<String>) -> nat
    decreases row.len(),
{
    if row.len() == 0 {
        0
    } else {
        unvisited_in_row(row.drop_last(), vs) + if holds(vs, row.last().class@) {
            0nat
        } else {
            1nat
        }
    }
}

/// Class entries of the rows whose names are not yet among `vs`.
pub open spec fn unvisited(rows: Seq<Seq<ClassInfo>>, vs: Seq<String>) -> nat
    decreases rows.len(),
{
    if rows.len() == 0 {
        0
    } else {
        unvisited(rows.drop_last(), vs) + unvisited_in_row(rows.last(), vs)
    }
}

/// Every name among `a` is among `b`.
pub open spec fn covered(a: Seq<String>, b: Seq<String>) -> bool {
    forall|x: Seq<char>| holds(a, x) ==> holds(b, x)
}

proof fn lemma_unvisited_row(row: Seq<ClassInfo>, a: Seq<String>, b: Seq<String>, c: Seq<char>)
    requires
        covered(a, b),
    ensures
        unvisited_in_row(row, b) <= unvisited_in_row(row, a),
        (exists|k: int| 0 <= k < row.len() && #[trigger] row[k].class@ == c) && holds(b, c) && !holds(a, c)
            ==> unvisited_in_row(row, b) < unvisited_in_row(row, a),
    decreases row.len(),
{
    if row.len() > 0 {
        lemma_unvisited_row(row.drop_last(), a, b, c);
        if (exists|k: int| 0 <= k < row.len() && #[trigger] row[k].class@ == c) && holds(b, c) && !holds(a, c) {
            let k = choose|k: int| 0 <= k < row.len() && #[trigger] row[k].class@ == c;
            if k < row.len() - 1 {
                assert(row.drop_last()[k].class@ == c);
            }
        }
    }
}

proof fn lemma_unvisited(rows: Seq<Seq<ClassInfo>>, a: Seq<String>, b: Seq<String>, c: Seq<char>)
    requires
        covered(a, b),
    ensures
        unvisited(rows, b) <= unvisited(rows, a),
        named_in_rows(rows, c) && holds(b, c) && !holds(a, c) ==> unvisited(rows, b) < unvisited(rows, a),
    decreases rows.len(),
{
    if rows.len() > 0 {
        lemma_unvisited(rows.drop_last(), a, b, c);
        lemma_unvisited_row(rows.last(), a, b, c);
        if named_in_rows(rows, c) && holds(b, c) && !holds(a, c) {
            let (m, k) = choose|m: int, k: int|
                0 <= m < rows.len() && 0 <= k < rows[m].len() && #[trigger] rows[m][k].key() == c;
            if m < rows.len() - 1 {
                assert(rows.drop_last()[m][k].key() == c);
            } else {
                assert(rows.last()[k].class@ == c);
            }
        }
    }
}

proof fn lemma_extends_covers(a: Seq<String>, b: Seq<String>)
    requires
        a.len() <= b.len(),
        b.take(a.len() as int) == a,
    ensures
        covered(a, b),
{
    assert forall|x: Seq<char>| holds(a, x) implies holds(b, x) by {
        let i = choose|i: int| 0 <= i < a.len() && #[trigger] a[i]@ == x;
        assert(b[i] == b.take(a.len() as int)[i]);
    }
}

/// Depth-first preorder from the class `c` through its recorded bases,
/// skipping the names in `visited` (and, with no `fuel` left, everything):
/// `visited` followed by the names visited, in order.
pub open spec fn preorder(index: SymbolIndex, c: Seq<char>, visited: Seq<Seq<char>>, fuel: nat) -> Seq<Seq<char>>
    decreases fuel, 0int, 0int,
{
    if fuel == 0 || visited.contains(c) {
        visited
    } else {
        match class_named(index, c) {
            None => visited.push(c),
            Some(info) => preorder_bases(index, info.bases@, 0, visited.push(c), (fuel - 1) as nat),
        }
    }
}

/// The preorder from each of `bases` from position `i` on, in turn.
pub open spec fn preorder_bases(
    index: SymbolIndex,
    bases: Seq<TypeBinding>,
    i: int,
    visited: Seq<Seq<char>>,
    fuel: nat,
) -> Seq<Seq<char>>
    decreases fuel, 1int, bases.len() - i,
{
    if i < 0 || i >= bases.len() {
        visited
    } else {
        preorder_bases(index, bases, i + 1, preorder(index, bases[i].base@, visited, fuel), fuel)
    }
}

pub open spec fn left_in_row(row: Seq<ClassInfo>, v: Seq<Seq<char>>) -> nat
    decreases row.len(),
{
    if row.len() == 0 {
        0
    } else {
        left_in_row(row.drop_last(), v) + if v.contains(row.last().class@) {
            0nat
        } else {
            1nat
        }
    }
}

/// Class entries of the index whose names are not among `v`.
pub open spec fn classes_left(rows: Seq<Seq<ClassInfo>>, v: Seq<Seq<char>>) -> nat
    decreases rows.len(),
{
    if rows.len() == 0 {
        0
    } else {
        classes_left(rows.drop_last(), v) + left_in_row(rows.last(), v)
    }
}

proof fn lemma_left_views_row(row: Seq<ClassInfo>, vs: Seq<String>)
    ensures
        left_in_row(row, views(vs)) == unvisited_in_row(row, vs),
    decreases row.len(),
{
    if row.len() > 0 {
        lemma_left_views_row(row.drop_last(), vs);
        let x = row.last().class@;
        if holds(vs, x) {
            let j = choose|j: int| 0 <= j < vs.len() && #[trigger] vs[j]@ == x;
            assert(views(vs)[j] == x);
        }
        if views(vs).contains(x) {
            let j = choose|j: int| 0 <= j < views(vs).len() && views(vs)[j] == x;
            assert(vs[j]@ == x);
        }
    }
}

proof fn lemma_left_views(rows: Seq<Seq<ClassInfo>>, vs: Seq<String>)
    ensures
        classes_left(rows, views(vs)) == unvisited(rows, vs),
    decreases rows.len(),
{
    if rows.len() > 0 {
        lemma_left_views(rows.drop_last(), vs);
        lemma_left_views_row(rows.last(), vs);
    }
}

proof fn lemma_left_row(row: Seq<ClassInfo>, a: Seq<Seq<char>>, b: Seq<Seq<char>>, c: Seq<char>)
    requires
        forall|x: Seq<char>| a.contains(x) ==> b.contains(x),
    ensures
        left_in_row(row, b) <= left_in_row(row, a),
        (exists|k: int| 0 <= k < row.len() && #[trigger] row[k].class@ == c) && b.contains(c) && !a.contains(c)
            ==> left_in_row(row, b) < left_in_row(row, a),
    decreases row.len(),
{
    if row.len() > 0 {
        lemma_left_row(row.drop_last(), a, b, c);
        if (exists|k: int| 0 <= k < row.len() && #[trigger] row[k].class@ == c) && b.contains(c) && !a.contains(c) {
            let k = choose|k: int| 0 <= k < row.len() && #[trigger] row[k].class@ == c;
            if k < row.len() - 1 {
                assert(row.drop_last()[k].class@ == c);
            }
        }
    }
}

/// Visiting more names leaves no more classes to visit, and strictly fewer
/// once a class of the index is visited.
proof fn lemma_left(rows: Seq<Seq<ClassInfo>>, a: Seq<Seq<char>>, b: Seq<Seq<char>>, c: Seq<char>)
    requires
        forall|x: Seq<char>| a.contains(x) ==> b.contains(x),
    ensures
        classes_left(rows, b) <= classes_left(rows, a),
        named_in_rows(rows, c) && b.contains(c) && !a.contains(c) ==> classes_left(rows, b) < classes_left(rows, a),
    decreases rows.len(),
{
    if rows.len() > 0 {
        lemma_left(rows.drop_last(), a, b, c);
        lemma_left_row(rows.last(), a, b, c);
        if named_in_rows(rows, c) && b.contains(c) && !a.contains(c) {
            let (m, k) = choose|m: int, k: int|
                0 <= m < rows.len() && 0 <= k < rows[m].len() && #[trigger] rows[m][k].key() == c;
            if m < rows.len() - 1 {
                assert(rows.drop_last()[m][k].key() == c);
            } else {
                assert(rows.last()[k].class@ == c);
            }
        }
    }
}

proof fn lemma_prefix_has(a: Seq<Seq<char>>, b: Seq<Seq<char>>)
    requires
        b.len() >= a.len(),
        b.take(a.len() as int) == a,
    ensures
        forall|x: Seq<char>| a.contains(x) ==> b.contains(x),
{
    assert forall|x: Seq<char>| a.contains(x) implies b.contains(x) by {
        let j = choose|j: int| 0 <= j < a.len() && a[j] == x;
        assert(b[j] == b.take(a.len() as int)[j]);
    }
}

proof fn lemma_preorder_grows(index: SymbolIndex, c: Seq<char>, v: Seq<Seq<char>>, fuel: nat)
    ensures
        preorder(index, c, v, fuel).len() >= v.len(),
        preorder(index, c, v, fuel).take(v.len() as int) == v,
    decreases fuel, 0int, 0int,
{
    if fuel > 0 && !v.contains(c) {
        let v1 = v.push(c);
        assert(v1.take(v.len() as int) =~= v);
        if let Some(info) = class_named(index, c) {
            lemma_preorder_bases_grows(index, info.bases@, 0, v1, (fuel - 1) as nat);
            let w = preorder(index, c, v, fuel);
            assert(w.take(v.len() as int) =~= v) by {
                assert forall|j: int| 0 <= j < v.len() implies w.take(v.len() as int)[j] == v[j] by {
                    assert(w[j] == w.take(v1.len() as int)[j]);
                }
            }
        }
    } else {
        assert(v.take(v.len() as int) =~= v);
    }
}

proof fn lemma_preorder_bases_grows(index: SymbolIndex, bases: Seq<TypeBinding>, i: int, v: Seq<Seq<char>>, fuel: nat)
    ensures
        preorder_bases(index, bases, i, v, fuel).len() >= v.len(),
        preorder_bases(index, bases, i, v, fuel).take(v.len() as int) == v,
    decreases fuel, 1int, bases.len() - i,
{
    if 0 <= i < bases.len() {
        lemma_preorder_grows(index, bases[i].base@, v, fuel);
        let a = preorder(index, bases[i].base@, v, fuel);
        lemma_preorder_bases_grows(index, bases, i + 1, a, fuel);
        let w = preorder_bases(index, bases, i, v, fuel);
        assert(w.take(v.len() as int) =~= v) by {
            assert forall|j: int| 0 <= j < v.len() implies w.take(v.len() as int)[j] == v[j] by {
                assert(w[j] == w.take(a.len() as int)[j]);
                assert(a[j] == a.take(v.len() as int)[j]);
            }
        }
    } else {
        assert(v.take(v.len() as int) =~= v);
    }
}

/// Enough fuel to visit every class gives the same preorder.
proof fn lemma_preorder_fuel(index: SymbolIndex, c: Seq<char>, v: Seq<Seq<char>>, f1: nat, f2: nat)
    requires
        f1 > classes_left(class_rows(index), v),
        f2 > classes_left(class_rows(index), v),
    ensures
        preorder(index, c, v, f1) == preorder(index, c, v, f2),
    decreases f1 + f2, 0int, 0int,
{
    if !v.contains(c) {
        if let Some(info) = class_named(index, c) {
            let v1 = v.push(c);
            assert(v1.take(v.len() as int) =~= v);
            lemma_prefix_has(v, v1);
            assert(v1[v.len() as int] == c);
            lemma_last_in_rows(class_rows(index), c);
            lemma_left(class_rows(index), v, v1, c);
            lemma_preorder_bases_fuel(index, info.bases@, 0, v1, (f1 - 1) as nat, (f2 - 1) as nat);
        }
    }
}

proof fn lemma_preorder_bases_fuel(index: SymbolIndex, bases: Seq<TypeBinding>, i: int, v: Seq<Seq<char>>, f1: nat, f2: nat)
    requires
        f1 > classes_left(class_rows(index), v),
        f2 > classes_left(class_rows(index), v),
    ensures
        preorder_bases(index, bases, i, v, f1) == preorder_bases(index, bases, i, v, f2),
    decreases f1 + f2, 1int, bases.len() - i,
{
    if 0 <= i < bases.len() {
        lemma_preorder_fuel(index, bases[i].base@, v, f1, f2);
        let a = preorder(index, bases[i].base@, v, f1);
        lemma_preorder_grows(index, bases[i].base@, v, f1);
        lemma_prefix_has(v, a);
        lemma_left(class_rows(index), v, a, Seq::empty());
        lemma_preorder_bases_fuel(index, bases, i + 1, a, f1, f2);
    }
}

/// Depth-first walk from `c` through the recorded bases, adding to
/// `visited` every class it reaches that was not there before, in preorder.
fn walk(index: &SymbolIndex, c: &str, visited: &mut Vec<String>)
    requires
        distinct(old(visited)@),
    ensures
        final(visited)@.len() >= old(visited)@.len(),
        final(visited)@.take(old(visited)@.len() as int) == old(visited)@,
        distinct(final(visited)@),
        holds(final(visited)@, c@),
        !holds(old(visited)@, c@) ==> final(visited)@.len() > old(visited)@.len()
            && final(visited)@[old(visited)@.len() as int]@ == c@,
        forall|j: int|
            old(visited)@.len() <= j < final(visited)@.len() ==> ancestor_or_self(*index, c@, #[trigger] final(visited)@[j]@),
        forall|j: int|
            old(visited)@.len() <= j < final(visited)@.len() ==> closed(*index, final(visited)@, #[trigger] final(visited)@[j]@),
        forall|fuel: nat|
            fuel > classes_left(class_rows(*index), views(old(visited)@)) ==> #[trigger] preorder(
                *index,
                c@,
                views(old(visited)@),
                fuel,
            ) == views(final(visited)@),
    decreases unvisited(class_rows(*index), old(visited)@),
{
    if contains_string(visited, c) {
        assert(visited@.take(visited@.len() as int) =~= visited@);
        proof {
            let j = choose|j: int| 0 <= j < visited@.len() && #[trigger] visited@[j]@ == c@;
            assert(views(visited@)[j] == c@);
        }
        return;
    }
    let ghost v0 = visited@;
    let ghost rows = class_rows(*index);
    visited.push(String::from_str(c));
    let ghost v1 = visited@;
    proof {
        assert(v1[v0.len() as int]@ == c@);
        assert forall|i: int, j: int| 0 <= i < j < v1.len() implies v1[i]@ != v1[j]@ by {
            if j == v0.len() {
                assert(v1[i] == v0[i]);
            } else {
                assert(v1[i] == v0[i] && v1[j] == v0[j]);
            }
        }
        assert(v1.take(v0.len() as int) =~= v0);
        lemma_extends_covers(v0, v1);
        assert(reaches(*index, c@, c@, 0));
        assert(views(v1) =~= views(v0).push(c@));
        assert(!views(v0).contains(c@)) by {
            if views(v0).contains(c@) {
                let j = choose|j: int| 0 <= j < views(v0).len() && views(v0)[j] == c@;
                assert(v0[j]@ == c@);
            }
        }
    }
    let found = find_class(index, c);
    match found {
        None => {
            proof {
                assert forall|j: int| v0.len() <= j < v1.len() implies ancestor_or_self(*index, c@, #[trigger] v1[j]@) by {
                    assert(reaches(*index, c@, v1[j]@, 0));
                }
                assert forall|fuel: nat| fuel > classes_left(rows, views(v0)) implies #[trigger] preorder(
                    *index,
                    c@,
                    views(v0),
                    fuel,
                ) == views(visited@) by {}
            }
        },
        Some(p) => {
            let info = &index.modules[p.0].classes[p.1];
            proof {
                lemma_last_in_rows(rows, c@);
                assert(named_in_rows(rows, c@));
                lemma_unvisited(rows, v0, v1, c@);
                assert(views(v1).take(views(v0).len() as int) =~= views(v0));
                lemma_prefix_has(views(v0), views(v1));
                assert(views(v1)[views(v0).len() as int] == c@);
                lemma_left(rows, views(v0), views(v1), c@);
            }
            let mut k: usize = 0;
            while k < info.bases.len()
                invariant
                    class_named(*index, c@) == Some(*info),
                    rows == class_rows(*index),
                    k <= info.bases@.len(),
                    visited@.len() >= v1.len(),
                    visited@.take(v1.len() as int) == v1,
                    v1.take(v0.len() as int) == v0,
                    v1.len() == v0.len() + 1,
                    v1[v0.len() as int]@ == c@,
                    v0 == old(visited)@,
                    distinct(visited@),
                    unvisited(rows, v1) < unvisited(rows, v0),
                    forall|q: int| 0 <= q < k ==> holds(visited@, #[trigger] info.bases@[q].base@),
                    forall|j: int| v0.len() <= j < visited@.len() ==> ancestor_or_self(*index, c@, #[trigger] visited@[j]@),
                    forall|j: int| v1.len() <= j < visited@.len() ==> closed(*index, visited@, #[trigger] visited@[j]@),
                    views(v1) == views(v0).push(c@),
                    !views(v0).contains(c@),
                    classes_left(rows, views(v1)) < classes_left(rows, views(v0)),
                    forall|fuel: nat|
                        fuel > classes_left(rows, views(v0)) ==> #[trigger] preorder_bases(
                            *index,
                            info.bases@,
                            0,
                            views(v1),
                            (fuel - 1) as nat,
                        ) == preorder_bases(*index, info.bases@, k as int, views(visited@), (fuel - 1) as nat),
                decreases info.bases@.len() - k,
            {
                let ghost before = visited@;
                proof {
                    lemma_extends_covers(v1, before);
                    lemma_unvisited(rows, v1, before, c@);
                    assert(views(before).take(views(v1).len() as int) =~= views(v1)) by {
                        assert forall|q: int| 0 <= q < views(v1).len() implies views(before).take(views(v1).len() as int)[q]
                            == views(v1)[q] by {
                            assert(before[q] == before.take(v1.len() as int)[q]);
                        }
                    }
                    lemma_prefix_has(views(v1), views(before));
                    lemma_left(rows, views(v1), views(before), c@);
                }
                walk(index, info.bases[k].base.as_str(), visited);
                let ghost after = visited@;
                proof {
                    let u0 = classes_left(rows, views(v0));
                    let base = info.bases@[k as int].base@;
                    assert(preorder(*index, base, views(before), u0) == views(after));
                    assert forall|fuel: nat| fuel > u0 implies #[trigger] preorder_bases(
                        *index,
                        info.bases@,
                        0,
                        views(v1),
                        (fuel - 1) as nat,
                    ) == preorder_bases(*index, info.bases@, k + 1, views(after), (fuel - 1) as nat) by {
                        lemma_preorder_fuel(*index, base, views(before), (fuel - 1) as nat, u0);
                    }
                    lemma_extends_covers(before, after);
                    assert(after.take(v1.len() as int) =~= v1) by {
                        assert forall|i: int| 0 <= i < v1.len() implies after.take(v1.len() as int)[i] == v1[i] by {
                            assert(after[i] == after.take(before.len() as int)[i]);
                            assert(before[i] == before.take(v1.len() as int)[i]);
                        }
                    }
                    assert forall|q: int| 0 <= q < k + 1 implies holds(after, #[trigger] info.bases@[q].base@) by {
                        if q < k {
                            assert(holds(before, info.bases@[q].base@));
                        }
                    }
                    assert forall|j: int| v0.len() <= j < after.len() implies ancestor_or_self(*index, c@, #[trigger] after[j]@) by {
                        if j < before.len() {
                            assert(after[j] == after.take(before.len() as int)[j]);
                        } else {
                            let b = info.bases@[k as int].base@;
                            assert(ancestor_or_self(*index, b, after[j]@));
                            let n = choose|n: nat| reaches(*index, b, after[j]@, n);
                            assert(((n + 1) as nat - 1) as nat == n);
                            assert(base_at(*index, c@, k as int) == b);
                            assert(base_count(*index, c@) == info.bases@.len());
                            assert(reaches(*index, base_at(*index, c@, k as int), after[j]@, ((n + 1) as nat - 1) as nat));
                            assert(reaches(*index, c@, after[j]@, (n + 1) as nat));
                        }
                    }
                    assert forall|j: int| v1.len() <= j < after.len() implies closed(*index, after, #[trigger] after[j]@) by {
                        if j < before.len() {
                            assert(after[j] == after.take(before.len() as int)[j]);
                            assert(closed(*index, before, before[j]@));
                            lemma_closed_grows(*index, before, after, before[j]@);
                        }
                    }
                }
                k = k + 1;
            }
            proof {
                assert(closed(*index, visited@, c@));
                assert forall|fuel: nat| fuel > classes_left(rows, views(v0)) implies #[trigger] preorder(
                    *index,
                    c@,
                    views(v0),
                    fuel,
                ) == views(visited@) by {
                    let f1 = (fuel - 1) as nat;
                    assert(fuel > 0);
                    assert(preorder(*index, c@, views(v0), fuel) == preorder_bases(*index, info.bases@, 0, views(v0).push(c@), f1));
                    assert(preorder_bases(*index, info.bases@, 0, views(v1), f1) == preorder_bases(
                        *index,
                        info.bases@,
                        info.bases@.len() as int,
                        views(visited@),
                        f1,
                    ));
                    assert(preorder_bases(*index, info.bases@, info.bases@.len() as int, views(visited@), f1) == views(visited@));
                }
            }
        },
    }
    proof {
        let vf = visited@;
        assert forall|j: int| v0.len() <= j < vf.len() implies closed(*index, vf, #[trigger] vf[j]@) by {
            if j == v0.len() {
                assert(vf[j] == vf.take(v1.len() as int)[j]);
            }
        }
        assert(vf[v0.len() as int] == vf.take(v1.len() as int)[v0.len() as int]);
        assert(vf.take(v0.len() as int) =~= v0) by {
            assert forall|i: int| 0 <= i < v0.len() implies vf.take(v0.len() as int)[i] == v0[i] by {
                assert(vf[i] == vf.take(v1.len() as int)[i]);
                assert(v1[i] == v1.take(v0.len() as int)[i]);
            }
        }
    }
}

proof fn lemma_closed_grows(index: SymbolIndex, a: Seq<String>, b: Seq<String>, x: Seq<char>)
    requires
        covered(a, b),
        closed(index, a, x),
    ensures
        closed(index, b, x),
{
}

/// Every class reachable from a member of a set closed under bases is in it.
proof fn lemma_closed_set(index: SymbolIndex, vs: Seq<String>, y: Seq<char>, x: Seq<char>, n: nat)
    requires
        holds(vs, y),
        forall|j: int| 0 <= j < vs.len() ==> closed(index, vs, #[trigger] vs[j]@),
        reaches(index, y, x, n),
    ensures
        holds(vs, x),
    decreases n,
{
    if y != x {
        let k = choose|k: int| 0 <= k < base_count(index, y) && reaches(index, #[trigger] base_at(index, y, k), x, (n - 1) as nat);
        let info = class_named(index, y)->0;
        assert(base_at(index, y, k) == info.bases@[k].base@);
        let j = choose|j: int| 0 <= j < vs.len() && #[trigger] vs[j]@ == y;
        assert(closed(index, vs, vs[j]@));
        assert(holds(vs, info.bases@[k].base@));
        lemma_closed_set(index, vs, info.bases@[k].base@, x, (n - 1) as nat);
    }
}

/// The classes reachable from `c` through recorded bases, `c` first, each
/// once, in depth-first preorder: the bases of a class in their recorded
/// order, each followed by all it reaches that was not visited before.
pub open spec fn class_order(index: SymbolIndex, c: Seq<char>) -> Seq<Seq<char>> {
    preorder(index, c, Seq::empty(), (classes_left(class_rows(index), Seq::empty()) + 1) as nat)
}

/// The classes reachable from `c` through recorded bases, `c` first, each
/// once, in depth-first preorder.
pub fn class_closure(index: &SymbolIndex, c: &str) -> (r: Vec<String>)
    ensures
        r@.len() > 0,
        r@[0]@ == c@,
        distinct(r@),
        forall|x: Seq<char>| holds(r@, x) <==> ancestor_or_self(*index, c@, x),
        views(r@) == class_order(*index, c@),
{
    let mut visited: Vec<String> = Vec::new();
    walk(index, c, &mut visited);
    proof {
        assert(views(Seq::<String>::empty()) =~= Seq::<Seq<char>>::empty());
        assert(preorder(*index, c@, Seq::empty(), (classes_left(class_rows(*index), Seq::empty()) + 1) as nat) == views(
            visited@,
        ));
        let vs = visited@;
        assert forall|x: Seq<char>| holds(vs, x) <==> ancestor_or_self(*index, c@, x) by {
            if holds(vs, x) {
                let j = choose|j: int| 0 <= j < vs.len() && #[trigger] vs[j]@ == x;
                assert(ancestor_or_self(*index, c@, vs[j]@));
            }
            if ancestor_or_self(*index, c@, x) {
                let n = choose|n: nat| reaches(*index, c@, x, n);
                lemma_closed_set(*index, vs, c@, x, n);
            }
        }
    }
    visited
}

/// `t` is where the member `member` of the class `c` is found: the member as
/// defined on `c` or on one of its ancestors.
pub open spec fn member_of(index: SymbolIndex, c: Seq<char>, member: Seq<char>, t: Seq<char>) -> bool {
    has_symbol(index, t) && exists|x: Seq<char>| #[trigger] ancestor_or_self(index, c, x) && t == dotted(x, member)
}

/// Neither `c` nor any of its ancestors defines `member`.
pub open spec fn no_member(index: SymbolIndex, c: Seq<char>, member: Seq<char>) -> bool {
    forall|x: Seq<char>| #[trigger] ancestor_or_self(index, c, x) ==> !has_symbol(index, dotted(x, member))
}

/// The first class of `order` that defines `member`, with the member.
pub open spec fn first_defining(index: SymbolIndex, order: Seq<Seq<char>>, member: Seq<char>) -> Option<Seq<char>>
    decreases order.len(),
{
    if order.len() == 0 {
        None
    } else if has_symbol(index, dotted(order[0], member)) {
        Some(dotted(order[0], member))
    } else {
        first_defining(index, order.drop_first(), member)
    }
}

/// Where `member` of the class `c` is found: on the first class of
/// `class_order(c)` that defines it.
pub open spec fn lookup_spec(index: SymbolIndex, c: Seq<char>, member: Seq<char>) -> Option<Seq<char>> {
    first_defining(index, class_order(index, c), member)
}

proof fn lemma_first_defining(index: SymbolIndex, order: Seq<Seq<char>>, member: Seq<char>, i: int)
    requires
        0 <= i <= order.len(),
        forall|j: int| 0 <= j < i ==> !has_symbol(index, dotted(#[trigger] order[j], member)),
        i < order.len() ==> has_symbol(index, dotted(order[i], member)),
    ensures
        first_defining(index, order, member) == if i < order.len() {
            Some(dotted(order[i], member))
        } else {
            None::<Seq<char>>
        },
    decreases order.len(),
{
    if order.len() > 0 && i > 0 {
        assert forall|j: int| 0 <= j < i - 1 implies !has_symbol(index, dotted(#[trigger] order.drop_first()[j], member)) by {
            assert(order.drop_first()[j] == order[j + 1]);
        }
        lemma_first_defining(index, order.drop_first(), member, i - 1);
    }
}

/// `t` is where `member` of the class `c` is found.
pub open spec fn member_at(index: SymbolIndex, c: Seq<char>, member: Seq<char>, t: Seq<char>) -> bool {
    lookup_spec(index, c, member) == Some(t)
}

proof fn lemma_first_defining_symbol(index: SymbolIndex, order: Seq<Seq<char>>, member: Seq<char>)
    ensures
        first_defining(index, order, member) matches Some(t) ==> has_symbol(index, t),
    decreases order.len(),
{
    if order.len() > 0 && !has_symbol(index, dotted(order[0], member)) {
        lemma_first_defining_symbol(index, order.drop_first(), member);
    }
}

/// Where a member is found is a symbol.
pub proof fn lemma_member_at_symbol(index: SymbolIndex, c: Seq<char>, member: Seq<char>, t: Seq<char>)
    requires
        member_at(index, c, member, t),
    ensures
        has_symbol(index, t),
{
    lemma_first_defining_symbol(index, class_order(index, c), member);
}

/// Where the member `member` of the class `class_name` is defined: the first
/// class in a depth-first walk from `class_name` through its bases that
/// defines it.
pub fn lookup_member(index: &SymbolIndex, class_name: &str, member: &str) -> (r: Option<String>)
    ensures
        match r {
            Some(t) => member_of(*index, class_name@, member@, t@),
            None => no_member(*index, class_name@, member@),
        },
        match r {
            Some(t) => lookup_spec(*index, class_name@, member@) == Some(t@),
            None => lookup_spec(*index, class_name@, member@) is None,
        },
{
    let closure = class_closure(index, class_name);
    let mut i: usize = 0;
    while i < closure.len()
        invariant
            i <= closure@.len(),
            forall|x: Seq<char>| holds(closure@, x) <==> ancestor_or_self(*index, class_name@, x),
            forall|j: int| 0 <= j < i ==> !has_symbol(*index, dotted(#[trigger] closure@[j]@, member@)),
            views(closure@) == class_order(*index, class_name@),
        decreases closure@.len() - i,
    {
        let candidate = join_dot(closure[i].as_str(), member);
        if is_symbol(index, candidate.as_str()) {
            assert(holds(closure@, closure@[i as int]@));
            assert(ancestor_or_self(*index, class_name@, closure@[i as int]@));
            proof {
                assert forall|j: int| 0 <= j < i implies !has_symbol(*index, dotted(#[trigger] views(closure@)[j], member@)) by {
                    assert(views(closure@)[j] == closure@[j]@);
                }
                lemma_first_defining(*index, views(closure@), member@, i as int);
            }
            return Some(candidate);
        }
        i = i + 1;
    }
    proof {
        assert forall|j: int| 0 <= j < closure@.len() implies !has_symbol(*index, dotted(#[trigger] views(closure@)[j], member@)) by {
            assert(views(closure@)[j] == closure@[j]@);
        }
        lemma_first_defining(*index, views(closure@), member@, closure@.len() as int);
    }
    assert forall|x: Seq<char>| #[trigger] ancestor_or_self(*index, class_name@, x) implies !has_symbol(*index, dotted(x, member@)) by {
        assert(holds(closure@, x));
        let j = choose|j: int| 0 <= j < closure@.len() && #[trigger] closure@[j]@ == x;
        assert(!has_symbol(*index, dotted(closure@[j]@, member@)));
    }
    None
}

/// `concrete_type` is `base_type` or derives from it.
pub fn class_derives_from(index: &SymbolIndex, concrete_type: &str, base_type: &str) -> (r: bool)
    ensures
        r == ancestor_or_self(*index, concrete_type@, base_type@),
{
    if same_text(concrete_type, base_type) {
        assert(reaches(*index, concrete_type@, base_type@, 0));
        return true;
    }
    let closure = class_closure(index, concrete_type);
    contains_string(&closure, base_type)
}

/// Whether one of the recorded bases of `info` is named `b`.
fn has_base_named(info: &ClassInfo, b: &str) -> (r: bool)
    ensures
        r == exists|k: int| 0 <= k < info.bases@.len() && #[trigger] info.bases@[k].base@ == b@,
{
    let mut k: usize = 0;
    while k < info.bases.len()
        invariant
            k <= info.bases@.len(),
            forall|q: int| 0 <= q < k ==> #[trigger] info.bases@[q].base@ != b@,
        decreases info.bases@.len() - k,
    {
        if same_text(info.bases[k].base.as_str(), b) {
            return true;
        }
        k = k + 1;
    }
    false
}

/// `base_type` is named as a base by `concrete_type` or by one of its
/// ancestors.
pub fn is_strict_subclass(index: &SymbolIndex, concrete_type: &str, base_type: &str) -> (r: bool)
    ensures
        r == strict_ancestor(*index, concrete_type@, base_type@),
{
    let closure = class_closure(index, concrete_type);
    let mut i: usize = 0;
    while i < closure.len()
        invariant
            i <= closure@.len(),
            forall|x: Seq<char>| holds(closure@, x) <==> ancestor_or_self(*index, concrete_type@, x),
            forall|j: int| 0 <= j < i ==> match class_named(*index, #[trigger] closure@[j]@) {
                Some(info) => forall|k: int| 0 <= k < info.bases@.len() ==> #[trigger] info.bases@[k].base@ != base_type@,
                None => true,
            },
        decreases closure@.len() - i,
    {
        match find_class(index, closure[i].as_str()) {
            Some(p) => {
                let info = &index.modules[p.0].classes[p.1];
                if has_base_named(info, base_type) {
                    assert(holds(closure@, closure@[i as int]@));
                    assert(ancestor_or_self(*index, concrete_type@, closure@[i as int]@));
                    assert(class_named(*index, closure@[i as int]@) == Some(*info));
                    let ghost k = choose|k: int| 0 <= k < info.bases@.len() && #[trigger] info.bases@[k].base@ == base_type@;
                    assert(base_at(*index, closure@[i as int]@, k) == base_type@);
                    assert(names_base(*index, closure@[i as int]@, base_type@));
                    return true;
                }
            },
            None => {},
        }
        i = i + 1;
    }
    assert forall|x: Seq<char>| #[trigger] ancestor_or_self(*index, concrete_type@, x) implies !names_base(*index, x, base_type@) by {
        assert(holds(closure@, x));
        let j = choose|j: int| 0 <= j < closure@.len() && #[trigger] closure@[j]@ == x;
        assert(closure@[j]@ == x);
        if names_base(*index, x, base_type@) {
            let k = choose|k: int| 0 <= k < base_count(*index, x) && #[trigger] base_at(*index, x, k) == base_type@;
            let info = class_named(*index, x)->0;
            assert(info.bases@[k].base@ == base_type@);
        }
    }
    false
}

/// The symbol `s` is a method, attribute or field defined directly on the
/// class `p`, named `member`.
pub open spec fn protocol_member(index: SymbolIndex, p: Seq<char>, member: Seq<char>) -> bool {
    &&& has_symbol(index, dotted(p, member))
    &&& match kind_of(index, dotted(p, member)) {
        Some(SymbolKind::Method) | Some(SymbolKind::Attribute) | Some(SymbolKind::Field) => true,
        _ => false,
    }
    &&& !has_char(member, '.')
}

/// `concrete_type` provides every member of the protocol class
/// `protocol_type`, a class deriving from `typing.Protocol`.
pub open spec fn implements_protocol(index: SymbolIndex, concrete_type: Seq<char>, protocol_type: Seq<char>) -> bool {
    &&& class_named(index, protocol_type) is Some
    &&& ancestor_or_self(index, protocol_type, "typing.Protocol"@)
    &&& forall|member: Seq<char>| #[trigger] protocol_member(index, protocol_type, member)
        ==> !no_member(index, concrete_type, member)
}

/// Whether `concrete_type` structurally implements the protocol
/// `protocol_type`.
pub fn structurally_implements_protocol(index: &SymbolIndex, concrete_type: &str, protocol_type: &str) -> (r: bool)
    ensures
        r == implements_protocol(*index, concrete_type@, protocol_type@),
{
    if find_class(index, protocol_type).is_none() {
        return false;
    }
    if !class_derives_from(index, protocol_type, "typing.Protocol") {
        return false;
    }
    let prefix = concat_dot(protocol_type);
    let ghost rows = crate::tables::symbol_rows(*index);
    let mut m: usize = 0;
    while m < index.modules.len()
        invariant
            m <= index.modules@.len(),
            rows == crate::tables::symbol_rows(*index),
            prefix@ == protocol_type@ + seq!['.'],
            forall|a: int, b: int|
                0 <= a < m && 0 <= b < rows[a].len() ==> member_ok(*index, concrete_type@, protocol_type@, #[trigger] rows[a][b].qualified_name@),
        decreases index.modules@.len() - m,
    {
        let symbols = &index.modules[m].symbols;
        let mut k: usize = 0;
        while k < symbols.len()
            invariant
                m < index.modules@.len(),
                *symbols == index.modules@[m as int].symbols,
                rows == crate::tables::symbol_rows(*index),
                k <= symbols@.len(),
                prefix@ == protocol_type@ + seq!['.'],
                forall|a: int, b: int|
                    0 <= a < m && 0 <= b < rows[a].len() ==> member_ok(*index, concrete_type@, protocol_type@, #[trigger] rows[a][b].qualified_name@),
                forall|b: int| 0 <= b < k ==> member_ok(*index, concrete_type@, protocol_type@, #[trigger] symbols@[b].qualified_name@),
            decreases symbols@.len() - k,
        {
            if !member_provided(index, concrete_type, protocol_type, &prefix, symbols[k].qualified_name.as_str()) {
                return false;
            }
            k = k + 1;
        }
        assert forall|a: int, b: int|
            0 <= a < m + 1 && 0 <= b < rows[a].len() implies member_ok(*index, concrete_type@, protocol_type@, #[trigger] rows[a][b].qualified_name@) by {
            if a == m {
                assert(rows[a] == symbols@);
            }
        }
        m = m + 1;
    }
    assert forall|member: Seq<char>| #[trigger] protocol_member(*index, protocol_type@, member) implies !no_member(*index, concrete_type@, member) by {
        let name = dotted(protocol_type@, member);
        crate::tables::lemma_last_in_rows(rows, name);
        let (a, b) = choose|a: int, b: int|
            0 <= a < rows.len() && 0 <= b < rows[a].len() && #[trigger] rows[a][b].key() == name;
        assert(member_ok(*index, concrete_type@, protocol_type@, rows[a][b].qualified_name@));
        assert(name.take(protocol_type@.len() as int + 1) =~= protocol_type@ + seq!['.']);
        assert(name.skip(protocol_type@.len() as int + 1) =~= member);
    }
    true
}

/// The symbol named `s`, if it is a member of the protocol `p`, is provided
/// by `c`.
pub open spec fn member_ok(index: SymbolIndex, c: Seq<char>, p: Seq<char>, s: Seq<char>) -> bool {
    let prefix = p + seq!['.'];
    crate::text::has_prefix(s, prefix) && protocol_member(index, p, s.skip(prefix.len() as int))
        ==> !no_member(index, c, s.skip(prefix.len() as int))
}

fn concat_dot(p: &str) -> (r: String)
    ensures
        r@ == p@ + seq!['.'],
{
    let r = crate::text::concat_text(p, ".");
    proof {
        reveal_strlit(".");
    }
    r
}

/// Checks one symbol name against the protocol `p` (see `member_ok`).
fn member_provided(index: &SymbolIndex, c: &str, p: &str, prefix: &String, s: &str) -> (r: bool)
    requires
        prefix@ == p@ + seq!['.'],
    ensures
        r == member_ok(*index, c@, p@, s@),
{
    if !starts_with(s, prefix.as_str()) {
        return true;
    }
    let n = s.unicode_len();
    let member = crate::text::slice_string(s, prefix.unicode_len(), n);
    assert(member@ =~= s@.skip(prefix@.len() as int));
    assert(s@ =~= dotted(p@, member@)) by {
        assert(s@.take(prefix@.len() as int) == prefix@);
        assert(s@ =~= s@.take(prefix@.len() as int) + s@.skip(prefix@.len() as int));
    }
    let kind = symbol_kind(index, s);
    let relevant = match kind {
        Some(SymbolKind::Method) | Some(SymbolKind::Attribute) | Some(SymbolKind::Field) => true,
        _ => false,
    };
    if !relevant || crate::text::contains_char(member.as_str(), '.') {
        return true;
    }
    lookup_member(index, c, member.as_str()).is_some()
}

/// `concrete_type` is `base_type`, derives from it, or structurally
/// implements it as a protocol.
pub open spec fn subclass_or_same(index: SymbolIndex, concrete_type: Seq<char>, base_type: Seq<char>) -> bool {
    ||| concrete_type == base_type
    ||| strict_ancestor(index, concrete_type, base_type)
    ||| implements_protocol(index, concrete_type, base_type)
}

/// A class that provides, itself or through an ancestor, every method,
/// attribute and field declared directly on a protocol class (a class
/// deriving from `typing.Protocol`) counts as a subtype of the protocol.
pub proof fn lemma_protocols_admit_structural_subtypes(index: SymbolIndex, concrete_type: Seq<char>, protocol_type: Seq<char>)
    requires
        class_named(index, protocol_type) is Some,
        ancestor_or_self(index, protocol_type, "typing.Protocol"@),
        forall|member: Seq<char>|
            #![trigger has_symbol(index, dotted(protocol_type, member))]
            has_symbol(index, dotted(protocol_type, member)) && !has_char(member, '.') && (kind_of(
                index,
                dotted(protocol_type, member),
            ) == Some(SymbolKind::Method) || kind_of(index, dotted(protocol_type, member)) == Some(SymbolKind::Attribute)
                || kind_of(index, dotted(protocol_type, member)) == Some(SymbolKind::Field)) ==> exists|a: Seq<char>|
                #[trigger] ancestor_or_self(index, concrete_type, a) && has_symbol(index, dotted(a, member)),
    ensures
        subclass_or_same(index, concrete_type, protocol_type),
{
    assert forall|member: Seq<char>| #[trigger] protocol_member(index, protocol_type, member) implies !no_member(
        index,
        concrete_type,
        member,
    ) by {
        assert(has_symbol(index, dotted(protocol_type, member)));
        let a = choose|a: Seq<char>| #[trigger] ancestor_or_self(index, concrete_type, a) && has_symbol(index, dotted(a, member));
    }
    assert(implements_protocol(index, concrete_type, protocol_type));
}

/// A class that misses a member declared on the protocol is no structural
/// subtype of it: unless it is the protocol or derives from it, it is no
/// subtype at all.
pub proof fn lemma_missing_members_break_protocols(
    index: SymbolIndex,
    concrete_type: Seq<char>,
    protocol_type: Seq<char>,
    member: Seq<char>,
)
    requires
        protocol_member(index, protocol_type, member),
        forall|a: Seq<char>| #[trigger] ancestor_or_self(index, concrete_type, a) ==> !has_symbol(index, dotted(a, member)),
        concrete_type != protocol_type,
        !strict_ancestor(index, concrete_type, protocol_type),
    ensures
        !subclass_or_same(index, concrete_type, protocol_type),
{
}

/// A class is a subtype of itself and of every class that it or one of its
/// ancestors names as a base.
pub proof fn lemma_derived_classes_are_subtypes(index: SymbolIndex, concrete_type: Seq<char>, x: Seq<char>, base_type: Seq<char>)
    requires
        ancestor_or_self(index, concrete_type, x),
        names_base(index, x, base_type),
    ensures
        subclass_or_same(index, concrete_type, base_type),
        subclass_or_same(index, concrete_type, concrete_type),
{
}

/// A class that is not a protocol is a supertype only of itself and of the
/// classes that derive from it: having its members is not enough.
pub proof fn lemma_non_protocols_need_derivation(index: SymbolIndex, concrete_type: Seq<char>, base_type: Seq<char>)
    requires
        !ancestor_or_self(index, base_type, "typing.Protocol"@),
        concrete_type != base_type,
        !strict_ancestor(index, concrete_type, base_type),
    ensures
        !subclass_or_same(index, concrete_type, base_type),
{
}

/// A name that is no class of the project is a supertype only of itself
/// and of the classes that name it as a base.
pub proof fn lemma_unknown_bases_need_derivation(index: SymbolIndex, concrete_type: Seq<char>, base_type: Seq<char>)
    requires
        class_named(index, base_type) is None,
        concrete_type != base_type,
        !strict_ancestor(index, concrete_type, base_type),
    ensures
        !subclass_or_same(index, concrete_type, base_type),
{
}

pub fn is_subclass_or_same(index: &SymbolIndex, concrete_type: &str, base_type: &str) -> (r: bool)
    ensures
        r == subclass_or_same(*index, concrete_type@, base_type@),
{
    if same_text(concrete_type, base_type) {
        return true;
    }
    is_strict_subclass(index, concrete_type, base_type) || structurally_implements_protocol(
        index,
        concrete_type,
        base_type,
    )
}

} // verus!
