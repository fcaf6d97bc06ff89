//! What live classes and members keep alive once the walk is over: the
//! class that owns a live member, the `__slots__` of a live class, and the
//! plain attributes of live classes that derive from a configured surface.
use vstd::prelude::*;

use crate::hierarchy::{ancestor_or_self, class_derives_from, distinct};
use crate::index::SymbolIndex;
use crate::report::SymbolKind;
use crate::tables::{has_symbol, is_symbol, kind_of, lemma_last_in_rows, symbol_kind, symbol_rows, Keyed};
use crate::text::{
    concat_text, contains_char, contains_string, copy_string, has_char, has_prefix, holds, rsplit_once,
    rsplit_once_char, slice_string, starts_with,
};

verus! {

/// `b` is `a` followed by more entries.
pub open spec fn appended(a: Seq<String>, b: Seq<String>) -> bool {
    a.len() <= b.len() && b.take(a.len() as int) == a
}

/// `t` is the class that owns the live method, attribute or field `s`.
pub open spec fn owner_edge(index: SymbolIndex, s: Seq<char>, t: Seq<char>) -> bool {
    &&& (kind_of(index, s) == Some(SymbolKind::Method) || kind_of(index, s) == Some(SymbolKind::Attribute)
        || kind_of(index, s) == Some(SymbolKind::Field))
    &&& rsplit_once(s, '.') matches Some(parts) && parts.0 == t
    &&& kind_of(index, t) == Some(SymbolKind::Class)
}

/// `t` is the `__slots__` of the live class `s`.
pub open spec fn slots_edge(index: SymbolIndex, s: Seq<char>, t: Seq<char>) -> bool {
    &&& kind_of(index, s) == Some(SymbolKind::Class)
    &&& t == s + ".__slots__"@
    &&& has_symbol(index, t)
}

/// The class `s` derives from one of the configured class surfaces.
pub open spec fn on_surface(index: SymbolIndex, s: Seq<char>) -> bool {
    exists|b: int| 0 <= b < index.class_surfaces@.len() && #[trigger] ancestor_or_self(index, s, index.class_surfaces@[b]@)
}

/// `t` is a field or attribute defined directly on the live class `s`, which
/// derives from a configured class surface.
pub open spec fn surface_edge(index: SymbolIndex, s: Seq<char>, t: Seq<char>) -> bool {
    &&& kind_of(index, s) == Some(SymbolKind::Class)
    &&& on_surface(index, s)
    &&& (kind_of(index, t) == Some(SymbolKind::Field) || kind_of(index, t) == Some(SymbolKind::Attribute))
    &&& has_prefix(t, s + "."@)
    &&& !has_char(t.skip(s.len() + 1 as int), '.')
}

/// `t` is reached by `owner_edge` from a name of `before`.
pub open spec fn owner_from(index: SymbolIndex, before: Seq<String>, t: Seq<char>) -> bool {
    exists|j: int| 0 <= j < before.len() && #[trigger] owner_edge(index, before[j]@, t)
}

/// `t` is reached by `slots_edge` from a name of `before`.
pub open spec fn slots_from(index: SymbolIndex, before: Seq<String>, t: Seq<char>) -> bool {
    exists|j: int| 0 <= j < before.len() && #[trigger] slots_edge(index, before[j]@, t)
}

/// `t` is reached by `surface_edge` from a name of `before`.
pub open spec fn surface_from(index: SymbolIndex, before: Seq<String>, t: Seq<char>) -> bool {
    exists|j: int| 0 <= j < before.len() && #[trigger] surface_edge(index, before[j]@, t)
}

/// The pass from `before` to `after` adds exactly the names that `step`
/// reaches from a name of `before`, each once.
pub open spec fn owners_added(index: SymbolIndex, before: Seq<String>, after: Seq<String>) -> bool {
    &&& appended(before, after)
    &&& distinct(after)
    &&& forall|i: int| before.len() <= i < after.len() ==> owner_from(index, before, #[trigger] after[i]@)
    &&& forall|j: int, t: Seq<char>| 0 <= j < before.len() && #[trigger] owner_edge(index, before[j]@, t) ==> holds(after, t)
}

pub open spec fn slots_added(index: SymbolIndex, before: Seq<String>, after: Seq<String>) -> bool {
    &&& appended(before, after)
    &&& distinct(after)
    &&& forall|i: int| before.len() <= i < after.len() ==> slots_from(index, before, #[trigger] after[i]@)
    &&& forall|j: int, t: Seq<char>| 0 <= j < before.len() && #[trigger] slots_edge(index, before[j]@, t) ==> holds(after, t)
}

pub open spec fn surfaces_added(index: SymbolIndex, before: Seq<String>, after: Seq<String>) -> bool {
    &&& appended(before, after)
    &&& distinct(after)
    &&& forall|i: int| before.len() <= i < after.len() ==> surface_from(index, before, #[trigger] after[i]@)
    &&& forall|j: int, t: Seq<char>| 0 <= j < before.len() && #[trigger] surface_edge(index, before[j]@, t) ==> holds(after, t)
}

/// Adds `t` unless it is there already.
fn add_live(live: &mut Vec<String>, t: &str)
    requires
        distinct(old(live)@),
    ensures
        appended(old(live)@, final(live)@),
        distinct(final(live)@),
        holds(final(live)@, t@),
        forall|i: int| old(live)@.len() <= i < final(live)@.len() ==> #[trigger] final(live)@[i]@ == t@,
{
    if contains_string(live, t) {
        assert(live@.take(live@.len() as int) =~= live@);
        return;
    }
    let ghost l0 = live@;
    live.push(String::from_str(t));
    proof {
        assert(live@.take(l0.len() as int) =~= l0);
        assert(live@[l0.len() as int]@ == t@);
        assert forall|i: int, j: int| 0 <= i < j < live@.len() implies live@[i]@ != live@[j]@ by {
            if j < l0.len() {
                assert(live@[i] == l0[i] && live@[j] == l0[j]);
            } else {
                assert(live@[i] == l0[i]);
            }
        }
    }
}

proof fn lemma_appended_trans(a: Seq<String>, b: Seq<String>, c: Seq<String>)
    requires
        appended(a, b),
        appended(b, c),
    ensures
        appended(a, c),
        forall|x: Seq<char>| holds(b, x) ==> holds(c, x),
{
    assert(c.take(a.len() as int) =~= a) by {
        assert forall|i: int| 0 <= i < a.len() implies c.take(a.len() as int)[i] == a[i] by {
            assert(c[i] == c.take(b.len() as int)[i]);
            assert(b[i] == b.take(a.len() as int)[i]);
        }
    }
    assert forall|x: Seq<char>| holds(b, x) implies holds(c, x) by {
        let i = choose|i: int| 0 <= i < b.len() && #[trigger] b[i]@ == x;
        assert(c[i] == c.take(b.len() as int)[i]);
    }
}

/// Makes live the class owning each live method, attribute and field.
pub fn mark_symbol_owners_live(index: &SymbolIndex, live: &mut Vec<String>)
    requires
        distinct(old(live)@),
    ensures
        owners_added(*index, old(live)@, final(live)@),
{
    let ghost l0 = live@;
    let n = live.len();
    assert(l0.take(n as int) =~= l0);
    let mut i: usize = 0;
    while i < n
        invariant
            n == l0.len(),
            i <= n,
            appended(l0, live@),
            distinct(live@),
            forall|k: int| n <= k < live@.len() ==> owner_from(*index, l0, #[trigger] live@[k]@),
            forall|j: int, t: Seq<char>| 0 <= j < i && #[trigger] owner_edge(*index, l0[j]@, t) ==> holds(live@, t),
        decreases n - i,
    {
        assert(live@[i as int] == live@.take(n as int)[i as int]);
        let s = copy_string(&live[i]);
        let ghost before = live@;
        let kind = symbol_kind(index, s.as_str());
        let member = match kind {
            Some(SymbolKind::Method) => true,
            Some(SymbolKind::Attribute) => true,
            Some(SymbolKind::Field) => true,
            _ => false,
        };
        if member {
            match rsplit_once_char(s.as_str(), '.') {
                Some(parts) => {
                    if symbol_kind(index, parts.0.as_str()) == Some(SymbolKind::Class) {
                        add_live(live, parts.0.as_str());
                        proof {
                            lemma_appended_trans(l0, before, live@);
                            assert(owner_edge(*index, l0[i as int]@, parts.0@));
                            assert forall|k: int| n <= k < live@.len() implies owner_from(*index, l0, #[trigger] live@[k]@) by {
                                if k < before.len() {
                                    assert(live@[k] == live@.take(before.len() as int)[k]);
                                    assert(live@[k] == before[k]);
                                } else {
                                    assert(owner_edge(*index, l0[i as int]@, live@[k]@));
                                }
                            }
                        }
                    }
                },
                None => {},
            }
        }
        i = i + 1;
    }
}

/// Makes live the `__slots__` of each live class.
pub fn mark_live_class_creation_metadata(index: &SymbolIndex, live: &mut Vec<String>)
    requires
        distinct(old(live)@),
    ensures
        slots_added(*index, old(live)@, final(live)@),
{
    let ghost l0 = live@;
    let n = live.len();
    assert(l0.take(n as int) =~= l0);
    let mut i: usize = 0;
    while i < n
        invariant
            n == l0.len(),
            i <= n,
            appended(l0, live@),
            distinct(live@),
            forall|k: int| n <= k < live@.len() ==> slots_from(*index, l0, #[trigger] live@[k]@),
            forall|j: int, t: Seq<char>| 0 <= j < i && #[trigger] slots_edge(*index, l0[j]@, t) ==> holds(live@, t),
        decreases n - i,
    {
        assert(live@[i as int] == live@.take(n as int)[i as int]);
        let s = copy_string(&live[i]);
        let ghost before = live@;
        if symbol_kind(index, s.as_str()) == Some(SymbolKind::Class) {
            let slots = concat_text(s.as_str(), ".__slots__");
            if is_symbol(index, slots.as_str()) {
                add_live(live, slots.as_str());
                proof {
                    lemma_appended_trans(l0, before, live@);
                    assert(slots_edge(*index, l0[i as int]@, slots@));
                    assert forall|k: int| n <= k < live@.len() implies slots_from(*index, l0, #[trigger] live@[k]@) by {
                        if k < before.len() {
                            assert(live@[k] == live@.take(before.len() as int)[k]);
                            assert(live@[k] == before[k]);
                        } else {
                            assert(slots_edge(*index, l0[i as int]@, live@[k]@));
                        }
                    }
                }
            }
        }
        i = i + 1;
    }
}

/// Whether the class derives from one of the configured class surfaces.
fn derives_from_surface(index: &SymbolIndex, class: &str) -> (r: bool)
    ensures
        r == on_surface(*index, class@),
{
    let mut b: usize = 0;
    while b < index.class_surfaces.len()
        invariant
            b <= index.class_surfaces@.len(),
            forall|k: int| 0 <= k < b ==> !#[trigger] ancestor_or_self(*index, class@, index.class_surfaces@[k]@),
        decreases index.class_surfaces@.len() - b,
    {
        if class_derives_from(index, class, index.class_surfaces[b].as_str()) {
            return true;
        }
        b = b + 1;
    }
    false
}

/// Whether `t` is a field or attribute defined directly under `prefix`
/// (the class name and a dot).
fn direct_surface_member(index: &SymbolIndex, prefix: &str, t: &str) -> (r: bool)
    ensures
        r == ((kind_of(*index, t@) == Some(SymbolKind::Field) || kind_of(*index, t@) == Some(SymbolKind::Attribute))
            && has_prefix(t@, prefix@) && !has_char(t@.skip(prefix@.len() as int), '.')),
{
    let kind = symbol_kind(index, t);
    if kind != Some(SymbolKind::Field) && kind != Some(SymbolKind::Attribute) {
        return false;
    }
    if !starts_with(t, prefix) {
        return false;
    }
    let rest = slice_string(t, prefix.unicode_len(), t.unicode_len());
    assert(rest@ =~= t@.skip(prefix@.len() as int));
    !contains_char(rest.as_str(), '.')
}

/// Makes live the fields and attributes defined directly on each live class
/// that derives from a configured class surface.
pub fn mark_configured_live_class_surfaces(index: &SymbolIndex, live: &mut Vec<String>)
    requires
        distinct(old(live)@),
    ensures
        surfaces_added(*index, old(live)@, final(live)@),
{
    let ghost l0 = live@;
    let n = live.len();
    assert(l0.take(n as int) =~= l0);
    if index.class_surfaces.len() == 0 {
        return;
    }
    let mut i: usize = 0;
    while i < n
        invariant
            n == l0.len(),
            i <= n,
            appended(l0, live@),
            distinct(live@),
            forall|k: int| n <= k < live@.len() ==> surface_from(*index, l0, #[trigger] live@[k]@),
            forall|j: int, t: Seq<char>| 0 <= j < i && #[trigger] surface_edge(*index, l0[j]@, t) ==> holds(live@, t),
        decreases n - i,
    {
        assert(live@[i as int] == live@.take(n as int)[i as int]);
        let s = copy_string(&live[i]);
        if symbol_kind(index, s.as_str()) == Some(SymbolKind::Class) && derives_from_surface(index, s.as_str()) {
            let prefix = concat_text(s.as_str(), ".");
            let ghost start = live@;
            assert(live@.take(live@.len() as int) =~= live@);
            proof {
                reveal_strlit(".");
            }
            let mut m: usize = 0;
            while m < index.modules.len()
                invariant
                    n == l0.len(),
                    i < n,
                    s@ == l0[i as int]@,
                    prefix@ == s@ + "."@,
                    kind_of(*index, s@) == Some(SymbolKind::Class),
                    on_surface(*index, s@),
                    m <= index.modules@.len(),
                    appended(l0, start),
                    appended(start, live@),
                    distinct(live@),
                    forall|k: int| n <= k < live@.len() ==> surface_from(*index, l0, #[trigger] live@[k]@),
                    forall|j: int, t: Seq<char>| 0 <= j < i && #[trigger] surface_edge(*index, l0[j]@, t) ==> holds(live@, t),
                    forall|mm: int, kk: int|
                        0 <= mm < m && 0 <= kk < index.modules@[mm].symbols@.len() && surface_edge(
                            *index,
                            s@,
                            #[trigger] index.modules@[mm].symbols@[kk].qualified_name@,
                        ) ==> holds(live@, index.modules@[mm].symbols@[kk].qualified_name@),
                decreases index.modules@.len() - m,
            {
                let symbols = &index.modules[m].symbols;
                let mut k: usize = 0;
                while k < symbols.len()
                    invariant
                        n == l0.len(),
                        i < n,
                        s@ == l0[i as int]@,
                        prefix@ == s@ + "."@,
                        kind_of(*index, s@) == Some(SymbolKind::Class),
                        on_surface(*index, s@),
                        m < index.modules@.len(),
                        *symbols == index.modules@[m as int].symbols,
                        k <= symbols@.len(),
                        appended(l0, start),
                        appended(start, live@),
                        distinct(live@),
                        forall|k2: int| n <= k2 < live@.len() ==> surface_from(*index, l0, #[trigger] live@[k2]@),
                        forall|j: int, t: Seq<char>| 0 <= j < i && #[trigger] surface_edge(*index, l0[j]@, t) ==> holds(live@, t),
                        forall|mm: int, kk: int|
                            0 <= mm < m && 0 <= kk < index.modules@[mm].symbols@.len() && surface_edge(
                                *index,
                                s@,
                                #[trigger] index.modules@[mm].symbols@[kk].qualified_name@,
                            ) ==> holds(live@, index.modules@[mm].symbols@[kk].qualified_name@),
                        forall|kk: int|
                            0 <= kk < k && surface_edge(*index, s@, #[trigger] symbols@[kk].qualified_name@) ==> holds(
                                live@,
                                symbols@[kk].qualified_name@,
                            ),
                    decreases symbols@.len() - k,
                {
                    let t = symbols[k].qualified_name.as_str();
                    proof {
                        reveal_strlit(".");
                    }
                    if direct_surface_member(index, prefix.as_str(), t) {
                        let ghost before = live@;
                        assert(surface_edge(*index, l0[i as int]@, t@));
                        add_live(live, t);
                        proof {
                            lemma_appended_trans(start, before, live@);
                            lemma_appended_trans(l0, start, live@);
                            assert forall|k2: int| n <= k2 < live@.len() implies surface_from(*index, l0, #[trigger] live@[k2]@) by {
                                if k2 < before.len() {
                                    assert(live@[k2] == live@.take(before.len() as int)[k2]);
                                    assert(live@[k2] == before[k2]);
                                } else {
                                    assert(surface_edge(*index, l0[i as int]@, live@[k2]@));
                                }
                            }
                        }
                    }
                    k = k + 1;
                }
                m = m + 1;
            }
            proof {
                lemma_appended_trans(l0, start, live@);
                assert forall|t: Seq<char>| #[trigger] surface_edge(*index, l0[i as int]@, t) implies holds(live@, t) by {
                    lemma_last_in_rows(symbol_rows(*index), t);
                    let (mm, kk) = choose|mm: int, kk: int|
                        0 <= mm < symbol_rows(*index).len() && 0 <= kk < symbol_rows(*index)[mm].len()
                            && #[trigger] symbol_rows(*index)[mm][kk].key() == t;
                    assert(symbol_rows(*index)[mm][kk] == index.modules@[mm].symbols@[kk]);
                    assert(index.modules@[mm].symbols@[kk].qualified_name@ == t);
                }
            }
        }
        i = i + 1;
    }
}

} // verus!
