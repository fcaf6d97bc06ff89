//! Warnings about live code that the analyzer could not follow: receivers
//! whose type it could not resolve, and keyword payloads it could not
//! expand.
use vstd::prelude::*;

use crate::analysis::{compute_live_symbols, live_result, span_view};
use crate::index::{ModuleIndex, SymbolIndex, UnresolvedReceiver, UnsupportedExpansion};
use crate::order::{is_permutation, key_less, key_view, lemma_key_order, sort_order, KeyView, SortKey};
use crate::report::{Diagnostic, Severity};
use crate::text::{concat_text, contains_string, copy_string, holds, join_dot};

verus! {

/// A diagnostic by value: code, severity, message and span.
pub open spec fn diagnostic_view(d: Diagnostic) -> (Seq<char>, Severity, Seq<char>, (Seq<char>, usize, usize)) {
    (d.code@, d.severity, d.message@, span_view(d.span))
}

pub open spec fn diagnostic_views(ds: Seq<Diagnostic>) -> Seq<(Seq<char>, Severity, Seq<char>, (Seq<char>, usize, usize))> {
    ds.map_values(|d: Diagnostic| diagnostic_view(d))
}

/// Diagnostics are listed by file, then line, then message.
pub open spec fn diagnostic_key(d: (Seq<char>, Severity, Seq<char>, (Seq<char>, usize, usize))) -> KeyView {
    (d.3.0, d.3.1 as nat, d.2)
}

/// `r` is `cands` reordered by file, line and message, keeping the order of
/// diagnostics with equal keys.
pub open spec fn ordered_as(
    cands: Seq<(Seq<char>, Severity, Seq<char>, (Seq<char>, usize, usize))>,
    r: Seq<(Seq<char>, Severity, Seq<char>, (Seq<char>, usize, usize))>,
) -> bool {
    exists|perm: Seq<usize>|
        {
            &&& #[trigger] is_permutation(perm, cands.len())
            &&& r.len() == cands.len()
            &&& forall|i: int| 0 <= i < r.len() ==> r[i] == cands[#[trigger] perm[i] as int]
            &&& forall|i: int, j: int|
                0 <= i < j < r.len() ==> !key_less(diagnostic_key(#[trigger] r[j]), diagnostic_key(#[trigger] r[i]))
            &&& forall|i: int, j: int|
                #![trigger perm[i], perm[j]]
                0 <= i < j < r.len() && diagnostic_key(r[i]) == diagnostic_key(r[j]) ==> perm[i] < perm[j]
        }
}

pub(crate) fn copy_diagnostic(d: &Diagnostic) -> (r: Diagnostic)
    ensures
        diagnostic_view(r) == diagnostic_view(*d),
{
    Diagnostic {
        code: copy_string(&d.code),
        severity: d.severity,
        message: copy_string(&d.message),
        span: d.span.duplicate(),
    }
}

/// Sorts diagnostics by file, line and message, stably.
pub fn order_diagnostics(cands: &Vec<Diagnostic>) -> (r: Vec<Diagnostic>)
    ensures
        ordered_as(diagnostic_views(cands@), diagnostic_views(r@)),
{
    let ghost cv = diagnostic_views(cands@);
    let mut keys: Vec<SortKey> = Vec::new();
    let mut i: usize = 0;
    while i < cands.len()
        invariant
            i <= cands@.len(),
            cv == diagnostic_views(cands@),
            keys@.len() == i,
            forall|j: int| 0 <= j < i ==> key_view(#[trigger] keys@[j]) == diagnostic_key(cv[j]),
        decreases cands@.len() - i,
    {
        let d = &cands[i];
        keys.push(SortKey { first: copy_string(&d.span.file), number: d.span.line, second: copy_string(&d.message) });
        i = i + 1;
    }
    let perm = sort_order(&keys);
    let mut out: Vec<Diagnostic> = Vec::new();
    let mut p: usize = 0;
    while p < perm.len()
        invariant
            cv == diagnostic_views(cands@),
            keys@.len() == cands@.len(),
            is_permutation(perm@, keys@.len()),
            p <= perm@.len(),
            out@.len() == p,
            forall|j: int| 0 <= j < p ==> diagnostic_view(#[trigger] out@[j]) == cv[perm@[j] as int],
        decreases perm@.len() - p,
    {
        assert(perm@[p as int] < cands@.len());
        out.push(copy_diagnostic(&cands[perm[p]]));
        p = p + 1;
    }
    proof {
        let rv = diagnostic_views(out@);
        assert forall|i2: int| 0 <= i2 < rv.len() implies rv[i2] == cv[#[trigger] perm@[i2] as int] by {
            assert(rv[i2] == diagnostic_view(out@[i2]));
        }
        assert forall|i2: int, j2: int| 0 <= i2 < j2 < rv.len() implies !key_less(
            diagnostic_key(#[trigger] rv[j2]),
            diagnostic_key(#[trigger] rv[i2]),
        ) by {
            assert(rv[i2] == diagnostic_view(out@[i2]));
            assert(rv[j2] == diagnostic_view(out@[j2]));
            assert(key_view(keys@[perm@[i2] as int]) == diagnostic_key(cv[perm@[i2] as int]));
            assert(key_view(keys@[perm@[j2] as int]) == diagnostic_key(cv[perm@[j2] as int]));
        }
        assert forall|i2: int, j2: int|
            #![trigger perm@[i2], perm@[j2]]
            0 <= i2 < j2 < rv.len() && diagnostic_key(rv[i2]) == diagnostic_key(rv[j2]) implies perm@[i2] < perm@[j2] by {
            assert(rv[i2] == diagnostic_view(out@[i2]));
            assert(rv[j2] == diagnostic_view(out@[j2]));
            assert(key_view(keys@[perm@[i2] as int]) == diagnostic_key(cv[perm@[i2] as int]));
            assert(key_view(keys@[perm@[j2] as int]) == diagnostic_key(cv[perm@[j2] as int]));
        }
        assert(is_permutation(perm@, cv.len()));
    }
    out
}

// ---------------------------------------------------------------------------
// Receivers whose type could not be resolved
// ---------------------------------------------------------------------------

/// `cannot resolve receiver type for {receiver}.{member}`
pub open spec fn receiver_message(receiver: Seq<char>, member: Seq<char>) -> Seq<char> {
    "cannot resolve receiver type for "@ + receiver + "."@ + member
}

/// The unresolved receivers of the modules, module by module.
pub open spec fn receiver_entries(mods: Seq<ModuleIndex>) -> Seq<UnresolvedReceiver>
    decreases mods.len(),
{
    if mods.len() == 0 {
        Seq::empty()
    } else {
        receiver_entries(mods.drop_last()) + mods.last().unresolved_receivers@
    }
}

/// The warnings for the unresolved receivers met in live code, in order.
pub open spec fn receiver_warnings(live: Seq<String>, es: Seq<UnresolvedReceiver>) -> Seq<
    (Seq<char>, Severity, Seq<char>, (Seq<char>, usize, usize)),
>
    decreases es.len(),
{
    if es.len() == 0 {
        Seq::empty()
    } else {
        let rest = receiver_warnings(live, es.drop_last());
        let u = es.last();
        if holds(live, u.from@) {
            rest.push(("DCF101"@, Severity::Warning, receiver_message(u.receiver@, u.member@), span_view(u.span)))
        } else {
            rest
        }
    }
}

/// The warnings for receivers met in the live code `live`, by file, line
/// and message.
pub fn receiver_diagnostics(index: &SymbolIndex, live: &Vec<String>) -> (r: Vec<Diagnostic>)
    ensures
        ordered_as(receiver_warnings(live@, receiver_entries(index.modules@)), diagnostic_views(r@)),
{
    let mut out: Vec<Diagnostic> = Vec::new();
    let mut m: usize = 0;
    assert(index.modules@.take(0) =~= Seq::<ModuleIndex>::empty());
    assert(diagnostic_views(out@) =~= receiver_warnings(live@, receiver_entries(index.modules@.take(0))));
    while m < index.modules.len()
        invariant
            m <= index.modules@.len(),
            diagnostic_views(out@) == receiver_warnings(live@, receiver_entries(index.modules@.take(m as int))),
        decreases index.modules@.len() - m,
    {
        let items = &index.modules[m].unresolved_receivers;
        let ghost base = receiver_entries(index.modules@.take(m as int));
        assert(base + items@.take(0) =~= base);
        let mut k: usize = 0;
        while k < items.len()
            invariant
                m < index.modules@.len(),
                *items == index.modules@[m as int].unresolved_receivers,
                base == receiver_entries(index.modules@.take(m as int)),
                k <= items@.len(),
                diagnostic_views(out@) == receiver_warnings(live@, base + items@.take(k as int)),
            decreases items@.len() - k,
        {
            let u = &items[k];
            let ghost es1 = base + items@.take(k + 1);
            assert(es1.drop_last() =~= base + items@.take(k as int));
            assert(es1.last() == *u);
            let ghost before = out@;
            if contains_string(live, u.from.as_str()) {
                let owner = join_dot(u.receiver.as_str(), u.member.as_str());
                let message = concat_text("cannot resolve receiver type for ", owner.as_str());
                let d = Diagnostic::warning("DCF101", message.as_str(), u.span.duplicate());
                proof {
                    reveal_strlit(".");
                    assert(message@ =~= receiver_message(u.receiver@, u.member@));
                }
                out.push(d);
                assert(diagnostic_views(out@) =~= diagnostic_views(before).push(diagnostic_view(d)));
            }
            k = k + 1;
        }
        proof {
            let t1 = index.modules@.take(m + 1);
            assert(t1.drop_last() =~= index.modules@.take(m as int));
            assert(items@.take(items@.len() as int) =~= items@);
        }
        m = m + 1;
    }
    assert(index.modules@.take(m as int) =~= index.modules@);
    order_diagnostics(&out)
}

/// Warnings for the receivers met in code that the primary root group keeps
/// alive whose type could not be resolved.
pub fn unresolved_receiver_diagnostics(index: &SymbolIndex) -> (r: Vec<Diagnostic>)
    ensures
        exists|live: Seq<String>|
            #![trigger live_result(*index, index.primary_root_group@, live)]
            live_result(*index, index.primary_root_group@, live) && ordered_as(
                receiver_warnings(live, receiver_entries(index.modules@)),
                diagnostic_views(r@),
            ),
{
    let live = compute_live_symbols(index, index.primary_root_group.as_str());
    let r = receiver_diagnostics(index, &live);
    assert(live_result(*index, index.primary_root_group@, live@));
    r
}

// ---------------------------------------------------------------------------
// Keyword payloads that could not be expanded
// ---------------------------------------------------------------------------

/// `cannot expand keyword payload for construction of {target}`
pub open spec fn expansion_message(target: Seq<char>) -> Seq<char> {
    "cannot expand keyword payload for construction of "@ + target
}

/// The unsupported expansions of the modules, module by module.
pub open spec fn expansion_entries(mods: Seq<ModuleIndex>) -> Seq<UnsupportedExpansion>
    decreases mods.len(),
{
    if mods.len() == 0 {
        Seq::empty()
    } else {
        expansion_entries(mods.drop_last()) + mods.last().unsupported_expansions@
    }
}

/// The warnings for the unsupported expansions met in live code, in order.
pub open spec fn expansion_warnings(live: Seq<String>, es: Seq<UnsupportedExpansion>) -> Seq<
    (Seq<char>, Severity, Seq<char>, (Seq<char>, usize, usize)),
>
    decreases es.len(),
{
    if es.len() == 0 {
        Seq::empty()
    } else {
        let rest = expansion_warnings(live, es.drop_last());
        let u = es.last();
        if holds(live, u.from@) {
            rest.push(("DCF103"@, Severity::Warning, expansion_message(u.target@), span_view(u.span)))
        } else {
            rest
        }
    }
}

/// The warnings for expansions met in the live code `live`, by file, line
/// and message.
pub fn expansion_diagnostics(index: &SymbolIndex, live: &Vec<String>) -> (r: Vec<Diagnostic>)
    ensures
        ordered_as(expansion_warnings(live@, expansion_entries(index.modules@)), diagnostic_views(r@)),
{
    let mut out: Vec<Diagnostic> = Vec::new();
    let mut m: usize = 0;
    assert(index.modules@.take(0) =~= Seq::<ModuleIndex>::empty());
    assert(diagnostic_views(out@) =~= expansion_warnings(live@, expansion_entries(index.modules@.take(0))));
    while m < index.modules.len()
        invariant
            m <= index.modules@.len(),
            diagnostic_views(out@) == expansion_warnings(live@, expansion_entries(index.modules@.take(m as int))),
        decreases index.modules@.len() - m,
    {
        let items = &index.modules[m].unsupported_expansions;
        let ghost base = expansion_entries(index.modules@.take(m as int));
        assert(base + items@.take(0) =~= base);
        let mut k: usize = 0;
        while k < items.len()
            invariant
                m < index.modules@.len(),
                *items == index.modules@[m as int].unsupported_expansions,
                base == expansion_entries(index.modules@.take(m as int)),
                k <= items@.len(),
                diagnostic_views(out@) == expansion_warnings(live@, base + items@.take(k as int)),
            decreases items@.len() - k,
        {
            let u = &items[k];
            let ghost es1 = base + items@.take(k + 1);
            assert(es1.drop_last() =~= base + items@.take(k as int));
            assert(es1.last() == *u);
            let ghost before = out@;
            if contains_string(live, u.from.as_str()) {
                let message = concat_text("cannot expand keyword payload for construction of ", u.target.as_str());
                let d = Diagnostic::warning("DCF103", message.as_str(), u.span.duplicate());
                out.push(d);
                assert(diagnostic_views(out@) =~= diagnostic_views(before).push(diagnostic_view(d)));
            }
            k = k + 1;
        }
        proof {
            let t1 = index.modules@.take(m + 1);
            assert(t1.drop_last() =~= index.modules@.take(m as int));
            assert(items@.take(items@.len() as int) =~= items@);
        }
        m = m + 1;
    }
    assert(index.modules@.take(m as int) =~= index.modules@);
    order_diagnostics(&out)
}

/// Warnings for keyword payloads met in code that the primary root group
/// keeps alive that could not be expanded.
pub fn unsupported_expansion_diagnostics(index: &SymbolIndex) -> (r: Vec<Diagnostic>)
    ensures
        exists|live: Seq<String>|
            #![trigger live_result(*index, index.primary_root_group@, live)]
            live_result(*index, index.primary_root_group@, live) && ordered_as(
                expansion_warnings(live, expansion_entries(index.modules@)),
                diagnostic_views(r@),
            ),
{
    let live = compute_live_symbols(index, index.primary_root_group.as_str());
    let r = expansion_diagnostics(index, &live);
    assert(live_result(*index, index.primary_root_group@, live@));
    r
}

} // verus!
