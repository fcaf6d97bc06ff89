//! The names an index mentions. The walk over live symbols only ever makes
//! such a name live and only ever records flows between such names, so the
//! number of names not yet live, and of flows not yet recorded, bounds how
//! often it can go on.
use vstd::prelude::*;

use crate::flow::{flow_base, flow_types, return_of, FlowEntry};
use crate::index::{
    CallArgumentType, FunctionParameter, FunctionSignature, IndexedSymbol, ModuleIndex, ModuleValue,
    PytestFixture, ResolvedImport, ResolvedRouteGlob, RootSymbol, SymbolIndex, TypeBinding,
};
use crate::resolve::import_reference;
use crate::tables::{
    fixture_named, fixture_rows, has_module_value, has_symbol, import_module, lemma_last_in_rows, symbol_rows,
    value_rows,
};
use crate::text::holds;

verus! {

// ---------------------------------------------------------------------------
// Counting over a sequence of names
// ---------------------------------------------------------------------------

/// The sum of `g` over the names of `w`.
pub open spec fn total(w: Seq<Seq<char>>, g: spec_fn(Seq<char>) -> nat) -> nat
    decreases w.len(),
{
    if w.len() == 0 {
        0
    } else {
        g(w[0]) + total(w.skip(1), g)
    }
}

pub proof fn lemma_total_mono(w: Seq<Seq<char>>, g1: spec_fn(Seq<char>) -> nat, g2: spec_fn(Seq<char>) -> nat)
    requires
        forall|x: Seq<char>| #![trigger g1(x)] #![trigger g2(x)] g2(x) <= g1(x),
    ensures
        total(w, g2) <= total(w, g1),
    decreases w.len(),
{
    if w.len() > 0 {
        lemma_total_mono(w.skip(1), g1, g2);
    }
}

pub proof fn lemma_total_strict(
    w: Seq<Seq<char>>,
    g1: spec_fn(Seq<char>) -> nat,
    g2: spec_fn(Seq<char>) -> nat,
    x: Seq<char>,
)
    requires
        forall|y: Seq<char>| #![trigger g1(y)] #![trigger g2(y)] g2(y) <= g1(y),
        w.contains(x),
        g2(x) < g1(x),
    ensures
        total(w, g2) < total(w, g1),
    decreases w.len(),
{
    if w[0] == x {
        lemma_total_mono(w.skip(1), g1, g2);
    } else {
        let i = choose|i: int| 0 <= i < w.len() && w[i] == x;
        assert(w.skip(1)[i - 1] == x);
        lemma_total_strict(w.skip(1), g1, g2, x);
    }
}

// ---------------------------------------------------------------------------
// The names of an index
// ---------------------------------------------------------------------------

/// The sequences of `ss` one after another.
pub open spec fn concat(ss: Seq<Seq<Seq<char>>>) -> Seq<Seq<char>>
    decreases ss.len(),
{
    if ss.len() == 0 {
        Seq::empty()
    } else {
        ss[0] + concat(ss.skip(1))
    }
}

pub proof fn lemma_concat_has(ss: Seq<Seq<Seq<char>>>, i: int, x: Seq<char>)
    requires
        0 <= i < ss.len(),
        ss[i].contains(x),
    ensures
        concat(ss).contains(x),
    decreases ss.len(),
{
    if i == 0 {
        let k = choose|k: int| 0 <= k < ss[0].len() && ss[0][k] == x;
        assert(concat(ss)[k] == x);
    } else {
        assert(ss.skip(1)[i - 1] == ss[i]);
        lemma_concat_has(ss.skip(1), i - 1, x);
        let rest = concat(ss.skip(1));
        let k = choose|k: int| 0 <= k < rest.len() && rest[k] == x;
        assert(concat(ss)[ss[0].len() + k] == x);
    }
}

pub proof fn lemma_add_has(a: Seq<Seq<char>>, b: Seq<Seq<char>>, x: Seq<char>)
    requires
        a.contains(x) || b.contains(x),
    ensures
        (a + b).contains(x),
{
    if a.contains(x) {
        let k = choose|k: int| 0 <= k < a.len() && a[k] == x;
        assert((a + b)[k] == x);
    } else {
        let k = choose|k: int| 0 <= k < b.len() && b[k] == x;
        assert((a + b)[a.len() + k] == x);
    }
}

pub open spec fn opt_word(o: Option<Seq<char>>) -> Seq<Seq<char>> {
    match o {
        Some(s) => seq![s],
        None => Seq::empty(),
    }
}

/// The module an import brings in and the name it binds, when local.
pub open spec fn import_words(imp: ResolvedImport) -> Seq<Seq<char>> {
    opt_word(import_module(imp.target)) + opt_word(import_reference(imp.target))
}

/// The class a slot annotated so holds, when it has one.
pub open spec fn annotation_word(a: Option<TypeBinding>) -> Seq<Seq<char>> {
    match a {
        Some(t) => match flow_base(t) {
            Some(p) => seq![p.0],
            None => Seq::empty(),
        },
        None => Seq::empty(),
    }
}

pub open spec fn signature_words(sig: FunctionSignature) -> Seq<Seq<char>> {
    concat(sig.parameters@.map_values(|p: FunctionParameter| annotation_word(p.annotation))) + annotation_word(
        return_of(sig),
    )
}

pub open spec fn module_words(m: ModuleIndex) -> Seq<Seq<char>> {
    m.symbols@.map_values(|s: IndexedSymbol| s.qualified_name@) + concat(
        m.imports@.map_values(|i: ResolvedImport| import_words(i)),
    ) + m.module_values@.map_values(|v: ModuleValue| v.qualified_name@) + m.pytest_fixtures@.map_values(
        |f: PytestFixture| f.function@,
    ) + m.root_symbols@.map_values(|r: RootSymbol| r.symbol@) + m.call_argument_types@.map_values(
        |c: CallArgumentType| c.callee@,
    ) + m.call_argument_types@.map_values(|c: CallArgumentType| c.concrete_type@) + concat(
        m.function_signatures@.map_values(|s: FunctionSignature| signature_words(s)),
    )
}

/// Every name the index mentions that the walk can make live or record.
pub open spec fn pool(index: SymbolIndex) -> Seq<Seq<char>> {
    concat(index.modules@.map_values(|m: ModuleIndex| module_words(m))) + concat(
        index.route_globs@.map_values(|g: ResolvedRouteGlob| g.modules@.map_values(|s: String| s@)),
    )
}

pub open spec fn word(index: SymbolIndex, s: Seq<char>) -> bool {
    pool(index).contains(s)
}

pub proof fn lemma_module_parts(m: ModuleIndex, x: Seq<char>)
    requires
        m.symbols@.map_values(|s: IndexedSymbol| s.qualified_name@).contains(x) || concat(
            m.imports@.map_values(|i: ResolvedImport| import_words(i)),
        ).contains(x) || m.module_values@.map_values(|v: ModuleValue| v.qualified_name@).contains(x)
            || m.pytest_fixtures@.map_values(|f: PytestFixture| f.function@).contains(x)
            || m.root_symbols@.map_values(|r: RootSymbol| r.symbol@).contains(x)
            || m.call_argument_types@.map_values(|c: CallArgumentType| c.callee@).contains(x)
            || m.call_argument_types@.map_values(|c: CallArgumentType| c.concrete_type@).contains(x) || concat(
            m.function_signatures@.map_values(|s: FunctionSignature| signature_words(s)),
        ).contains(x),
    ensures
        module_words(m).contains(x),
{
    let a1 = m.symbols@.map_values(|s: IndexedSymbol| s.qualified_name@);
    let a2 = concat(m.imports@.map_values(|i: ResolvedImport| import_words(i)));
    let a3 = m.module_values@.map_values(|v: ModuleValue| v.qualified_name@);
    let a4 = m.pytest_fixtures@.map_values(|f: PytestFixture| f.function@);
    let a5 = m.root_symbols@.map_values(|r: RootSymbol| r.symbol@);
    let a6 = m.call_argument_types@.map_values(|c: CallArgumentType| c.callee@);
    let a7 = m.call_argument_types@.map_values(|c: CallArgumentType| c.concrete_type@);
    let a8 = concat(m.function_signatures@.map_values(|s: FunctionSignature| signature_words(s)));
    let s2 = a1 + a2;
    if a1.contains(x) || a2.contains(x) {
        lemma_add_has(a1, a2, x);
    }
    let s3 = s2 + a3;
    if s2.contains(x) || a3.contains(x) {
        lemma_add_has(s2, a3, x);
    }
    let s4 = s3 + a4;
    if s3.contains(x) || a4.contains(x) {
        lemma_add_has(s3, a4, x);
    }
    let s5 = s4 + a5;
    if s4.contains(x) || a5.contains(x) {
        lemma_add_has(s4, a5, x);
    }
    let s6 = s5 + a6;
    if s5.contains(x) || a6.contains(x) {
        lemma_add_has(s5, a6, x);
    }
    let s7 = s6 + a7;
    if s6.contains(x) || a7.contains(x) {
        lemma_add_has(s6, a7, x);
    }
    lemma_add_has(s7, a8, x);
}

pub proof fn lemma_module_word(index: SymbolIndex, mi: int, x: Seq<char>)
    requires
        0 <= mi < index.modules@.len(),
        module_words(index.modules@[mi]).contains(x),
    ensures
        word(index, x),
{
    let ss = index.modules@.map_values(|m: ModuleIndex| module_words(m));
    assert(ss[mi] == module_words(index.modules@[mi]));
    lemma_concat_has(ss, mi, x);
    lemma_add_has(
        concat(ss),
        concat(index.route_globs@.map_values(|g: ResolvedRouteGlob| g.modules@.map_values(|s: String| s@))),
        x,
    );
}

/// A symbol's name is a name of the index.
pub proof fn lemma_symbol_word(index: SymbolIndex, name: Seq<char>)
    requires
        has_symbol(index, name),
    ensures
        word(index, name),
{
    lemma_last_in_rows(symbol_rows(index), name);
    let p = crate::tables::last_in_rows(symbol_rows(index), name)->0;
    let m = index.modules@[p.0];
    assert(symbol_rows(index)[p.0] == m.symbols@);
    let a1 = m.symbols@.map_values(|s: IndexedSymbol| s.qualified_name@);
    assert(a1[p.1] == name);
    lemma_module_parts(m, name);
    lemma_module_word(index, p.0, name);
}

/// A module-level value's name is a name of the index.
pub proof fn lemma_value_word(index: SymbolIndex, name: Seq<char>)
    requires
        has_module_value(index, name),
    ensures
        word(index, name),
{
    lemma_last_in_rows(value_rows(index), name);
    let p = crate::tables::last_in_rows(value_rows(index), name)->0;
    let m = index.modules@[p.0];
    assert(value_rows(index)[p.0] == m.module_values@);
    let a3 = m.module_values@.map_values(|v: ModuleValue| v.qualified_name@);
    assert(a3[p.1] == name);
    lemma_module_parts(m, name);
    lemma_module_word(index, p.0, name);
}

/// The function of a fixture found by name is a name of the index.
pub proof fn lemma_fixture_word(index: SymbolIndex, name: Seq<char>, f: PytestFixture)
    requires
        fixture_named(index, name) == Some(f),
    ensures
        word(index, f.function@),
{
    lemma_last_in_rows(fixture_rows(index), name);
    let p = crate::tables::last_in_rows(fixture_rows(index), name)->0;
    let m = index.modules@[p.0];
    assert(m.is_test);
    assert(fixture_rows(index)[p.0] == m.pytest_fixtures@);
    let a4 = m.pytest_fixtures@.map_values(|f: PytestFixture| f.function@);
    assert(a4[p.1] == f.function@);
    lemma_module_parts(m, f.function@);
    lemma_module_word(index, p.0, f.function@);
}

/// What a local import brings in or binds is a name of the index.
pub proof fn lemma_import_word(index: SymbolIndex, mi: int, j: int, t: Seq<char>)
    requires
        0 <= mi < index.modules@.len(),
        0 <= j < index.modules@[mi].imports@.len(),
        import_module(index.modules@[mi].imports@[j].target) == Some(t) || import_reference(
            index.modules@[mi].imports@[j].target,
        ) == Some(t),
    ensures
        word(index, t),
{
    let m = index.modules@[mi];
    let imp = m.imports@[j];
    let ss = m.imports@.map_values(|i: ResolvedImport| import_words(i));
    assert(ss[j] == import_words(imp));
    let a = opt_word(import_module(imp.target));
    let b = opt_word(import_reference(imp.target));
    if import_module(imp.target) == Some(t) {
        assert(a[0] == t);
    } else {
        assert(b[0] == t);
    }
    lemma_add_has(a, b, t);
    lemma_concat_has(ss, j, t);
    lemma_module_parts(m, t);
    lemma_module_word(index, mi, t);
}

/// A recorded root is a name of the index.
pub proof fn lemma_root_word(index: SymbolIndex, mi: int, r: int)
    requires
        0 <= mi < index.modules@.len(),
        0 <= r < index.modules@[mi].root_symbols@.len(),
    ensures
        word(index, index.modules@[mi].root_symbols@[r].symbol@),
{
    let m = index.modules@[mi];
    let x = m.root_symbols@[r].symbol@;
    let a5 = m.root_symbols@.map_values(|r: RootSymbol| r.symbol@);
    assert(a5[r] == x);
    lemma_module_parts(m, x);
    lemma_module_word(index, mi, x);
}

/// The callee and the class passed of a recorded call are names of the index.
pub proof fn lemma_call_words(index: SymbolIndex, mi: int, j: int)
    requires
        0 <= mi < index.modules@.len(),
        0 <= j < index.modules@[mi].call_argument_types@.len(),
    ensures
        word(index, index.modules@[mi].call_argument_types@[j].callee@),
        word(index, index.modules@[mi].call_argument_types@[j].concrete_type@),
{
    let m = index.modules@[mi];
    let c = m.call_argument_types@[j];
    let a6 = m.call_argument_types@.map_values(|c: CallArgumentType| c.callee@);
    let a7 = m.call_argument_types@.map_values(|c: CallArgumentType| c.concrete_type@);
    assert(a6[j] == c.callee@);
    assert(a7[j] == c.concrete_type@);
    lemma_module_parts(m, c.callee@);
    lemma_module_word(index, mi, c.callee@);
    lemma_module_parts(m, c.concrete_type@);
    lemma_module_word(index, mi, c.concrete_type@);
}

proof fn lemma_signature_word(index: SymbolIndex, mi: int, k: int, x: Seq<char>)
    requires
        0 <= mi < index.modules@.len(),
        0 <= k < index.modules@[mi].function_signatures@.len(),
        signature_words(index.modules@[mi].function_signatures@[k]).contains(x),
    ensures
        word(index, x),
{
    let m = index.modules@[mi];
    let ss = m.function_signatures@.map_values(|s: FunctionSignature| signature_words(s));
    assert(ss[k] == signature_words(m.function_signatures@[k]));
    lemma_concat_has(ss, k, x);
    lemma_module_parts(m, x);
    lemma_module_word(index, mi, x);
}

/// The class held by an annotated parameter is a name of the index.
pub proof fn lemma_param_word(index: SymbolIndex, mi: int, k: int, q: int, t: TypeBinding, b: (Seq<char>, bool))
    requires
        0 <= mi < index.modules@.len(),
        0 <= k < index.modules@[mi].function_signatures@.len(),
        0 <= q < index.modules@[mi].function_signatures@[k].parameters@.len(),
        index.modules@[mi].function_signatures@[k].parameters@[q].annotation == Some(t),
        flow_base(t) == Some(b),
    ensures
        word(index, b.0),
{
    let sig = index.modules@[mi].function_signatures@[k];
    let ps = sig.parameters@.map_values(|p: FunctionParameter| annotation_word(p.annotation));
    assert(ps[q] == annotation_word(Some(t)));
    assert(ps[q][0] == b.0);
    lemma_concat_has(ps, q, b.0);
    lemma_add_has(concat(ps), annotation_word(return_of(sig)), b.0);
    lemma_signature_word(index, mi, k, b.0);
}

/// The class held by a signature's return is a name of the index.
pub proof fn lemma_return_word(index: SymbolIndex, mi: int, k: int, t: TypeBinding, b: (Seq<char>, bool))
    requires
        0 <= mi < index.modules@.len(),
        0 <= k < index.modules@[mi].function_signatures@.len(),
        return_of(index.modules@[mi].function_signatures@[k]) == Some(t),
        flow_base(t) == Some(b),
    ensures
        word(index, b.0),
{
    let sig = index.modules@[mi].function_signatures@[k];
    let ps = sig.parameters@.map_values(|p: FunctionParameter| annotation_word(p.annotation));
    assert(annotation_word(return_of(sig))[0] == b.0);
    lemma_add_has(concat(ps), annotation_word(return_of(sig)), b.0);
    lemma_signature_word(index, mi, k, b.0);
}

/// A module a route glob brings in is a name of the index.
pub proof fn lemma_route_word(index: SymbolIndex, g: int, x: Seq<char>)
    requires
        0 <= g < index.route_globs@.len(),
        holds(index.route_globs@[g].modules@, x),
    ensures
        word(index, x),
{
    let ss = index.route_globs@.map_values(|g: ResolvedRouteGlob| g.modules@.map_values(|s: String| s@));
    let ms = index.route_globs@[g].modules@;
    let i = choose|i: int| 0 <= i < ms.len() && #[trigger] ms[i]@ == x;
    assert(ss[g] == ms.map_values(|s: String| s@));
    assert(ss[g][i] == x);
    lemma_concat_has(ss, g, x);
    lemma_add_has(concat(index.modules@.map_values(|m: ModuleIndex| module_words(m))), concat(ss), x);
}

// ---------------------------------------------------------------------------
// What is left to the walk
// ---------------------------------------------------------------------------

pub open spec fn live_gap(live: Seq<String>) -> spec_fn(Seq<char>) -> nat {
    |x: Seq<char>| if holds(live, x) { 0nat } else { 1nat }
}

/// How many names of the index (counted with repeats) are not live.
pub open spec fn live_missing(index: SymbolIndex, live: Seq<String>) -> nat {
    total(pool(index), live_gap(live))
}

/// Making more names live leaves no more names missing, and strictly fewer
/// once a name of the index that was missing is live.
pub proof fn lemma_live_missing(index: SymbolIndex, l0: Seq<String>, l1: Seq<String>)
    requires
        forall|x: Seq<char>| holds(l0, x) ==> holds(l1, x),
    ensures
        live_missing(index, l1) <= live_missing(index, l0),
        forall|x: Seq<char>|
            word(index, x) && holds(l1, x) && !holds(l0, x) ==> live_missing(index, l1) < live_missing(index, l0),
{
    assert forall|x: Seq<char>| #![trigger live_gap(l0)(x)] #![trigger live_gap(l1)(x)] live_gap(l1)(x) <= live_gap(l0)(x) by {
        if holds(l0, x) {
            assert(holds(l1, x));
        }
    }
    lemma_total_mono(pool(index), live_gap(l0), live_gap(l1));
    assert forall|x: Seq<char>|
        word(index, x) && holds(l1, x) && !holds(l0, x) implies live_missing(index, l1) < live_missing(index, l0) by {
        lemma_total_strict(pool(index), live_gap(l0), live_gap(l1), x);
    }
}

pub open spec fn flow_gap(flows: Seq<FlowEntry>, a: Seq<char>, b: Seq<char>) -> spec_fn(Seq<char>) -> nat {
    |c: Seq<char>| if flow_types(flows, a, b, c) { 0nat } else { 1nat }
}

pub open spec fn flow_gap2(index: SymbolIndex, flows: Seq<FlowEntry>, a: Seq<char>) -> spec_fn(Seq<char>) -> nat {
    |b: Seq<char>| total(pool(index), flow_gap(flows, a, b))
}

pub open spec fn flow_gap1(index: SymbolIndex, flows: Seq<FlowEntry>) -> spec_fn(Seq<char>) -> nat {
    |a: Seq<char>| total(pool(index), flow_gap2(index, flows, a))
}

/// How many triples of names of the index are not recorded flows.
pub open spec fn flow_missing(index: SymbolIndex, flows: Seq<FlowEntry>) -> nat {
    total(pool(index), flow_gap1(index, flows))
}

/// Every recorded flow is between names of the index.
pub open spec fn flows_named(index: SymbolIndex, flows: Seq<FlowEntry>) -> bool {
    forall|f: Seq<char>, b: Seq<char>, x: Seq<char>|
        #[trigger] flow_types(flows, f, b, x) ==> word(index, f) && word(index, b) && word(index, x)
}

/// Recording more flows leaves no more triples missing, and strictly fewer
/// once a triple of names of the index that was missing is recorded.
pub proof fn lemma_flow_missing(index: SymbolIndex, f0: Seq<FlowEntry>, f1: Seq<FlowEntry>)
    requires
        forall|a: Seq<char>, b: Seq<char>, c: Seq<char>| flow_types(f0, a, b, c) ==> flow_types(f1, a, b, c),
    ensures
        flow_missing(index, f1) <= flow_missing(index, f0),
        forall|a: Seq<char>, b: Seq<char>, c: Seq<char>|
            word(index, a) && word(index, b) && word(index, c) && flow_types(f1, a, b, c) && !flow_types(f0, a, b, c)
                ==> flow_missing(index, f1) < flow_missing(index, f0),
{
    let w = pool(index);
    assert forall|a: Seq<char>, b: Seq<char>| #[trigger] flow_gap2(index, f1, a)(b) <= flow_gap2(index, f0, a)(b) by {
        assert forall|c: Seq<char>| #![trigger flow_gap(f0, a, b)(c)] #![trigger flow_gap(f1, a, b)(c)] flow_gap(f1, a, b)(c) <= flow_gap(f0, a, b)(c) by {
            if flow_types(f0, a, b, c) {
                assert(flow_types(f1, a, b, c));
            }
        }
        lemma_total_mono(w, flow_gap(f0, a, b), flow_gap(f1, a, b));
    }
    assert forall|a: Seq<char>| #[trigger] flow_gap1(index, f1)(a) <= flow_gap1(index, f0)(a) by {
        lemma_total_mono(w, flow_gap2(index, f0, a), flow_gap2(index, f1, a));
    }
    lemma_total_mono(w, flow_gap1(index, f0), flow_gap1(index, f1));
    assert forall|a: Seq<char>, b: Seq<char>, c: Seq<char>|
        word(index, a) && word(index, b) && word(index, c) && flow_types(f1, a, b, c) && !flow_types(f0, a, b, c)
            implies flow_missing(index, f1) < flow_missing(index, f0) by {
        assert forall|y: Seq<char>| #![trigger flow_gap(f0, a, b)(y)] #![trigger flow_gap(f1, a, b)(y)] flow_gap(f1, a, b)(y) <= flow_gap(f0, a, b)(y) by {
            if flow_types(f0, a, b, y) {
                assert(flow_types(f1, a, b, y));
            }
        }
        lemma_total_strict(w, flow_gap(f0, a, b), flow_gap(f1, a, b), c);
        assert forall|y: Seq<char>| #![trigger flow_gap2(index, f0, a)(y)] #![trigger flow_gap2(index, f1, a)(y)] flow_gap2(index, f1, a)(y) <= flow_gap2(index, f0, a)(y) by {
            assert(flow_gap2(index, f1, a)(y) <= flow_gap2(index, f0, a)(y));
        }
        lemma_total_strict(w, flow_gap2(index, f0, a), flow_gap2(index, f1, a), b);
        assert forall|y: Seq<char>| #![trigger flow_gap1(index, f0)(y)] #![trigger flow_gap1(index, f1)(y)] flow_gap1(index, f1)(y) <= flow_gap1(index, f0)(y) by {
            assert(flow_gap1(index, f1)(y) <= flow_gap1(index, f0)(y));
        }
        lemma_total_strict(w, flow_gap1(index, f0), flow_gap1(index, f1), a);
    }
}

} // verus!
