//! Liveness: the symbols reached from the roots of a root group by
//! following imports, references, member accesses, fixtures and type flows,
//! and the class members that live classes keep alive.
use vstd::prelude::*;

use crate::flow::{
    add_flow, concrete_flow_base, concrete_flow_candidates, flow_base, flows_grow_at, flows_wf, init_of,
    override_return, propagate_concrete_return_flows, return_flow, return_slot, flow_source, flow_types,
    flows_sourced, scope_flows, FlowEntry,
};
use crate::hierarchy::{
    ancestor_or_self, class_derives_from, distinct, is_subclass_or_same, lemma_member_at_symbol, lookup_member,
    lookup_spec, member_at, subclass_or_same,
};
use crate::index::{AccessKind, CallArgumentType, SymbolIndex};
use crate::pool::{
    flow_missing, flows_named, lemma_call_words, lemma_fixture_word, lemma_flow_missing, lemma_import_word,
    lemma_live_missing, lemma_param_word, lemma_return_word, lemma_root_word, lemma_route_word, lemma_symbol_word,
    lemma_value_word, live_missing, word,
};
use crate::resolve::{
    import_bound, lemma_enclosing_lookup, lemma_import_bound, reference_target, resolve_reference,
};
use crate::tables::{
    lemma_last_keyed, find_fixture, find_module, find_signature, fixture_named, has_symbol, import_module,
    imported_module_target, is_symbol, module_named, owner_module, owner_of, signature_named,
};
use crate::text::{
    concat_text, contains_string, copy_string, copy_strings, dotted, holds, rsplit_once, rsplit_once_char,
    same_text,
};

verus! {

// ---------------------------------------------------------------------------
// The edges between symbols
// ---------------------------------------------------------------------------

/// The module an owner's code lives in, when there is one.
pub open spec fn home(index: SymbolIndex, o: Seq<char>) -> Option<int> {
    match owner_of(index, o) {
        Some(name) => module_named(index, name),
        None => None,
    }
}

/// `o` is a module that imports the local module `t`.
pub open spec fn import_edge(index: SymbolIndex, o: Seq<char>, t: Seq<char>) -> bool {
    match module_named(index, o) {
        Some(mi) => exists|j: int|
            0 <= j < index.modules@[mi].imports@.len() && #[trigger] import_module(index.modules@[mi].imports@[j].target)
                == Some(t),
        None => false,
    }
}

/// `t` is the `model_config` of the pydantic model `o`.
pub open spec fn model_config_edge(index: SymbolIndex, o: Seq<char>, t: Seq<char>) -> bool {
    &&& home(index, o) is Some
    &&& ancestor_or_self(index, o, "pydantic.BaseModel"@)
    &&& t == o + ".model_config"@
    &&& has_symbol(index, t)
}

/// A parameter name that requests a test fixture.
pub open spec fn fixture_parameter(name: Seq<char>) -> bool {
    name != "self"@ && name != "cls"@
}

/// `t` is the function of a test fixture that a parameter of `o` requests.
pub open spec fn fixture_edge(index: SymbolIndex, o: Seq<char>, t: Seq<char>) -> bool {
    &&& home(index, o) is Some
    &&& match signature_named(index, o) {
        Some(sig) => exists|p: int|
            0 <= p < sig.parameters@.len() && fixture_parameter(sig.parameters@[p].name@) && match fixture_named(
                index,
                #[trigger] sig.parameters@[p].name@,
            ) {
                Some(f) => f.function@ == t,
                None => false,
            },
        None => false,
    }
}

/// `t` is what a name used in `o` refers to.
pub open spec fn reference_edge(index: SymbolIndex, o: Seq<char>, t: Seq<char>) -> bool {
    match home(index, o) {
        Some(mi) => exists|j: int|
            0 <= j < index.modules@[mi].references@.len() && index.modules@[mi].references@[j].from@ == o
                && #[trigger] reference_target(index, o, index.modules@[mi], index.modules@[mi].references@[j].name@)
                == Some(t),
        None => false,
    }
}

/// `t` is a module that a route glob brings in when `o` uses the function
/// that the glob waits for.
pub open spec fn route_edge(index: SymbolIndex, o: Seq<char>, t: Seq<char>) -> bool {
    exists|f: Seq<char>|
        #[trigger] reference_edge(index, o, f) && exists|g: int|
            0 <= g < index.route_globs@.len() && #[trigger] index.route_globs@[g].when_function_called@ == f
                && holds(index.route_globs@[g].modules@, t)
}

/// `o` accesses a member `m` of a receiver declared as `R`, and `t` is where
/// that member is found for `R` or for a class admitted into a slot named
/// `R` that `o` sees.
pub open spec fn member_edge(index: SymbolIndex, o: Seq<char>, t: Seq<char>) -> bool {
    match home(index, o) {
        Some(mi) => exists|j: int|
            0 <= j < index.modules@[mi].member_references@.len() && index.modules@[mi].member_references@[j].from@ == o
                && match #[trigger] rsplit_once(index.modules@[mi].member_references@[j].target@, '.') {
                Some(parts) => exists|c: Seq<char>|
                    (c == parts.0 || scope_admitted(index, o, parts.0, c)) && #[trigger] member_at(index, c, parts.1, t),
                None => false,
            },
        None => false,
    }
}

/// Class `c` is admitted into a slot named `receiver` of `scope`, of the
/// initialiser of the class `scope` is a method of, or of a scope that
/// encloses it.
pub open spec fn scope_admitted(index: SymbolIndex, scope: Seq<char>, receiver: Seq<char>, c: Seq<char>) -> bool
    decreases scope.len(),
{
    ||| flow_admitted(index, scope, receiver, c)
    ||| (init_of(scope) is Some && flow_admitted(index, init_of(scope)->0, receiver, c))
    ||| match rsplit_once(scope, '.') {
        Some(parts) => {
            proof {
                crate::text::lemma_last_index(scope, '.');
            }
            scope_admitted(index, parts.0, receiver, c)
        },
        None => false,
    }
}

/// `t` is reached from `o` in one step.
pub open spec fn edge(index: SymbolIndex, o: Seq<char>, t: Seq<char>) -> bool {
    ||| import_edge(index, o, t)
    ||| model_config_edge(index, o, t)
    ||| fixture_edge(index, o, t)
    ||| reference_edge(index, o, t)
    ||| route_edge(index, o, t)
    ||| member_edge(index, o, t)
}

/// The module an owner's code lives in is one of the index.
proof fn lemma_home(index: SymbolIndex, o: Seq<char>)
    ensures
        home(index, o) matches Some(mi) ==> 0 <= mi < index.modules@.len(),
{
    if let Some(name) = owner_of(index, o) {
        lemma_last_keyed(index.modules@, name);
    }
}

proof fn lemma_reference_word(index: SymbolIndex, o: Seq<char>, t: Seq<char>)
    requires
        reference_edge(index, o, t),
    ensures
        word(index, t),
{
    lemma_home(index, o);
    let mi = home(index, o)->0;
    let module = index.modules@[mi];
    let j = choose|j: int|
        0 <= j < module.references@.len() && module.references@[j].from@ == o && #[trigger] reference_target(
            index,
            o,
            module,
            module.references@[j].name@,
        ) == Some(t);
    let name = module.references@[j].name@;
    if has_symbol(index, name) {
        lemma_symbol_word(index, name);
    } else {
        match import_bound(module.imports@, name) {
            Some(target) => {
                lemma_import_bound(module.imports@, name);
                let k = choose|k: int| 0 <= k < module.imports@.len() && #[trigger] module.imports@[k].target == target;
                lemma_import_word(index, mi, k, t);
            },
            None => {
                if has_symbol(index, dotted(o, name)) {
                    lemma_symbol_word(index, t);
                } else {
                    lemma_enclosing_lookup(index, module.module@, o, name);
                    if has_symbol(index, t) {
                        lemma_symbol_word(index, t);
                    } else {
                        lemma_value_word(index, t);
                    }
                }
            },
        }
    }
}

/// Whatever an edge reaches is a name of the index.
pub proof fn lemma_edge_word(index: SymbolIndex, o: Seq<char>, t: Seq<char>)
    requires
        edge(index, o, t),
    ensures
        word(index, t),
{
    if import_edge(index, o, t) {
        lemma_last_keyed(index.modules@, o);
        let mi = module_named(index, o)->0;
        let j = choose|j: int|
            0 <= j < index.modules@[mi].imports@.len() && #[trigger] import_module(index.modules@[mi].imports@[j].target)
                == Some(t);
        lemma_import_word(index, mi, j, t);
    } else if model_config_edge(index, o, t) {
        lemma_symbol_word(index, t);
    } else if fixture_edge(index, o, t) {
        let sig = signature_named(index, o)->0;
        let p = choose|p: int|
            0 <= p < sig.parameters@.len() && fixture_parameter(sig.parameters@[p].name@) && match fixture_named(
                index,
                #[trigger] sig.parameters@[p].name@,
            ) {
                Some(f) => f.function@ == t,
                None => false,
            };
        let f = fixture_named(index, sig.parameters@[p].name@)->0;
        lemma_fixture_word(index, sig.parameters@[p].name@, f);
    } else if reference_edge(index, o, t) {
        lemma_reference_word(index, o, t);
    } else if route_edge(index, o, t) {
        let f = choose|f: Seq<char>|
            #[trigger] reference_edge(index, o, f) && exists|g: int|
                0 <= g < index.route_globs@.len() && #[trigger] index.route_globs@[g].when_function_called@ == f
                    && holds(index.route_globs@[g].modules@, t);
        let g = choose|g: int|
            0 <= g < index.route_globs@.len() && #[trigger] index.route_globs@[g].when_function_called@ == f && holds(
                index.route_globs@[g].modules@,
                t,
            );
        lemma_route_word(index, g, t);
    } else {
        assert(member_edge(index, o, t));
        let mi = home(index, o)->0;
        let j = choose|j: int|
            0 <= j < index.modules@[mi].member_references@.len() && index.modules@[mi].member_references@[j].from@ == o
                && match #[trigger] rsplit_once(index.modules@[mi].member_references@[j].target@, '.') {
                Some(parts) => exists|c: Seq<char>|
                    (c == parts.0 || scope_admitted(index, o, parts.0, c)) && #[trigger] member_at(index, c, parts.1, t),
                None => false,
            };
        let parts = rsplit_once(index.modules@[mi].member_references@[j].target@, '.')->0;
        let c = choose|c: Seq<char>| (c == parts.0 || scope_admitted(index, o, parts.0, c)) && #[trigger] member_at(index, c, parts.1, t);
        lemma_member_at_symbol(index, c, parts.1, t);
        lemma_symbol_word(index, t);
    }
}

/// `s` is a root of the group.
pub open spec fn is_root(index: SymbolIndex, group: Seq<char>, s: Seq<char>) -> bool {
    exists|m: int, r: int| #[trigger] root_at(index, group, m, r, s)
}

/// The root recorded at position `r` of module `m` is `s`, of the group.
pub open spec fn root_at(index: SymbolIndex, group: Seq<char>, m: int, r: int, s: Seq<char>) -> bool {
    &&& 0 <= m < index.modules@.len()
    &&& 0 <= r < index.modules@[m].root_symbols@.len()
    &&& index.modules@[m].root_symbols@[r].group@ == group
    &&& index.modules@[m].root_symbols@[r].symbol@ == s
}

/// Every live symbol is a root or is reached in one step from a symbol
/// that became live before it.
pub open spec fn justified(index: SymbolIndex, group: Seq<char>, live: Seq<String>) -> bool {
    forall|i: int|
        0 <= i < live.len() ==> is_root(index, group, #[trigger] live[i]@) || exists|j: int|
            0 <= j < i && #[trigger] edge(index, live[j]@, live[i]@)
}

// ---------------------------------------------------------------------------
// Growth of the live list
// ---------------------------------------------------------------------------

/// `b` is `a` followed by more entries.
pub open spec fn extends<T>(a: Seq<T>, b: Seq<T>) -> bool {
    a.len() <= b.len() && b.take(a.len() as int) == a
}

/// From `live0`/`queue0` to `live1`/`queue1`, only symbols reached in one
/// step from `o` became live, each also queued.
pub open spec fn grows(
    index: SymbolIndex,
    o: Seq<char>,
    live0: Seq<String>,
    live1: Seq<String>,
    queue0: Seq<String>,
    queue1: Seq<String>,
) -> bool {
    &&& extends(live0, live1)
    &&& extends(queue0, queue1)
    &&& distinct(live1)
    &&& forall|i: int|
        live0.len() <= i < live1.len() ==> edge(index, o, #[trigger] live1[i]@) && holds(
            queue1.skip(queue0.len() as int),
            live1[i]@,
        )
    &&& forall|k: int|
        queue0.len() <= k < queue1.len() ==> holds(live1, #[trigger] queue1[k]@) || queue1[k]@ == o
}

proof fn lemma_grows_trans(
    index: SymbolIndex,
    o: Seq<char>,
    l0: Seq<String>,
    l1: Seq<String>,
    l2: Seq<String>,
    q0: Seq<String>,
    q1: Seq<String>,
    q2: Seq<String>,
)
    requires
        grows(index, o, l0, l1, q0, q1),
        grows(index, o, l1, l2, q1, q2),
    ensures
        grows(index, o, l0, l2, q0, q2),
{
    assert(l2.take(l0.len() as int) =~= l0) by {
        assert forall|i: int| 0 <= i < l0.len() implies l2.take(l0.len() as int)[i] == l0[i] by {
            assert(l2[i] == l2.take(l1.len() as int)[i]);
            assert(l1[i] == l1.take(l0.len() as int)[i]);
        }
    }
    assert(q2.take(q0.len() as int) =~= q0) by {
        assert forall|i: int| 0 <= i < q0.len() implies q2.take(q0.len() as int)[i] == q0[i] by {
            assert(q2[i] == q2.take(q1.len() as int)[i]);
            assert(q1[i] == q1.take(q0.len() as int)[i]);
        }
    }
    assert forall|k: int| q0.len() <= k < q2.len() implies holds(l2, #[trigger] q2[k]@) || q2[k]@ == o by {
        if k < q1.len() {
            assert(q2[k] == q2.take(q1.len() as int)[k]);
            if holds(l1, q1[k]@) {
                lemma_holds_extends(l1, l2, q1[k]@);
            }
        }
    }
    assert forall|i: int| l0.len() <= i < l2.len() implies edge(index, o, #[trigger] l2[i]@) && holds(
        q2.skip(q0.len() as int),
        l2[i]@,
    ) by {
        if i < l1.len() {
            assert(l2[i] == l2.take(l1.len() as int)[i]);
            let k = choose|k: int| 0 <= k < q1.skip(q0.len() as int).len() && #[trigger] q1.skip(q0.len() as int)[k]@ == l1[i]@;
            assert(q2[q0.len() + k] == q2.take(q1.len() as int)[q0.len() + k]);
            assert(q2.skip(q0.len() as int)[k]@ == l2[i]@);
        } else {
            let k = choose|k: int| 0 <= k < q2.skip(q1.len() as int).len() && #[trigger] q2.skip(q1.len() as int)[k]@ == l2[i]@;
            assert(q2.skip(q0.len() as int)[k + q1.len() - q0.len()]@ == l2[i]@);
        }
    }
}

proof fn lemma_grows_refl(index: SymbolIndex, o: Seq<char>, l: Seq<String>, q: Seq<String>)
    requires
        distinct(l),
    ensures
        grows(index, o, l, l, q, q),
{
    assert(l.take(l.len() as int) =~= l);
    assert(q.take(q.len() as int) =~= q);
}

/// The queue grew by as many names as became live.
pub open spec fn paired(live0: Seq<String>, live1: Seq<String>, queue0: Seq<String>, queue1: Seq<String>) -> bool {
    queue1.len() - queue0.len() == live1.len() - live0.len()
}

/// Makes `target` live, queueing it, unless it already is.
fn push_live(live: &mut Vec<String>, queue: &mut Vec<String>, target: &str)
    requires
        distinct(old(live)@),
    ensures
        extends(old(live)@, final(live)@),
        extends(old(queue)@, final(queue)@),
        distinct(final(live)@),
        holds(final(live)@, target@),
        final(live)@.len() <= old(live)@.len() + 1,
        forall|i: int| old(live)@.len() <= i < final(live)@.len() ==> #[trigger] final(live)@[i]@ == target@,
        final(live)@.len() > old(live)@.len() ==> holds(final(queue)@.skip(old(queue)@.len() as int), target@),
        forall|k: int| old(queue)@.len() <= k < final(queue)@.len() ==> #[trigger] final(queue)@[k]@ == target@,
        paired(old(live)@, final(live)@, old(queue)@, final(queue)@),
{
    if contains_string(live, target) {
        assert(live@.take(live@.len() as int) =~= live@);
        assert(queue@.take(queue@.len() as int) =~= queue@);
        return;
    }
    let ghost l0 = live@;
    let ghost q0 = queue@;
    live.push(String::from_str(target));
    queue.push(String::from_str(target));
    proof {
        assert(live@.take(l0.len() as int) =~= l0);
        assert(queue@.take(q0.len() as int) =~= q0);
        assert(live@[l0.len() as int]@ == target@);
        assert(queue@.skip(q0.len() as int)[0]@ == target@);
        assert(queue@[q0.len() as int]@ == target@);
        assert forall|i: int, j: int| 0 <= i < j < live@.len() implies live@[i]@ != live@[j]@ by {
            if j < l0.len() {
                assert(live@[i] == l0[i] && live@[j] == l0[j]);
            } else {
                assert(live@[i] == l0[i]);
            }
        }
    }
}

/// Makes `target`, reached in one step from `o`, live.
fn push_edge(index: &SymbolIndex, o: &str, target: &str, live: &mut Vec<String>, queue: &mut Vec<String>)
    requires
        distinct(old(live)@),
        edge(*index, o@, target@),
    ensures
        grows(*index, o@, old(live)@, final(live)@, old(queue)@, final(queue)@),
        paired(old(live)@, final(live)@, old(queue)@, final(queue)@),
        holds(final(live)@, target@),
{
    push_live(live, queue, target);
}

// ---------------------------------------------------------------------------
// Visiting one live owner
// ---------------------------------------------------------------------------

/// Every local module imported by the module `o` is live.
pub open spec fn imports_closed(index: SymbolIndex, o: Seq<char>, live: Seq<String>) -> bool {
    forall|t: Seq<char>| #[trigger] import_edge(index, o, t) ==> holds(live, t)
}

fn visit_imports(index: &SymbolIndex, owner: &str, live: &mut Vec<String>, queue: &mut Vec<String>)
    requires
        distinct(old(live)@),
    ensures
        grows(*index, owner@, old(live)@, final(live)@, old(queue)@, final(queue)@),
        paired(old(live)@, final(live)@, old(queue)@, final(queue)@),
        imports_closed(*index, owner@, final(live)@),
{
    let ghost l0 = live@;
    let ghost q0 = queue@;
    proof {
        lemma_grows_refl(*index, owner@, l0, q0);
    }
    match find_module(index, owner) {
        None => {
            assert forall|t: Seq<char>| #[trigger] import_edge(*index, owner@, t) implies holds(live@, t) by {}
        },
        Some(mi) => {
            let imports = &index.modules[mi].imports;
            let mut j: usize = 0;
            while j < imports.len()
                invariant
                    module_named(*index, owner@) == Some(mi as int),
                    mi < index.modules@.len(),
                    *imports == index.modules@[mi as int].imports,
                    j <= imports@.len(),
                    grows(*index, owner@, l0, live@, q0, queue@),
                    paired(l0, live@, q0, queue@),
                    forall|q: int|
                        0 <= q < j ==> match import_module(#[trigger] imports@[q].target) {
                            Some(t) => holds(live@, t),
                            None => true,
                        },
                decreases imports@.len() - j,
            {
                match imported_module_target(&imports[j].target) {
                    Some(t) => {
                        let ghost l1 = live@;
                        let ghost q1 = queue@;
                        assert(import_edge(*index, owner@, t@)) by {
                            let m = module_named(*index, owner@)->0;
                            assert(m == mi as int);
                            assert(imports@[j as int] == index.modules@[m].imports@[j as int]);
                            assert(0 <= j < index.modules@[m].imports@.len());
                            assert(import_module(index.modules@[m].imports@[j as int].target) == Some(t@));
                        }
                        push_edge(index, owner, t.as_str(), live, queue);
                        proof {
                            lemma_grows_trans(*index, owner@, l0, l1, live@, q0, q1, queue@);
                            assert forall|q: int| 0 <= q < j + 1 implies match import_module(#[trigger] imports@[q].target) {
                                Some(x) => holds(live@, x),
                                None => true,
                            } by {
                                if q < j {
                                    match import_module(imports@[q].target) {
                                        Some(x) => lemma_holds_extends(l1, live@, x),
                                        None => {},
                                    }
                                }
                            }
                        }
                    },
                    None => {},
                }
                j = j + 1;
            }
            assert forall|t: Seq<char>| #[trigger] import_edge(*index, owner@, t) implies holds(live@, t) by {
                let q = choose|q: int| 0 <= q < imports@.len() && #[trigger] import_module(imports@[q].target) == Some(t);
                assert(import_module(imports@[q].target) == Some(t));
            }
        },
    }
}

proof fn lemma_holds_extends(a: Seq<String>, b: Seq<String>, x: Seq<char>)
    requires
        extends(a, b),
        holds(a, x),
    ensures
        holds(b, x),
{
    let i = choose|i: int| 0 <= i < a.len() && #[trigger] a[i]@ == x;
    assert(b[i] == b.take(a.len() as int)[i]);
}


/// `b` has every string of `a`.
pub open spec fn covers(a: Seq<String>, b: Seq<String>) -> bool {
    forall|x: Seq<char>| holds(a, x) ==> holds(b, x)
}

proof fn lemma_extends_covers(a: Seq<String>, b: Seq<String>)
    requires
        extends(a, b),
    ensures
        covers(a, b),
{
    assert forall|x: Seq<char>| holds(a, x) implies holds(b, x) by {
        lemma_holds_extends(a, b, x);
    }
}

/// The `model_config` of a live pydantic model is live.
pub open spec fn model_config_closed(index: SymbolIndex, o: Seq<char>, live: Seq<String>) -> bool {
    model_config_edge(index, o, o + ".model_config"@) ==> holds(live, o + ".model_config"@)
}

fn visit_model_config(index: &SymbolIndex, owner: &str, live: &mut Vec<String>, queue: &mut Vec<String>)
    requires
        distinct(old(live)@),
        home(*index, owner@) is Some,
    ensures
        grows(*index, owner@, old(live)@, final(live)@, old(queue)@, final(queue)@),
        paired(old(live)@, final(live)@, old(queue)@, final(queue)@),
        model_config_closed(*index, owner@, final(live)@),
{
    proof {
        lemma_grows_refl(*index, owner@, live@, queue@);
    }
    if class_derives_from(index, owner, "pydantic.BaseModel") {
        let name = concat_text(owner, ".model_config");
        if is_symbol(index, name.as_str()) {
            assert(model_config_edge(*index, owner@, name@));
            push_edge(index, owner, name.as_str(), live, queue);
        }
    }
}

/// Every test fixture requested by a parameter of a live function is live.
pub open spec fn fixtures_closed(index: SymbolIndex, o: Seq<char>, live: Seq<String>) -> bool {
    home(index, o) is Some ==> match signature_named(index, o) {
        Some(sig) => forall|p: int|
            0 <= p < sig.parameters@.len() && fixture_parameter(sig.parameters@[p].name@) ==> match fixture_named(
                index,
                #[trigger] sig.parameters@[p].name@,
            ) {
                Some(f) => holds(live, f.function@),
                None => true,
            },
        None => true,
    }
}

fn visit_fixtures(index: &SymbolIndex, owner: &str, live: &mut Vec<String>, queue: &mut Vec<String>)
    requires
        distinct(old(live)@),
        home(*index, owner@) is Some,
    ensures
        grows(*index, owner@, old(live)@, final(live)@, old(queue)@, final(queue)@),
        paired(old(live)@, final(live)@, old(queue)@, final(queue)@),
        fixtures_closed(*index, owner@, final(live)@),
{
    let ghost l0 = live@;
    let ghost q0 = queue@;
    proof {
        lemma_grows_refl(*index, owner@, l0, q0);
    }
    let pos = match find_signature(index, owner) {
        Some(pos) => pos,
        None => {
            return;
        },
    };
    let sig = &index.modules[pos.0].function_signatures[pos.1];
    let mut k: usize = 0;
    while k < sig.parameters.len()
        invariant
            home(*index, owner@) is Some,
            signature_named(*index, owner@) == Some(*sig),
            k <= sig.parameters@.len(),
            grows(*index, owner@, l0, live@, q0, queue@),
            paired(l0, live@, q0, queue@),
            forall|p: int|
                0 <= p < k && fixture_parameter(sig.parameters@[p].name@) ==> match fixture_named(
                    *index,
                    #[trigger] sig.parameters@[p].name@,
                ) {
                    Some(f) => holds(live@, f.function@),
                    None => true,
                },
        decreases sig.parameters@.len() - k,
    {
        let name = sig.parameters[k].name.as_str();
        if !same_text(name, "self") && !same_text(name, "cls") {
            match find_fixture(index, name) {
                Some(fp) => {
                    let f = &index.modules[fp.0].pytest_fixtures[fp.1];
                    assert(fixture_edge(*index, owner@, f.function@)) by {
                        assert(fixture_parameter(sig.parameters@[k as int].name@));
                    }
                    let ghost l1 = live@;
                    let ghost q1 = queue@;
                    push_edge(index, owner, f.function.as_str(), live, queue);
                    proof {
                        lemma_grows_trans(*index, owner@, l0, l1, live@, q0, q1, queue@);
                        lemma_extends_covers(l1, live@);
                    }
                },
                None => {},
            }
        }
        k = k + 1;
    }
}

/// Every module that a route glob brings in when `f` is used is live.
pub open spec fn route_closed(index: SymbolIndex, f: Seq<char>, live: Seq<String>) -> bool {
    forall|g: int, k: int|
        0 <= g < index.route_globs@.len() && index.route_globs@[g].when_function_called@ == f && 0 <= k
            < index.route_globs@[g].modules@.len() ==> holds(live, #[trigger] index.route_globs@[g].modules@[k]@)
}

fn visit_routes(index: &SymbolIndex, owner: &str, f: &str, live: &mut Vec<String>, queue: &mut Vec<String>)
    requires
        distinct(old(live)@),
        reference_edge(*index, owner@, f@),
    ensures
        grows(*index, owner@, old(live)@, final(live)@, old(queue)@, final(queue)@),
        paired(old(live)@, final(live)@, old(queue)@, final(queue)@),
        route_closed(*index, f@, final(live)@),
{
    let ghost l0 = live@;
    let ghost q0 = queue@;
    proof {
        lemma_grows_refl(*index, owner@, l0, q0);
    }
    let globs = &index.route_globs;
    let mut g: usize = 0;
    while g < globs.len()
        invariant
            *globs == index.route_globs,
            reference_edge(*index, owner@, f@),
            g <= globs@.len(),
            grows(*index, owner@, l0, live@, q0, queue@),
            paired(l0, live@, q0, queue@),
            forall|h: int, k: int|
                0 <= h < g && globs@[h].when_function_called@ == f@ && 0 <= k < globs@[h].modules@.len() ==> holds(
                    live@,
                    #[trigger] globs@[h].modules@[k]@,
                ),
        decreases globs@.len() - g,
    {
        if same_text(globs[g].when_function_called.as_str(), f) {
            let modules = &globs[g].modules;
            let mut k: usize = 0;
            while k < modules.len()
                invariant
                    *globs == index.route_globs,
                    *modules == globs@[g as int].modules,
                    globs@[g as int].when_function_called@ == f@,
                    g < globs@.len(),
                    reference_edge(*index, owner@, f@),
                    k <= modules@.len(),
                    grows(*index, owner@, l0, live@, q0, queue@),
                    paired(l0, live@, q0, queue@),
                    forall|h: int, k2: int|
                        0 <= h < g && globs@[h].when_function_called@ == f@ && 0 <= k2 < globs@[h].modules@.len()
                            ==> holds(live@, #[trigger] globs@[h].modules@[k2]@),
                    forall|k2: int| 0 <= k2 < k ==> holds(live@, #[trigger] modules@[k2]@),
                decreases modules@.len() - k,
            {
                assert(route_edge(*index, owner@, modules@[k as int]@)) by {
                    assert(index.route_globs@[g as int].when_function_called@ == f@);
                    assert(holds(index.route_globs@[g as int].modules@, modules@[k as int]@));
                }
                let ghost l1 = live@;
                let ghost q1 = queue@;
                push_edge(index, owner, modules[k].as_str(), live, queue);
                proof {
                    lemma_grows_trans(*index, owner@, l0, l1, live@, q0, q1, queue@);
                    lemma_extends_covers(l1, live@);
                }
                k = k + 1;
            }
        }
        g = g + 1;
    }
}

/// Every name used in a live owner refers to a live symbol, with the modules
/// that route globs bring in for it.
pub open spec fn references_closed(index: SymbolIndex, o: Seq<char>, live: Seq<String>) -> bool {
    match home(index, o) {
        Some(mi) => forall|j: int|
            0 <= j < index.modules@[mi].references@.len() && (#[trigger] index.modules@[mi].references@[j]).from@ == o
                ==> match reference_target(index, o, index.modules@[mi], index.modules@[mi].references@[j].name@) {
                Some(t) => holds(live, t) && route_closed(index, t, live),
                None => true,
            },
        None => true,
    }
}

proof fn lemma_route_closed_covers(index: SymbolIndex, f: Seq<char>, a: Seq<String>, b: Seq<String>)
    requires
        route_closed(index, f, a),
        covers(a, b),
    ensures
        route_closed(index, f, b),
{
}

fn visit_references(index: &SymbolIndex, owner: &str, mi: usize, live: &mut Vec<String>, queue: &mut Vec<String>)
    requires
        distinct(old(live)@),
        home(*index, owner@) == Some(mi as int),
        mi < index.modules@.len(),
    ensures
        grows(*index, owner@, old(live)@, final(live)@, old(queue)@, final(queue)@),
        paired(old(live)@, final(live)@, old(queue)@, final(queue)@),
        references_closed(*index, owner@, final(live)@),
{
    let ghost l0 = live@;
    let ghost q0 = queue@;
    proof {
        lemma_grows_refl(*index, owner@, l0, q0);
    }
    let module = &index.modules[mi];
    let refs = &module.references;
    let mut j: usize = 0;
    while j < refs.len()
        invariant
            home(*index, owner@) == Some(mi as int),
            mi < index.modules@.len(),
            *module == index.modules@[mi as int],
            *refs == module.references,
            j <= refs@.len(),
            grows(*index, owner@, l0, live@, q0, queue@),
            paired(l0, live@, q0, queue@),
            forall|q: int|
                0 <= q < j && (#[trigger] refs@[q]).from@ == owner@ ==> match reference_target(
                    *index,
                    owner@,
                    *module,
                    refs@[q].name@,
                ) {
                    Some(t) => holds(live@, t) && route_closed(*index, t, live@),
                    None => true,
                },
        decreases refs@.len() - j,
    {
        if same_text(refs[j].from.as_str(), owner) {
            match resolve_reference(index, owner, module, refs[j].name.as_str()) {
                Some(target) => {
                    assert(reference_edge(*index, owner@, target@)) by {
                        assert(index.modules@[mi as int].references@[j as int] == refs@[j as int]);
                    }
                    let ghost l1 = live@;
                    let ghost q1 = queue@;
                    push_edge(index, owner, target.as_str(), live, queue);
                    let ghost l2 = live@;
                    let ghost q2 = queue@;
                    visit_routes(index, owner, target.as_str(), live, queue);
                    proof {
                        lemma_grows_trans(*index, owner@, l0, l1, l2, q0, q1, q2);
                        lemma_grows_trans(*index, owner@, l0, l2, live@, q0, q2, queue@);
                        lemma_grows_trans(*index, owner@, l1, l2, live@, q1, q2, queue@);
                        lemma_extends_covers(l1, live@);
                        lemma_extends_covers(l2, live@);
                        assert forall|q: int|
                            0 <= q < j + 1 && (#[trigger] refs@[q]).from@ == owner@ implies match reference_target(
                                *index,
                                owner@,
                                *module,
                                refs@[q].name@,
                            ) {
                                Some(t) => holds(live@, t) && route_closed(*index, t, live@),
                                None => true,
                            } by {
                            if q < j {
                                match reference_target(*index, owner@, *module, refs@[q].name@) {
                                    Some(t) => lemma_route_closed_covers(*index, t, l1, live@),
                                    None => {},
                                }
                            }
                        }
                    }
                },
                None => {},
            }
        }
        j = j + 1;
    }
}


// ---------------------------------------------------------------------------
// Member accesses
// ---------------------------------------------------------------------------

/// Where the member `m` of the class `c` is found, if anywhere, is in
/// `live`.
pub open spec fn member_found(index: SymbolIndex, c: Seq<char>, m: Seq<char>, live: Seq<String>) -> bool {
    forall|t: Seq<char>| #[trigger] member_at(index, c, m, t) ==> holds(live, t)
}

proof fn lemma_member_found_covers(index: SymbolIndex, c: Seq<char>, m: Seq<char>, a: Seq<String>, b: Seq<String>)
    requires
        member_found(index, c, m, a),
        covers(a, b),
    ensures
        member_found(index, c, m, b),
{
}

/// Where the member of `target` (`Receiver.member`), accessed in `owner`,
/// is defined: for the declared receiver class, then for each concrete class
/// that flowed into a `Receiver` slot visible from `owner`, without repeats.
pub fn resolve_member_targets(index: &SymbolIndex, owner: &str, target: &str, flows: &Vec<FlowEntry>) -> (r: Vec<String>)
    requires
        flows_wf(flows@),
    ensures
        distinct(r@),
        match rsplit_once(target@, '.') {
            None => r@.len() == 0,
            Some(parts) => {
                &&& forall|k: int|
                    0 <= k < r@.len() ==> member_at(*index, parts.0, parts.1, #[trigger] r@[k]@) || exists|c: Seq<char>|
                        scope_flows(flows@, owner@, parts.0, c) && #[trigger] member_at(*index, c, parts.1, r@[k]@)
                &&& member_found(*index, parts.0, parts.1, r@)
                &&& forall|c: Seq<char>|
                    #[trigger] scope_flows(flows@, owner@, parts.0, c) ==> member_found(*index, c, parts.1, r@)
            },
        },
{
    let parts = match rsplit_once_char(target, '.') {
        Some(parts) => parts,
        None => {
            return Vec::new();
        },
    };
    let receiver = parts.0.as_str();
    let member = parts.1.as_str();
    let mut targets: Vec<String> = Vec::new();
    match lookup_member(index, receiver, member) {
        Some(t) => {
            targets.push(t);
            assert(holds(targets@, targets@[0]@));
        },
        None => {},
    }
    let candidates = concrete_flow_candidates(flows, owner, receiver);
    let mut i: usize = 0;
    while i < candidates.len()
        invariant
            i <= candidates@.len(),
            distinct(targets@),
            forall|x: Seq<char>| holds(candidates@, x) <==> scope_flows(flows@, owner@, receiver@, x),
            forall|k: int|
                0 <= k < targets@.len() ==> member_at(*index, receiver@, member@, #[trigger] targets@[k]@) || exists|c: Seq<char>|
                    scope_flows(flows@, owner@, receiver@, c) && #[trigger] member_at(*index, c, member@, targets@[k]@),
            member_found(*index, receiver@, member@, targets@),
            forall|k: int| 0 <= k < i ==> member_found(*index, #[trigger] candidates@[k]@, member@, targets@),
        decreases candidates@.len() - i,
    {
        let ghost before = targets@;
        assert(holds(candidates@, candidates@[i as int]@));
        match lookup_member(index, candidates[i].as_str(), member) {
            Some(t) => {
                if !contains_string(&targets, t.as_str()) {
                    targets.push(t);
                    proof {
                        assert(targets@.take(before.len() as int) =~= before);
                        lemma_extends_covers(before, targets@);
                        assert(holds(targets@, targets@[before.len() as int]@));
                        assert forall|a: int, b: int| 0 <= a < b < targets@.len() implies targets@[a]@ != targets@[b]@ by {
                            if b < before.len() {
                                assert(targets@[a] == before[a] && targets@[b] == before[b]);
                            } else {
                                assert(targets@[a] == before[a]);
                            }
                        }
                        assert forall|k: int| 0 <= k < targets@.len() implies member_at(*index, receiver@, member@, #[trigger] targets@[k]@)
                            || exists|c: Seq<char>| scope_flows(flows@, owner@, receiver@, c) && #[trigger] member_at(*index, c, member@, targets@[k]@) by {
                            if k < before.len() {
                                assert(targets@[k] == before[k]);
                            } else {
                                assert(scope_flows(flows@, owner@, receiver@, candidates@[i as int]@));
                                assert(member_at(*index, candidates@[i as int]@, member@, targets@[k]@));
                            }
                        }
                        lemma_member_found_covers(*index, receiver@, member@, before, targets@);
                        assert forall|k: int| 0 <= k < i + 1 implies member_found(*index, #[trigger] candidates@[k]@, member@, targets@) by {
                            if k < i {
                                lemma_member_found_covers(*index, candidates@[k]@, member@, before, targets@);
                            } else {
                                assert(member_at(*index, candidates@[k]@, member@, targets@[before.len() as int]@));
                            }
                        }
                    }
                } else {
                    assert(member_at(*index, candidates@[i as int]@, member@, t@));
                }
            },
            None => {},
        }
        i = i + 1;
    }
    proof {
        assert forall|c: Seq<char>| #[trigger] scope_flows(flows@, owner@, receiver@, c) implies member_found(*index, c, member@, targets@) by {
            assert(holds(candidates@, c));
            let k = choose|k: int| 0 <= k < candidates@.len() && #[trigger] candidates@[k]@ == c;
            assert(member_found(*index, candidates@[k]@, member@, targets@));
        }
    }
    targets
}

/// Every member accessed in a live owner is live where its declared
/// receiver class defines it.
pub open spec fn members_closed(index: SymbolIndex, o: Seq<char>, live: Seq<String>) -> bool {
    match home(index, o) {
        Some(mi) => forall|j: int|
            0 <= j < index.modules@[mi].member_references@.len() && (#[trigger] index.modules@[mi].member_references@[j]).from@
                == o ==> match rsplit_once(index.modules@[mi].member_references@[j].target@, '.') {
                Some(parts) => member_found(index, parts.0, parts.1, live),
                None => true,
            },
        None => true,
    }
}

/// The recorded flows stay well formed and only grow.
pub open spec fn flows_mono(before: Seq<FlowEntry>, after: Seq<FlowEntry>) -> bool {
    &&& flows_wf(after)
    &&& forall|f: Seq<char>, b: Seq<char>, x: Seq<char>| flow_types(before, f, b, x) ==> flow_types(after, f, b, x)
}

/// Some flow is recorded in `after` that was not in `before`.
pub open spec fn flows_changed(before: Seq<FlowEntry>, after: Seq<FlowEntry>) -> bool {
    exists|f: Seq<char>, b: Seq<char>, x: Seq<char>| #[trigger] flow_types(after, f, b, x) && !flow_types(before, f, b, x)
}

proof fn lemma_changed_grows(f0: Seq<FlowEntry>, f1: Seq<FlowEntry>, f2: Seq<FlowEntry>)
    requires
        flows_changed(f0, f1),
        forall|f: Seq<char>, b: Seq<char>, x: Seq<char>| flow_types(f1, f, b, x) ==> flow_types(f2, f, b, x),
    ensures
        flows_changed(f0, f2),
{
    let (a, b, c) = choose|a: Seq<char>, b: Seq<char>, c: Seq<char>| #[trigger] flow_types(f1, a, b, c) && !flow_types(f0, a, b, c);
    assert(flow_types(f2, a, b, c));
}

proof fn lemma_changed_from(f0: Seq<FlowEntry>, f1: Seq<FlowEntry>, f2: Seq<FlowEntry>)
    requires
        flows_changed(f1, f2),
        forall|f: Seq<char>, b: Seq<char>, x: Seq<char>| flow_types(f0, f, b, x) ==> flow_types(f1, f, b, x),
    ensures
        flows_changed(f0, f2),
{
    let (a, b, c) = choose|a: Seq<char>, b: Seq<char>, c: Seq<char>| #[trigger] flow_types(f2, a, b, c) && !flow_types(f1, a, b, c);
    assert(!flow_types(f0, a, b, c));
}

/// A class found flowing into a slot visible from `scope` is a name of the
/// index, when every recorded flow is.
proof fn lemma_scope_flows_word(index: SymbolIndex, flows: Seq<FlowEntry>, scope: Seq<char>, receiver: Seq<char>, t: Seq<char>)
    requires
        flows_named(index, flows),
        scope_flows(flows, scope, receiver, t),
    ensures
        word(index, t),
    decreases scope.len(),
{
    if flow_types(flows, scope, receiver, t) {
    } else if init_of(scope) is Some && flow_types(flows, init_of(scope)->0, receiver, t) {
    } else {
        crate::text::lemma_last_index(scope, '.');
        let parts = rsplit_once(scope, '.')->0;
        lemma_scope_flows_word(index, flows, parts.0, receiver, t);
    }
}

/// A class found flowing into a slot visible from `scope` can flow, when
/// every recorded class can.
proof fn lemma_scope_flows_source(index: SymbolIndex, flows: Seq<FlowEntry>, scope: Seq<char>, receiver: Seq<char>, t: Seq<char>)
    requires
        flows_sourced(index, flows),
        scope_flows(flows, scope, receiver, t),
    ensures
        flow_source(index, t),
    decreases scope.len(),
{
    if flow_types(flows, scope, receiver, t) {
    } else if init_of(scope) is Some && flow_types(flows, init_of(scope)->0, receiver, t) {
    } else {
        crate::text::lemma_last_index(scope, '.');
        let parts = rsplit_once(scope, '.')->0;
        lemma_scope_flows_source(index, flows, parts.0, receiver, t);
    }
}

/// A class found flowing into a slot visible from `scope` is admitted
/// there, when every recorded class is.
proof fn lemma_scope_flows_admitted(index: SymbolIndex, flows: Seq<FlowEntry>, scope: Seq<char>, receiver: Seq<char>, t: Seq<char>)
    requires
        flows_admitted(index, flows),
        scope_flows(flows, scope, receiver, t),
    ensures
        scope_admitted(index, scope, receiver, t),
    decreases scope.len(),
{
    if flow_types(flows, scope, receiver, t) {
    } else if init_of(scope) is Some && flow_types(flows, init_of(scope)->0, receiver, t) {
    } else {
        crate::text::lemma_last_index(scope, '.');
        let parts = rsplit_once(scope, '.')->0;
        lemma_scope_flows_admitted(index, flows, parts.0, receiver, t);
    }
}

proof fn lemma_grows_requeue(
    index: SymbolIndex,
    o: Seq<char>,
    l0: Seq<String>,
    l1: Seq<String>,
    q0: Seq<String>,
    q1: Seq<String>,
    x: String,
)
    requires
        grows(index, o, l0, l1, q0, q1),
        x@ == o,
    ensures
        grows(index, o, l0, l1, q0, q1.push(x)),
{
    let q2 = q1.push(x);
    assert(q2.take(q0.len() as int) =~= q0) by {
        assert forall|i: int| 0 <= i < q0.len() implies q2.take(q0.len() as int)[i] == q0[i] by {
            assert(q1[i] == q1.take(q0.len() as int)[i]);
        }
    }
    assert forall|i: int| l0.len() <= i < l1.len() implies edge(index, o, #[trigger] l1[i]@) && holds(
        q2.skip(q0.len() as int),
        l1[i]@,
    ) by {
        let k = choose|k: int| 0 <= k < q1.skip(q0.len() as int).len() && #[trigger] q1.skip(q0.len() as int)[k]@ == l1[i]@;
        assert(q2.skip(q0.len() as int)[k] == q1.skip(q0.len() as int)[k]);
    }
    assert forall|k: int| q0.len() <= k < q2.len() implies holds(l1, #[trigger] q2[k]@) || q2[k]@ == o by {
        if k < q1.len() {
            assert(q2[k] == q1[k]);
        }
    }
}

fn visit_members(
    index: &SymbolIndex,
    owner: &str,
    mi: usize,
    live: &mut Vec<String>,
    queue: &mut Vec<String>,
    flows: &mut Vec<FlowEntry>,
)
    requires
        distinct(old(live)@),
        home(*index, owner@) == Some(mi as int),
        mi < index.modules@.len(),
        flows_wf(old(flows)@),
        flows_named(*index, old(flows)@),
        flows_sourced(*index, old(flows)@),
        flows_admitted(*index, old(flows)@),
        word(*index, owner@),
    ensures
        grows(*index, owner@, old(live)@, final(live)@, old(queue)@, final(queue)@),
        members_closed(*index, owner@, final(live)@),
        flows_mono(old(flows)@, final(flows)@),
        flows_named(*index, final(flows)@),
        flows_sourced(*index, final(flows)@),
        flows_admitted(*index, final(flows)@),
        !flows_changed(old(flows)@, final(flows)@) ==> paired(old(live)@, final(live)@, old(queue)@, final(queue)@),
        holds(final(queue)@.skip(old(queue)@.len() as int), owner@) || slots_resolved(*index, owner@, final(flows)@, final(live)@),
        forall|f: Seq<char>, b: Seq<char>, x: Seq<char>|
            #[trigger] flow_types(final(flows)@, f, b, x) && !flow_types(old(flows)@, f, b, x) ==> f == owner@ && holds(
                final(queue)@.skip(old(queue)@.len() as int),
                owner@,
            ),
{
    let ghost l0 = live@;
    let ghost q0 = queue@;
    let ghost f0 = flows@;
    proof {
        lemma_grows_refl(*index, owner@, l0, q0);
    }
    let module = &index.modules[mi];
    let refs = &module.member_references;
    let mut j: usize = 0;
    while j < refs.len()
        invariant
            home(*index, owner@) == Some(mi as int),
            mi < index.modules@.len(),
            *module == index.modules@[mi as int],
            *refs == module.member_references,
            j <= refs@.len(),
            grows(*index, owner@, l0, live@, q0, queue@),
            flows_mono(f0, flows@),
            flows_named(*index, flows@),
            flows_sourced(*index, flows@),
            flows_admitted(*index, flows@),
            word(*index, owner@),
            !flows_changed(f0, flows@) ==> paired(l0, live@, q0, queue@),
            forall|q: int|
                0 <= q < j && (#[trigger] refs@[q]).from@ == owner@ ==> match rsplit_once(refs@[q].target@, '.') {
                    Some(parts) => member_found(*index, parts.0, parts.1, live@),
                    None => true,
                },
            forall|f: Seq<char>, b: Seq<char>, x: Seq<char>|
                #[trigger] flow_types(flows@, f, b, x) && !flow_types(f0, f, b, x) ==> f == owner@ && holds(
                    queue@.skip(q0.len() as int),
                    owner@,
                ),
            holds(queue@.skip(q0.len() as int), owner@) || forall|q: int|
                0 <= q < j && (#[trigger] refs@[q]).from@ == owner@ ==> match rsplit_once(refs@[q].target@, '.') {
                    Some(parts) => forall|c: Seq<char>|
                        scope_flows(flows@, owner@, parts.0, c) ==> member_found(*index, c, parts.1, live@),
                    None => true,
                },
        decreases refs@.len() - j,
    {
        let ghost lj = live@;
        let ghost qj = queue@;
        let ghost fj = flows@;
        if same_text(refs[j].from.as_str(), owner) {
            let target = refs[j].target.as_str();
            if refs[j].access == AccessKind::Call {
                let ghost fb = flows@;
                let changed = propagate_concrete_return_flows(index, owner, target, flows);
                proof {
                    assert forall|f: Seq<char>, b: Seq<char>, x: Seq<char>| #[trigger] flow_types(flows@, f, b, x) implies flow_admitted(
                        *index,
                        f,
                        b,
                        x,
                    ) by {
                        if !flow_types(fb, f, b, x) {
                            assert(return_flow(*index, owner@, target@, fb, f, b, x));
                            let slot = return_slot(*index, target@)->0;
                            let parts = rsplit_once(target@, '.')->0;
                            let r = choose|r: Seq<char>|
                                #[trigger] scope_flows(fb, owner@, parts.0, r) && override_return(*index, r, parts.1, slot.0, slot.1, slot.2)
                                    == Some(x);
                            assert(refs@[j as int] == index.modules@[mi as int].member_references@[j as int]);
                            assert(index.modules@[mi as int].member_references@[j as int].from@ == f);
                        }
                    }
                    if flows_changed(f0, fb) {
                        lemma_changed_grows(f0, fb, flows@);
                    }
                }
                if changed {
                    let ghost q1 = queue@;
                    queue.push(String::from_str(owner));
                    proof {
                        lemma_grows_requeue(*index, owner@, l0, live@, q0, q1, queue@.last());
                        assert(q1.push(queue@.last()) =~= queue@);
                        assert(queue@.take(q1.len() as int) =~= q1);
                        lemma_changed_from(f0, fb, flows@);
                        assert(queue@.skip(q0.len() as int)[queue@.len() - 1 - q0.len()]@ == owner@);
                        assert forall|x: Seq<char>| holds(q1.skip(q0.len() as int), x) implies holds(queue@.skip(q0.len() as int), x) by {
                            lemma_pending_grows(q1, queue@, q0.len() as int, x);
                        }
                    }
                }
                proof {
                    assert(queue@.take(qj.len() as int) =~= qj);
                    assert forall|f: Seq<char>, b: Seq<char>, x: Seq<char>|
                        #[trigger] flow_types(flows@, f, b, x) && !flow_types(f0, f, b, x) implies f == owner@ && holds(
                            queue@.skip(q0.len() as int),
                            owner@,
                        ) by {
                        if flow_types(fb, f, b, x) {
                            lemma_pending_grows(qj, queue@, q0.len() as int, owner@);
                        } else {
                            assert(changed);
                        }
                    }
                }
            }
            let ghost lt = live@;
            let ghost qt = queue@;
            let ghost ft = flows@;
            proof {
                assert(qt.take(qj.len() as int) =~= qj);
                assert(lt.take(lj.len() as int) =~= lj);
            }
            let targets = resolve_member_targets(index, owner, target, flows);
            let ghost l1 = live@;
            let ghost q1 = queue@;
            proof {
                lemma_grows_refl(*index, owner@, l1, q1);
            }
            let mut k: usize = 0;
            while k < targets.len()
                invariant
                    home(*index, owner@) == Some(mi as int),
                    mi < index.modules@.len(),
                    *module == index.modules@[mi as int],
                    *refs == module.member_references,
                    j < refs@.len(),
                    refs@[j as int].from@ == owner@,
                    target@ == refs@[j as int].target@,
                    k <= targets@.len(),
                    grows(*index, owner@, l0, live@, q0, queue@),
                    grows(*index, owner@, l1, live@, q1, queue@),
                    flows_mono(f0, flows@),
                    flows_named(*index, flows@),
                    flows_sourced(*index, flows@),
                    flows_admitted(*index, flows@),
                    paired(l1, live@, q1, queue@),
                    !flows_changed(f0, flows@) ==> paired(l0, l1, q0, q1),
                    forall|k2: int| 0 <= k2 < k ==> holds(live@, #[trigger] targets@[k2]@),
                    flows@ == ft,
                    extends(qj, qt),
                    extends(lj, lt),
                    forall|f: Seq<char>, b: Seq<char>, x: Seq<char>|
                        #[trigger] flow_types(ft, f, b, x) && !flow_types(f0, f, b, x) ==> f == owner@ && holds(
                            qt.skip(q0.len() as int),
                            owner@,
                        ),
                    match rsplit_once(target@, '.') {
                        None => targets@.len() == 0,
                        Some(parts) => forall|k2: int|
                            0 <= k2 < targets@.len() ==> member_at(*index, parts.0, parts.1, #[trigger] targets@[k2]@)
                                || exists|c: Seq<char>|
                                scope_flows(flows@, owner@, parts.0, c) && #[trigger] member_at(*index, c, parts.1, targets@[k2]@),
                    },
                decreases targets@.len() - k,
            {
                assert(member_edge(*index, owner@, targets@[k as int]@)) by {
                    let parts = rsplit_once(target@, '.')->0;
                    if !member_at(*index, parts.0, parts.1, targets@[k as int]@) {
                        let c = choose|c: Seq<char>| scope_flows(flows@, owner@, parts.0, c) && #[trigger] member_at(*index, c, parts.1, targets@[k as int]@);
                        assert(member_at(*index, c, parts.1, targets@[k as int]@));
                        lemma_scope_flows_admitted(*index, flows@, owner@, parts.0, c);
                    }
                    assert(index.modules@[mi as int].member_references@[j as int] == refs@[j as int]);
                }
                let ghost l2 = live@;
                let ghost q2 = queue@;
                push_edge(index, owner, targets[k].as_str(), live, queue);
                proof {
                    lemma_grows_trans(*index, owner@, l0, l2, live@, q0, q2, queue@);
                    lemma_grows_trans(*index, owner@, l1, l2, live@, q1, q2, queue@);
                    lemma_extends_covers(l2, live@);
                }
                k = k + 1;
            }
            proof {
                lemma_extends_covers(l1, live@);
                assert(extends(qt, queue@));
                assert(extends(lt, live@));
                if !holds(queue@.skip(q0.len() as int), owner@) {
                    assert(!holds(qt.skip(q0.len() as int), owner@)) by {
                        if holds(qt.skip(q0.len() as int), owner@) {
                            lemma_pending_grows(qt, queue@, q0.len() as int, owner@);
                        }
                    }
                    assert(!holds(qj.skip(q0.len() as int), owner@)) by {
                        if holds(qj.skip(q0.len() as int), owner@) {
                            lemma_pending_grows(qj, qt, q0.len() as int, owner@);
                        }
                    }
                    assert forall|f: Seq<char>, b: Seq<char>, x: Seq<char>| flow_types(ft, f, b, x) implies flow_types(fj, f, b, x) by {
                        if !flow_types(f0, f, b, x) {
                            assert(flow_types(ft, f, b, x) && !flow_types(f0, f, b, x));
                        }
                    }
                    lemma_extends_covers(lj, live@);
                    match rsplit_once(target@, '.') {
                        Some(parts) => {
                            assert(covers(targets@, live@)) by {
                                assert forall|x: Seq<char>| holds(targets@, x) implies holds(live@, x) by {
                                    let k2 = choose|k2: int| 0 <= k2 < targets@.len() && #[trigger] targets@[k2]@ == x;
                                    assert(holds(live@, targets@[k2]@));
                                }
                            }
                            assert forall|c: Seq<char>| scope_flows(flows@, owner@, parts.0, c) implies member_found(
                                *index,
                                c,
                                parts.1,
                                live@,
                            ) by {
                                lemma_member_found_covers(*index, c, parts.1, targets@, live@);
                            }
                        },
                        None => {},
                    }
                    assert forall|q: int|
                        0 <= q < j + 1 && (#[trigger] refs@[q]).from@ == owner@ implies match rsplit_once(refs@[q].target@, '.') {
                            Some(parts) => forall|c: Seq<char>|
                                scope_flows(flows@, owner@, parts.0, c) ==> member_found(*index, c, parts.1, live@),
                            None => true,
                        } by {
                        if q < j {
                            match rsplit_once(refs@[q].target@, '.') {
                                Some(parts) => {
                                    assert forall|c: Seq<char>| scope_flows(flows@, owner@, parts.0, c) implies member_found(
                                        *index,
                                        c,
                                        parts.1,
                                        live@,
                                    ) by {
                                        lemma_scope_flows_mono(ft, fj, owner@, parts.0, c);
                                        lemma_member_found_covers(*index, c, parts.1, lj, live@);
                                    }
                                },
                                None => {},
                            }
                        }
                    }
                }
                match rsplit_once(target@, '.') {
                    Some(parts) => {
                        assert forall|t: Seq<char>| #[trigger] member_at(*index, parts.0, parts.1, t) implies holds(live@, t) by {
                            assert(holds(targets@, t));
                            let k2 = choose|k2: int| 0 <= k2 < targets@.len() && #[trigger] targets@[k2]@ == t;
                            assert(holds(live@, targets@[k2]@));
                        }
                    },
                    None => {},
                }
                assert forall|q: int|
                    0 <= q < j + 1 && (#[trigger] refs@[q]).from@ == owner@ implies match rsplit_once(refs@[q].target@, '.') {
                        Some(parts) => member_found(*index, parts.0, parts.1, live@),
                        None => true,
                    } by {
                    if q < j {
                        match rsplit_once(refs@[q].target@, '.') {
                            Some(parts) => lemma_member_found_covers(*index, parts.0, parts.1, l1, live@),
                            None => {},
                        }
                    }
                }
            }
        }
        j = j + 1;
    }
}


// ---------------------------------------------------------------------------
// Concrete classes passed as arguments
// ---------------------------------------------------------------------------

proof fn lemma_grows_queue_only(index: SymbolIndex, o: Seq<char>, l: Seq<String>, q0: Seq<String>, q1: Seq<String>)
    requires
        distinct(l),
        extends(q0, q1),
        forall|k: int| q0.len() <= k < q1.len() ==> holds(l, #[trigger] q1[k]@),
    ensures
        grows(index, o, l, l, q0, q1),
{
    assert(l.take(l.len() as int) =~= l);
}

/// Records, for each call made in `owner` with a concrete class as an
/// argument, that class (or the classes known to flow into it) in the slot
/// of the parameter, when it fits the parameter's declared class; a live
/// callee that gains a class is visited again.
/// The slot that the argument of a recorded call lands in: the class its
/// callee's parameter at the call's position is annotated with (as a flow
/// base), and whether a class flowing there must derive from it.
pub open spec fn call_slot(index: SymbolIndex, c: CallArgumentType) -> Option<(Seq<char>, bool)> {
    match signature_named(index, c.callee@) {
        Some(sig) => if c.position < sig.parameters@.len() {
            match sig.parameters@[c.position as int].annotation {
                Some(a) => flow_base(a),
                None => None,
            }
        } else {
            None
        },
        None => None,
    }
}

/// Class `x` may flow into `slot`.
pub open spec fn admits(index: SymbolIndex, x: Seq<char>, slot: (Seq<char>, bool)) -> bool {
    !slot.1 || subclass_or_same(index, x, slot.0)
}

/// What the recorded call `c` of owner `o` passes on is recorded in `flows`
/// for the callee's slot: each class that flowed into `o`'s own slot named
/// by the argument's class, and the argument's class itself when nothing
/// flows there from `o`'s scopes; each one only where the slot admits it.
pub open spec fn call_recorded(index: SymbolIndex, o: Seq<char>, c: CallArgumentType, flows: Seq<FlowEntry>) -> bool {
    match call_slot(index, c) {
        Some(slot) => admits(index, c.concrete_type@, slot) ==> {
            &&& forall|x: Seq<char>|
                #[trigger] flow_types(flows, o, c.concrete_type@, x) && admits(index, x, slot) ==> flow_types(
                    flows,
                    c.callee@,
                    slot.0,
                    x,
                )
            &&& (forall|t: Seq<char>| !scope_flows(flows, o, c.concrete_type@, t)) ==> flow_types(
                flows,
                c.callee@,
                slot.0,
                c.concrete_type@,
            )
        },
        None => true,
    }
}

/// Every call recorded from owner `o` is recorded in `flows`.
pub open spec fn calls_recorded(index: SymbolIndex, o: Seq<char>, flows: Seq<FlowEntry>) -> bool {
    match home(index, o) {
        Some(mi) => forall|j: int|
            0 <= j < index.modules@[mi].call_argument_types@.len() && (#[trigger] index.modules@[mi].call_argument_types@[j]).from@
                == o ==> call_recorded(index, o, index.modules@[mi].call_argument_types@[j], flows),
        None => true,
    }
}

/// What is still queued after position `n` stays queued as the queue grows.
proof fn lemma_pending_grows(a: Seq<String>, b: Seq<String>, n: int, x: Seq<char>)
    requires
        extends(a, b),
        0 <= n <= a.len(),
        holds(a.skip(n), x),
    ensures
        holds(b.skip(n), x),
{
    let i = choose|i: int| 0 <= i < a.skip(n).len() && #[trigger] a.skip(n)[i]@ == x;
    assert(b[n + i] == b.take(a.len() as int)[n + i]);
    assert(b.skip(n)[i]@ == x);
}

/// What is queued after position `n2` is queued after any earlier position.
proof fn lemma_pending_shift(b: Seq<String>, n: int, n2: int, x: Seq<char>)
    requires
        0 <= n <= n2 <= b.len(),
        holds(b.skip(n2), x),
    ensures
        holds(b.skip(n), x),
{
    let i = choose|i: int| 0 <= i < b.skip(n2).len() && #[trigger] b.skip(n2)[i]@ == x;
    assert(b.skip(n)[n2 - n + i]@ == x);
}

/// The calls of `o` stay recorded as flows grow, as long as nothing new
/// flows into `o`'s own slots.
proof fn lemma_calls_recorded_grows(index: SymbolIndex, o: Seq<char>, f0: Seq<FlowEntry>, f1: Seq<FlowEntry>)
    requires
        calls_recorded(index, o, f0),
        forall|f: Seq<char>, b: Seq<char>, x: Seq<char>| flow_types(f0, f, b, x) ==> flow_types(f1, f, b, x),
        forall|b: Seq<char>, x: Seq<char>| flow_types(f1, o, b, x) ==> flow_types(f0, o, b, x),
    ensures
        calls_recorded(index, o, f1),
{
    match home(index, o) {
        Some(mi) => {
            assert forall|j: int|
                0 <= j < index.modules@[mi].call_argument_types@.len() && (#[trigger] index.modules@[mi].call_argument_types@[j]).from@
                    == o implies call_recorded(index, o, index.modules@[mi].call_argument_types@[j], f1) by {
                lemma_call_recorded_grows(index, o, index.modules@[mi].call_argument_types@[j], f0, f1);
            }
        },
        None => {},
    }
}

/// More flows keep what `scope` sees.
proof fn lemma_scope_flows_mono(f0: Seq<FlowEntry>, f1: Seq<FlowEntry>, scope: Seq<char>, receiver: Seq<char>, t: Seq<char>)
    requires
        forall|f: Seq<char>, b: Seq<char>, x: Seq<char>| flow_types(f0, f, b, x) ==> flow_types(f1, f, b, x),
        scope_flows(f0, scope, receiver, t),
    ensures
        scope_flows(f1, scope, receiver, t),
    decreases scope.len(),
{
    if flow_types(f0, scope, receiver, t) {
    } else if init_of(scope) is Some && flow_types(f0, init_of(scope)->0, receiver, t) {
    } else {
        crate::text::lemma_last_index(scope, '.');
        let parts = rsplit_once(scope, '.')->0;
        lemma_scope_flows_mono(f0, f1, parts.0, receiver, t);
    }
}

/// A recorded call stays recorded as flows grow, as long as nothing new
/// flows into the owner's own slots.
proof fn lemma_call_recorded_grows(index: SymbolIndex, o: Seq<char>, c: CallArgumentType, f0: Seq<FlowEntry>, f1: Seq<FlowEntry>)
    requires
        call_recorded(index, o, c, f0),
        forall|f: Seq<char>, b: Seq<char>, x: Seq<char>| flow_types(f0, f, b, x) ==> flow_types(f1, f, b, x),
        forall|b: Seq<char>, x: Seq<char>| flow_types(f1, o, b, x) ==> flow_types(f0, o, b, x),
    ensures
        call_recorded(index, o, c, f1),
{
    match call_slot(index, c) {
        Some(slot) => {
            if admits(index, c.concrete_type@, slot) {
                if forall|t: Seq<char>| !scope_flows(f1, o, c.concrete_type@, t) {
                    assert forall|t: Seq<char>| !scope_flows(f0, o, c.concrete_type@, t) by {
                        if scope_flows(f0, o, c.concrete_type@, t) {
                            lemma_scope_flows_mono(f0, f1, o, c.concrete_type@, t);
                        }
                    }
                }
            }
        },
        None => {},
    }
}

/// Class `x` may be recorded for the slot `(f, b)`: some recorded call of
/// `f` passes its argument into a parameter of `f` whose class is `b` and
/// that admits `x`, or `f` calls a member whose declared return is `b` and
/// admits `x`.
pub open spec fn flow_admitted(index: SymbolIndex, f: Seq<char>, b: Seq<char>, x: Seq<char>) -> bool {
    ||| exists|mi: int, j: int|
        0 <= mi < index.modules@.len() && 0 <= j < index.modules@[mi].call_argument_types@.len()
            && (#[trigger] index.modules@[mi].call_argument_types@[j]).callee@ == f && match call_slot(
            index,
            index.modules@[mi].call_argument_types@[j],
        ) {
            Some(slot) => slot.0 == b && admits(index, x, slot),
            None => false,
        }
    ||| match home(index, f) {
        Some(mi) => exists|j: int|
            0 <= j < index.modules@[mi].member_references@.len() && (#[trigger] index.modules@[mi].member_references@[j]).from@ == f
                && index.modules@[mi].member_references@[j].access == AccessKind::Call && match return_slot(
                index,
                index.modules@[mi].member_references@[j].target@,
            ) {
                Some(s) => s.1 == b && admits(index, x, (s.1, s.2)),
                None => false,
            },
        None => false,
    }
}

/// Every class recorded for a slot is admitted there.
pub open spec fn flows_admitted(index: SymbolIndex, flows: Seq<FlowEntry>) -> bool {
    forall|f: Seq<char>, b: Seq<char>, x: Seq<char>| #[trigger] flow_types(flows, f, b, x) ==> flow_admitted(index, f, b, x)
}

/// Every member accessed in `f` on a receiver declared as `b` is live
/// where class `x` defines it.
pub open spec fn slot_resolved(index: SymbolIndex, f: Seq<char>, b: Seq<char>, x: Seq<char>, live: Seq<String>) -> bool {
    match home(index, f) {
        Some(mi) => forall|j: int|
            0 <= j < index.modules@[mi].member_references@.len() && (#[trigger] index.modules@[mi].member_references@[j]).from@
                == f ==> match rsplit_once(index.modules@[mi].member_references@[j].target@, '.') {
                Some(parts) => parts.0 == b ==> member_found(index, x, parts.1, live),
                None => true,
            },
        None => true,
    }
}

/// Every class recorded for a slot of `f` resolves the members accessed in
/// `f` on that slot.
pub open spec fn slots_resolved(index: SymbolIndex, f: Seq<char>, flows: Seq<FlowEntry>, live: Seq<String>) -> bool {
    forall|b: Seq<char>, x: Seq<char>| #[trigger] flow_types(flows, f, b, x) ==> slot_resolved(index, f, b, x, live)
}

/// `flows` is a table of class flows, each admitted where it is recorded,
/// closed under the calls of the walked symbols `walked`, under which the
/// members accessed in each walked function on a slot are live for every
/// class recorded for that slot.
pub open spec fn flows_closed(index: SymbolIndex, walked: Seq<String>, flows: Seq<FlowEntry>) -> bool {
    &&& flows_admitted(index, flows)
    &&& forall|i: int| 0 <= i < walked.len() ==> calls_recorded(index, #[trigger] walked[i]@, flows)
    &&& forall|i: int| 0 <= i < walked.len() ==> slots_resolved(index, #[trigger] walked[i]@, flows, walked)
}

fn visit_call_arguments(
    index: &SymbolIndex,
    owner: &str,
    mi: usize,
    live: &Vec<String>,
    queue: &mut Vec<String>,
    flows: &mut Vec<FlowEntry>,
)
    requires
        mi < index.modules@.len(),
        home(*index, owner@) == Some(mi as int),
        holds(live@, owner@),
        flows_wf(old(flows)@),
        flows_named(*index, old(flows)@),
        flows_sourced(*index, old(flows)@),
        flows_admitted(*index, old(flows)@),
    ensures
        extends(old(queue)@, final(queue)@),
        forall|k: int| old(queue)@.len() <= k < final(queue)@.len() ==> holds(live@, #[trigger] final(queue)@[k]@),
        flows_mono(old(flows)@, final(flows)@),
        flows_named(*index, final(flows)@),
        flows_sourced(*index, final(flows)@),
        flows_admitted(*index, final(flows)@),
        !flows_changed(old(flows)@, final(flows)@) ==> final(queue)@.len() == old(queue)@.len(),
        holds(final(queue)@.skip(old(queue)@.len() as int), owner@) || calls_recorded(*index, owner@, final(flows)@),
        forall|f: Seq<char>, b: Seq<char>, x: Seq<char>|
            #[trigger] flow_types(final(flows)@, f, b, x) && !flow_types(old(flows)@, f, b, x) ==> holds(
                final(queue)@.skip(old(queue)@.len() as int),
                f,
            ) || !holds(live@, f),
{
    let ghost q0 = queue@;
    let ghost f0 = flows@;
    assert(q0.take(q0.len() as int) =~= q0);
    let calls = &index.modules[mi].call_argument_types;
    let mut j: usize = 0;
    while j < calls.len()
        invariant
            mi < index.modules@.len(),
            home(*index, owner@) == Some(mi as int),
            holds(live@, owner@),
            *calls == index.modules@[mi as int].call_argument_types,
            j <= calls@.len(),
            extends(q0, queue@),
            forall|k: int| q0.len() <= k < queue@.len() ==> holds(live@, #[trigger] queue@[k]@),
            flows_mono(f0, flows@),
            flows_named(*index, flows@),
            flows_sourced(*index, flows@),
            flows_admitted(*index, flows@),
            !flows_changed(f0, flows@) ==> queue@.len() == q0.len(),
            forall|f: Seq<char>, b: Seq<char>, x: Seq<char>|
                #[trigger] flow_types(flows@, f, b, x) && !flow_types(f0, f, b, x) ==> holds(queue@.skip(q0.len() as int), f)
                    || !holds(live@, f),
            holds(queue@.skip(q0.len() as int), owner@) || forall|q: int|
                0 <= q < j && (#[trigger] calls@[q]).from@ == owner@ ==> call_recorded(*index, owner@, calls@[q], flows@),
        decreases calls@.len() - j,
    {
        let call = &calls[j];
        proof {
            lemma_call_words(*index, mi as int, j as int);
            assert(flow_source(*index, call.concrete_type@));
        }
        let ghost jj = j as int;
        j = j + 1;
        if !same_text(call.from.as_str(), owner) {
            continue;
        }
        let pos = match find_signature(index, call.callee.as_str()) {
            Some(p) => p,
            None => {
                continue;
            },
        };
        let sig = &index.modules[pos.0].function_signatures[pos.1];
        if call.position >= sig.parameters.len() {
            continue;
        }
        let annotation = match &sig.parameters[call.position].annotation {
            Some(a) => a,
            None => {
                continue;
            },
        };
        let (base, check) = match concrete_flow_base(annotation) {
            Some(p) => p,
            None => {
                continue;
            },
        };
        proof {
            lemma_param_word(*index, pos.0 as int, pos.1 as int, call.position as int, *annotation, (base@, check));
            assert(call_slot(*index, *call) == Some((base@, check)));
        }
        if check && !is_subclass_or_same(index, call.concrete_type.as_str(), base.as_str()) {
            continue;
        }
        let ghost fc = flows@;
        let ghost qc = queue@;
        let forwarded = concrete_flow_candidates(flows, owner, call.concrete_type.as_str());
        proof {
            assert forall|k2: int| 0 <= k2 < forwarded@.len() implies word(*index, #[trigger] forwarded@[k2]@) && flow_source(
                *index,
                forwarded@[k2]@,
            ) by {
                assert(holds(forwarded@, forwarded@[k2]@));
                lemma_scope_flows_word(*index, flows@, owner@, call.concrete_type@, forwarded@[k2]@);
                lemma_scope_flows_source(*index, flows@, owner@, call.concrete_type@, forwarded@[k2]@);
            }
        }
        let own_only = forwarded.len() == 0;
        let candidates = if own_only {
            let mut own: Vec<String> = Vec::new();
            own.push(copy_string(&call.concrete_type));
            own
        } else {
            forwarded
        };
        proof {
            if own_only {
                assert forall|t: Seq<char>| !scope_flows(fc, owner@, call.concrete_type@, t) by {
                    if scope_flows(fc, owner@, call.concrete_type@, t) {
                        assert(holds(forwarded@, t));
                        let k2 = choose|k2: int| 0 <= k2 < forwarded@.len() && #[trigger] forwarded@[k2]@ == t;
                    }
                }
            } else {
                assert forall|t: Seq<char>| scope_flows(fc, owner@, call.concrete_type@, t) implies holds(candidates@, t) by {}
            }
        }
        let mut k: usize = 0;
        while k < candidates.len()
            invariant
                k <= candidates@.len(),
                holds(live@, owner@),
                extends(q0, queue@),
                forall|k2: int| q0.len() <= k2 < queue@.len() ==> holds(live@, #[trigger] queue@[k2]@),
                flows_mono(f0, flows@),
                flows_mono(fc, flows@),
                flows_named(*index, flows@),
                flows_sourced(*index, flows@),
                flows_admitted(*index, flows@),
                !flows_changed(f0, flows@) ==> queue@.len() == q0.len(),
                word(*index, call.callee@),
                word(*index, base@),
                call_slot(*index, *call) == Some((base@, check)),
                mi < index.modules@.len(),
                0 <= jj < index.modules@[mi as int].call_argument_types@.len(),
                *call == index.modules@[mi as int].call_argument_types@[jj],
                forall|k2: int| 0 <= k2 < candidates@.len() ==> word(*index, #[trigger] candidates@[k2]@),
                forall|k2: int| 0 <= k2 < candidates@.len() ==> flow_source(*index, #[trigger] candidates@[k2]@),
                forall|f: Seq<char>, b: Seq<char>, x: Seq<char>|
                    #[trigger] flow_types(flows@, f, b, x) && !flow_types(f0, f, b, x) ==> holds(queue@.skip(q0.len() as int), f)
                        || !holds(live@, f),
                holds(queue@.skip(q0.len() as int), owner@) || forall|f: Seq<char>, b: Seq<char>, x: Seq<char>|
                    #[trigger] flow_types(flows@, f, b, x) && !flow_types(fc, f, b, x) ==> f != owner@,
                holds(qc.skip(q0.len() as int), owner@) ==> holds(queue@.skip(q0.len() as int), owner@),
                forall|k2: int|
                    0 <= k2 < k && (!check || subclass_or_same(*index, #[trigger] candidates@[k2]@, base@)) ==> flow_types(
                        flows@,
                        call.callee@,
                        base@,
                        candidates@[k2]@,
                    ),
            decreases candidates@.len() - k,
        {
            let candidate = candidates[k].as_str();
            k = k + 1;
            if check && !is_subclass_or_same(index, candidate, base.as_str()) {
                continue;
            }
            let ghost fb = flows@;
            let ghost qb = queue@;
            let added = add_flow(flows, call.callee.as_str(), base.as_str(), candidate);
            proof {
                if flows_changed(f0, fb) {
                    lemma_changed_grows(f0, fb, flows@);
                }
                if added {
                    assert(flow_types(flows@, call.callee@, base@, candidate@));
                    assert(!flow_types(f0, call.callee@, base@, candidate@));
                }
                assert(flow_admitted(*index, call.callee@, base@, candidate@)) by {
                    assert(index.modules@[mi as int].call_argument_types@[jj].callee@ == call.callee@);
                }
                assert forall|f: Seq<char>, b: Seq<char>, x: Seq<char>| #[trigger] flow_types(flows@, f, b, x) implies flow_admitted(
                    *index,
                    f,
                    b,
                    x,
                ) by {
                    if !flow_types(fb, f, b, x) {
                        assert(f == call.callee@ && b == base@ && x == candidate@);
                    }
                }
            }
            let pushed = added && contains_string(live, call.callee.as_str());
            if pushed {
                queue.push(copy_string(&call.callee));
                proof {
                    assert(queue@.take(qb.len() as int) =~= qb);
                    assert(queue@.take(q0.len() as int) =~= q0) by {
                        assert forall|i: int| 0 <= i < q0.len() implies queue@.take(q0.len() as int)[i] == q0[i] by {
                            assert(qb[i] == qb.take(q0.len() as int)[i]);
                        }
                    }
                    assert forall|k2: int| q0.len() <= k2 < queue@.len() implies holds(live@, #[trigger] queue@[k2]@) by {
                        if k2 < qb.len() {
                            assert(queue@[k2] == qb[k2]);
                        }
                    }
                    assert(queue@.skip(q0.len() as int)[queue@.len() - 1 - q0.len()]@ == call.callee@);
                }
            }
            proof {
                assert forall|x: Seq<char>| holds(qb.skip(q0.len() as int), x) implies holds(queue@.skip(q0.len() as int), x) by {
                    let i = choose|i: int| 0 <= i < qb.skip(q0.len() as int).len() && #[trigger] qb.skip(q0.len() as int)[i]@ == x;
                    assert(queue@[q0.len() + i] == qb[q0.len() + i]);
                    assert(queue@.skip(q0.len() as int)[i]@ == x);
                }
                assert forall|f: Seq<char>, b: Seq<char>, x: Seq<char>|
                    #[trigger] flow_types(flows@, f, b, x) && !flow_types(f0, f, b, x) implies holds(queue@.skip(q0.len() as int), f)
                        || !holds(live@, f) by {
                    if flow_types(fb, f, b, x) {
                    } else {
                        assert(f == call.callee@);
                        if pushed {
                        } else {
                            assert(!added ==> flow_types(fb, f, b, x));
                        }
                    }
                }
                if !holds(queue@.skip(q0.len() as int), owner@) {
                    assert(!holds(qb.skip(q0.len() as int), owner@));
                    assert forall|f: Seq<char>, b: Seq<char>, x: Seq<char>|
                        #[trigger] flow_types(flows@, f, b, x) && !flow_types(fc, f, b, x) implies f != owner@ by {
                        if !flow_types(fb, f, b, x) {
                            assert(f == call.callee@);
                            if f == owner@ {
                                assert(holds(live@, call.callee@));
                            }
                        }
                    }
                }
            }
        }
        proof {
            if !holds(queue@.skip(q0.len() as int), owner@) {
                let c = *call;
                assert(call_recorded(*index, owner@, c, flows@)) by {
                    assert forall|x: Seq<char>|
                        #[trigger] flow_types(flows@, owner@, c.concrete_type@, x) && admits(*index, x, (base@, check)) implies flow_types(
                            flows@,
                            c.callee@,
                            base@,
                            x,
                        ) by {
                        assert(flow_types(fc, owner@, c.concrete_type@, x));
                        assert(scope_flows(fc, owner@, c.concrete_type@, x));
                        assert(holds(candidates@, x));
                        let k2 = choose|k2: int| 0 <= k2 < candidates@.len() && #[trigger] candidates@[k2]@ == x;
                    }
                    if forall|t: Seq<char>| !scope_flows(flows@, owner@, c.concrete_type@, t) {
                        if !own_only {
                            assert(forwarded@.len() > 0);
                            assert(holds(forwarded@, forwarded@[0]@));
                            lemma_scope_flows_mono(fc, flows@, owner@, c.concrete_type@, forwarded@[0]@);
                        }
                        assert(candidates@[0]@ == c.concrete_type@);
                    }
                }
                assert forall|q: int|
                    0 <= q < j && (#[trigger] calls@[q]).from@ == owner@ implies call_recorded(*index, owner@, calls@[q], flows@) by {
                    if q < jj {
                        assert(!holds(qc.skip(q0.len() as int), owner@));
                        assert(call_recorded(*index, owner@, calls@[q], fc));
                        lemma_call_recorded_grows(*index, owner@, calls@[q], fc, flows@);
                    }
                }
            }
        }
    }
    proof {
        if !holds(queue@.skip(q0.len() as int), owner@) {
            assert forall|q: int|
                0 <= q < index.modules@[mi as int].call_argument_types@.len() && (#[trigger] index.modules@[mi as int].call_argument_types@[q]).from@
                    == owner@ implies call_recorded(*index, owner@, index.modules@[mi as int].call_argument_types@[q], flows@) by {
                assert(calls@[q] == index.modules@[mi as int].call_argument_types@[q]);
            }
        }
    }
}

// ---------------------------------------------------------------------------
// The walk from the roots
// ---------------------------------------------------------------------------

/// Everything that a live owner keeps alive through its imports, its
/// `model_config`, its fixtures, the names it uses and the members it
/// accesses on their declared receivers is live.
pub open spec fn static_closed(index: SymbolIndex, o: Seq<char>, live: Seq<String>) -> bool {
    &&& imports_closed(index, o, live)
    &&& model_config_closed(index, o, live)
    &&& fixtures_closed(index, o, live)
    &&& references_closed(index, o, live)
    &&& members_closed(index, o, live)
}

proof fn lemma_static_closed_covers(index: SymbolIndex, o: Seq<char>, a: Seq<String>, b: Seq<String>)
    requires
        static_closed(index, o, a),
        covers(a, b),
    ensures
        static_closed(index, o, b),
{
    assert(imports_closed(index, o, b));
    assert(model_config_closed(index, o, b));
    assert(fixtures_closed(index, o, b));
    match home(index, o) {
        Some(mi) => {
            let module = index.modules@[mi];
            assert forall|j: int|
                0 <= j < module.references@.len() && (#[trigger] module.references@[j]).from@ == o implies match reference_target(
                    index,
                    o,
                    module,
                    module.references@[j].name@,
                ) {
                    Some(t) => holds(b, t) && route_closed(index, t, b),
                    None => true,
                } by {
                match reference_target(index, o, module, module.references@[j].name@) {
                    Some(t) => lemma_route_closed_covers(index, t, a, b),
                    None => {},
                }
            }
            assert forall|j: int|
                0 <= j < module.member_references@.len() && (#[trigger] module.member_references@[j]).from@ == o implies match rsplit_once(
                    module.member_references@[j].target@,
                    '.',
                ) {
                    Some(parts) => member_found(index, parts.0, parts.1, b),
                    None => true,
                } by {
                match rsplit_once(module.member_references@[j].target@, '.') {
                    Some(parts) => lemma_member_found_covers(index, parts.0, parts.1, a, b),
                    None => {},
                }
            }
        },
        None => {},
    }
}

/// Visits one live owner: makes live what it keeps alive, and records the
/// classes it passes on.
fn visit_owner(index: &SymbolIndex, owner: &str, live: &mut Vec<String>, queue: &mut Vec<String>, flows: &mut Vec<FlowEntry>)
    requires
        distinct(old(live)@),
        flows_wf(old(flows)@),
        holds(old(live)@, owner@),
        flows_named(*index, old(flows)@),
        flows_sourced(*index, old(flows)@),
        flows_admitted(*index, old(flows)@),
        word(*index, owner@),
    ensures
        grows(*index, owner@, old(live)@, final(live)@, old(queue)@, final(queue)@),
        static_closed(*index, owner@, final(live)@),
        flows_mono(old(flows)@, final(flows)@),
        flows_named(*index, final(flows)@),
        flows_sourced(*index, final(flows)@),
        flows_admitted(*index, final(flows)@),
        !flows_changed(old(flows)@, final(flows)@) ==> paired(old(live)@, final(live)@, old(queue)@, final(queue)@),
        holds(final(queue)@.skip(old(queue)@.len() as int), owner@) || (calls_recorded(*index, owner@, final(flows)@)
            && slots_resolved(*index, owner@, final(flows)@, final(live)@)),
        forall|f: Seq<char>, b: Seq<char>, x: Seq<char>|
            #[trigger] flow_types(final(flows)@, f, b, x) && !flow_types(old(flows)@, f, b, x) ==> holds(
                final(queue)@.skip(old(queue)@.len() as int),
                f,
            ) || !holds(final(live)@, f),
{
    let ghost l0 = live@;
    let ghost q0 = queue@;
    let ghost f0 = flows@;
    visit_imports(index, owner, live, queue);
    let ghost l1 = live@;
    let ghost q1 = queue@;
    let module_name = match owner_module(index, owner) {
        Some(m) => m,
        None => {
            assert(flows@ == f0);
            return;
        },
    };
    let mi = match find_module(index, module_name.as_str()) {
        Some(mi) => mi,
        None => {
            assert(flows@ == f0);
            return;
        },
    };
    assert(home(*index, owner@) == Some(mi as int));
    visit_model_config(index, owner, live, queue);
    let ghost l2 = live@;
    let ghost q2 = queue@;
    visit_fixtures(index, owner, live, queue);
    let ghost l3 = live@;
    let ghost q3 = queue@;
    proof {
        lemma_grows_trans(*index, owner@, l0, l1, l2, q0, q1, q2);
        lemma_grows_trans(*index, owner@, l0, l2, l3, q0, q2, q3);
        lemma_extends_covers(l0, l3);
    }
    visit_call_arguments(index, owner, mi, live, queue, flows);
    let ghost q4 = queue@;
    let ghost f4 = flows@;
    proof {
        lemma_grows_queue_only(*index, owner@, l3, q3, q4);
    }
    visit_references(index, owner, mi, live, queue);
    let ghost l5 = live@;
    let ghost q5 = queue@;
    visit_members(index, owner, mi, live, queue, flows);
    proof {
        if !flows_changed(f0, flows@) {
            if flows_changed(f0, f4) {
                lemma_changed_grows(f0, f4, flows@);
            }
            if flows_changed(f4, flows@) {
                lemma_changed_from(f0, f4, flows@);
            }
        }
        lemma_grows_trans(*index, owner@, l0, l1, l2, q0, q1, q2);
        lemma_grows_trans(*index, owner@, l0, l2, l3, q0, q2, q3);
        lemma_grows_trans(*index, owner@, l0, l3, l3, q0, q3, q4);
        lemma_grows_trans(*index, owner@, l0, l3, l5, q0, q4, q5);
        lemma_grows_trans(*index, owner@, l0, l5, live@, q0, q5, queue@);
        lemma_grows_trans(*index, owner@, l1, l2, l3, q1, q2, q3);
        lemma_grows_trans(*index, owner@, l1, l3, l3, q1, q3, q4);
        lemma_grows_trans(*index, owner@, l1, l3, l5, q1, q4, q5);
        lemma_grows_trans(*index, owner@, l1, l5, live@, q1, q5, queue@);
        lemma_grows_trans(*index, owner@, l2, l3, l3, q2, q3, q4);
        lemma_grows_trans(*index, owner@, l2, l3, l5, q2, q4, q5);
        lemma_grows_trans(*index, owner@, l2, l5, live@, q2, q5, queue@);
        lemma_grows_trans(*index, owner@, l3, l5, live@, q4, q5, queue@);
        lemma_extends_covers(l1, live@);
        lemma_extends_covers(l2, live@);
        lemma_extends_covers(l3, live@);
        lemma_extends_covers(l5, live@);
        assert(extends(q4, queue@));
        assert(extends(q3, q4));
        let n0 = q0.len() as int;
        if !holds(queue@.skip(n0), owner@) {
            assert(!holds(queue@.skip(q5.len() as int), owner@)) by {
                if holds(queue@.skip(q5.len() as int), owner@) {
                    lemma_pending_shift(queue@, n0, q5.len() as int, owner@);
                }
            }
            assert(!holds(q4.skip(q3.len() as int), owner@)) by {
                if holds(q4.skip(q3.len() as int), owner@) {
                    lemma_pending_grows(q4, queue@, q3.len() as int, owner@);
                    lemma_pending_shift(queue@, n0, q3.len() as int, owner@);
                }
            }
            assert forall|b: Seq<char>, x: Seq<char>| flow_types(flows@, owner@, b, x) implies flow_types(f4, owner@, b, x) by {
                if !flow_types(f4, owner@, b, x) {
                    assert(flow_types(flows@, owner@, b, x) && !flow_types(f4, owner@, b, x));
                }
            }
            lemma_calls_recorded_grows(*index, owner@, f4, flows@);
        }
        assert forall|f: Seq<char>, b: Seq<char>, x: Seq<char>|
            #[trigger] flow_types(flows@, f, b, x) && !flow_types(f0, f, b, x) implies holds(queue@.skip(n0), f) || !holds(
                live@,
                f,
            ) by {
            if !flow_types(f4, f, b, x) {
                assert(flow_types(flows@, f, b, x) && !flow_types(f4, f, b, x));
                lemma_pending_shift(queue@, n0, q5.len() as int, owner@);
            } else {
                assert(flow_types(f4, f, b, x) && !flow_types(f0, f, b, x));
                if holds(q4.skip(q3.len() as int), f) {
                    lemma_pending_grows(q4, queue@, q3.len() as int, f);
                    lemma_pending_shift(queue@, n0, q3.len() as int, f);
                } else if holds(live@, f) {
                    assert(!holds(l3, f));
                    let i = choose|i: int| 0 <= i < live@.len() && #[trigger] live@[i]@ == f;
                    if i < l0.len() {
                        assert(live@[i] == live@.take(l0.len() as int)[i]);
                        assert(holds(l0, f));
                    }
                }
            }
        }
        assert(imports_closed(*index, owner@, live@));
        assert(model_config_closed(*index, owner@, live@));
        assert(fixtures_closed(*index, owner@, live@));
        assert(references_closed(*index, owner@, live@)) by {
            let module = index.modules@[mi as int];
            assert forall|j: int|
                0 <= j < module.references@.len() && (#[trigger] module.references@[j]).from@ == owner@ implies match reference_target(
                    *index,
                    owner@,
                    module,
                    module.references@[j].name@,
                ) {
                    Some(t) => holds(live@, t) && route_closed(*index, t, live@),
                    None => true,
                } by {
                match reference_target(*index, owner@, module, module.references@[j].name@) {
                    Some(t) => lemma_route_closed_covers(*index, t, l5, live@),
                    None => {},
                }
            }
        }
    }
}


/// The roots of a group, each once.
pub fn root_symbols(index: &SymbolIndex, group: &str) -> (r: Vec<String>)
    ensures
        distinct(r@),
        forall|x: Seq<char>| holds(r@, x) <==> is_root(*index, group@, x),
{
    let mut out: Vec<String> = Vec::new();
    let mut m: usize = 0;
    while m < index.modules.len()
        invariant
            m <= index.modules@.len(),
            distinct(out@),
            forall|x: Seq<char>|
                holds(out@, x) <==> exists|mm: int, rr: int| mm < m && #[trigger] root_at(*index, group@, mm, rr, x),
        decreases index.modules@.len() - m,
    {
        let roots = &index.modules[m].root_symbols;
        let mut r: usize = 0;
        while r < roots.len()
            invariant
                m < index.modules@.len(),
                *roots == index.modules@[m as int].root_symbols,
                r <= roots@.len(),
                distinct(out@),
                forall|x: Seq<char>|
                    holds(out@, x) <==> (exists|mm: int, rr: int| mm < m && #[trigger] root_at(*index, group@, mm, rr, x))
                        || (exists|rr: int| rr < r && #[trigger] root_at(*index, group@, m as int, rr, x)),
            decreases roots@.len() - r,
        {
            let ghost before = out@;
            if same_text(roots[r].group.as_str(), group) && !contains_string(&out, roots[r].symbol.as_str()) {
                out.push(copy_string(&roots[r].symbol));
                proof {
                    assert forall|a: int, b: int| 0 <= a < b < out@.len() implies out@[a]@ != out@[b]@ by {
                        if b < before.len() {
                            assert(out@[a] == before[a] && out@[b] == before[b]);
                        } else {
                            assert(out@[a] == before[a]);
                        }
                    }
                }
            }
            proof {
                let x0 = roots@[r as int].symbol@;
                assert forall|x: Seq<char>|
                    holds(out@, x) <==> (exists|mm: int, rr: int| mm < m && #[trigger] root_at(*index, group@, mm, rr, x))
                        || (exists|rr: int| rr < r + 1 && #[trigger] root_at(*index, group@, m as int, rr, x)) by {
                    if holds(out@, x) {
                        let k = choose|k: int| 0 <= k < out@.len() && #[trigger] out@[k]@ == x;
                        if k < before.len() {
                            assert(out@[k] == before[k]);
                            assert(holds(before, x));
                        } else {
                            assert(root_at(*index, group@, m as int, r as int, x));
                        }
                    }
                    if exists|rr: int| rr < r + 1 && #[trigger] root_at(*index, group@, m as int, rr, x) {
                        let rr = choose|rr: int| rr < r + 1 && #[trigger] root_at(*index, group@, m as int, rr, x);
                        if rr < r {
                            assert(holds(before, x));
                        } else if holds(before, x) {
                        } else {
                            assert(x == x0);
                            assert(out@[before.len() as int]@ == x);
                        }
                    }
                    if holds(before, x) {
                        let k = choose|k: int| 0 <= k < before.len() && #[trigger] before[k]@ == x;
                        assert(out@[k] == before[k]);
                    }
                }
            }
            r = r + 1;
        }
        proof {
            assert forall|x: Seq<char>|
                holds(out@, x) <==> exists|mm: int, rr: int| mm < m + 1 && #[trigger] root_at(*index, group@, mm, rr, x) by {
                if exists|mm: int, rr: int| mm < m + 1 && #[trigger] root_at(*index, group@, mm, rr, x) {
                    let (mm, rr) = choose|mm: int, rr: int| mm < m + 1 && #[trigger] root_at(*index, group@, mm, rr, x);
                    if mm == m {
                        assert(rr < roots@.len());
                    }
                }
            }
        }
        m = m + 1;
    }
    out
}

/// What holds between the steps of the walk: the live symbols are distinct,
/// each justified, the roots among them, every queued name is live, and
/// every live symbol is either still queued or has all it keeps alive live.
pub open spec fn walk_inv(index: SymbolIndex, group: Seq<char>, live: Seq<String>, queue: Seq<String>, head: int) -> bool {
    &&& distinct(live)
    &&& justified(index, group, live)
    &&& forall|x: Seq<char>| is_root(index, group, x) ==> holds(live, x)
    &&& 0 <= head <= queue.len()
    &&& forall|k: int| 0 <= k < queue.len() ==> holds(live, #[trigger] queue[k]@)
    &&& forall|i: int|
        0 <= i < live.len() ==> static_closed(index, #[trigger] live[i]@, live) || holds(
            queue.skip(head),
            live[i]@,
        )
}

#[verifier::spinoff_prover]
proof fn lemma_walk_step(
    index: SymbolIndex,
    group: Seq<char>,
    owner: Seq<char>,
    h: int,
    l0: Seq<String>,
    l1: Seq<String>,
    q0: Seq<String>,
    q1: Seq<String>,
)
    requires
        walk_inv(index, group, l0, q0, h),
        0 <= h < q0.len(),
        q0[h]@ == owner,
        grows(index, owner, l0, l1, q0, q1),
        static_closed(index, owner, l1),
    ensures
        walk_inv(index, group, l1, q1, h + 1),
{
    lemma_extends_covers(l0, l1);
    assert(holds(l0, owner));
    let j0 = choose|j: int| 0 <= j < l0.len() && #[trigger] l0[j]@ == owner;
    assert forall|i: int| 0 <= i < l1.len() implies is_root(index, group, #[trigger] l1[i]@) || exists|j: int|
        0 <= j < i && #[trigger] edge(index, l1[j]@, l1[i]@) by {
        if i < l0.len() {
            assert(l1[i] == l1.take(l0.len() as int)[i]);
            if !is_root(index, group, l0[i]@) {
                let j = choose|j: int| 0 <= j < i && #[trigger] edge(index, l0[j]@, l0[i]@);
                assert(l1[j] == l1.take(l0.len() as int)[j]);
                assert(edge(index, l1[j]@, l1[i]@));
            }
        } else {
            assert(l1[j0] == l1.take(l0.len() as int)[j0]);
            assert(edge(index, l1[j0]@, l1[i]@));
        }
    }
    assert forall|k: int| 0 <= k < q1.len() implies holds(l1, #[trigger] q1[k]@) by {
        if k < q0.len() {
            assert(q1[k] == q1.take(q0.len() as int)[k]);
            assert(holds(l0, q0[k]@));
        }
    }
    assert forall|i: int| 0 <= i < l1.len() implies static_closed(index, #[trigger] l1[i]@, l1) || holds(
        q1.skip(h + 1),
        l1[i]@,
    ) by {
        if i < l0.len() {
            assert(l1[i] == l1.take(l0.len() as int)[i]);
            if static_closed(index, l0[i]@, l0) {
                lemma_static_closed_covers(index, l0[i]@, l0, l1);
            } else {
                let k = choose|k: int| 0 <= k < q0.skip(h).len() && #[trigger] q0.skip(h)[k]@ == l0[i]@;
                if k == 0 {
                    assert(l1[i]@ == owner);
                } else {
                    assert(q1[h + k] == q1.take(q0.len() as int)[h + k]);
                    assert(q1.skip(h + 1)[k - 1]@ == l1[i]@);
                }
            }
        } else {
            let k = choose|k: int| 0 <= k < q1.skip(q0.len() as int).len() && #[trigger] q1.skip(q0.len() as int)[k]@ == l1[i]@;
            assert(q1.skip(h + 1)[k + q0.len() - h - 1]@ == l1[i]@);
        }
    }
}

/// Every symbol of `live` is still queued after `head`, or has its calls
/// recorded in `flows` and its slots resolved.
pub open spec fn flows_settled(index: SymbolIndex, live: Seq<String>, queue: Seq<String>, head: int, flows: Seq<FlowEntry>) -> bool {
    forall|i: int|
        0 <= i < live.len() ==> holds(queue.skip(head), #[trigger] live[i]@) || (calls_recorded(index, live[i]@, flows)
            && slots_resolved(index, live[i]@, flows, live))
}

/// Resolved slots stay resolved as more becomes live, as long as nothing
/// new flows into them.
proof fn lemma_slots_resolved_grows(
    index: SymbolIndex,
    f: Seq<char>,
    f0: Seq<FlowEntry>,
    f1: Seq<FlowEntry>,
    l0: Seq<String>,
    l1: Seq<String>,
)
    requires
        slots_resolved(index, f, f0, l0),
        forall|b: Seq<char>, x: Seq<char>| flow_types(f1, f, b, x) ==> flow_types(f0, f, b, x),
        covers(l0, l1),
    ensures
        slots_resolved(index, f, f1, l1),
{
    assert forall|b: Seq<char>, x: Seq<char>| #[trigger] flow_types(f1, f, b, x) implies slot_resolved(index, f, b, x, l1) by {
        assert(slot_resolved(index, f, b, x, l0));
        match home(index, f) {
            Some(mi) => {
                assert forall|j: int|
                    0 <= j < index.modules@[mi].member_references@.len() && (#[trigger] index.modules@[mi].member_references@[j]).from@
                        == f implies match rsplit_once(index.modules@[mi].member_references@[j].target@, '.') {
                        Some(parts) => parts.0 == b ==> member_found(index, x, parts.1, l1),
                        None => true,
                    } by {
                    match rsplit_once(index.modules@[mi].member_references@[j].target@, '.') {
                        Some(parts) => {
                            if parts.0 == b {
                                lemma_member_found_covers(index, x, parts.1, l0, l1);
                            }
                        },
                        None => {},
                    }
                }
            },
            None => {},
        }
    }
}

/// One step of the walk keeps the flows settled.
proof fn lemma_flow_step(
    index: SymbolIndex,
    owner: Seq<char>,
    h: int,
    l0: Seq<String>,
    l1: Seq<String>,
    q0: Seq<String>,
    q1: Seq<String>,
    f0: Seq<FlowEntry>,
    f1: Seq<FlowEntry>,
)
    requires
        0 <= h < q0.len(),
        q0[h]@ == owner,
        grows(index, owner, l0, l1, q0, q1),
        forall|f: Seq<char>, b: Seq<char>, x: Seq<char>| flow_types(f0, f, b, x) ==> flow_types(f1, f, b, x),
        holds(q1.skip(q0.len() as int), owner) || (calls_recorded(index, owner, f1) && slots_resolved(index, owner, f1, l1)),
        forall|f: Seq<char>, b: Seq<char>, x: Seq<char>|
            #[trigger] flow_types(f1, f, b, x) && !flow_types(f0, f, b, x) ==> holds(q1.skip(q0.len() as int), f) || !holds(
                l1,
                f,
            ),
        flows_settled(index, l0, q0, h, f0),
    ensures
        flows_settled(index, l1, q1, h + 1, f1),
{
    lemma_extends_covers(l0, l1);
    assert forall|i: int| 0 <= i < l1.len() implies holds(q1.skip(h + 1), #[trigger] l1[i]@) || (calls_recorded(
        index,
        l1[i]@,
        f1,
    ) && slots_resolved(index, l1[i]@, f1, l1)) by {
        let x = l1[i]@;
        assert(holds(l1, x));
        if i >= l0.len() {
            lemma_pending_shift(q1, h + 1, q0.len() as int, x);
        } else {
            assert(l1[i] == l1.take(l0.len() as int)[i]);
            assert(l0[i]@ == x);
            if x == owner {
                if holds(q1.skip(q0.len() as int), owner) {
                    lemma_pending_shift(q1, h + 1, q0.len() as int, x);
                }
            } else if holds(q0.skip(h), x) {
                let k = choose|k: int| 0 <= k < q0.skip(h).len() && #[trigger] q0.skip(h)[k]@ == x;
                assert(k != 0);
                assert(q0.skip(h + 1)[k - 1]@ == x);
                lemma_pending_grows(q0, q1, h + 1, x);
            } else {
                if exists|b: Seq<char>, y: Seq<char>| flow_types(f1, x, b, y) && !flow_types(f0, x, b, y) {
                    let (b, y) = choose|b: Seq<char>, y: Seq<char>| flow_types(f1, x, b, y) && !flow_types(f0, x, b, y);
                    assert(flow_types(f1, x, b, y) && !flow_types(f0, x, b, y));
                    lemma_pending_shift(q1, h + 1, q0.len() as int, x);
                } else {
                    lemma_calls_recorded_grows(index, x, f0, f1);
                    lemma_slots_resolved_grows(index, x, f0, f1, l0, l1);
                }
            }
        }
    }
}

/// Every live symbol is a name of the index.
proof fn lemma_live_words(index: SymbolIndex, group: Seq<char>, live: Seq<String>)
    requires
        justified(index, group, live),
    ensures
        forall|i: int| 0 <= i < live.len() ==> word(index, #[trigger] live[i]@),
{
    assert forall|i: int| 0 <= i < live.len() implies word(index, #[trigger] live[i]@) by {
        if is_root(index, group, live[i]@) {
            let (m, r) = choose|m: int, r: int| #[trigger] root_at(index, group, m, r, live[i]@);
            lemma_root_word(index, m, r);
        } else {
            let j = choose|j: int| 0 <= j < i && #[trigger] edge(index, live[j]@, live[i]@);
            lemma_edge_word(index, live[j]@, live[i]@);
        }
    }
}

/// The walk from the roots of `group`: the live symbols, each once, with
/// everything that each of them keeps alive.
///
/// It ends: each visit either makes a name of the index live, records a new
/// flow between names of the index, or leaves the queue as it was, and there
/// are only so many names.
pub(crate) fn walk(index: &SymbolIndex, group: &str) -> (r: Vec<String>)
    ensures
        distinct(r@),
        justified(*index, group@, r@),
        forall|x: Seq<char>| is_root(*index, group@, x) ==> holds(r@, x),
        forall|i: int| 0 <= i < r@.len() ==> static_closed(*index, #[trigger] r@[i]@, r@),
        exists|flows: Seq<FlowEntry>| flows_closed(*index, r@, flows),
{
    let mut live = root_symbols(index, group);
    let mut queue = copy_strings(&live);
    let mut flows: Vec<FlowEntry> = Vec::new();
    let mut head: usize = 0;
    proof {
        assert forall|i: int| 0 <= i < live@.len() implies is_root(*index, group@, #[trigger] live@[i]@) || exists|j: int|
            0 <= j < i && #[trigger] edge(*index, live@[j]@, live@[i]@) by {
            assert(holds(live@, live@[i]@));
        }
        assert forall|k: int| 0 <= k < queue@.len() implies holds(live@, #[trigger] queue@[k]@) by {
            assert(live@[k]@ == queue@[k]@);
        }
        assert forall|i: int| 0 <= i < live@.len() implies static_closed(*index, #[trigger] live@[i]@, live@) || holds(
            queue@.skip(0),
            live@[i]@,
        ) by {
            assert(queue@.skip(0)[i]@ == live@[i]@);
        }
        assert forall|i: int| 0 <= i < live@.len() implies holds(queue@.skip(0), #[trigger] live@[i]@) || (calls_recorded(
            *index,
            live@[i]@,
            flows@,
        ) && slots_resolved(*index, live@[i]@, flows@, live@)) by {
            assert(queue@.skip(0)[i]@ == live@[i]@);
        }
    }
    while head < queue.len()
        invariant
            walk_inv(*index, group@, live@, queue@, head as int),
            flows_wf(flows@),
            flows_named(*index, flows@),
            flows_sourced(*index, flows@),
            flows_admitted(*index, flows@),
            flows_settled(*index, live@, queue@, head as int, flows@),
        decreases live_missing(*index, live@), flow_missing(*index, flows@), queue@.len() - head,
    {
        let owner = copy_string(&queue[head]);
        let ghost l0 = live@;
        let ghost q0 = queue@;
        let ghost f0 = flows@;
        let ghost h = head as int;
        assert(holds(live@, owner@)) by {
            assert(holds(live@, queue@[h]@));
        }
        assert(word(*index, owner@)) by {
            lemma_live_words(*index, group@, live@);
            let j = choose|j: int| 0 <= j < live@.len() && #[trigger] live@[j]@ == owner@;
            assert(word(*index, live@[j]@));
        }
        visit_owner(index, owner.as_str(), &mut live, &mut queue, &mut flows);
        proof {
            lemma_walk_step(*index, group@, owner@, h, l0, live@, q0, queue@);
            lemma_flow_step(*index, owner@, h, l0, live@, q0, queue@, f0, flows@);
            lemma_extends_covers(l0, live@);
            lemma_live_missing(*index, l0, live@);
            lemma_flow_missing(*index, f0, flows@);
            if live@.len() > l0.len() {
                let x = live@[l0.len() as int]@;
                assert(!holds(l0, x)) by {
                    if holds(l0, x) {
                        let j = choose|j: int| 0 <= j < l0.len() && #[trigger] l0[j]@ == x;
                        assert(live@[j] == live@.take(l0.len() as int)[j]);
                    }
                }
                lemma_live_words(*index, group@, live@);
                assert(word(*index, live@[l0.len() as int]@));
                assert(holds(live@, x));
            } else {
                assert(live@ =~= l0) by {
                    assert(live@ =~= live@.take(l0.len() as int));
                }
                if flows_changed(f0, flows@) {
                    let (a, b, c) = choose|a: Seq<char>, b: Seq<char>, c: Seq<char>| #[trigger] flow_types(flows@, a, b, c) && !flow_types(f0, a, b, c);
                    assert(flow_types(flows@, a, b, c));
                } else {
                    lemma_flow_missing(*index, flows@, f0);
                }
            }
        }
        head = head + 1;
    }
    proof {
        assert forall|i: int| 0 <= i < live@.len() implies static_closed(*index, #[trigger] live@[i]@, live@) by {
            assert(queue@.skip(head as int).len() == 0);
        }
        assert(flows_closed(*index, live@, flows@)) by {
            assert forall|i: int| 0 <= i < live@.len() implies calls_recorded(*index, #[trigger] live@[i]@, flows@)
                && slots_resolved(*index, live@[i]@, flows@, live@) by {
                assert(queue@.skip(head as int).len() == 0);
                assert(!holds(queue@.skip(head as int), live@[i]@));
            }
        }
    }
    live
}

} // verus!
