//! Concrete type flows: which concrete classes reach a slot declared with a
//! base type (a parameter or a return value), so that calls through the slot
//! reach the overrides of those classes.
use vstd::prelude::*;

use crate::hierarchy::{is_subclass_or_same, lookup_member, lookup_spec, subclass_or_same};
use crate::index::{FunctionSignature, SymbolIndex, TypeBinding};
use crate::pool::{flows_named, lemma_return_word, word};
use crate::tables::{find_signature, signature_named};
use crate::text::{
    contains_string, copy_string, dotted, ends_with, holds, join_dot, rsplit_once,
    rsplit_once_char, same_text,
};

verus! {

pub open spec fn union_name(t: Seq<char>) -> bool {
    ||| t == "typing.Union"@
    ||| t == "typing.Optional"@
    ||| t == "Union"@
    ||| t == "Optional"@
    ||| crate::text::has_suffix(t, ".Union"@)
    ||| crate::text::has_suffix(t, ".Optional"@)
}

pub open spec fn none_name(t: Seq<char>) -> bool {
    t == "None"@ || t == "NoneType"@ || t == "types.NoneType"@
}

pub open spec fn collection_name(t: Seq<char>) -> bool {
    ||| t == "list"@
    ||| t == "set"@
    ||| t == "tuple"@
    ||| t == "typing.List"@
    ||| t == "typing.Set"@
    ||| t == "typing.Sequence"@
    ||| t == "collections.abc.Sequence"@
}

pub open spec fn type_object_name(t: Seq<char>) -> bool {
    ||| t == "type"@
    ||| t == "typing.Type"@
    ||| t == "typing_extensions.Type"@
    ||| t == "Type"@
    ||| crate::text::has_suffix(t, ".Type"@)
}

pub open spec fn callable_name(t: Seq<char>) -> bool {
    t == "typing.Callable"@ || t == "collections.abc.Callable"@ || t == "Callable"@
}

pub fn is_union_type(t: &str) -> (r: bool)
    ensures
        r == union_name(t@),
{
    same_text(t, "typing.Union") || same_text(t, "typing.Optional") || same_text(t, "Union")
        || same_text(t, "Optional") || ends_with(t, ".Union") || ends_with(t, ".Optional")
}

pub fn is_none_type(t: &str) -> (r: bool)
    ensures
        r == none_name(t@),
{
    same_text(t, "None") || same_text(t, "NoneType") || same_text(t, "types.NoneType")
}

pub fn is_collection_type(t: &str) -> (r: bool)
    ensures
        r == collection_name(t@),
{
    same_text(t, "list") || same_text(t, "set") || same_text(t, "tuple") || same_text(
        t,
        "typing.List",
    ) || same_text(t, "typing.Set") || same_text(t, "typing.Sequence") || same_text(
        t,
        "collections.abc.Sequence",
    )
}

pub fn is_type_object(t: &str) -> (r: bool)
    ensures
        r == type_object_name(t@),
{
    same_text(t, "type") || same_text(t, "typing.Type") || same_text(t, "typing_extensions.Type")
        || same_text(t, "Type") || ends_with(t, ".Type")
}

pub fn is_callable_type(t: &str) -> (r: bool)
    ensures
        r == callable_name(t@),
{
    same_text(t, "typing.Callable") || same_text(t, "collections.abc.Callable") || same_text(
        t,
        "Callable",
    )
}

/// The class a slot annotated `t` holds, and whether a value flowing into it
/// must be checked to derive from that class: unions are searched for their
/// first non-`None` member that has one; `type[X]` holds the class `X`
/// itself, unchecked; a callable holds what it returns; a collection what it
/// contains; anything else is its own base.
pub open spec fn flow_base(t: TypeBinding) -> Option<(Seq<char>, bool)>
    decreases t, 1int, 0int,
{
    if union_name(t.base@) {
        first_flow_base(t, 0)
    } else if type_object_name(t.base@) {
        if t.args@.len() > 0 {
            Some((t.args@[0].base@, false))
        } else {
            None
        }
    } else if callable_name(t.base@) {
        if t.args@.len() > 0 {
            Some((t.args@.last().base@, true))
        } else {
            None
        }
    } else if collection_name(t.base@) {
        if t.args@.len() > 0 {
            Some((t.args@[0].base@, true))
        } else {
            None
        }
    } else {
        Some((t.base@, true))
    }
}

/// The flow base of the first union member from position `i` on that is
/// not `None` and has one.
pub open spec fn first_flow_base(t: TypeBinding, i: int) -> Option<(Seq<char>, bool)>
    decreases t, 0int, t.args@.len() - i,
{
    if i < 0 || i >= t.args@.len() {
        None
    } else if !none_name(t.args@[i].base@) && flow_base(t.args@[i]) is Some {
        flow_base(t.args@[i])
    } else {
        first_flow_base(t, i + 1)
    }
}

/// `typing.Union[...]`, `typing.Optional[...]`, spelled bare or under any
/// module.
pub open spec fn union_spelling(t: Seq<char>) -> bool {
    ||| t == "typing.Union"@
    ||| t == "typing.Optional"@
    ||| t == "Union"@
    ||| t == "Optional"@
    ||| crate::text::has_suffix(t, ".Union"@)
    ||| crate::text::has_suffix(t, ".Optional"@)
}

/// The spellings of `None` in an annotation.
pub open spec fn none_spelling(t: Seq<char>) -> bool {
    t == "None"@ || t == "NoneType"@ || t == "types.NoneType"@
}

proof fn lemma_first_member_flow(t: TypeBinding, k: int, i: int)
    requires
        0 <= k <= i < t.args@.len(),
        !none_spelling(t.args@[i].base@),
        flow_base(t.args@[i]) is Some,
        forall|j: int| k <= j < i ==> none_spelling(#[trigger] t.args@[j].base@) || flow_base(t.args@[j]) is None,
    ensures
        first_flow_base(t, k) == flow_base(t.args@[i]),
    decreases i - k,
{
    if k < i {
        lemma_first_member_flow(t, k + 1, i);
        assert(none_spelling(t.args@[k].base@) || flow_base(t.args@[k]) is None);
    }
}

/// A slot annotated with a union holds what its first member that is not
/// `None` and holds a class holds: the same class, checked the same way, as
/// a slot annotated with that member alone.
pub proof fn lemma_unions_flow_like_their_first_member(t: TypeBinding, i: int)
    requires
        union_spelling(t.base@),
        0 <= i < t.args@.len(),
        !none_spelling(t.args@[i].base@),
        flow_base(t.args@[i]) is Some,
        forall|j: int| 0 <= j < i ==> none_spelling(#[trigger] t.args@[j].base@) || flow_base(t.args@[j]) is None,
    ensures
        flow_base(t) == flow_base(t.args@[i]),
{
    lemma_first_member_flow(t, 0, i);
}

/// `Optional[X]`, for `X` other than `None`, holds what `X` holds.
pub proof fn lemma_optional_flows_like_its_member(t: TypeBinding)
    requires
        t.base@ == "typing.Optional"@ || t.base@ == "Optional"@ || crate::text::has_suffix(t.base@, ".Optional"@),
        t.args@.len() > 0,
        !none_spelling(t.args@[0].base@),
        flow_base(t.args@[0]) is Some,
    ensures
        flow_base(t) == flow_base(t.args@[0]),
{
    lemma_first_member_flow(t, 0, 0);
}

/// A union none of whose members is a class other than `None` holds no
/// class.
pub proof fn lemma_unions_without_classes_hold_none(t: TypeBinding)
    requires
        union_spelling(t.base@),
        forall|j: int| 0 <= j < t.args@.len() ==> none_spelling(#[trigger] t.args@[j].base@) || flow_base(t.args@[j]) is None,
    ensures
        flow_base(t) is None,
{
    lemma_no_member_flow(t, 0);
}

proof fn lemma_no_member_flow(t: TypeBinding, k: int)
    requires
        0 <= k,
        forall|j: int| 0 <= j < t.args@.len() ==> none_spelling(#[trigger] t.args@[j].base@) || flow_base(t.args@[j]) is None,
    ensures
        first_flow_base(t, k) is None,
    decreases t.args@.len() - k,
{
    if k < t.args@.len() {
        assert(none_spelling(t.args@[k].base@) || flow_base(t.args@[k]) is None);
        lemma_no_member_flow(t, k + 1);
    }
}

/// A slot annotated with a class that is no union, type object, callable
/// or collection holds that class, checked.
pub proof fn lemma_plain_classes_flow_as_themselves(t: TypeBinding)
    requires
        !union_spelling(t.base@),
        !type_object_name(t.base@),
        !callable_name(t.base@),
        !collection_name(t.base@),
    ensures
        flow_base(t) == Some((t.base@, true)),
{
}

/// A slot annotated `list[X]`, `set[X]`, `tuple[X, ...]` or a sequence of
/// `X` holds the class `X`, checked.
pub proof fn lemma_collections_flow_as_their_element(t: TypeBinding)
    requires
        t.base@ == "list"@ || t.base@ == "set"@ || t.base@ == "tuple"@ || t.base@ == "typing.List"@ || t.base@
            == "typing.Set"@ || t.base@ == "typing.Sequence"@ || t.base@ == "collections.abc.Sequence"@,
        t.args@.len() > 0,
    ensures
        flow_base(t) == Some((t.args@[0].base@, true)),
{
    reveal_strlit("list");
    reveal_strlit("set");
    reveal_strlit("tuple");
    reveal_strlit("typing.List");
    reveal_strlit("typing.Set");
    reveal_strlit("typing.Sequence");
    reveal_strlit("collections.abc.Sequence");
    reveal_strlit("typing.Union");
    reveal_strlit("typing.Optional");
    reveal_strlit("Union");
    reveal_strlit("Optional");
    reveal_strlit(".Union");
    reveal_strlit(".Optional");
    reveal_strlit("type");
    reveal_strlit("typing.Type");
    reveal_strlit("typing_extensions.Type");
    reveal_strlit("Type");
    reveal_strlit(".Type");
    reveal_strlit("typing.Callable");
    reveal_strlit("collections.abc.Callable");
    reveal_strlit("Callable");
    let b = t.base@;
    assert(!crate::text::has_suffix(b, ".Union"@)) by {
        if crate::text::has_suffix(b, ".Union"@) {
            assert(b.skip(b.len() - 6)[5] == 'n');
            assert(b[b.len() - 1] == 'n');
        }
    }
    assert(!crate::text::has_suffix(b, ".Optional"@)) by {
        if crate::text::has_suffix(b, ".Optional"@) {
            assert(b.skip(b.len() - 9)[8] == 'l');
            assert(b[b.len() - 1] == 'l');
        }
    }
    assert(!crate::text::has_suffix(b, ".Type"@)) by {
        if crate::text::has_suffix(b, ".Type"@) {
            assert(b.skip(b.len() - 5)[4] == 'e');
            assert(b.skip(b.len() - 5)[0] == '.');
            assert(b[b.len() - 1] == 'e');
            assert(b[b.len() - 5] == '.');
        }
    }
    if b == "list"@ {
        assert(b.len() == 4 && b[0] == 'l');
    }
    if b == "set"@ {
        assert(b.len() == 3 && b[0] == 's');
    }
    if b == "tuple"@ {
        assert(b.len() == 5 && b[0] == 't');
    }
    if b == "typing.List"@ {
        assert(b.len() == 11 && b[0] == 't' && b[7] == 'L');
    }
    if b == "typing.Set"@ {
        assert(b.len() == 10 && b[0] == 't' && b[7] == 'S');
    }
    if b == "typing.Sequence"@ {
        assert(b.len() == 15 && b[0] == 't' && b[7] == 'S');
    }
    if b == "collections.abc.Sequence"@ {
        assert(b.len() == 24 && b[0] == 'c' && b[7] == 'i' && b[16] == 'S');
    }
    assert(!union_name(b));
    assert(!type_object_name(b));
    assert(!callable_name(b));
    assert(collection_name(b));
}

/// `concrete_flow_base`
pub fn concrete_flow_base(annotation: &TypeBinding) -> (r: Option<(String, bool)>)
    ensures
        match r {
            Some(p) => flow_base(*annotation) == Some((p.0@, p.1)),
            None => flow_base(*annotation) is None,
        },
    decreases annotation, 1int, 0int,
{
    let base = annotation.base.as_str();
    if is_union_type(base) {
        return first_concrete_flow_base(annotation, 0);
    }
    if is_type_object(base) {
        if annotation.args.len() > 0 {
            return Some((copy_string(&annotation.args[0].base), false));
        }
        return None;
    }
    if is_callable_type(base) {
        if annotation.args.len() > 0 {
            return Some((copy_string(&annotation.args[annotation.args.len() - 1].base), true));
        }
        return None;
    }
    if is_collection_type(base) {
        if annotation.args.len() > 0 {
            return Some((copy_string(&annotation.args[0].base), true));
        }
        return None;
    }
    Some((copy_string(&annotation.base), true))
}

fn first_concrete_flow_base(annotation: &TypeBinding, i: usize) -> (r: Option<(String, bool)>)
    ensures
        match r {
            Some(p) => first_flow_base(*annotation, i as int) == Some((p.0@, p.1)),
            None => first_flow_base(*annotation, i as int) is None,
        },
    decreases annotation, 0int, annotation.args@.len() - i,
{
    if i >= annotation.args.len() {
        return None;
    }
    let arg = &annotation.args[i];
    if !is_none_type(arg.base.as_str()) {
        match concrete_flow_base(arg) {
            Some(found) => {
                return Some(found);
            },
            None => {},
        }
    }
    first_concrete_flow_base(annotation, i + 1)
}

/// The `__init__` of the class that owns a method.
pub open spec fn init_of(owner: Seq<char>) -> Option<Seq<char>> {
    match rsplit_once(owner, '.') {
        Some(parts) => if parts.1 == "__init__"@ {
            None
        } else {
            Some(dotted(parts.0, "__init__"@))
        },
        None => None,
    }
}

pub fn owner_init_method(owner: &str) -> (r: Option<String>)
    ensures
        match r {
            Some(s) => init_of(owner@) == Some(s@),
            None => init_of(owner@) is None,
        },
{
    match rsplit_once_char(owner, '.') {
        Some(parts) => {
            if same_text(parts.1.as_str(), "__init__") {
                None
            } else {
                Some(join_dot(parts.0.as_str(), "__init__"))
            }
        },
        None => None,
    }
}

/// The concrete classes seen flowing into one slot: the slot is named by
/// the function it belongs to and the class it is declared with.
pub struct FlowEntry {
    pub function: String,
    pub base: String,
    pub types: Vec<String>,
}

/// The concrete classes recorded for the slot `(function, base)`.
pub open spec fn flow_types(flows: Seq<FlowEntry>, function: Seq<char>, base: Seq<char>, t: Seq<char>) -> bool {
    exists|i: int|
        0 <= i < flows.len() && #[trigger] flows[i].function@ == function && flows[i].base@ == base
            && holds(flows[i].types@, t)
}

/// A class that can flow into a slot: the class passed in some recorded
/// call, or the class that some signature's return holds.
pub open spec fn flow_source(index: SymbolIndex, x: Seq<char>) -> bool {
    ||| exists|mi: int, j: int|
        0 <= mi < index.modules@.len() && 0 <= j < index.modules@[mi].call_argument_types@.len()
            && #[trigger] index.modules@[mi].call_argument_types@[j].concrete_type@ == x
    ||| exists|mi: int, k: int|
        0 <= mi < index.modules@.len() && 0 <= k < index.modules@[mi].function_signatures@.len() && match return_of(
            #[trigger] index.modules@[mi].function_signatures@[k],
        ) {
            Some(t) => match flow_base(t) {
                Some(p) => p.0 == x,
                None => false,
            },
            None => false,
        }
}

/// Every recorded class is one that can flow.
pub open spec fn flows_sourced(index: SymbolIndex, flows: Seq<FlowEntry>) -> bool {
    forall|f: Seq<char>, b: Seq<char>, x: Seq<char>| #[trigger] flow_types(flows, f, b, x) ==> flow_source(index, x)
}

/// Each slot is recorded once, and each class once per slot.
pub open spec fn flows_wf(flows: Seq<FlowEntry>) -> bool {
    &&& forall|i: int, j: int|
        0 <= i < j < flows.len() ==> !(flows[i].function@ == flows[j].function@ && flows[i].base@ == flows[j].base@)
    &&& forall|i: int| 0 <= i < flows.len() ==> crate::hierarchy::distinct(#[trigger] flows[i].types@)
}

/// Position of the entry for a slot.
fn flow_slot(flows: &Vec<FlowEntry>, function: &str, base: &str) -> (r: Option<usize>)
    ensures
        match r {
            Some(i) => i < flows@.len() && flows@[i as int].function@ == function@ && flows@[i as int].base@ == base@,
            None => forall|i: int| 0 <= i < flows@.len() ==> !(#[trigger] flows@[i].function@ == function@ && flows@[i].base@ == base@),
        },
{
    let mut i: usize = 0;
    while i < flows.len()
        invariant
            i <= flows@.len(),
            forall|j: int| 0 <= j < i ==> !(#[trigger] flows@[j].function@ == function@ && flows@[j].base@ == base@),
        decreases flows@.len() - i,
    {
        if same_text(flows[i].function.as_str(), function) && same_text(flows[i].base.as_str(), base) {
            return Some(i);
        }
        i = i + 1;
    }
    None
}

/// Records that `t` flows into the slot `(function, base)`; true when it was
/// not recorded before.
pub fn add_flow(flows: &mut Vec<FlowEntry>, function: &str, base: &str, t: &str) -> (r: bool)
    requires
        flows_wf(old(flows)@),
    ensures
        flows_wf(final(flows)@),
        r == !flow_types(old(flows)@, function@, base@, t@),
        forall|f: Seq<char>, b: Seq<char>, x: Seq<char>|
            flow_types(final(flows)@, f, b, x) <==> (flow_types(old(flows)@, f, b, x) || (f == function@ && b == base@
                && x == t@)),
{
    match flow_slot(flows, function, base) {
        Some(i) => {
            if contains_string(&flows[i].types, t) {
                return false;
            }
            proof {
                assert forall|j: int| 0 <= j < flows@.len() && j != i implies !(#[trigger] flows@[j].function@ == function@
                    && flows@[j].base@ == base@) by {
                    if j < i {
                        assert(!(flows@[j].function@ == flows@[i as int].function@ && flows@[j].base@ == flows@[i as int].base@));
                    } else {
                        assert(!(flows@[i as int].function@ == flows@[j].function@ && flows@[i as int].base@ == flows@[j].base@));
                    }
                }
            }
            let ghost old_flows = flows@;
            let mut entry = flows.remove(i);
            let ghost old_types = entry.types@;
            entry.types.push(String::from_str(t));
            let ghost new_entry = entry;
            assert(new_entry.function == old_flows[i as int].function);
            assert(new_entry.base == old_flows[i as int].base);
            assert(old_types == old_flows[i as int].types@);
            flows.insert(i, entry);
            proof {
                assert(flows@ =~= old_flows.update(i as int, new_entry));
                assert(new_entry.types@ == old_types.push(new_entry.types@.last()));
                assert(forall|x: Seq<char>| holds(new_entry.types@, x) <==> (holds(old_types, x) || x == t@)) by {
                    assert forall|x: Seq<char>| holds(new_entry.types@, x) implies (holds(old_types, x) || x == t@) by {
                        let k = choose|k: int| 0 <= k < new_entry.types@.len() && #[trigger] new_entry.types@[k]@ == x;
                        if k < old_types.len() {
                            assert(new_entry.types@[k] == old_types[k]);
                        }
                    }
                    assert forall|x: Seq<char>| holds(old_types, x) implies holds(new_entry.types@, x) by {
                        let k = choose|k: int| 0 <= k < old_types.len() && #[trigger] old_types[k]@ == x;
                        assert(new_entry.types@[k] == old_types[k]);
                    }
                    assert(new_entry.types@[old_types.len() as int]@ == t@);
                }
                assert(crate::hierarchy::distinct(new_entry.types@)) by {
                    assert forall|a: int, b: int| 0 <= a < b < new_entry.types@.len() implies new_entry.types@[a]@ != new_entry.types@[b]@ by {
                        if b == old_types.len() {
                            assert(new_entry.types@[a] == old_types[a]);
                        } else {
                            assert(new_entry.types@[a] == old_types[a] && new_entry.types@[b] == old_types[b]);
                        }
                    }
                }
                assert forall|f: Seq<char>, b: Seq<char>, x: Seq<char>|
                    flow_types(flows@, f, b, x) <==> (flow_types(old_flows, f, b, x) || (f == function@ && b == base@ && x == t@)) by {
                    if flow_types(flows@, f, b, x) {
                        let j = choose|j: int| 0 <= j < flows@.len() && #[trigger] flows@[j].function@ == f && flows@[j].base@ == b && holds(flows@[j].types@, x);
                        if j != i {
                            assert(flows@[j] == old_flows[j]);
                        } else {
                            assert(flows@[j] == new_entry);
                            assert(old_flows[j].function@ == f && old_flows[j].base@ == b);
                            if holds(old_types, x) {
                                assert(old_flows[j].types@ == old_types);
                            }
                        }
                    }
                    if flow_types(old_flows, f, b, x) {
                        let j = choose|j: int| 0 <= j < old_flows.len() && #[trigger] old_flows[j].function@ == f && old_flows[j].base@ == b && holds(old_flows[j].types@, x);
                        if j != i {
                            assert(flows@[j] == old_flows[j]);
                        } else {
                            assert(flows@[j] == new_entry);
                            assert(old_flows[j].types@ == old_types);
                            assert(holds(flows@[j].types@, x));
                        }
                    }
                    if f == function@ && b == base@ && x == t@ {
                        assert(flows@[i as int] == new_entry);
                        assert(new_entry.types@[old_types.len() as int]@ == t@);
                        assert(holds(flows@[i as int].types@, t@));
                        assert(flows@[i as int].function@ == f);
                    }
                }
                assert(!flow_types(old_flows, function@, base@, t@)) by {
                    if flow_types(old_flows, function@, base@, t@) {
                        let j = choose|j: int| 0 <= j < old_flows.len() && #[trigger] old_flows[j].function@ == function@ && old_flows[j].base@ == base@ && holds(old_flows[j].types@, t@);
                        if j != i {
                            assert(false);
                        }
                    }
                }
            }
            true
        },
        None => {
            let mut types: Vec<String> = Vec::new();
            types.push(String::from_str(t));
            let ghost old_flows = flows@;
            let entry = FlowEntry { function: String::from_str(function), base: String::from_str(base), types };
            assert(holds(entry.types@, t@)) by {
                assert(entry.types@[0]@ == t@);
            }
            assert(forall|x: Seq<char>| holds(entry.types@, x) ==> x == t@);
            flows.push(entry);
            proof {
                assert(flows@ == old_flows.push(entry));
                assert forall|f: Seq<char>, b: Seq<char>, x: Seq<char>|
                    flow_types(flows@, f, b, x) <==> (flow_types(old_flows, f, b, x) || (f == function@ && b == base@ && x == t@)) by {
                    if flow_types(flows@, f, b, x) {
                        let j = choose|j: int| 0 <= j < flows@.len() && #[trigger] flows@[j].function@ == f && flows@[j].base@ == b && holds(flows@[j].types@, x);
                        if j < old_flows.len() {
                            assert(flows@[j] == old_flows[j]);
                        } else {
                            assert(flows@[j] == entry);
                            assert(x == t@);
                        }
                    }
                    if flow_types(old_flows, f, b, x) {
                        let j = choose|j: int| 0 <= j < old_flows.len() && #[trigger] old_flows[j].function@ == f && old_flows[j].base@ == b && holds(old_flows[j].types@, x);
                        assert(flows@[j] == old_flows[j]);
                    }
                    if f == function@ && b == base@ && x == t@ {
                        assert(flows@[old_flows.len() as int] == entry);
                        assert(holds(flows@[old_flows.len() as int].types@, t@));
                        assert(flows@[old_flows.len() as int].function@ == f);
                    }
                }
            }
            true
        },
    }
}

/// `t` flows into the slot `(scope, receiver)` of `scope`, of the `__init__`
/// of the class owning `scope`, or of an enclosing scope.
pub open spec fn scope_flows(flows: Seq<FlowEntry>, scope: Seq<char>, receiver: Seq<char>, t: Seq<char>) -> bool
    decreases scope.len(),
{
    ||| flow_types(flows, scope, receiver, t)
    ||| (init_of(scope) is Some && flow_types(flows, init_of(scope)->0, receiver, t))
    ||| match rsplit_once(scope, '.') {
        Some(parts) => {
            proof {
                crate::text::lemma_last_index(scope, '.');
            }
            scope_flows(flows, parts.0, receiver, t)
        },
        None => false,
    }
}

/// Appends the concrete classes recorded for the slot.
fn append_slot(flows: &Vec<FlowEntry>, function: &str, receiver: &str, out: &mut Vec<String>)
    requires
        flows_wf(flows@),
    ensures
        forall|t: Seq<char>| holds(final(out)@, t) <==> (holds(old(out)@, t) || flow_types(flows@, function@, receiver@, t)),
{
    match flow_slot(flows, function, receiver) {
        None => {
            assert forall|t: Seq<char>| !flow_types(flows@, function@, receiver@, t) by {
                if flow_types(flows@, function@, receiver@, t) {
                    let j = choose|j: int| 0 <= j < flows@.len() && #[trigger] flows@[j].function@ == function@ && flows@[j].base@ == receiver@ && holds(flows@[j].types@, t);
                    assert(!(flows@[j].function@ == function@ && flows@[j].base@ == receiver@));
                }
            }
            assert(out@ == old(out)@);
            assert(forall|t: Seq<char>| holds(out@, t) <==> (holds(old(out)@, t) || flow_types(flows@, function@, receiver@, t)));
        },
        Some(i) => {
            let types = &flows[i].types;
            let ghost start = out@;
            let mut k: usize = 0;
            while k < types.len()
                invariant
                    start == old(out)@,
                    k <= types@.len(),
                    out@.len() == start.len() + k,
                    forall|j: int| 0 <= j < start.len() ==> #[trigger] out@[j] == start[j],
                    forall|j: int| 0 <= j < k ==> #[trigger] out@[start.len() + j]@ == types@[j]@,
                decreases types@.len() - k,
            {
                out.push(copy_string(&types[k]));
                k = k + 1;
            }
            assert forall|t: Seq<char>| holds(out@, t) <==> (holds(start, t) || flow_types(flows@, function@, receiver@, t)) by {
                if holds(out@, t) {
                    let j = choose|j: int| 0 <= j < out@.len() && #[trigger] out@[j]@ == t;
                    if j < start.len() {
                        assert(out@[j] == start[j]);
                    } else {
                        assert(out@[start.len() + (j - start.len())]@ == types@[j - start.len()]@);
                        assert(holds(flows@[i as int].types@, t));
                    }
                }
                if holds(start, t) {
                    let j = choose|j: int| 0 <= j < start.len() && #[trigger] start[j]@ == t;
                    assert(out@[j] == start[j]);
                }
                if flow_types(flows@, function@, receiver@, t) {
                    let j = choose|j: int| 0 <= j < flows@.len() && #[trigger] flows@[j].function@ == function@ && flows@[j].base@ == receiver@ && holds(flows@[j].types@, t);
                    assert(j == i) by {
                        if j < i {
                            assert(!(flows@[j].function@ == flows@[i as int].function@ && flows@[j].base@ == flows@[i as int].base@));
                        } else if j > i {
                            assert(!(flows@[i as int].function@ == flows@[j].function@ && flows@[i as int].base@ == flows@[j].base@));
                        }
                    }
                    let q = choose|q: int| 0 <= q < types@.len() && #[trigger] types@[q]@ == t;
                    assert(out@[start.len() + q]@ == t);
                }
            }
            assert(forall|t: Seq<char>| holds(out@, t) <==> (holds(old(out)@, t) || flow_types(flows@, function@, receiver@, t)));
        },
    }
}

/// The concrete classes that flowed into `receiver`-typed slots visible from
/// `owner`, possibly with repeats.
pub fn concrete_flow_candidates(flows: &Vec<FlowEntry>, owner: &str, receiver: &str) -> (r: Vec<String>)
    requires
        flows_wf(flows@),
    ensures
        forall|t: Seq<char>| holds(r@, t) <==> scope_flows(flows@, owner@, receiver@, t),
{
    let mut out: Vec<String> = Vec::new();
    collect_candidates(flows, owner, receiver, &mut out);
    out
}

fn collect_candidates(flows: &Vec<FlowEntry>, scope: &str, receiver: &str, out: &mut Vec<String>)
    requires
        flows_wf(flows@),
    ensures
        forall|t: Seq<char>| holds(final(out)@, t) <==> (holds(old(out)@, t) || scope_flows(flows@, scope@, receiver@, t)),
    decreases scope@.len(),
{
    append_slot(flows, scope, receiver, out);
    match owner_init_method(scope) {
        Some(init) => {
            append_slot(flows, init.as_str(), receiver, out);
        },
        None => {},
    }
    proof {
        crate::text::lemma_last_index(scope@, '.');
    }
    match rsplit_once_char(scope, '.') {
        Some(parts) => {
            collect_candidates(flows, parts.0.as_str(), receiver, out);
        },
        None => {},
    }
}

/// The declared return of a signature: the concrete return type when one
/// was inferred, else the annotation.
pub open spec fn return_of(sig: FunctionSignature) -> Option<TypeBinding> {
    match sig.concrete_return_type {
        Some(t) => Some(t),
        None => sig.return_type,
    }
}

pub fn signature_return_type(sig: &FunctionSignature) -> (r: Option<&TypeBinding>)
    ensures
        match r {
            Some(t) => return_of(*sig) == Some(*t),
            None => return_of(*sig) is None,
        },
{
    match &sig.concrete_return_type {
        Some(t) => Some(t),
        None => match &sig.return_type {
            Some(t) => Some(t),
            None => None,
        },
    }
}

/// The recorded flows only grow, and only `owner`'s slots grow.
pub open spec fn flows_grow_at(before: Seq<FlowEntry>, after: Seq<FlowEntry>, owner: Seq<char>) -> bool {
    &&& flows_wf(after)
    &&& forall|f: Seq<char>, b: Seq<char>, x: Seq<char>| flow_types(before, f, b, x) ==> flow_types(after, f, b, x)
    &&& forall|f: Seq<char>, b: Seq<char>, x: Seq<char>| flow_types(after, f, b, x) && !flow_types(before, f, b, x) ==> f == owner
}

/// The slot that a call of `target` (`Receiver.member`) returns into: the
/// definition that `member` is found at for `Receiver`, and the class its
/// return holds, with whether a class flowing there must derive from it.
pub open spec fn return_slot(index: SymbolIndex, target: Seq<char>) -> Option<(Seq<char>, Seq<char>, bool)> {
    match rsplit_once(target, '.') {
        Some(parts) => match lookup_spec(index, parts.0, parts.1) {
            Some(sm) => match signature_named(index, sm) {
                Some(sig) => match return_of(sig) {
                    Some(t) => match flow_base(t) {
                        Some(p) => Some((sm, p.0, p.1)),
                        None => None,
                    },
                    None => None,
                },
                None => None,
            },
            None => None,
        },
        None => None,
    }
}

/// The class that the override of `member` reached through the concrete
/// receiver `r` returns, when it is another definition than `static_member`
/// and, if `check`, the class derives from `return_base`.
pub open spec fn override_return(
    index: SymbolIndex,
    r: Seq<char>,
    member: Seq<char>,
    static_member: Seq<char>,
    return_base: Seq<char>,
    check: bool,
) -> Option<Seq<char>> {
    match lookup_spec(index, r, member) {
        Some(cm) => if cm == static_member {
            None
        } else {
            match signature_named(index, cm) {
                Some(sig) => match return_of(sig) {
                    Some(t) => match flow_base(t) {
                        Some(p) => if !check || subclass_or_same(index, p.0, return_base) {
                            Some(p.0)
                        } else {
                            None
                        },
                        None => None,
                    },
                    None => None,
                },
                None => None,
            }
        },
        None => None,
    }
}

/// The flows a call of `target` in `owner` adds to `flows`: into the slot
/// of `owner` and the static return's class, each class that an override
/// reached through a concrete receiver visible from `owner` returns.
pub open spec fn return_flow(
    index: SymbolIndex,
    owner: Seq<char>,
    target: Seq<char>,
    flows: Seq<FlowEntry>,
    f: Seq<char>,
    b: Seq<char>,
    x: Seq<char>,
) -> bool {
    match (rsplit_once(target, '.'), return_slot(index, target)) {
        (Some(parts), Some(slot)) => f == owner && b == slot.1 && exists|r: Seq<char>|
            #[trigger] scope_flows(flows, owner, parts.0, r) && override_return(index, r, parts.1, slot.0, slot.1, slot.2)
                == Some(x),
        _ => false,
    }
}

/// The flows of `start` with, in the slot `(owner, rb)`, the override
/// returns of the first `n` receivers.
pub open spec fn with_returns(
    index: SymbolIndex,
    start: Seq<FlowEntry>,
    receivers: Seq<String>,
    n: int,
    owner: Seq<char>,
    member: Seq<char>,
    sm: Seq<char>,
    rb: Seq<char>,
    check: bool,
    f: Seq<char>,
    b: Seq<char>,
    x: Seq<char>,
) -> bool {
    flow_types(start, f, b, x) || (f == owner && b == rb && exists|k: int|
        0 <= k < n && override_return(index, #[trigger] receivers[k]@, member, sm, rb, check) == Some(x))
}

proof fn lemma_skip_receiver(
    index: SymbolIndex,
    start: Seq<FlowEntry>,
    flows: Seq<FlowEntry>,
    receivers: Seq<String>,
    n: int,
    owner: Seq<char>,
    member: Seq<char>,
    sm: Seq<char>,
    rb: Seq<char>,
    check: bool,
)
    requires
        0 < n <= receivers.len(),
        override_return(index, receivers[n - 1]@, member, sm, rb, check) is None,
        forall|f: Seq<char>, b: Seq<char>, x: Seq<char>|
            #[trigger] flow_types(flows, f, b, x) <==> with_returns(index, start, receivers, n - 1, owner, member, sm, rb, check, f, b, x),
    ensures
        forall|f: Seq<char>, b: Seq<char>, x: Seq<char>|
            #[trigger] flow_types(flows, f, b, x) <==> with_returns(index, start, receivers, n, owner, member, sm, rb, check, f, b, x),
{
    assert forall|f: Seq<char>, b: Seq<char>, x: Seq<char>|
        #[trigger] flow_types(flows, f, b, x) <==> with_returns(index, start, receivers, n, owner, member, sm, rb, check, f, b, x) by {
        if with_returns(index, start, receivers, n, owner, member, sm, rb, check, f, b, x) && !flow_types(start, f, b, x) {
            let k = choose|k: int| 0 <= k < n && override_return(index, #[trigger] receivers[k]@, member, sm, rb, check) == Some(x);
            assert(k < n - 1);
            assert(with_returns(index, start, receivers, n - 1, owner, member, sm, rb, check, f, b, x));
        }
    }
}

proof fn lemma_add_receiver(
    index: SymbolIndex,
    start: Seq<FlowEntry>,
    before: Seq<FlowEntry>,
    flows: Seq<FlowEntry>,
    receivers: Seq<String>,
    n: int,
    owner: Seq<char>,
    member: Seq<char>,
    sm: Seq<char>,
    rb: Seq<char>,
    check: bool,
    cb: Seq<char>,
)
    requires
        0 < n <= receivers.len(),
        override_return(index, receivers[n - 1]@, member, sm, rb, check) == Some(cb),
        forall|f: Seq<char>, b: Seq<char>, x: Seq<char>|
            #[trigger] flow_types(before, f, b, x) <==> with_returns(index, start, receivers, n - 1, owner, member, sm, rb, check, f, b, x),
        forall|f: Seq<char>, b: Seq<char>, x: Seq<char>|
            flow_types(flows, f, b, x) <==> (flow_types(before, f, b, x) || (f == owner && b == rb && x == cb)),
    ensures
        forall|f: Seq<char>, b: Seq<char>, x: Seq<char>|
            #[trigger] flow_types(flows, f, b, x) <==> with_returns(index, start, receivers, n, owner, member, sm, rb, check, f, b, x),
{
    assert forall|f: Seq<char>, b: Seq<char>, x: Seq<char>|
        #[trigger] flow_types(flows, f, b, x) <==> with_returns(index, start, receivers, n, owner, member, sm, rb, check, f, b, x) by {
        if with_returns(index, start, receivers, n, owner, member, sm, rb, check, f, b, x) && !flow_types(start, f, b, x) {
            let k = choose|k: int| 0 <= k < n && override_return(index, #[trigger] receivers[k]@, member, sm, rb, check) == Some(x);
            if k < n - 1 {
                assert(with_returns(index, start, receivers, n - 1, owner, member, sm, rb, check, f, b, x));
            }
        }
        if with_returns(index, start, receivers, n - 1, owner, member, sm, rb, check, f, b, x) && !flow_types(start, f, b, x) {
            let k = choose|k: int| 0 <= k < n - 1 && override_return(index, #[trigger] receivers[k]@, member, sm, rb, check) == Some(x);
            assert(0 <= k < n);
        }
        if f == owner && b == rb && x == cb {
            assert(override_return(index, receivers[n - 1]@, member, sm, rb, check) == Some(x));
        }
    }
}

/// After a call `target` (`Receiver.member`) in `owner`, records the
/// concrete classes returned by the overrides that the concrete receivers
/// reaching `owner` dispatch to, in the slot of the declared return; true when something new was recorded.
pub fn propagate_concrete_return_flows(index: &SymbolIndex, owner: &str, target: &str, flows: &mut Vec<FlowEntry>) -> (changed: bool)
    requires
        flows_wf(old(flows)@),
    ensures
        flows_grow_at(old(flows)@, final(flows)@, owner@),
        word(*index, owner@) && flows_named(*index, old(flows)@) ==> flows_named(*index, final(flows)@),
        flows_sourced(*index, old(flows)@) ==> flows_sourced(*index, final(flows)@),
        changed == exists|f: Seq<char>, b: Seq<char>, x: Seq<char>| flow_types(final(flows)@, f, b, x) && !flow_types(old(flows)@, f, b, x),
        forall|f: Seq<char>, b: Seq<char>, x: Seq<char>|
            #[trigger] flow_types(final(flows)@, f, b, x) <==> flow_types(old(flows)@, f, b, x) || return_flow(
                *index,
                owner@,
                target@,
                old(flows)@,
                f,
                b,
                x,
            ),
{
    let ghost start = flows@;
    let parts = match rsplit_once_char(target, '.') {
        Some(parts) => parts,
        None => {
            return false;
        },
    };
    let receiver = parts.0.as_str();
    let member = parts.1.as_str();
    let static_member = match lookup_member(index, receiver, member) {
        Some(t) => t,
        None => {
            return false;
        },
    };
    let static_pos = match find_signature(index, static_member.as_str()) {
        Some(p) => p,
        None => {
            return false;
        },
    };
    let static_sig = &index.modules[static_pos.0].function_signatures[static_pos.1];
    let static_return = match signature_return_type(static_sig) {
        Some(t) => t,
        None => {
            return false;
        },
    };
    let (return_base, requires_check) = match concrete_flow_base(static_return) {
        Some(p) => p,
        None => {
            return false;
        },
    };
    proof {
        lemma_return_word(*index, static_pos.0 as int, static_pos.1 as int, *static_return, (return_base@, requires_check));
    }
    let receivers = concrete_flow_candidates(flows, owner, receiver);
    let ghost slot = (static_member@, return_base@, requires_check);
    proof {
        assert(rsplit_once(target@, '.') == Some((receiver@, member@)));
        assert(return_slot(*index, target@) == Some(slot));
    }
    let mut changed = false;
    let mut i: usize = 0;
    while i < receivers.len()
        invariant
            i <= receivers@.len(),
            rsplit_once(target@, '.') == Some((receiver@, member@)),
            return_slot(*index, target@) == Some(slot),
            slot == (static_member@, return_base@, requires_check),
            forall|x: Seq<char>| crate::text::holds(receivers@, x) <==> scope_flows(start, owner@, receiver@, x),
            forall|f: Seq<char>, b: Seq<char>, x: Seq<char>|
                #[trigger] flow_types(flows@, f, b, x) <==> with_returns(
                    *index,
                    start,
                    receivers@,
                    i as int,
                    owner@,
                    member@,
                    static_member@,
                    return_base@,
                    requires_check,
                    f,
                    b,
                    x,
                ),
            flows_grow_at(start, flows@, owner@),
            changed == exists|f: Seq<char>, b: Seq<char>, x: Seq<char>| flow_types(flows@, f, b, x) && !flow_types(start, f, b, x),
            word(*index, return_base@),
            word(*index, owner@) && flows_named(*index, start) ==> flows_named(*index, flows@),
            flows_sourced(*index, start) ==> flows_sourced(*index, flows@),
        decreases receivers@.len() - i,
    {
        let concrete_receiver = receivers[i].as_str();
        let ghost fi = flows@;
        i = i + 1;
        let concrete_member = match lookup_member(index, concrete_receiver, member) {
            Some(t) => t,
            None => {
                proof {
                    lemma_skip_receiver(*index, start, fi, receivers@, i as int, owner@, member@, static_member@, return_base@, requires_check);
                }
                continue;
            },
        };
        if same_text(concrete_member.as_str(), static_member.as_str()) {
            proof {
                lemma_skip_receiver(*index, start, fi, receivers@, i as int, owner@, member@, static_member@, return_base@, requires_check);
            }
            continue;
        }
        let concrete_pos = match find_signature(index, concrete_member.as_str()) {
            Some(p) => p,
            None => {
                proof {
                    lemma_skip_receiver(*index, start, fi, receivers@, i as int, owner@, member@, static_member@, return_base@, requires_check);
                }
                continue;
            },
        };
        let concrete_sig = &index.modules[concrete_pos.0].function_signatures[concrete_pos.1];
        let concrete_return = match signature_return_type(concrete_sig) {
            Some(t) => t,
            None => {
                proof {
                    lemma_skip_receiver(*index, start, fi, receivers@, i as int, owner@, member@, static_member@, return_base@, requires_check);
                }
                continue;
            },
        };
        let concrete_base = match concrete_flow_base(concrete_return) {
            Some(p) => {
                proof {
                    lemma_return_word(*index, concrete_pos.0 as int, concrete_pos.1 as int, *concrete_return, (p.0@, p.1));
                    assert(index.modules@[concrete_pos.0 as int].function_signatures@[concrete_pos.1 as int] == *concrete_sig);
                    assert(flow_source(*index, p.0@));
                }
                p.0
            },
            None => {
                proof {
                    lemma_skip_receiver(*index, start, fi, receivers@, i as int, owner@, member@, static_member@, return_base@, requires_check);
                }
                continue;
            },
        };
        if requires_check && !is_subclass_or_same(index, concrete_base.as_str(), return_base.as_str()) {
            proof {
                lemma_skip_receiver(*index, start, fi, receivers@, i as int, owner@, member@, static_member@, return_base@, requires_check);
            }
            continue;
        }
        let ghost before = flows@;
        let added = add_flow(flows, owner, return_base.as_str(), concrete_base.as_str());
        proof {
            lemma_add_receiver(
                *index,
                start,
                before,
                flows@,
                receivers@,
                i as int,
                owner@,
                member@,
                static_member@,
                return_base@,
                requires_check,
                concrete_base@,
            );
            if added {
                assert(flow_types(flows@, owner@, return_base@, concrete_base@) && !flow_types(start, owner@, return_base@, concrete_base@));
            }
        }
        changed = changed || added;
    }
    proof {
        assert forall|f: Seq<char>, b: Seq<char>, x: Seq<char>|
            #[trigger] flow_types(flows@, f, b, x) <==> flow_types(start, f, b, x) || return_flow(*index, owner@, target@, start, f, b, x) by {
            if return_flow(*index, owner@, target@, start, f, b, x) {
                let r = choose|r: Seq<char>|
                    #[trigger] scope_flows(start, owner@, receiver@, r) && override_return(*index, r, member@, slot.0, slot.1, slot.2) == Some(x);
                assert(crate::text::holds(receivers@, r));
                let k = choose|k: int| 0 <= k < receivers@.len() && #[trigger] receivers@[k]@ == r;
                assert(with_returns(*index, start, receivers@, i as int, owner@, member@, static_member@, return_base@, requires_check, f, b, x));
            }
            if with_returns(*index, start, receivers@, i as int, owner@, member@, static_member@, return_base@, requires_check, f, b, x)
                && !flow_types(start, f, b, x) {
                let k = choose|k: int| 0 <= k < i && override_return(*index, #[trigger] receivers@[k]@, member@, static_member@, return_base@, requires_check) == Some(x);
                assert(crate::text::holds(receivers@, receivers@[k]@));
                assert(scope_flows(start, owner@, receiver@, receivers@[k]@));
            }
        }
    }
    changed
}

} // verus!
