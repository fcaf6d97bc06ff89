//! Type bindings as the symbol collector reasons about them: optional and
//! union types, lists and tuples, the type of a branch that joins two
//! others, narrowing a union to or away from a class, generic parameters.
use vstd::prelude::*;

use crate::index::{same_type, ClassInfo, FunctionSignature, TypeBinding, ValueBinding};
use crate::tables::Keyed;
use crate::text::{concat_text, copy_string, ends_with, has_prefix, has_suffix, join_dot, same_text, starts_with};

verus! {

// ---------------------------------------------------------------------------
// Names
// ---------------------------------------------------------------------------

/// `typing.Optional` or `Optional`.
pub open spec fn optional_name(t: Seq<char>) -> bool {
    t == "typing.Optional"@ || t == "Optional"@
}

/// `typing.Union` or `types.UnionType`.
pub open spec fn plain_union_name(t: Seq<char>) -> bool {
    t == "typing.Union"@ || t == "types.UnionType"@
}

/// A union or an optional.
pub open spec fn union_like_name(t: Seq<char>) -> bool {
    plain_union_name(t) || optional_name(t)
}

/// `None`, or a name ending in `.None` or `.NoneType`.
pub open spec fn none_like_name(t: Seq<char>) -> bool {
    t == "None"@ || t == "builtins.None"@ || has_suffix(t, ".None"@) || has_suffix(t, ".NoneType"@)
}

/// A list type name.
pub open spec fn list_name(t: Seq<char>) -> bool {
    t == "list"@ || t == "typing.List"@ || t == "List"@ || has_suffix(t, ".list"@)
}

/// A tuple type name.
pub open spec fn tuple_name(t: Seq<char>) -> bool {
    t == "tuple"@ || t == "typing.Tuple"@ || t == "Tuple"@ || has_suffix(t, ".tuple"@)
}

/// A collection whose items a `for` loop visits.
pub open spec fn iterable_collection_name(t: Seq<char>) -> bool {
    ||| t == "list"@
    ||| t == "set"@
    ||| t == "tuple"@
    ||| t == "typing.List"@
    ||| t == "typing.Sequence"@
    ||| t == "typing.Set"@
    ||| t == "typing.Tuple"@
    ||| has_suffix(t, ".list"@)
    ||| has_suffix(t, ".set"@)
    ||| has_suffix(t, ".tuple"@)
}

/// A mapping type name.
pub open spec fn mapping_name(t: Seq<char>) -> bool {
    t == "dict"@ || t == "typing.Dict"@ || t == "typing.Mapping"@ || has_suffix(t, ".dict"@)
}

/// A type that only holds other types.
pub open spec fn container_name(t: Seq<char>) -> bool {
    ||| t == "typing.Optional"@
    ||| t == "Optional"@
    ||| t == "typing.Union"@
    ||| t == "types.UnionType"@
    ||| t == "typing.List"@
    ||| t == "typing.Dict"@
    ||| t == "typing.Mapping"@
    ||| t == "typing.Sequence"@
    ||| t == "typing.Set"@
    ||| t == "typing.Tuple"@
    ||| t == "list"@
    ||| t == "dict"@
    ||| t == "set"@
    ||| t == "tuple"@
}

fn is_optional_name(t: &str) -> (r: bool)
    ensures
        r == optional_name(t@),
{
    same_text(t, "typing.Optional") || same_text(t, "Optional")
}

fn is_plain_union_name(t: &str) -> (r: bool)
    ensures
        r == plain_union_name(t@),
{
    same_text(t, "typing.Union") || same_text(t, "types.UnionType")
}

/// `is_union_type` of narrowing: a union or an optional.
pub fn is_union_type(t: &str) -> (r: bool)
    ensures
        r == union_like_name(t@),
{
    is_plain_union_name(t) || is_optional_name(t)
}

/// `is_none_type` on a name.
pub fn is_none_type(t: &str) -> (r: bool)
    ensures
        r == none_like_name(t@),
{
    same_text(t, "None") || same_text(t, "builtins.None") || ends_with(t, ".None") || ends_with(t, ".NoneType")
}

/// `is_list_type`
pub fn is_list_type(t: &str) -> (r: bool)
    ensures
        r == list_name(t@),
{
    same_text(t, "list") || same_text(t, "typing.List") || same_text(t, "List") || ends_with(t, ".list")
}

/// `is_tuple_type`
pub fn is_tuple_type(t: &str) -> (r: bool)
    ensures
        r == tuple_name(t@),
{
    same_text(t, "tuple") || same_text(t, "typing.Tuple") || same_text(t, "Tuple") || ends_with(t, ".tuple")
}

/// `is_iterable_collection`
pub fn is_iterable_collection(t: &str) -> (r: bool)
    ensures
        r == iterable_collection_name(t@),
{
    same_text(t, "list") || same_text(t, "set") || same_text(t, "tuple") || same_text(t, "typing.List")
        || same_text(t, "typing.Sequence") || same_text(t, "typing.Set") || same_text(t, "typing.Tuple")
        || ends_with(t, ".list") || ends_with(t, ".set") || ends_with(t, ".tuple")
}

/// `is_mapping_collection`
pub fn is_mapping_collection(t: &str) -> (r: bool)
    ensures
        r == mapping_name(t@),
{
    same_text(t, "dict") || same_text(t, "typing.Dict") || same_text(t, "typing.Mapping") || ends_with(t, ".dict")
}

/// `is_type_container`
pub fn is_type_container(t: &str) -> (r: bool)
    ensures
        r == container_name(t@),
{
    same_text(t, "typing.Optional") || same_text(t, "Optional") || same_text(t, "typing.Union") || same_text(
        t,
        "types.UnionType",
    ) || same_text(t, "typing.List") || same_text(t, "typing.Dict") || same_text(t, "typing.Mapping")
        || same_text(t, "typing.Sequence") || same_text(t, "typing.Set") || same_text(t, "typing.Tuple")
        || same_text(t, "list") || same_text(t, "dict") || same_text(t, "set") || same_text(t, "tuple")
}

/// `is_datetime_like`
pub fn is_datetime_like(binding: &TypeBinding) -> (r: bool)
    ensures
        r == (binding.base@ == "datetime.datetime"@ || binding.base@ == "datetime.date"@),
{
    same_text(binding.base.as_str(), "datetime.datetime") || same_text(binding.base.as_str(), "datetime.date")
}

/// `is_timedelta`
pub fn is_timedelta(binding: &TypeBinding) -> (r: bool)
    ensures
        r == (binding.base@ == "datetime.timedelta"@),
{
    same_text(binding.base.as_str(), "datetime.timedelta")
}

/// `is_optional_type`
pub fn is_optional_type(binding: &TypeBinding) -> (r: bool)
    ensures
        r == optional_name(binding.base@),
{
    is_optional_name(binding.base.as_str())
}

/// `is_none_type` on a binding.
pub fn is_none_binding(binding: &TypeBinding) -> (r: bool)
    ensures
        r == none_like_name(binding.base@),
{
    is_none_type(binding.base.as_str())
}

/// `same_list_type`: both names are list types.
pub fn same_list_type(left: &str, right: &str) -> (r: bool)
    ensures
        r == (list_name(left@) && list_name(right@)),
{
    is_list_type(left) && is_list_type(right)
}

/// `type_name_matches`: the last dotted part of `tname` is `class_name`.
pub open spec fn last_part(t: Seq<char>) -> Seq<char> {
    match crate::text::rsplit_once(t, '.') {
        Some(p) => p.1,
        None => t,
    }
}

pub fn type_name_matches(tname: &str, class_name: &str) -> (r: bool)
    ensures
        r == (last_part(tname@) == class_name@),
{
    match crate::text::rsplit_once_char(tname, '.') {
        Some(p) => same_text(p.1.as_str(), class_name),
        None => same_text(tname, class_name),
    }
}

// ---------------------------------------------------------------------------
// Equal bindings
// ---------------------------------------------------------------------------

/// The bindings are pairwise equal.
pub open spec fn same_types(a: Seq<TypeBinding>, b: Seq<TypeBinding>) -> bool {
    a.len() == b.len() && forall|i: int| 0 <= i < a.len() ==> same_type(#[trigger] a[i], b[i])
}

/// Same base and arguments (the external flag aside).
pub open spec fn same_shape(a: TypeBinding, b: TypeBinding) -> bool {
    a.base@ == b.base@ && same_types(a.args@, b.args@)
}

/// Whether the bindings are pairwise equal.
fn args_equal(a: &Vec<TypeBinding>, b: &Vec<TypeBinding>) -> (r: bool)
    ensures
        r == same_types(a@, b@),
{
    if a.len() != b.len() {
        return false;
    }
    let mut i: usize = 0;
    while i < a.len()
        invariant
            a@.len() == b@.len(),
            i <= a@.len(),
            forall|j: int| 0 <= j < i ==> same_type(#[trigger] a@[j], b@[j]),
        decreases a@.len() - i,
    {
        if !a[i].equals(&b[i]) {
            return false;
        }
        i = i + 1;
    }
    true
}

fn same_shape_of(a: &TypeBinding, b: &TypeBinding) -> (r: bool)
    ensures
        r == same_shape(*a, *b),
{
    same_text(a.base.as_str(), b.base.as_str()) && args_equal(&a.args, &b.args)
}

/// Copies of the bindings.
pub fn duplicate_all(v: &Vec<TypeBinding>) -> (r: Vec<TypeBinding>)
    ensures
        same_types(r@, v@),
{
    let mut out: Vec<TypeBinding> = Vec::new();
    let mut i: usize = 0;
    while i < v.len()
        invariant
            i <= v@.len(),
            out@.len() == i,
            forall|j: int| 0 <= j < i ==> same_type(#[trigger] out@[j], v@[j]),
        decreases v@.len() - i,
    {
        out.push(v[i].duplicate());
        i = i + 1;
    }
    out
}

// ---------------------------------------------------------------------------
// Optionals and branches
// ---------------------------------------------------------------------------

/// Positions of the arguments that are not `None`, in order.
pub open spec fn non_none_positions(args: Seq<TypeBinding>) -> Seq<int>
    decreases args.len(),
{
    if args.len() == 0 {
        Seq::empty()
    } else {
        let rest = non_none_positions(args.drop_last());
        if none_like_name(args.last().base@) {
            rest
        } else {
            rest.push(args.len() - 1)
        }
    }
}

proof fn lemma_non_none_positions(args: Seq<TypeBinding>)
    ensures
        forall|k: int|
            0 <= k < non_none_positions(args).len() ==> 0 <= #[trigger] non_none_positions(args)[k] < args.len()
                && !none_like_name(args[non_none_positions(args)[k]].base@),
    decreases args.len(),
{
    if args.len() > 0 {
        let d = args.drop_last();
        lemma_non_none_positions(d);
        let rest = non_none_positions(d);
        let all = non_none_positions(args);
        assert forall|k: int| 0 <= k < all.len() implies 0 <= #[trigger] all[k] < args.len() && !none_like_name(args[all[k]].base@) by {
            if k < rest.len() {
                assert(all[k] == rest[k]);
                assert(args[rest[k]] == d[rest[k]]);
            }
        }
    }
}

/// The type an optional wraps: the argument of `Optional[X]`, or the only
/// argument of a union that is not `None`.
pub open spec fn optional_inner(b: TypeBinding) -> Option<int> {
    if optional_name(b.base@) {
        if b.args@.len() > 0 {
            Some(0)
        } else {
            None
        }
    } else if plain_union_name(b.base@) {
        let ps = non_none_positions(b.args@);
        if ps.len() == 1 {
            Some(ps[0])
        } else {
            None
        }
    } else {
        None
    }
}

/// `optional_inner_type`: the position of the wrapped type among the
/// binding's arguments.
pub fn optional_inner_type(binding: &TypeBinding) -> (r: Option<usize>)
    ensures
        match r {
            Some(k) => optional_inner(*binding) == Some(k as int) && k < binding.args@.len(),
            None => optional_inner(*binding) is None,
        },
{
    if is_optional_type(binding) {
        if binding.args.len() > 0 {
            return Some(0);
        }
        return None;
    }
    if !is_plain_union_name(binding.base.as_str()) {
        return None;
    }
    let mut found: Option<usize> = None;
    let mut count: usize = 0;
    let mut i: usize = 0;
    assert(binding.args@.take(0) =~= Seq::<TypeBinding>::empty());
    while i < binding.args.len()
        invariant
            i <= binding.args@.len(),
            count == non_none_positions(binding.args@.take(i as int)).len() || count == 2,
            count <= 2,
            count == 2 ==> non_none_positions(binding.args@.take(i as int)).len() >= 2,
            count >= 1 ==> found == Some(non_none_positions(binding.args@.take(i as int))[0] as usize),
            count == 0 ==> found is None,
            forall|k: int|
                0 <= k < non_none_positions(binding.args@.take(i as int)).len() ==> 0 <= #[trigger] non_none_positions(
                    binding.args@.take(i as int),
                )[k] < i,
        decreases binding.args@.len() - i,
    {
        let ghost t = binding.args@.take(i + 1);
        assert(t.drop_last() =~= binding.args@.take(i as int));
        assert(t.last() == binding.args@[i as int]);
        if !is_none_binding(&binding.args[i]) {
            if count == 0 {
                found = Some(i);
                count = 1;
            } else {
                count = 2;
            }
            assert(non_none_positions(t) == non_none_positions(t.drop_last()).push(i as int));
        }
        i = i + 1;
    }
    assert(binding.args@.take(binding.args@.len() as int) =~= binding.args@);
    if count == 1 {
        proof {
            lemma_non_none_positions(binding.args@);
        }
        found
    } else {
        None
    }
}

/// `union_contains_type`: a plain union with an argument equal to `member`.
pub open spec fn union_contains(u: TypeBinding, m: TypeBinding) -> bool {
    plain_union_name(u.base@) && exists|k: int| 0 <= k < u.args@.len() && #[trigger] same_type(u.args@[k], m)
}

pub fn union_contains_type(union: &TypeBinding, member: &TypeBinding) -> (r: bool)
    ensures
        r == union_contains(*union, *member),
{
    if !is_plain_union_name(union.base.as_str()) {
        return false;
    }
    let mut k: usize = 0;
    while k < union.args.len()
        invariant
            plain_union_name(union.base@),
            k <= union.args@.len(),
            forall|j: int| 0 <= j < k ==> !#[trigger] same_type(union.args@[j], *member),
        decreases union.args@.len() - k,
    {
        if union.args[k].equals(member) {
            assert(same_type(union.args@[k as int], *member));
            return true;
        }
        k = k + 1;
    }
    false
}

/// `compatible_list_branch_type`: both are lists and the first's item
/// union holds the second's item; then the first.
pub open spec fn list_branch(a: TypeBinding, b: TypeBinding) -> bool {
    &&& list_name(a.base@) && list_name(b.base@)
    &&& a.args@.len() > 0 && b.args@.len() > 0
    &&& union_contains(a.args@[0], b.args@[0])
}

fn compatible_list_branch_type(maybe_union_list: &TypeBinding, maybe_member_list: &TypeBinding) -> (r: Option<
    TypeBinding,
>)
    ensures
        match r {
            Some(t) => list_branch(*maybe_union_list, *maybe_member_list) && same_type(t, *maybe_union_list),
            None => !list_branch(*maybe_union_list, *maybe_member_list),
        },
{
    if !same_list_type(maybe_union_list.base.as_str(), maybe_member_list.base.as_str()) {
        return None;
    }
    if maybe_union_list.args.len() == 0 || maybe_member_list.args.len() == 0 {
        return None;
    }
    if union_contains_type(&maybe_union_list.args[0], &maybe_member_list.args[0]) {
        Some(maybe_union_list.duplicate())
    } else {
        None
    }
}

/// `optional_branch_type`: when `maybe_none` is `None`, the value made
/// optional (itself when it already is).
fn optional_branch_type(value: &TypeBinding, maybe_none: &TypeBinding) -> (r: Option<TypeBinding>)
    ensures
        match r {
            Some(t) => none_like_name(maybe_none.base@) && (if optional_name(value.base@) {
                same_type(t, *value)
            } else {
                t.base@ == "typing.Optional"@ && !t.external && t.args@.len() == 1 && same_type(t.args@[0], *value)
            }),
            None => !none_like_name(maybe_none.base@),
        },
{
    if !is_none_binding(maybe_none) {
        return None;
    }
    if is_optional_type(value) {
        return Some(value.duplicate());
    }
    let mut args: Vec<TypeBinding> = Vec::new();
    args.push(value.duplicate());
    Some(TypeBinding { base: String::from_str("typing.Optional"), args, external: false })
}

/// `optional_value_branch_type`: the optional, when it wraps `value`.
pub open spec fn wraps(optional: TypeBinding, value: TypeBinding) -> bool {
    match optional_inner(optional) {
        Some(k) => same_shape(optional.args@[k], value),
        None => false,
    }
}

fn optional_value_branch_type(optional: &TypeBinding, value: &TypeBinding) -> (r: Option<TypeBinding>)
    ensures
        match r {
            Some(t) => wraps(*optional, *value) && same_type(t, *optional),
            None => !wraps(*optional, *value),
        },
{
    match optional_inner_type(optional) {
        Some(k) => {
            if same_shape_of(&optional.args[k], value) {
                Some(optional.duplicate())
            } else {
                None
            }
        },
        None => None,
    }
}

/// `t` equals `value` made optional: `value` itself when it already is
/// optional, else `typing.Optional[value]`.
pub open spec fn is_optional_of(t: TypeBinding, value: TypeBinding) -> bool {
    if optional_name(value.base@) {
        same_type(t, value)
    } else {
        t.base@ == "typing.Optional"@ && !t.external && t.args@.len() == 1 && same_type(t.args@[0], value)
    }
}

/// The binding two branches agree on, tried in
/// order: when they are equal, the left; a list whose item union holds the
/// other list's item (left, then right); the other made optional when one
/// is `None` (right `None` first); an optional wrapping the other (left
/// first); else none.
pub open spec fn branch_result(left: TypeBinding, right: TypeBinding, r: Option<TypeBinding>) -> bool {
    if same_type(left, right) {
        r is Some && same_type(r->0, left)
    } else if list_branch(left, right) {
        r is Some && same_type(r->0, left)
    } else if list_branch(right, left) {
        r is Some && same_type(r->0, right)
    } else if none_like_name(right.base@) {
        r is Some && is_optional_of(r->0, left)
    } else if none_like_name(left.base@) {
        r is Some && is_optional_of(r->0, right)
    } else if wraps(left, right) {
        r is Some && same_type(r->0, left)
    } else if wraps(right, left) {
        r is Some && same_type(r->0, right)
    } else {
        r is None
    }
}

pub fn compatible_branch_type(left: &TypeBinding, right: &TypeBinding) -> (r: Option<TypeBinding>)
    ensures
        branch_result(*left, *right, r),
{
    if left.equals(right) {
        return Some(left.duplicate());
    }
    match compatible_list_branch_type(left, right) {
        Some(t) => {
            return Some(t);
        },
        None => {},
    }
    match compatible_list_branch_type(right, left) {
        Some(t) => {
            return Some(t);
        },
        None => {},
    }
    match optional_branch_type(left, right) {
        Some(t) => {
            return Some(t);
        },
        None => {},
    }
    match optional_branch_type(right, left) {
        Some(t) => {
            return Some(t);
        },
        None => {},
    }
    match optional_value_branch_type(left, right) {
        Some(t) => {
            return Some(t);
        },
        None => {},
    }
    optional_value_branch_type(right, left)
}

/// `coalesced_optional_type`: `optional or fallback` has the fallback's
/// type when the optional wraps a type of the fallback's shape.
pub fn coalesced_optional_type(optional: &TypeBinding, fallback: &TypeBinding) -> (r: Option<TypeBinding>)
    ensures
        match r {
            Some(t) => wraps(*optional, *fallback) && same_type(t, *fallback),
            None => !wraps(*optional, *fallback),
        },
{
    match optional_inner_type(optional) {
        Some(k) => {
            if same_shape_of(&optional.args[k], fallback) {
                Some(fallback.duplicate())
            } else {
                None
            }
        },
        None => None,
    }
}

/// `optional_list_with_empty_list_type`: `optional or []` is the list an
/// optional list wraps.
pub fn optional_list_with_empty_list_type(binding: &TypeBinding) -> (r: Option<TypeBinding>)
    ensures
        match r {
            Some(t) => optional_inner(*binding) is Some && list_name(binding.args@[optional_inner(*binding)->0].base@)
                && same_type(t, binding.args@[optional_inner(*binding)->0]),
            None => optional_inner(*binding) is None || !list_name(binding.args@[optional_inner(*binding)->0].base@),
        },
{
    match optional_inner_type(binding) {
        Some(k) => {
            if is_list_type(binding.args[k].base.as_str()) {
                Some(binding.args[k].duplicate())
            } else {
                None
            }
        },
        None => None,
    }
}

/// `non_none_union_member`: the only member of a union or optional that is
/// not `None`.
pub open spec fn only_non_none(b: TypeBinding) -> Option<int> {
    if !union_like_name(b.base@) {
        None
    } else {
        let ps = non_none_positions(b.args@);
        if ps.len() == 1 {
            Some(ps[0])
        } else {
            None
        }
    }
}

pub fn non_none_union_member(binding: &TypeBinding) -> (r: Option<usize>)
    ensures
        match r {
            Some(k) => only_non_none(*binding) == Some(k as int) && k < binding.args@.len(),
            None => only_non_none(*binding) is None,
        },
{
    if !is_union_type(binding.base.as_str()) {
        return None;
    }
    let mut found: Option<usize> = None;
    let mut count: usize = 0;
    let mut i: usize = 0;
    assert(binding.args@.take(0) =~= Seq::<TypeBinding>::empty());
    while i < binding.args.len()
        invariant
            i <= binding.args@.len(),
            count == non_none_positions(binding.args@.take(i as int)).len() || count == 2,
            count <= 2,
            count == 2 ==> non_none_positions(binding.args@.take(i as int)).len() >= 2,
            count >= 1 ==> found == Some(non_none_positions(binding.args@.take(i as int))[0] as usize),
            count == 0 ==> found is None,
            forall|k: int|
                0 <= k < non_none_positions(binding.args@.take(i as int)).len() ==> 0 <= #[trigger] non_none_positions(
                    binding.args@.take(i as int),
                )[k] < i,
        decreases binding.args@.len() - i,
    {
        let ghost t = binding.args@.take(i + 1);
        assert(t.drop_last() =~= binding.args@.take(i as int));
        assert(t.last() == binding.args@[i as int]);
        if !is_none_binding(&binding.args[i]) {
            if count == 0 {
                found = Some(i);
                count = 1;
            } else {
                count = 2;
            }
            assert(non_none_positions(t) == non_none_positions(t.drop_last()).push(i as int));
        }
        i = i + 1;
    }
    assert(binding.args@.take(binding.args@.len() as int) =~= binding.args@);
    if count == 1 {
        found
    } else {
        None
    }
}

// ---------------------------------------------------------------------------
// Narrowing unions
// ---------------------------------------------------------------------------

/// The members of a union, nested unions flattened, in order; a binding
/// that is no union is its own only member.
pub open spec fn flat(t: TypeBinding) -> Seq<TypeBinding>
    decreases t, 1int, 0int,
{
    if !union_like_name(t.base@) {
        seq![t]
    } else {
        flat_args(t, 0)
    }
}

/// The flattened members of the arguments from position `i` on.
pub open spec fn flat_args(t: TypeBinding, i: int) -> Seq<TypeBinding>
    decreases t, 0int, t.args@.len() - i,
{
    if i < 0 || i >= t.args@.len() {
        Seq::empty()
    } else {
        flat(t.args@[i]) + flat_args(t, i + 1)
    }
}

/// `flattened_union_members`
pub fn flattened_union_members(binding: &TypeBinding) -> (r: Vec<TypeBinding>)
    ensures
        same_types(r@, flat(*binding)),
    decreases binding, 1int, 0int,
{
    if !is_union_type(binding.base.as_str()) {
        let mut v: Vec<TypeBinding> = Vec::new();
        v.push(binding.duplicate());
        return v;
    }
    flattened_args(binding, 0)
}

fn flattened_args(binding: &TypeBinding, i: usize) -> (r: Vec<TypeBinding>)
    requires
        i <= binding.args@.len(),
    ensures
        same_types(r@, flat_args(*binding, i as int)),
    decreases binding, 0int, binding.args@.len() - i,
{
    if i >= binding.args.len() {
        return Vec::new();
    }
    let first = flattened_union_members(&binding.args[i]);
    let rest = flattened_args(binding, i + 1);
    let mut out = first;
    let ghost a = out@;
    let mut k: usize = 0;
    while k < rest.len()
        invariant
            k <= rest@.len(),
            out@.len() == a.len() + k,
            forall|j: int| 0 <= j < a.len() ==> #[trigger] out@[j] == a[j],
            forall|j: int| 0 <= j < k ==> same_type(#[trigger] out@[a.len() + j], rest@[j]),
        decreases rest@.len() - k,
    {
        out.push(rest[k].duplicate());
        k = k + 1;
    }
    proof {
        let want = flat(binding.args@[i as int]) + flat_args(*binding, i + 1);
        assert forall|j: int| 0 <= j < out@.len() implies same_type(#[trigger] out@[j], want[j]) by {
            if j < a.len() {
                assert(out@[j] == a[j]);
                assert(same_type(a[j], flat(binding.args@[i as int])[j]));
                assert(want[j] == flat(binding.args@[i as int])[j]);
            } else {
                assert(want[j] == flat_args(*binding, i + 1)[j - a.len()]);
                assert(same_type(out@[a.len() + (j - a.len())], rest@[j - a.len()]));
                assert(same_type(rest@[j - a.len()], flat_args(*binding, i + 1)[j - a.len()]));
                lemma_same_type_trans(out@[j], rest@[j - a.len()], want[j]);
            }
        }
    }
    out
}

/// What `union_from_members` gives for members equal to `ms`: none for no
/// member, the member itself for one, a `typing.Union` of them otherwise.
pub open spec fn from_members(ms: Seq<TypeBinding>, r: Option<TypeBinding>) -> bool {
    if ms.len() == 0 {
        r is None
    } else if ms.len() == 1 {
        r is Some && same_type(r->0, ms[0])
    } else {
        r is Some && r->0.base@ == "typing.Union"@ && !r->0.external && same_types(r->0.args@, ms)
    }
}

/// `union_from_members`
pub fn union_from_members(members: Vec<TypeBinding>) -> (r: Option<TypeBinding>)
    ensures
        match r {
            None => members@.len() == 0,
            Some(t) => if members@.len() == 1 {
                t == members@[0]
            } else {
                members@.len() > 1 && t.base@ == "typing.Union"@ && !t.external && t.args == members
            },
        },
{
    if members.len() == 0 {
        None
    } else if members.len() == 1 {
        let mut members = members;
        members.pop()
    } else {
        Some(TypeBinding { base: String::from_str("typing.Union"), args: members, external: false })
    }
}

proof fn lemma_same_type_refl(t: TypeBinding)
    ensures
        same_type(t, t),
    decreases t,
{
    assert forall|i: int| 0 <= i < t.args@.len() implies same_type(#[trigger] t.args@[i], t.args@[i]) by {
        lemma_same_type_refl(t.args@[i]);
    }
}

proof fn lemma_from_members(members: Seq<TypeBinding>, ms: Seq<TypeBinding>, r: Option<TypeBinding>)
    requires
        same_types(members, ms),
        match r {
            None => members.len() == 0,
            Some(t) => if members.len() == 1 {
                t == members[0]
            } else {
                members.len() > 1 && t.base@ == "typing.Union"@ && !t.external && t.args@ == members
            },
        },
    ensures
        from_members(ms, r),
{
}

/// The members of `ms` whose base is (`keep` true) or is not (`keep`
/// false) `name`, in order.
pub open spec fn filter_base(ms: Seq<TypeBinding>, name: Seq<char>, keep: bool) -> Seq<TypeBinding>
    decreases ms.len(),
{
    if ms.len() == 0 {
        Seq::empty()
    } else {
        let rest = filter_base(ms.drop_last(), name, keep);
        if (ms.last().base@ == name) == keep {
            rest.push(ms.last())
        } else {
            rest
        }
    }
}

/// The members of `ms` that are not `None`, in order.
pub open spec fn filter_not_none(ms: Seq<TypeBinding>) -> Seq<TypeBinding>
    decreases ms.len(),
{
    if ms.len() == 0 {
        Seq::empty()
    } else {
        let rest = filter_not_none(ms.drop_last());
        if !none_like_name(ms.last().base@) {
            rest.push(ms.last())
        } else {
            rest
        }
    }
}

fn keep_by_base(ms: &Vec<TypeBinding>, name: &str, keep: bool) -> (r: Vec<TypeBinding>)
    ensures
        same_types(r@, filter_base(ms@, name@, keep)),
{
    let mut out: Vec<TypeBinding> = Vec::new();
    let mut i: usize = 0;
    assert(ms@.take(0) =~= Seq::<TypeBinding>::empty());
    while i < ms.len()
        invariant
            i <= ms@.len(),
            same_types(out@, filter_base(ms@.take(i as int), name@, keep)),
        decreases ms@.len() - i,
    {
        let ghost t = ms@.take(i + 1);
        assert(t.drop_last() =~= ms@.take(i as int));
        assert(t.last() == ms@[i as int]);
        if same_text(ms[i].base.as_str(), name) == keep {
            let ghost before = out@;
            out.push(ms[i].duplicate());
            assert forall|j: int| 0 <= j < out@.len() implies same_type(#[trigger] out@[j], filter_base(t, name@, keep)[j]) by {
                if j < before.len() {
                    assert(out@[j] == before[j]);
                }
            }
        }
        i = i + 1;
    }
    assert(ms@.take(ms@.len() as int) =~= ms@);
    out
}

fn keep_not_none(ms: &Vec<TypeBinding>) -> (r: Vec<TypeBinding>)
    ensures
        same_types(r@, filter_not_none(ms@)),
{
    let mut out: Vec<TypeBinding> = Vec::new();
    let mut i: usize = 0;
    assert(ms@.take(0) =~= Seq::<TypeBinding>::empty());
    while i < ms.len()
        invariant
            i <= ms@.len(),
            same_types(out@, filter_not_none(ms@.take(i as int))),
        decreases ms@.len() - i,
    {
        let ghost t = ms@.take(i + 1);
        assert(t.drop_last() =~= ms@.take(i as int));
        assert(t.last() == ms@[i as int]);
        if !is_none_binding(&ms[i]) {
            let ghost before = out@;
            out.push(ms[i].duplicate());
            assert forall|j: int| 0 <= j < out@.len() implies same_type(#[trigger] out@[j], filter_not_none(t)[j]) by {
                if j < before.len() {
                    assert(out@[j] == before[j]);
                }
            }
        }
        i = i + 1;
    }
    assert(ms@.take(ms@.len() as int) =~= ms@);
    out
}

/// `union_member_matching`: narrowing to `class_name`: a binding that is no
/// union when it is that class; else the only flattened member of that class.
pub fn union_member_matching(binding: &TypeBinding, class_name: &str) -> (r: Option<TypeBinding>)
    ensures
        if !union_like_name(binding.base@) {
            match r {
                Some(t) => binding.base@ == class_name@ && same_type(t, *binding),
                None => binding.base@ != class_name@,
            }
        } else {
            let ms = filter_base(flat(*binding), class_name@, true);
            match r {
                Some(t) => ms.len() == 1 && same_type(t, ms[0]),
                None => ms.len() != 1,
            }
        },
{
    if !is_union_type(binding.base.as_str()) {
        if same_text(binding.base.as_str(), class_name) {
            return Some(binding.duplicate());
        }
        return None;
    }
    let members = flattened_union_members(binding);
    let matching = keep_by_base(&members, class_name, true);
    proof {
        lemma_filter_same(members@, flat(*binding), class_name@, true);
        lemma_same_types_trans(matching@, filter_base(members@, class_name@, true), filter_base(flat(*binding), class_name@, true));
    }
    if matching.len() == 1 {
        let t = matching[0].duplicate();
        proof {
            lemma_same_type_trans(t, matching@[0], filter_base(flat(*binding), class_name@, true)[0]);
        }
        Some(t)
    } else {
        None
    }
}

proof fn lemma_filter_same(a: Seq<TypeBinding>, b: Seq<TypeBinding>, name: Seq<char>, keep: bool)
    requires
        same_types(a, b),
    ensures
        same_types(filter_base(a, name, keep), filter_base(b, name, keep)),
    decreases a.len(),
{
    if a.len() > 0 {
        assert(same_types(a.drop_last(), b.drop_last())) by {
            assert forall|i: int| 0 <= i < a.drop_last().len() implies same_type(#[trigger] a.drop_last()[i], b.drop_last()[i]) by {
                assert(same_type(a[i], b[i]));
            }
        }
        lemma_filter_same(a.drop_last(), b.drop_last(), name, keep);
        assert(same_type(a.last(), b[b.len() - 1]));
        let fa = filter_base(a, name, keep);
        let fb = filter_base(b, name, keep);
        let ra = filter_base(a.drop_last(), name, keep);
        let rb = filter_base(b.drop_last(), name, keep);
        if (a.last().base@ == name) == keep {
            assert forall|i: int| 0 <= i < fa.len() implies same_type(#[trigger] fa[i], fb[i]) by {
                if i < ra.len() {
                    assert(fa[i] == ra[i] && fb[i] == rb[i]);
                }
            }
        } else {
            assert(fa == ra && fb == rb);
        }
    }
}

proof fn lemma_filter_none_same(a: Seq<TypeBinding>, b: Seq<TypeBinding>)
    requires
        same_types(a, b),
    ensures
        same_types(filter_not_none(a), filter_not_none(b)),
    decreases a.len(),
{
    if a.len() > 0 {
        assert(same_types(a.drop_last(), b.drop_last())) by {
            assert forall|i: int| 0 <= i < a.drop_last().len() implies same_type(#[trigger] a.drop_last()[i], b.drop_last()[i]) by {
                assert(same_type(a[i], b[i]));
            }
        }
        lemma_filter_none_same(a.drop_last(), b.drop_last());
        assert(same_type(a.last(), b[b.len() - 1]));
        let fa = filter_not_none(a);
        let fb = filter_not_none(b);
        let ra = filter_not_none(a.drop_last());
        let rb = filter_not_none(b.drop_last());
        if !none_like_name(a.last().base@) {
            assert forall|i: int| 0 <= i < fa.len() implies same_type(#[trigger] fa[i], fb[i]) by {
                if i < ra.len() {
                    assert(fa[i] == ra[i] && fb[i] == rb[i]);
                }
            }
        } else {
            assert(fa == ra && fb == rb);
        }
    }
}

proof fn lemma_same_types_trans(a: Seq<TypeBinding>, b: Seq<TypeBinding>, c: Seq<TypeBinding>)
    requires
        same_types(a, b),
        same_types(b, c),
    ensures
        same_types(a, c),
{
    assert forall|i: int| 0 <= i < a.len() implies same_type(#[trigger] a[i], c[i]) by {
        lemma_same_type_trans(a[i], b[i], c[i]);
    }
}

proof fn lemma_same_type_trans(a: TypeBinding, b: TypeBinding, c: TypeBinding)
    requires
        same_type(a, b),
        same_type(b, c),
    ensures
        same_type(a, c),
    decreases a,
{
    assert forall|i: int| 0 <= i < a.args@.len() implies same_type(#[trigger] a.args@[i], c.args@[i]) by {
        assert(same_type(a.args@[i], b.args@[i]));
        assert(same_type(b.args@[i], c.args@[i]));
        lemma_same_type_trans(a.args@[i], b.args@[i], c.args@[i]);
    }
}

/// `union_without`: narrowing away from `class_name`: a binding that is no
/// union unless it is that class; else the flattened members of other
/// classes, joined again.
pub fn union_without(binding: &TypeBinding, class_name: &str) -> (r: Option<TypeBinding>)
    ensures
        if !union_like_name(binding.base@) {
            match r {
                Some(t) => binding.base@ != class_name@ && same_type(t, *binding),
                None => binding.base@ == class_name@,
            }
        } else {
            from_members(filter_base(flat(*binding), class_name@, false), r)
        },
{
    if !is_union_type(binding.base.as_str()) {
        if !same_text(binding.base.as_str(), class_name) {
            return Some(binding.duplicate());
        }
        return None;
    }
    let members = flattened_union_members(binding);
    let kept = keep_by_base(&members, class_name, false);
    proof {
        lemma_filter_same(members@, flat(*binding), class_name@, false);
        lemma_same_types_trans(kept@, filter_base(members@, class_name@, false), filter_base(flat(*binding), class_name@, false));
    }
    let ghost kv = kept@;
    let r = union_from_members(kept);
    proof {
        lemma_from_members(kv, filter_base(flat(*binding), class_name@, false), r);
    }
    r
}

/// `union_without_none`: narrowing away from `None`.
pub fn union_without_none(binding: &TypeBinding) -> (r: Option<TypeBinding>)
    ensures
        if !union_like_name(binding.base@) {
            match r {
                Some(t) => !none_like_name(binding.base@) && same_type(t, *binding),
                None => none_like_name(binding.base@),
            }
        } else {
            from_members(filter_not_none(flat(*binding)), r)
        },
{
    if !is_union_type(binding.base.as_str()) {
        if !is_none_binding(binding) {
            return Some(binding.duplicate());
        }
        return None;
    }
    let members = flattened_union_members(binding);
    let kept = keep_not_none(&members);
    proof {
        lemma_filter_none_same(members@, flat(*binding));
        lemma_same_types_trans(kept@, filter_not_none(members@), filter_not_none(flat(*binding)));
    }
    let ghost kv = kept@;
    let r = union_from_members(kept);
    proof {
        lemma_from_members(kv, filter_not_none(flat(*binding)), r);
    }
    r
}

/// `narrowed_union_member`: the only argument of a union whose name's last
/// part is `class_name`.
pub open spec fn matching_positions(args: Seq<TypeBinding>, class_name: Seq<char>) -> Seq<int>
    decreases args.len(),
{
    if args.len() == 0 {
        Seq::empty()
    } else {
        let rest = matching_positions(args.drop_last(), class_name);
        if last_part(args.last().base@) == class_name {
            rest.push(args.len() - 1)
        } else {
            rest
        }
    }
}

pub fn narrowed_union_member(binding: &TypeBinding, class_name: &str) -> (r: Option<TypeBinding>)
    ensures
        match r {
            Some(t) => union_like_name(binding.base@) && matching_positions(binding.args@, class_name@).len() == 1
                && same_type(t, binding.args@[matching_positions(binding.args@, class_name@)[0]]),
            None => !union_like_name(binding.base@) || matching_positions(binding.args@, class_name@).len() != 1,
        },
{
    if !is_union_type(binding.base.as_str()) {
        return None;
    }
    let mut found: Option<usize> = None;
    let mut count: usize = 0;
    let mut i: usize = 0;
    assert(binding.args@.take(0) =~= Seq::<TypeBinding>::empty());
    while i < binding.args.len()
        invariant
            i <= binding.args@.len(),
            count == matching_positions(binding.args@.take(i as int), class_name@).len() || count == 2,
            count <= 2,
            count == 2 ==> matching_positions(binding.args@.take(i as int), class_name@).len() >= 2,
            count >= 1 ==> found == Some(matching_positions(binding.args@.take(i as int), class_name@)[0] as usize),
            count == 0 ==> found is None,
            forall|k: int|
                0 <= k < matching_positions(binding.args@.take(i as int), class_name@).len() ==> 0
                    <= #[trigger] matching_positions(binding.args@.take(i as int), class_name@)[k] < i,
        decreases binding.args@.len() - i,
    {
        let ghost t = binding.args@.take(i + 1);
        assert(t.drop_last() =~= binding.args@.take(i as int));
        assert(t.last() == binding.args@[i as int]);
        if type_name_matches(binding.args[i].base.as_str(), class_name) {
            if count == 0 {
                found = Some(i);
                count = 1;
            } else {
                count = 2;
            }
            assert(matching_positions(t, class_name@) == matching_positions(t.drop_last(), class_name@).push(i as int));
        }
        i = i + 1;
    }
    assert(binding.args@.take(binding.args@.len() as int) =~= binding.args@);
    if count == 1 {
        match found {
            Some(k) => Some(binding.args[k].duplicate()),
            None => None,
        }
    } else {
        None
    }
}

// ---------------------------------------------------------------------------
// Generic classes and module values
// ---------------------------------------------------------------------------

/// Position of `name` among the type parameters, the first one.
pub open spec fn param_position(params: Seq<String>, name: Seq<char>) -> Option<int>
    decreases params.len(),
{
    if params.len() == 0 {
        None
    } else if params[0]@ == name {
        Some(0)
    } else {
        match param_position(params.drop_first(), name) {
            Some(k) => Some(k + 1),
            None => None,
        }
    }
}

proof fn lemma_param_position(params: Seq<String>, name: Seq<char>)
    ensures
        match param_position(params, name) {
            Some(k) => 0 <= k < params.len() && params[k]@ == name && forall|j: int| 0 <= j < k ==> #[trigger] params[j]@ != name,
            None => forall|j: int| 0 <= j < params.len() ==> #[trigger] params[j]@ != name,
        },
    decreases params.len(),
{
    if params.len() > 0 && params[0]@ != name {
        let d = params.drop_first();
        lemma_param_position(d, name);
        assert forall|j: int| 1 <= j < params.len() implies params[j] == #[trigger] d[j - 1] by {}
        match param_position(d, name) {
            Some(k) => {
                assert(params[k + 1] == d[k]);
                assert forall|j: int| 0 <= j < k + 1 implies #[trigger] params[j]@ != name by {
                    if j > 0 {
                        assert(params[j] == d[j - 1]);
                    }
                }
            },
            None => {
                assert forall|j: int| 0 <= j < params.len() implies #[trigger] params[j]@ != name by {
                    if j > 0 {
                        assert(params[j] == d[j - 1]);
                    }
                }
            },
        }
    }
}

/// A field's binding with the class's type parameters replaced by the
/// receiver's type arguments: a parameter
/// becomes the receiver's argument at its position, or the parameter's
/// name alone when the receiver has none there; anything else keeps its
/// base and flag, with its arguments substituted.
pub open spec fn substituted(binding: TypeBinding, params: Seq<String>, receiver: TypeBinding, r: TypeBinding) -> bool
    decreases binding,
{
    match param_position(params, binding.base@) {
        Some(k) => if k < receiver.args@.len() {
            same_type(r, receiver.args@[k])
        } else {
            r.base@ == binding.base@ && r.args@.len() == 0 && !r.external
        },
        None => {
            &&& r.base@ == binding.base@
            &&& r.external == binding.external
            &&& r.args@.len() == binding.args@.len()
            &&& forall|i: int| 0 <= i < binding.args@.len() ==> substituted(#[trigger] binding.args@[i], params, receiver, r.args@[i])
        },
    }
}

pub fn substitute_type_params(binding: &TypeBinding, class_info: &ClassInfo, receiver_type: &TypeBinding) -> (r: TypeBinding)
    ensures
        substituted(*binding, class_info.type_params@, *receiver_type, r),
    decreases binding,
{
    proof {
        lemma_param_position(class_info.type_params@, binding.base@);
    }
    let mut position: Option<usize> = None;
    let mut k: usize = 0;
    while k < class_info.type_params.len()
        invariant
            k <= class_info.type_params@.len(),
            position is None ==> forall|j: int| 0 <= j < k ==> #[trigger] class_info.type_params@[j]@ != binding.base@,
            match position {
                Some(p) => param_position(class_info.type_params@, binding.base@) == Some(p as int),
                None => true,
            },
            match param_position(class_info.type_params@, binding.base@) {
                Some(q) => 0 <= q < class_info.type_params@.len() && class_info.type_params@[q]@ == binding.base@
                    && forall|j: int| 0 <= j < q ==> #[trigger] class_info.type_params@[j]@ != binding.base@,
                None => forall|j: int| 0 <= j < class_info.type_params@.len() ==> #[trigger] class_info.type_params@[j]@ != binding.base@,
            },
        decreases class_info.type_params@.len() - k,
    {
        if position.is_none() && same_text(class_info.type_params[k].as_str(), binding.base.as_str()) {
            position = Some(k);
        }
        k = k + 1;
    }
    match position {
        Some(p) => {
            if p < receiver_type.args.len() {
                receiver_type.args[p].duplicate()
            } else {
                TypeBinding::erased(crate::text::copy_string(&binding.base))
            }
        },
        None => {
            let mut args: Vec<TypeBinding> = Vec::new();
            let mut i: usize = 0;
            while i < binding.args.len()
                invariant
                    i <= binding.args@.len(),
                    args@.len() == i,
                    forall|j: int| 0 <= j < i ==> substituted(#[trigger] binding.args@[j], class_info.type_params@, *receiver_type, args@[j]),
                decreases binding.args@.len() - i,
            {
                args.push(substitute_type_params(&binding.args[i], class_info, receiver_type));
                i = i + 1;
            }
            TypeBinding { base: crate::text::copy_string(&binding.base), args, external: binding.external }
        },
    }
}

/// The binding of the module-level value `name` of `module`: the first one
/// recorded under `module.name`.
pub open spec fn first_value(values: Seq<ValueBinding>, qualified: Seq<char>) -> Option<int>
    decreases values.len(),
{
    if values.len() == 0 {
        None
    } else if values[0].qualified_name@ == qualified {
        Some(0)
    } else {
        match first_value(values.drop_first(), qualified) {
            Some(k) => Some(k + 1),
            None => None,
        }
    }
}

proof fn lemma_first_value(values: Seq<ValueBinding>, q: Seq<char>)
    ensures
        match first_value(values, q) {
            Some(k) => 0 <= k < values.len() && values[k].qualified_name@ == q && forall|j: int| 0 <= j < k ==> #[trigger] values[j].qualified_name@ != q,
            None => forall|j: int| 0 <= j < values.len() ==> #[trigger] values[j].qualified_name@ != q,
        },
    decreases values.len(),
{
    if values.len() > 0 && values[0].qualified_name@ != q {
        let d = values.drop_first();
        lemma_first_value(d, q);
        assert forall|j: int| 1 <= j < values.len() implies values[j] == #[trigger] d[j - 1] by {}
        match first_value(d, q) {
            Some(k) => {
                assert(values[k + 1] == d[k]);
                assert forall|j: int| 0 <= j < k + 1 implies #[trigger] values[j].qualified_name@ != q by {
                    if j > 0 {
                        assert(values[j] == d[j - 1]);
                    }
                }
            },
            None => {
                assert forall|j: int| 0 <= j < values.len() implies #[trigger] values[j].qualified_name@ != q by {
                    if j > 0 {
                        assert(values[j] == d[j - 1]);
                    }
                }
            },
        }
    }
}

pub fn module_value_binding(module: &str, name: &str, values: &Vec<ValueBinding>) -> (r: Option<TypeBinding>)
    ensures
        match first_value(values@, crate::text::dotted(module@, name@)) {
            Some(k) => r is Some && same_type(r->0, values@[k].binding),
            None => r is None,
        },
{
    let qualified = join_dot(module, name);
    proof {
        lemma_first_value(values@, qualified@);
    }
    let mut i: usize = 0;
    while i < values.len()
        invariant
            qualified@ == crate::text::dotted(module@, name@),
            i <= values@.len(),
            forall|j: int| 0 <= j < i ==> #[trigger] values@[j].qualified_name@ != qualified@,
        decreases values@.len() - i,
    {
        if same_text(values[i].qualified_name.as_str(), qualified.as_str()) {
            proof {
                lemma_first_value(values@, qualified@);
                match first_value(values@, qualified@) {
                    Some(k) => {
                        assert(k == i) by {
                            if k < i {
                                assert(values@[k].qualified_name@ != qualified@);
                            }
                            if k > i {
                                assert(values@[i as int].qualified_name@ != qualified@);
                            }
                        }
                    },
                    None => {
                        assert(values@[i as int].qualified_name@ != qualified@);
                    },
                }
            }
            let t = values[i].binding.duplicate();
            assert(qualified@ == crate::text::dotted(module@, name@));
            assert(first_value(values@, crate::text::dotted(module@, name@)) == Some(i as int));
            assert(same_type(t, values@[i as int].binding));
            return Some(t);
        }
        i = i + 1;
    }
    proof {
        lemma_first_value(values@, qualified@);
        assert(first_value(values@, qualified@) is None) by {
            match first_value(values@, qualified@) {
                Some(k) => {
                    assert(values@[k].qualified_name@ != qualified@);
                },
                None => {},
            }
        }
    }
    None
}

// ---------------------------------------------------------------------------
// Types outside the project
// ---------------------------------------------------------------------------

/// `t` is the module `m` or lies inside it.
pub open spec fn in_module(t: Seq<char>, m: Seq<char>) -> bool {
    t == m || has_prefix(t, m + "."@)
}

/// The type belongs to the project: it is one of the project's modules or
/// lies inside one.
pub open spec fn project_type(known: Seq<String>, t: Seq<char>) -> bool {
    exists|k: int| 0 <= k < known.len() && #[trigger] in_module(t, known[k]@)
}

pub fn is_project_type(known_modules: &Vec<String>, tname: &str) -> (r: bool)
    ensures
        r == project_type(known_modules@, tname@),
{
    let mut k: usize = 0;
    while k < known_modules.len()
        invariant
            k <= known_modules@.len(),
            forall|j: int| 0 <= j < k ==> !#[trigger] in_module(tname@, known_modules@[j]@),
        decreases known_modules@.len() - k,
    {
        let module = known_modules[k].as_str();
        assert(module@ == known_modules@[k as int]@);
        let prefix = concat_text(module, ".");
        let equal = same_text(tname, module);
        let inside = starts_with(tname, prefix.as_str());
        assert(inside == has_prefix(tname@, known_modules@[k as int]@ + "."@));
        assert(in_module(tname@, known_modules@[k as int]@) == (equal || inside));
        if equal || inside {
            return true;
        }
        k = k + 1;
    }
    false
}

/// The binding with every type outside the project marked external: type
/// containers are never external and have their arguments marked; a type
/// already external or of the project keeps its flag; any other type
/// becomes external.
pub open spec fn marked_external(known: Seq<String>, before: TypeBinding, after: TypeBinding) -> bool
    decreases before,
{
    &&& after.base@ == before.base@
    &&& if container_name(before.base@) {
        &&& !after.external
        &&& after.args@.len() == before.args@.len()
        &&& forall|i: int| 0 <= i < before.args@.len() ==> marked_external(known, #[trigger] before.args@[i], after.args@[i])
    } else {
        &&& after.external == (before.external || !project_type(known, before.base@))
        &&& same_types(after.args@, before.args@)
    }
}

pub fn mark_external_if_outside_project(known_modules: &Vec<String>, binding: TypeBinding) -> (r: TypeBinding)
    ensures
        marked_external(known_modules@, binding, r),
    decreases binding,
{
    if is_type_container(binding.base.as_str()) {
        let TypeBinding { base, args, external } = binding;
        let ghost old_args = args@;
        let mut marked: Vec<TypeBinding> = Vec::new();
        let mut rest = args;
        let mut reversed: Vec<TypeBinding> = Vec::new();
        while rest.len() > 0
            invariant
                rest@.len() + reversed@.len() == old_args.len(),
                forall|j: int| 0 <= j < rest@.len() ==> #[trigger] rest@[j] == old_args[j],
                forall|j: int| 0 <= j < reversed@.len() ==> #[trigger] reversed@[j] == old_args[old_args.len() - 1 - j],
            decreases rest@.len(),
        {
            let a = rest.pop().unwrap();
            reversed.push(a);
        }
        while reversed.len() > 0
            invariant
                old_args == binding.args@,
                reversed@.len() + marked@.len() == old_args.len(),
                forall|j: int| 0 <= j < reversed@.len() ==> #[trigger] reversed@[j] == old_args[old_args.len() - 1 - j],
                forall|j: int| 0 <= j < marked@.len() ==> marked_external(known_modules@, #[trigger] old_args[j], marked@[j]),
            decreases reversed@.len(),
        {
            let ghost j = marked@.len() as int;
            let a = reversed.pop().unwrap();
            assert(a == old_args[j]);
            assert(a == binding.args@[j]);
            marked.push(mark_external_if_outside_project(known_modules, a));
        }
        let r = TypeBinding { base, args: marked, external: false };
        assert(r.args@.len() == old_args.len());
        return r;
    }
    if binding.external || is_project_type(known_modules, binding.base.as_str()) {
        proof {
            lemma_same_type_refl(binding);
        }
        return binding;
    }
    let TypeBinding { base, args, external } = binding;
    let ghost old_args = args@;
    let r = TypeBinding { base, args, external: true };
    proof {
        assert forall|i: int| 0 <= i < old_args.len() implies same_type(#[trigger] r.args@[i], old_args[i]) by {
            lemma_same_type_refl(old_args[i]);
        }
    }
    r
}


// ---------------------------------------------------------------------------
// Callable aliases
// ---------------------------------------------------------------------------

/// A type bound to a name in the scope being read.
pub struct ScopedType {
    pub name: String,
    pub binding: TypeBinding,
}

impl Keyed for ScopedType {
    open spec fn key(&self) -> Seq<char> {
        self.name@
    }

    fn key_text(&self) -> (r: &str) {
        self.name.as_str()
    }
}

/// Position of the last entry of `types` for `name`, as a map of the scope
/// keeps it.
pub open spec fn last_scoped(types: Seq<ScopedType>, name: Seq<char>) -> Option<int> {
    crate::tables::last_keyed(types, name)
}

/// The class or callable that the name `name` of `module` is bound to: its
/// type in scope, else the type of the module-level value of that name.
pub open spec fn alias_base(
    module: Seq<char>,
    name: Seq<char>,
    types: Seq<ScopedType>,
    values: Seq<ValueBinding>,
) -> Option<Seq<char>> {
    match last_scoped(types, name) {
        Some(k) => Some(types[k].binding.base@),
        None => match first_value(values, crate::text::dotted(module, name)) {
            Some(k) => Some(values[k].binding.base@),
            None => None,
        },
    }
}

/// Some signature is recorded for the function `f`.
pub open spec fn has_signature(signatures: Seq<FunctionSignature>, f: Seq<char>) -> bool {
    exists|i: int| 0 <= i < signatures.len() && #[trigger] signatures[i].function@ == f
}

/// Position of the last entry of `types` for `name`.
fn find_scoped(types: &Vec<ScopedType>, name: &str) -> (r: Option<usize>)
    ensures
        match r {
            Some(k) => last_scoped(types@, name@) == Some(k as int) && k < types@.len(),
            None => last_scoped(types@, name@) is None,
        },
{
    proof {
        crate::tables::lemma_last_keyed(types@, name@);
    }
    crate::tables::find_last(types, name)
}

/// The function that the name `name` of `module` stands for when it is an
/// alias of one: the class or callable its binding
/// names, provided some signature is recorded for it.
pub fn callable_alias_target(
    module: &str,
    name: &str,
    types: &Vec<ScopedType>,
    values: &Vec<ValueBinding>,
    signatures: &Vec<FunctionSignature>,
) -> (r: Option<String>)
    ensures
        match alias_base(module@, name@, types@, values@) {
            Some(b) => if has_signature(signatures@, b) {
                r is Some && r->0@ == b
            } else {
                r is None
            },
            None => r is None,
        },
{
    let base = match find_scoped(types, name) {
        Some(k) => copy_string(&types[k].binding.base),
        None => match module_value_binding(module, name, values) {
            Some(binding) => binding.base,
            None => {
                return None;
            },
        },
    };
    let mut i: usize = 0;
    while i < signatures.len()
        invariant
            alias_base(module@, name@, types@, values@) == Some(base@),
            i <= signatures@.len(),
            forall|j: int| 0 <= j < i ==> #[trigger] signatures@[j].function@ != base@,
        decreases signatures@.len() - i,
    {
        if same_text(signatures[i].function.as_str(), base.as_str()) {
            assert(has_signature(signatures@, signatures@[i as int].function@));
            return Some(base);
        }
        i = i + 1;
    }
    None
}


/// The binding of `name` in a scope, as a map keeps it.
pub open spec fn scoped_binding(types: Seq<ScopedType>, name: Seq<char>) -> Option<TypeBinding> {
    match last_scoped(types, name) {
        Some(k) => Some(types[k].binding),
        None => None,
    }
}

/// The binding that every branch gives `name`, when all of them give it one
/// and agree with the first branch.
pub open spec fn agreed(branches: Seq<Vec<ScopedType>>, name: Seq<char>) -> Option<TypeBinding> {
    if branches.len() > 0 && scoped_binding(branches[0]@, name) is Some && forall|b: int|
        0 <= b < branches.len() ==> match scoped_binding(#[trigger] branches[b]@, name) {
            Some(t) => same_type(t, scoped_binding(branches[0]@, name)->0),
            None => false,
        } {
        scoped_binding(branches[0]@, name)
    } else {
        None
    }
}

proof fn lemma_last_scoped_at(types: Seq<ScopedType>, name: Seq<char>, k: int)
    requires
        0 <= k < types.len(),
        types[k].name@ == name,
        forall|j: int| k < j < types.len() ==> #[trigger] types[j].name@ != name,
    ensures
        last_scoped(types, name) == Some(k),
{
    crate::tables::lemma_last_keyed(types, name);
    match last_scoped(types, name) {
        Some(k2) => {
            if k2 < k {
                assert(types[k].key() == name);
            } else if k2 > k {
                assert(types[k2].name@ != name);
            }
        },
        None => {
            assert(types[k].key() == name);
        },
    }
}

/// Binds `name` to `binding` in the scope, as inserting into a map does.
fn insert_scoped(types: &mut Vec<ScopedType>, name: &String, binding: TypeBinding)
    ensures
        scoped_binding(final(types)@, name@) == Some(binding),
        forall|n: Seq<char>| n != name@ ==> scoped_binding(final(types)@, n) == scoped_binding(old(types)@, n),
{
    let ghost before = types@;
    proof {
        crate::tables::lemma_last_keyed(before, name@);
    }
    match find_scoped(types, name.as_str()) {
        Some(k) => {
            types.set(k, ScopedType { name: copy_string(name), binding });
            proof {
                assert forall|j: int| k < j < types@.len() implies #[trigger] types@[j].name@ != name@ by {
                    assert(types@[j] == before[j]);
                    assert(before[j].key() != name@);
                }
                lemma_last_scoped_at(types@, name@, k as int);
                assert forall|n: Seq<char>| n != name@ implies scoped_binding(types@, n) == scoped_binding(before, n) by {
                    crate::tables::lemma_last_keyed(before, n);
                    crate::tables::lemma_last_keyed(types@, n);
                    match last_scoped(before, n) {
                        Some(j) => {
                            assert(types@[j] == before[j]);
                            assert forall|q: int| j < q < types@.len() implies #[trigger] types@[q].name@ != n by {
                                if q != k {
                                    assert(types@[q] == before[q]);
                                    assert(before[q].key() != n);
                                }
                            }
                            lemma_last_scoped_at(types@, n, j);
                        },
                        None => {
                            if let Some(j) = last_scoped(types@, n) {
                                if j != k {
                                    assert(types@[j] == before[j]);
                                    assert(before[j].key() == n);
                                }
                            }
                        },
                    }
                }
            }
        },
        None => {
            types.push(ScopedType { name: copy_string(name), binding });
            proof {
                let m = before.len() as int;
                lemma_last_scoped_at(types@, name@, m);
                assert forall|n: Seq<char>| n != name@ implies scoped_binding(types@, n) == scoped_binding(before, n) by {
                    assert(types@.drop_last() =~= before);
                    assert(types@.last().key() != n);
                    assert(last_scoped(types@, n) == last_scoped(before, n));
                    crate::tables::lemma_last_keyed(before, n);
                    if let Some(j) = last_scoped(before, n) {
                        assert(types@[j] == before[j]);
                    }
                }
            }
        },
    }
}

/// After the branches of a statement that all complete, the bindings they
/// agree on hold in the enclosing scope:
/// each name bound by the first branch that every branch binds to an equal
/// type is bound to it; every other name keeps its binding.
pub fn merge_completed_branch_types(types: &mut Vec<ScopedType>, branches: Vec<Vec<ScopedType>>)
    ensures
        forall|n: Seq<char>|
            match agreed(branches@, n) {
                Some(t) => match #[trigger] scoped_binding(final(types)@, n) {
                    Some(u) => same_type(u, t),
                    None => false,
                },
                None => scoped_binding(final(types)@, n) == scoped_binding(old(types)@, n),
            },
{
    let ghost start = types@;
    if branches.len() == 0 {
        return;
    }
    let first = &branches[0];
    let mut i: usize = 0;
    while i < first.len()
        invariant
            branches@.len() > 0,
            *first == branches@[0],
            i <= first@.len(),
            forall|n: Seq<char>|
                match agreed(branches@, n) {
                    Some(t) => if exists|q: int| 0 <= q < i && #[trigger] first@[q].name@ == n {
                        match #[trigger] scoped_binding(types@, n) {
                            Some(u) => same_type(u, t),
                            None => false,
                        }
                    } else {
                        scoped_binding(types@, n) == scoped_binding(start, n)
                    },
                    None => scoped_binding(types@, n) == scoped_binding(start, n),
                },
        decreases first@.len() - i,
    {
        let key = &first[i].name;
        proof {
            crate::tables::lemma_last_keyed(first@, key@);
            assert(first@[i as int].key() == key@);
        }
        let k0 = match find_scoped(first, key.as_str()) {
            Some(k) => k,
            None => {
                i = i + 1;
                continue;
            },
        };
        let b0 = &first[k0].binding;
        let mut all = true;
        let mut b: usize = 0;
        while b < branches.len()
            invariant
                branches@.len() > 0,
                *first == branches@[0],
                k0 < first@.len(),
                last_scoped(first@, key@) == Some(k0 as int),
                *b0 == first@[k0 as int].binding,
                b <= branches@.len(),
                all == forall|c: int|
                    0 <= c < b ==> match scoped_binding(#[trigger] branches@[c]@, key@) {
                        Some(t) => same_type(t, *b0),
                        None => false,
                    },
            decreases branches@.len() - b,
        {
            let agrees = match find_scoped(&branches[b], key.as_str()) {
                Some(kb) => branches[b][kb].binding.equals(b0),
                None => false,
            };
            proof {
                if !agrees {
                    assert(match scoped_binding(branches@[b as int]@, key@) {
                        Some(t) => same_type(t, *b0),
                        None => false,
                    } == false);
                }
            }
            all = all && agrees;
            b = b + 1;
        }
        let ghost mid = types@;
        if all {
            insert_scoped(types, key, b0.duplicate());
        }
        proof {
            assert(scoped_binding(first@, key@) == Some(*b0));
            if all {
                assert(agreed(branches@, key@) == Some(*b0));
            } else {
                assert(agreed(branches@, key@) is None) by {
                    if agreed(branches@, key@) is Some {
                        let c = choose|c: int| 0 <= c < branches@.len() && !match scoped_binding(#[trigger] branches@[c]@, key@) {
                            Some(t) => same_type(t, *b0),
                            None => false,
                        };
                        assert(match scoped_binding(branches@[c]@, key@) {
                            Some(t) => same_type(t, scoped_binding(branches@[0]@, key@)->0),
                            None => false,
                        });
                    }
                }
            }
            assert forall|n: Seq<char>|
                match agreed(branches@, n) {
                    Some(t) => if exists|q: int| 0 <= q < i + 1 && #[trigger] first@[q].name@ == n {
                        match #[trigger] scoped_binding(types@, n) {
                            Some(u) => same_type(u, t),
                            None => false,
                        }
                    } else {
                        scoped_binding(types@, n) == scoped_binding(start, n)
                    },
                    None => scoped_binding(types@, n) == scoped_binding(start, n),
                } by {
                if n != key@ {
                    if exists|q: int| 0 <= q < i + 1 && #[trigger] first@[q].name@ == n {
                        let q = choose|q: int| 0 <= q < i + 1 && #[trigger] first@[q].name@ == n;
                        assert(q < i);
                    }
                } else {
                    assert(first@[i as int].name@ == n);
                }
            }
        }
        i = i + 1;
    }
    proof {
        assert forall|n: Seq<char>|
            match agreed(branches@, n) {
                Some(t) => match #[trigger] scoped_binding(types@, n) {
                    Some(u) => same_type(u, t),
                    None => false,
                },
                None => scoped_binding(types@, n) == scoped_binding(start, n),
            } by {
            if let Some(t) = agreed(branches@, n) {
                crate::tables::lemma_last_keyed(first@, n);
                let q = last_scoped(first@, n)->0;
                assert(first@[q].key() == n);
            }
        }
    }
}

} // verus!
