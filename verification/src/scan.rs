//! What the reader of a module derives from plain values: the classes an
//! argument can carry, the type bindings of aliases, generators and external
//! members, and the fields named by `str.format` templates.
use vstd::prelude::*;

use crate::flow::callable_name;
use crate::index::{same_type, ClassFieldInfo, ClassInfo, FieldAnnotation, ImportTarget, TypeBinding};
use crate::text::{copy_string, ends_with, has_suffix, same_text, views};

verus! {

// ---------------------------------------------------------------------------
// Names of typing constructs
// ---------------------------------------------------------------------------

pub open spec fn type_alias_type_name(t: Seq<char>) -> bool {
    t == "typing_extensions.TypeAliasType"@ || t == "typing.TypeAliasType"@
}

/// Whether `callable` constructs a `TypeAliasType`.
pub fn is_type_alias_type(callable: &str) -> (r: bool)
    ensures
        r == type_alias_type_name(callable@),
{
    same_text(callable, "typing_extensions.TypeAliasType") || same_text(callable, "typing.TypeAliasType")
}

pub open spec fn annotated_name(t: Seq<char>) -> bool {
    t == "typing.Annotated"@ || t == "typing_extensions.Annotated"@
}

/// Containers whose fields are read through:
/// `Annotated`, unions, optionals and lists.
pub open spec fn transparent_container_name(t: Seq<char>) -> bool {
    ||| annotated_name(t)
    ||| t == "typing.Union"@
    ||| t == "types.UnionType"@
    ||| t == "typing.Optional"@
    ||| t == "Optional"@
    ||| t == "list"@
    ||| t == "typing.List"@
    ||| t == "List"@
}

pub fn is_transparent_container(tname: &str) -> (r: bool)
    ensures
        r == transparent_container_name(tname@),
{
    same_text(tname, "typing.Annotated") || same_text(tname, "typing_extensions.Annotated")
        || same_text(tname, "typing.Union") || same_text(tname, "types.UnionType") || same_text(
        tname,
        "typing.Optional",
    ) || same_text(tname, "Optional") || same_text(tname, "list") || same_text(tname, "typing.List")
        || same_text(tname, "List")
}

pub open spec fn generator_name(t: Seq<char>) -> bool {
    ||| t == "typing.Generator"@
    ||| t == "collections.abc.Generator"@
    ||| t == "Generator"@
    ||| has_suffix(t, ".Generator"@)
}

// ---------------------------------------------------------------------------
// Type bindings
// ---------------------------------------------------------------------------

/// The binding an alias annotated `Annotated[T, ...]` stands for: `T`, or
/// `object` when nothing is annotated; any other binding as it is.
pub fn unwrap_annotated_alias(binding: TypeBinding) -> (r: TypeBinding)
    ensures
        annotated_name(binding.base@) && binding.args@.len() > 0 ==> same_type(r, binding.args@[0]),
        annotated_name(binding.base@) && binding.args@.len() == 0 ==> r.base@ == "object"@ && r.args@.len() == 0
            && !r.external,
        !annotated_name(binding.base@) ==> r == binding,
{
    if same_text(binding.base.as_str(), "typing.Annotated") || same_text(binding.base.as_str(), "typing_extensions.Annotated") {
        if binding.args.len() > 0 {
            return binding.args[0].duplicate();
        }
        return TypeBinding::erased(String::from_str("object"));
    }
    binding
}

/// The type a generator yields: the first argument of a `Generator`
/// binding.
pub fn generator_yield_type(binding: &TypeBinding) -> (r: Option<&TypeBinding>)
    ensures
        r == if generator_name(binding.base@) && binding.args@.len() > 0 {
            Some(&binding.args@[0])
        } else {
            None
        },
{
    let base = binding.base.as_str();
    if !(same_text(base, "typing.Generator") || same_text(base, "collections.abc.Generator") || same_text(base, "Generator")
        || ends_with(base, ".Generator")) {
        return None;
    }
    if binding.args.len() > 0 {
        Some(&binding.args[0])
    } else {
        None
    }
}

/// `dict[str, object]`, the type of a parsed JSON object.
pub fn json_mapping_type() -> (r: TypeBinding)
    ensures
        r.base@ == "dict"@,
        !r.external,
        r.args@.len() == 2,
        r.args@[0].base@ == "str"@ && r.args@[0].args@.len() == 0 && !r.args@[0].external,
        r.args@[1].base@ == "object"@ && r.args@[1].args@.len() == 0 && !r.args@[1].external,
{
    let mut args: Vec<TypeBinding> = Vec::new();
    args.push(TypeBinding::erased(String::from_str("str")));
    args.push(TypeBinding::erased(String::from_str("object")));
    TypeBinding { base: String::from_str("dict"), args, external: false }
}

/// The type of the member `member` of an external receiver: the external
/// name `receiver.member`; nothing for a receiver of the project.
pub fn external_member_type(receiver: &TypeBinding, member: &str) -> (r: Option<TypeBinding>)
    ensures
        match r {
            Some(t) => receiver.external && t.base@ == crate::text::dotted(receiver.base@, member@) && t.args@.len() == 0
                && t.external,
            None => !receiver.external,
        },
{
    if receiver.external {
        Some(TypeBinding { base: crate::text::join_dot(receiver.base.as_str(), member), args: Vec::new(), external: true })
    } else {
        None
    }
}

/// The binding of a function object: the function itself, inside the
/// project.
pub fn function_object_binding(function_owner: String) -> (r: TypeBinding)
    ensures
        r.base == function_owner,
        r.args@.len() == 0,
        !r.external,
{
    TypeBinding { base: function_owner, args: Vec::new(), external: false }
}

pub open spec fn target_external(target: ImportTarget) -> bool {
    match target {
        ImportTarget::Module { external, .. } => external,
        ImportTarget::Symbol { external, .. } => external,
        ImportTarget::Star { external, .. } => external,
    }
}

/// Whether an import target lies outside the project.
pub fn import_target_is_external(target: &ImportTarget) -> (r: bool)
    ensures
        r == target_external(*target),
{
    match target {
        ImportTarget::Module { external, .. } => *external,
        ImportTarget::Symbol { external, .. } => *external,
        ImportTarget::Star { external, .. } => *external,
    }
}

// ---------------------------------------------------------------------------
// Classes an argument can carry
// ---------------------------------------------------------------------------

/// Collections whose first argument is the class of what they hold, as
/// call arguments are read.
pub open spec fn argument_collection_name(t: Seq<char>) -> bool {
    ||| t == "list"@
    ||| t == "set"@
    ||| t == "tuple"@
    ||| t == "typing.List"@
    ||| t == "typing.Set"@
    ||| t == "typing.Tuple"@
    ||| t == "typing.Sequence"@
    ||| t == "collections.abc.Sequence"@
}

pub open spec fn plain_union_name(t: Seq<char>) -> bool {
    t == "typing.Union"@ || t == "types.UnionType"@
}

/// The classes a value bound as `t` can be: each member of a union, what a
/// callable returns, what a collection holds, else `t`'s own base.
pub open spec fn concrete_types(t: TypeBinding) -> Seq<Seq<char>>
    decreases t, 1int, 0int,
{
    if plain_union_name(t.base@) {
        concrete_types_from(t, 0)
    } else if callable_name(t.base@) {
        if t.args@.len() > 0 {
            concrete_types(t.args@.last())
        } else {
            Seq::empty()
        }
    } else if argument_collection_name(t.base@) {
        if t.args@.len() > 0 {
            concrete_types(t.args@[0])
        } else {
            Seq::empty()
        }
    } else {
        seq![t.base@]
    }
}

/// The classes of the arguments of `t` from position `i` on, in order.
pub open spec fn concrete_types_from(t: TypeBinding, i: int) -> Seq<Seq<char>>
    decreases t, 0int, t.args@.len() - i,
{
    if i < 0 || i >= t.args@.len() {
        Seq::empty()
    } else {
        concrete_types(t.args@[i]) + concrete_types_from(t, i + 1)
    }
}

fn is_argument_collection(t: &str) -> (r: bool)
    ensures
        r == argument_collection_name(t@),
{
    same_text(t, "list") || same_text(t, "set") || same_text(t, "tuple") || same_text(t, "typing.List") || same_text(
        t,
        "typing.Set",
    ) || same_text(t, "typing.Tuple") || same_text(t, "typing.Sequence") || same_text(t, "collections.abc.Sequence")
}

fn append_views(out: &mut Vec<String>, more: Vec<String>)
    ensures
        crate::text::views(final(out)@) == crate::text::views(old(out)@) + crate::text::views(more@),
{
    let ghost start = out@;
    let mut k: usize = 0;
    while k < more.len()
        invariant
            k <= more@.len(),
            crate::text::views(out@) == crate::text::views(start) + crate::text::views(more@.take(k as int)),
        decreases more@.len() - k,
    {
        let ghost ob = out@;
        out.push(copy_string(&more[k]));
        proof {
            assert(crate::text::views(out@) =~= crate::text::views(ob).push(more@[k as int]@));
            assert(crate::text::views(more@.take(k + 1)) =~= crate::text::views(more@.take(k as int)).push(more@[k as int]@));
            assert(crate::text::views(out@) =~= crate::text::views(start) + crate::text::views(more@.take(k + 1)));
        }
        k = k + 1;
    }
    assert(more@.take(more@.len() as int) =~= more@);
}

pub fn concrete_types_from_binding(binding: &TypeBinding) -> (r: Vec<String>)
    ensures
        crate::text::views(r@) == concrete_types(*binding),
    decreases binding, 1int,
{
    let base = binding.base.as_str();
    if same_text(base, "typing.Union") || same_text(base, "types.UnionType") {
        let mut out: Vec<String> = Vec::new();
        let mut i: usize = 0;
        while i < binding.args.len()
            invariant
                plain_union_name(binding.base@),
                i <= binding.args@.len(),
                crate::text::views(out@) + concrete_types_from(*binding, i as int) == concrete_types_from(*binding, 0),
            decreases binding.args@.len() - i,
        {
            let more = concrete_types_from_binding(&binding.args[i]);
            let ghost before = out@;
            append_views(&mut out, more);
            proof {
                assert(crate::text::views(before) + concrete_types_from(*binding, i as int) =~= crate::text::views(out@)
                    + concrete_types_from(*binding, i + 1));
            }
            i = i + 1;
        }
        assert(crate::text::views(out@) =~= crate::text::views(out@) + concrete_types_from(*binding, i as int));
        return out;
    }
    if crate::flow::is_callable_type(base) {
        if binding.args.len() > 0 {
            return concrete_types_from_binding(&binding.args[binding.args.len() - 1]);
        }
        let out: Vec<String> = Vec::new();
        assert(crate::text::views(out@) =~= Seq::<Seq<char>>::empty());
        return out;
    }
    if is_argument_collection(base) {
        if binding.args.len() > 0 {
            return concrete_types_from_binding(&binding.args[0]);
        }
        let out: Vec<String> = Vec::new();
        assert(crate::text::views(out@) =~= Seq::<Seq<char>>::empty());
        return out;
    }
    let mut out: Vec<String> = Vec::new();
    out.push(copy_string(&binding.base));
    assert(crate::text::views(out@) =~= seq![binding.base@]);
    out
}


// ---------------------------------------------------------------------------
// Replacement fields of `str.format` templates
// ---------------------------------------------------------------------------

pub open spec fn ident_start(c: char) -> bool {
    c == '_' || ('a' <= c && c <= 'z') || ('A' <= c && c <= 'Z')
}

pub open spec fn ident_char(c: char) -> bool {
    ident_start(c) || ('0' <= c && c <= '9')
}

/// An ASCII identifier: a letter or `_`, then letters, digits and `_`.
pub open spec fn identifier(s: Seq<char>) -> bool {
    s.len() > 0 && ident_start(s[0]) && forall|i: int| 1 <= i < s.len() ==> ident_char(#[trigger] s[i])
}

pub fn is_identifier(value: &str) -> (r: bool)
    ensures
        r == identifier(value@),
{
    let x = crate::text::chars_of(value);
    if x.len() == 0 {
        return false;
    }
    let c = x[0];
    if !(c == '_' || ('a' <= c && c <= 'z') || ('A' <= c && c <= 'Z')) {
        return false;
    }
    let mut i: usize = 1;
    while i < x.len()
        invariant
            x@ == value@,
            1 <= i <= x@.len(),
            forall|j: int| 1 <= j < i ==> ident_char(#[trigger] x@[j]),
        decreases x@.len() - i,
    {
        let d = x[i];
        if !(d == '_' || ('a' <= d && d <= 'z') || ('A' <= d && d <= 'Z') || ('0' <= d && d <= '9')) {
            return false;
        }
        i = i + 1;
    }
    true
}

/// Position of the first `a` or `b` in `s`, or its length.
pub open spec fn stop_at(s: Seq<char>, a: char, b: char) -> nat
    decreases s.len(),
{
    if s.len() == 0 {
        0
    } else if s[0] == a || s[0] == b {
        0
    } else {
        1 + stop_at(s.drop_first(), a, b)
    }
}

/// `s.split([a, b]).next()`: the text before the first `a` or `b`.
pub open spec fn head_before(s: Seq<char>, a: char, b: char) -> Seq<char> {
    s.take(stop_at(s, a, b) as int)
}

proof fn lemma_stop_at(s: Seq<char>, a: char, b: char, k: int)
    requires
        0 <= k <= s.len(),
        forall|j: int| 0 <= j < k ==> #[trigger] s[j] != a && s[j] != b,
        k < s.len() ==> s[k] == a || s[k] == b,
    ensures
        stop_at(s, a, b) == k,
    decreases s.len(),
{
    if s.len() > 0 && k > 0 {
        assert forall|j: int| 0 <= j < k - 1 implies #[trigger] s.drop_first()[j] != a && s.drop_first()[j] != b by {
            assert(s.drop_first()[j] == s[j + 1]);
        }
        lemma_stop_at(s.drop_first(), a, b, k - 1);
    }
}

fn find_stop(x: &Vec<char>, a: char, b: char) -> (r: usize)
    ensures
        r == stop_at(x@, a, b),
        r <= x@.len(),
{
    let mut k: usize = 0;
    while k < x.len() && x[k] != a && x[k] != b
        invariant
            k <= x@.len(),
            forall|j: int| 0 <= j < k ==> #[trigger] x@[j] != a && x@[j] != b,
        decreases x@.len() - k,
    {
        k = k + 1;
    }
    proof {
        lemma_stop_at(x@, a, b, k as int);
    }
    k
}

/// A field `{argument.member}` of a template.
pub struct ReplacementField {
    pub argument: String,
    pub member: String,
}

/// The argument and member that the text between the braces of a
/// replacement field names: of the field name (before any `!` conversion
/// or `:` format spec, trimmed), the part before the first `.` and the
/// attribute after it (up to a further `.` or `[`, trimmed), both
/// identifiers.
pub open spec fn field_of(content: Seq<char>) -> Option<(Seq<char>, Seq<char>)> {
    let name = crate::text::trim(head_before(content, '!', ':'));
    match crate::text::split_once(name, '.') {
        Some(parts) => {
            let member = crate::text::trim(head_before(parts.1, '.', '['));
            if identifier(parts.0) && identifier(member) {
                Some((parts.0, member))
            } else {
                None
            }
        },
        None => None,
    }
}

pub fn replacement_field(content: &str) -> (r: Option<ReplacementField>)
    ensures
        match field_of(content@) {
            Some(p) => r is Some && r->0.argument@ == p.0 && r->0.member@ == p.1,
            None => r is None,
        },
{
    let x = crate::text::chars_of(content);
    let k = find_stop(&x, '!', ':');
    let name = crate::text::string_of(&crate::text::trim_chars(&crate::text::take_chars(&x, k)));
    match crate::text::split_once_char(name.as_str(), '.') {
        Some(parts) => {
            let y = crate::text::chars_of(parts.1.as_str());
            let m = find_stop(&y, '.', '[');
            let member = crate::text::string_of(&crate::text::trim_chars(&crate::text::take_chars(&y, m)));
            if is_identifier(parts.0.as_str()) && is_identifier(member.as_str()) {
                Some(ReplacementField { argument: parts.0, member })
            } else {
                None
            }
        },
        None => None,
    }
}

pub open spec fn opt_field(f: Option<(Seq<char>, Seq<char>)>) -> Seq<(Seq<char>, Seq<char>)> {
    match f {
        Some(p) => seq![p],
        None => Seq::empty(),
    }
}

/// The fields `{argument.member}` of a `str.format` template, in order:
/// `{{` is an escaped brace, and a field runs to the next `}` or to the end.
pub open spec fn fields_of(s: Seq<char>) -> Seq<(Seq<char>, Seq<char>)>
    decreases s.len(),
{
    if s.len() == 0 {
        Seq::empty()
    } else if s[0] != '{' {
        fields_of(s.drop_first())
    } else if s.len() >= 2 && s[1] == '{' {
        fields_of(s.skip(2))
    } else {
        let rest = s.drop_first();
        let k = crate::text::first_index(rest, '}');
        proof {
            crate::text::lemma_first_index(rest, '}');
        }
        if k < 0 {
            opt_field(field_of(rest))
        } else {
            opt_field(field_of(rest.take(k))) + fields_of(rest.skip(k + 1))
        }
    }
}

pub open spec fn field_views(fields: Seq<ReplacementField>) -> Seq<(Seq<char>, Seq<char>)> {
    fields.map_values(|f: ReplacementField| (f.argument@, f.member@))
}

pub fn string_format_replacement_fields(template: &str) -> (r: Vec<ReplacementField>)
    ensures
        field_views(r@) == fields_of(template@),
{
    let x = crate::text::chars_of(template);
    let n = x.len();
    let mut out: Vec<ReplacementField> = Vec::new();
    let mut i: usize = 0;
    proof {
        assert(x@.skip(0) =~= x@);
        assert(field_views(out@) + fields_of(x@.skip(0)) =~= fields_of(x@));
    }
    while i < n
        invariant
            n == x@.len(),
            x@ == template@,
            i <= n,
            field_views(out@) + fields_of(x@.skip(i as int)) == fields_of(x@),
        decreases n - i,
    {
        let ghost s = x@.skip(i as int);
        if x[i] != '{' {
            proof {
                assert(s.drop_first() =~= x@.skip(i + 1));
            }
            i = i + 1;
        } else if i + 1 < n && x[i + 1] == '{' {
            proof {
                assert(s.skip(2) =~= x@.skip(i + 2));
            }
            i = i + 2;
        } else {
            let mut j: usize = i + 1;
            while j < n && x[j] != '}'
                invariant
                    n == x@.len(),
                    i + 1 <= j <= n,
                    forall|q: int| i + 1 <= q < j ==> #[trigger] x@[q] != '}',
                decreases n - j,
            {
                j = j + 1;
            }
            let content = crate::text::slice_string(template, i + 1, j);
            let ghost rest = s.drop_first();
            proof {
                assert(rest =~= x@.skip(i + 1));
                let k: int = if j < n { j - i - 1 } else { -1 };
                assert forall|q: int| 0 <= q < rest.len() && (k < 0 || q < k) implies rest[q] != '}' by {
                    assert(rest[q] == x@[q + i + 1]);
                }
                crate::text::lemma_first_index_unique(rest, '}', k);
                if j < n {
                    assert(rest.take(k) =~= content@);
                    assert(rest.skip(k + 1) =~= x@.skip(j + 1));
                } else {
                    assert(rest =~= content@);
                }
            }
            let ghost before = out@;
            match replacement_field(content.as_str()) {
                Some(f) => {
                    out.push(f);
                    proof {
                        assert(field_views(out@) =~= field_views(before) + opt_field(field_of(content@)));
                    }
                },
                None => {
                    proof {
                        assert(field_views(out@) =~= field_views(before) + opt_field(field_of(content@)));
                    }
                },
            }
            if j < n {
                proof {
                    assert(field_views(out@) + fields_of(x@.skip(j + 1)) =~= field_views(before) + fields_of(s));
                }
                i = j + 1;
            } else {
                proof {
                    assert(x@.skip(n as int) =~= Seq::<char>::empty());
                    assert(field_views(out@) + fields_of(x@.skip(n as int)) =~= field_views(before) + fields_of(s));
                }
                i = n;
            }
        }
    }
    proof {
        assert(x@.skip(n as int) =~= Seq::<char>::empty());
        assert(field_views(out@) =~= field_views(out@) + fields_of(x@.skip(n as int)));
    }
    out
}


// ---------------------------------------------------------------------------
// Fields of a class and its bases
// ---------------------------------------------------------------------------

/// Position of the first class of `classes` named `name`.
pub open spec fn first_class(classes: Seq<ClassInfo>, name: Seq<char>) -> Option<int>
    decreases classes.len(),
{
    if classes.len() == 0 {
        None
    } else if classes[0].class@ == name {
        Some(0)
    } else {
        match first_class(classes.drop_first(), name) {
            Some(k) => Some(k + 1),
            None => None,
        }
    }
}

proof fn lemma_first_class(classes: Seq<ClassInfo>, name: Seq<char>)
    ensures
        match first_class(classes, name) {
            Some(k) => 0 <= k < classes.len() && classes[k].class@ == name && forall|j: int|
                0 <= j < k ==> #[trigger] classes[j].class@ != name,
            None => forall|j: int| 0 <= j < classes.len() ==> #[trigger] classes[j].class@ != name,
        },
    decreases classes.len(),
{
    if classes.len() > 0 && classes[0].class@ != name {
        lemma_first_class(classes.drop_first(), name);
        assert forall|j: int| 1 <= j < classes.len() implies #[trigger] classes[j].class@ == classes.drop_first()[j - 1].class@ by {}
    }
}

proof fn lemma_first_class_at(classes: Seq<ClassInfo>, name: Seq<char>, k: int)
    requires
        0 <= k <= classes.len(),
        k < classes.len() ==> classes[k].class@ == name,
        forall|j: int| 0 <= j < k ==> #[trigger] classes[j].class@ != name,
    ensures
        first_class(classes, name) == if k < classes.len() { Some(k) } else { None::<int> },
    decreases classes.len(),
{
    if classes.len() > 0 && k > 0 {
        assert forall|j: int| 0 <= j < k - 1 implies #[trigger] classes.drop_first()[j].class@ != name by {
            assert(classes.drop_first()[j] == classes[j + 1]);
        }
        lemma_first_class_at(classes.drop_first(), name, k - 1);
    }
}

fn find_first_class(classes: &Vec<ClassInfo>, name: &str) -> (r: Option<usize>)
    ensures
        match r {
            Some(k) => first_class(classes@, name@) == Some(k as int) && k < classes@.len(),
            None => first_class(classes@, name@) is None,
        },
{
    let mut k: usize = 0;
    while k < classes.len()
        invariant
            k <= classes@.len(),
            forall|j: int| 0 <= j < k ==> #[trigger] classes@[j].class@ != name@,
        decreases classes@.len() - k,
    {
        if same_text(classes[k].class.as_str(), name) {
            proof {
                lemma_first_class_at(classes@, name@, k as int);
            }
            return Some(k);
        }
        k = k + 1;
    }
    proof {
        lemma_first_class_at(classes@, name@, k as int);
    }
    None
}

pub open spec fn annotation_binding(a: FieldAnnotation) -> TypeBinding {
    match a {
        FieldAnnotation::Concrete(t) => t,
    }
}

/// The fields a class declares, by name and binding.
pub open spec fn field_pairs(info: ClassInfo) -> Seq<(Seq<char>, TypeBinding)> {
    info.fields@.map_values(|f: ClassFieldInfo| (f.name@, annotation_binding(f.annotation)))
}

/// Depth first from the class named `c`, skipping the names in `visited`
/// (and, with no `fuel` left, everything): the names visited after it, and
/// the fields collected, each class's bases (in order) before its own.
pub open spec fn fields_walk(classes: Seq<ClassInfo>, c: Seq<char>, visited: Seq<Seq<char>>, fuel: nat) -> (
    Seq<Seq<char>>,
    Seq<(Seq<char>, TypeBinding)>,
)
    decreases fuel, 0int, 0int,
{
    if fuel == 0 || visited.contains(c) {
        (visited, Seq::empty())
    } else {
        match first_class(classes, c) {
            None => (visited.push(c), Seq::empty()),
            Some(k) => {
                let r = bases_walk(classes, classes[k].bases@, 0, visited.push(c), (fuel - 1) as nat);
                (r.0, r.1 + field_pairs(classes[k]))
            },
        }
    }
}

/// The walk from each of `bases` from position `i` on, in order.
pub open spec fn bases_walk(
    classes: Seq<ClassInfo>,
    bases: Seq<TypeBinding>,
    i: int,
    visited: Seq<Seq<char>>,
    fuel: nat,
) -> (Seq<Seq<char>>, Seq<(Seq<char>, TypeBinding)>)
    decreases fuel, 1int, bases.len() - i,
{
    if i < 0 || i >= bases.len() {
        (visited, Seq::empty())
    } else {
        let a = fields_walk(classes, bases[i].base@, visited, fuel);
        let b = bases_walk(classes, bases, i + 1, a.0, fuel);
        (b.0, a.1 + b.1)
    }
}

/// Classes of `classes` whose names are not among `visited`.
pub open spec fn unvisited_classes(classes: Seq<ClassInfo>, visited: Seq<Seq<char>>) -> nat
    decreases classes.len(),
{
    if classes.len() == 0 {
        0
    } else {
        unvisited_classes(classes.drop_last(), visited) + if visited.contains(classes.last().class@) {
            0nat
        } else {
            1nat
        }
    }
}

/// Visiting more names leaves no more classes unvisited, and strictly
/// fewer once a class's name is visited.
proof fn lemma_unvisited_classes(classes: Seq<ClassInfo>, a: Seq<Seq<char>>, b: Seq<Seq<char>>, k: int)
    requires
        forall|x: Seq<char>| a.contains(x) ==> b.contains(x),
    ensures
        unvisited_classes(classes, b) <= unvisited_classes(classes, a),
        0 <= k < classes.len() && b.contains(classes[k].class@) && !a.contains(classes[k].class@)
            ==> unvisited_classes(classes, b) < unvisited_classes(classes, a),
    decreases classes.len(),
{
    if classes.len() > 0 {
        lemma_unvisited_classes(classes.drop_last(), a, b, k);
        if 0 <= k < classes.len() - 1 {
            assert(classes.drop_last()[k] == classes[k]);
        }
    }
}

/// Exact pairs of names and equal bindings.
pub open spec fn same_fields(a: Seq<(String, TypeBinding)>, b: Seq<(Seq<char>, TypeBinding)>) -> bool {
    a.len() == b.len() && forall|i: int| 0 <= i < a.len() ==> #[trigger] a[i].0@ == b[i].0 && same_type(a[i].1, b[i].1)
}

pub open spec fn grew_by(
    before: Seq<(String, TypeBinding)>,
    after: Seq<(String, TypeBinding)>,
    more: Seq<(Seq<char>, TypeBinding)>,
) -> bool {
    after.len() == before.len() + more.len() && after.take(before.len() as int) == before && same_fields(
        after.skip(before.len() as int),
        more,
    )
}

proof fn lemma_grew_by_trans(
    a: Seq<(String, TypeBinding)>,
    b: Seq<(String, TypeBinding)>,
    c: Seq<(String, TypeBinding)>,
    m1: Seq<(Seq<char>, TypeBinding)>,
    m2: Seq<(Seq<char>, TypeBinding)>,
)
    requires
        grew_by(a, b, m1),
        grew_by(b, c, m2),
    ensures
        grew_by(a, c, m1 + m2),
{
    assert(c.take(a.len() as int) =~= a) by {
        assert forall|i: int| 0 <= i < a.len() implies c.take(a.len() as int)[i] == a[i] by {
            assert(c[i] == c.take(b.len() as int)[i]);
            assert(b[i] == b.take(a.len() as int)[i]);
        }
    }
    assert forall|i: int| 0 <= i < c.skip(a.len() as int).len() implies #[trigger] c.skip(a.len() as int)[i].0@ == (m1
        + m2)[i].0 && same_type(c.skip(a.len() as int)[i].1, (m1 + m2)[i].1) by {
        if i < m1.len() {
            assert(c[a.len() + i] == c.take(b.len() as int)[a.len() + i]);
            assert(b.skip(a.len() as int)[i] == b[a.len() + i]);
        } else {
            assert(c.skip(b.len() as int)[i - m1.len()] == c[a.len() + i]);
        }
    }
}

proof fn lemma_walk_grows(classes: Seq<ClassInfo>, c: Seq<char>, v: Seq<Seq<char>>, fuel: nat)
    ensures
        fields_walk(classes, c, v, fuel).0.len() >= v.len(),
        fields_walk(classes, c, v, fuel).0.take(v.len() as int) == v,
    decreases fuel, 0int, 0int,
{
    if fuel > 0 && !v.contains(c) {
        let v1 = v.push(c);
        assert(v1.take(v.len() as int) =~= v);
        if let Some(k) = first_class(classes, c) {
            lemma_bases_grows(classes, classes[k].bases@, 0, v1, (fuel - 1) as nat);
            let w = fields_walk(classes, c, v, fuel).0;
            assert(w.take(v.len() as int) =~= v) by {
                assert forall|j: int| 0 <= j < v.len() implies w.take(v.len() as int)[j] == v[j] by {
                    assert(w[j] == w.take(v1.len() as int)[j]);
                }
            }
        }
    } else {
        assert(v.take(v.len() as int) =~= v);
    }
}

proof fn lemma_bases_grows(classes: Seq<ClassInfo>, bases: Seq<TypeBinding>, i: int, v: Seq<Seq<char>>, fuel: nat)
    ensures
        bases_walk(classes, bases, i, v, fuel).0.len() >= v.len(),
        bases_walk(classes, bases, i, v, fuel).0.take(v.len() as int) == v,
    decreases fuel, 1int, bases.len() - i,
{
    if 0 <= i < bases.len() {
        lemma_walk_grows(classes, bases[i].base@, v, fuel);
        let a = fields_walk(classes, bases[i].base@, v, fuel);
        lemma_bases_grows(classes, bases, i + 1, a.0, fuel);
        let w = bases_walk(classes, bases, i, v, fuel).0;
        assert(w.take(v.len() as int) =~= v) by {
            assert forall|j: int| 0 <= j < v.len() implies w.take(v.len() as int)[j] == v[j] by {
                assert(w[j] == w.take(a.0.len() as int)[j]);
                assert(a.0[j] == a.0.take(v.len() as int)[j]);
            }
        }
    } else {
        assert(v.take(v.len() as int) =~= v);
    }
}

proof fn lemma_prefix_contains(a: Seq<Seq<char>>, b: Seq<Seq<char>>)
    requires
        b.len() >= a.len(),
        b.take(a.len() as int) == a,
    ensures
        forall|x: Seq<char>| a.contains(x) ==> b.contains(x),
{
    assert forall|x: Seq<char>| a.contains(x) implies b.contains(x) by {
        let j = choose|j: int| 0 <= j < a.len() && a[j] == x;
        assert(b[j] == b.take(a.len() as int)[j]);
    }
}

/// Enough fuel to visit every class gives the same walk.
proof fn lemma_walk_fuel(classes: Seq<ClassInfo>, c: Seq<char>, v: Seq<Seq<char>>, f1: nat, f2: nat)
    requires
        f1 > unvisited_classes(classes, v),
        f2 > unvisited_classes(classes, v),
    ensures
        fields_walk(classes, c, v, f1) == fields_walk(classes, c, v, f2),
    decreases f1 + f2, 0int, 0int,
{
    if !v.contains(c) {
        if let Some(k) = first_class(classes, c) {
            lemma_first_class(classes, c);
            let v1 = v.push(c);
            assert forall|x: Seq<char>| v.contains(x) implies v1.contains(x) by {
                let j = choose|j: int| 0 <= j < v.len() && v[j] == x;
                assert(v1[j] == x);
            }
            assert(v1[v.len() as int] == c);
            lemma_unvisited_classes(classes, v, v1, k);
            lemma_bases_fuel(classes, classes[k].bases@, 0, v1, (f1 - 1) as nat, (f2 - 1) as nat);
        }
    }
}

proof fn lemma_bases_fuel(classes: Seq<ClassInfo>, bases: Seq<TypeBinding>, i: int, v: Seq<Seq<char>>, f1: nat, f2: nat)
    requires
        f1 > unvisited_classes(classes, v),
        f2 > unvisited_classes(classes, v),
    ensures
        bases_walk(classes, bases, i, v, f1) == bases_walk(classes, bases, i, v, f2),
    decreases f1 + f2, 1int, bases.len() - i,
{
    if 0 <= i < bases.len() {
        lemma_walk_fuel(classes, bases[i].base@, v, f1, f2);
        let a = fields_walk(classes, bases[i].base@, v, f1);
        lemma_walk_grows(classes, bases[i].base@, v, f1);
        lemma_prefix_contains(v, a.0);
        lemma_unvisited_classes(classes, v, a.0, -1);
        lemma_bases_fuel(classes, bases, i + 1, a.0, f1, f2);
    }
}

/// Collects, depth first from the class named `class_name`, the fields of
/// every class not yet in `visited`, each class's bases before its own
/// fields. Classes are found by name in `classes`,
/// the first of that name; a name that is no class is visited and holds
/// nothing.
pub fn collect_class_fields(
    classes: &Vec<ClassInfo>,
    class_name: &str,
    fields: &mut Vec<(String, TypeBinding)>,
    visited: &mut Vec<String>,
)
    ensures
        forall|fuel: nat|
            fuel > unvisited_classes(classes@, views(old(visited)@)) ==> {
                let w = #[trigger] fields_walk(classes@, class_name@, views(old(visited)@), fuel);
                views(final(visited)@) == w.0 && grew_by(old(fields)@, final(fields)@, w.1)
            },
    decreases unvisited_classes(classes@, views(old(visited)@)),
{
    let ghost v0 = views(visited@);
    let ghost f0 = fields@;
    proof {
        assert(f0.take(f0.len() as int) =~= f0);
        assert(f0.skip(f0.len() as int).len() == 0);
    }
    if crate::text::contains_string(visited, class_name) {
        proof {
            let j = choose|j: int| 0 <= j < visited@.len() && #[trigger] visited@[j]@ == class_name@;
            assert(v0[j] == class_name@);
        }
        return;
    }
    proof {
        assert(!v0.contains(class_name@)) by {
            if v0.contains(class_name@) {
                let j = choose|j: int| 0 <= j < v0.len() && v0[j] == class_name@;
                assert(visited@[j]@ == class_name@);
            }
        }
    }
    visited.push(String::from_str(class_name));
    let ghost v1 = views(visited@);
    proof {
        assert(v1 =~= v0.push(class_name@));
    }
    let k = match find_first_class(classes, class_name) {
        Some(k) => k,
        None => {
            return;
        },
    };
    let info = &classes[k];
    let ghost u0 = unvisited_classes(classes@, v0);
    proof {
        lemma_first_class(classes@, class_name@);
        assert(v1.take(v0.len() as int) =~= v0);
        lemma_prefix_contains(v0, v1);
        assert(v1[v0.len() as int] == class_name@);
        lemma_unvisited_classes(classes@, v0, v1, k as int);
    }
    let ghost mut acc: Seq<(Seq<char>, TypeBinding)> = Seq::empty();
    let mut i: usize = 0;
    while i < info.bases.len()
        invariant
            *info == classes@[k as int],
            k < classes@.len(),
            first_class(classes@, class_name@) == Some(k as int),
            v0 == views(old(visited)@),
            v1 == v0.push(class_name@),
            !v0.contains(class_name@),
            u0 == unvisited_classes(classes@, v0),
            unvisited_classes(classes@, v1) < u0,
            i <= info.bases@.len(),
            forall|x: Seq<char>| v1.contains(x) ==> views(visited@).contains(x),
            grew_by(f0, fields@, acc),
            forall|fuel: nat|
                fuel > u0 ==> #[trigger] bases_walk(classes@, info.bases@, 0, v1, (fuel - 1) as nat) == {
                    let b = bases_walk(classes@, info.bases@, i as int, views(visited@), (fuel - 1) as nat);
                    (b.0, acc + b.1)
                },
        decreases info.bases@.len() - i,
    {
        let ghost vb = views(visited@);
        let ghost fb = fields@;
        proof {
            lemma_unvisited_classes(classes@, v1, vb, -1);
        }
        collect_class_fields(classes, info.bases[i].base.as_str(), fields, visited);
        proof {
            let va = views(visited@);
            let base = info.bases@[i as int].base@;
            let a = fields_walk(classes@, base, vb, u0);
            assert(u0 > unvisited_classes(classes@, vb));
            assert(va == a.0 && grew_by(fb, fields@, a.1));
            lemma_walk_grows(classes@, base, vb, u0);
            lemma_grew_by_trans(f0, fb, fields@, acc, a.1);
            assert forall|fuel: nat| fuel > u0 implies #[trigger] bases_walk(classes@, info.bases@, 0, v1, (fuel - 1) as nat) == {
                let b = bases_walk(classes@, info.bases@, i + 1, va, (fuel - 1) as nat);
                (b.0, (acc + a.1) + b.1)
            } by {
                let f1 = (fuel - 1) as nat;
                lemma_walk_fuel(classes@, base, vb, f1, u0);
                let b = bases_walk(classes@, info.bases@, i + 1, va, f1);
                assert(acc + (a.1 + b.1) =~= (acc + a.1) + b.1);
            }
            assert forall|x: Seq<char>| v1.contains(x) implies va.contains(x) by {
                assert(vb.contains(x));
                let j = choose|j: int| 0 <= j < vb.len() && vb[j] == x;
                assert(va[j] == va.take(vb.len() as int)[j]);
            }
            acc = acc + a.1;
        }
        i = i + 1;
    }
    let ghost fl = fields@;
    proof {
        assert(fl.take(fl.len() as int) =~= fl);
        assert(field_pairs(*info).take(0) =~= Seq::<(Seq<char>, TypeBinding)>::empty());
        assert(fl.skip(fl.len() as int).len() == 0);
    }
    let mut j: usize = 0;
    while j < info.fields.len()
        invariant
            *info == classes@[k as int],
            j <= info.fields@.len(),
            grew_by(fl, fields@, field_pairs(*info).take(j as int)),
        decreases info.fields@.len() - j,
    {
        let ghost fj = fields@;
        let name = copy_string(&info.fields[j].name);
        let binding = match &info.fields[j].annotation {
            FieldAnnotation::Concrete(t) => t.duplicate(),
        };
        fields.push((name, binding));
        proof {
            assert(field_pairs(*info).take(j + 1) =~= field_pairs(*info).take(j as int).push(field_pairs(*info)[j as int]));
            assert(fields@.take(fl.len() as int) =~= fl) by {
                assert forall|q: int| 0 <= q < fl.len() implies fields@.take(fl.len() as int)[q] == fl[q] by {
                    assert(fj[q] == fj.take(fl.len() as int)[q]);
                }
            }
            assert forall|q: int| 0 <= q < fields@.skip(fl.len() as int).len() implies #[trigger] fields@.skip(fl.len() as int)[q].0@
                == field_pairs(*info).take(j + 1)[q].0 && same_type(
                fields@.skip(fl.len() as int)[q].1,
                field_pairs(*info).take(j + 1)[q].1,
            ) by {
                if q < j {
                    assert(fields@[fl.len() + q] == fj[fl.len() + q]);
                    assert(fj.skip(fl.len() as int)[q] == fj[fl.len() + q]);
                }
            }
        }
        j = j + 1;
    }
    proof {
        assert(field_pairs(*info).take(info.fields@.len() as int) =~= field_pairs(*info));
        lemma_grew_by_trans(f0, fl, fields@, acc, field_pairs(*info));
        assert forall|fuel: nat| fuel > unvisited_classes(classes@, v0) implies {
            let w = #[trigger] fields_walk(classes@, class_name@, v0, fuel);
            views(visited@) == w.0 && grew_by(f0, fields@, w.1)
        } by {
            let f1 = (fuel - 1) as nat;
            let r = bases_walk(classes@, info.bases@, 0, v1, f1);
            let b = bases_walk(classes@, info.bases@, info.bases@.len() as int, views(visited@), f1);
            assert(r == (b.0, acc + b.1));
            assert(b.1 =~= Seq::<(Seq<char>, TypeBinding)>::empty());
            assert(acc + b.1 =~= acc);
            assert(fields_walk(classes@, class_name@, v0, fuel) == (r.0, r.1 + field_pairs(classes@[k as int])));
        }
    }
}


pub proof fn lemma_unvisited_bound(classes: Seq<ClassInfo>, v: Seq<Seq<char>>)
    ensures
        unvisited_classes(classes, v) <= classes.len(),
    decreases classes.len(),
{
    if classes.len() > 0 {
        lemma_unvisited_bound(classes.drop_last(), v);
    }
}

/// The fields of the class named `class_name` and of its bases, bases
/// first.
pub fn class_fields(classes: &Vec<ClassInfo>, class_name: &str) -> (r: Vec<(String, TypeBinding)>)
    ensures
        same_fields(r@, fields_walk(classes@, class_name@, Seq::empty(), (classes@.len() + 1) as nat).1),
{
    let mut fields: Vec<(String, TypeBinding)> = Vec::new();
    let mut visited: Vec<String> = Vec::new();
    collect_class_fields(classes, class_name, &mut fields, &mut visited);
    proof {
        assert(views(Seq::<String>::empty()) =~= Seq::<Seq<char>>::empty());
        lemma_unvisited_bound(classes@, Seq::empty());
        let w = fields_walk(classes@, class_name@, Seq::empty(), (classes@.len() + 1) as nat);
        assert(fields@.skip(0) =~= fields@);
    }
    fields
}

/// Some field of `fs` is named `x`.
pub open spec fn field_named(fs: Seq<(Seq<char>, TypeBinding)>, x: Seq<char>) -> bool {
    exists|i: int| 0 <= i < fs.len() && #[trigger] fs[i].0 == x
}

proof fn lemma_field_named_add(a: Seq<(Seq<char>, TypeBinding)>, b: Seq<(Seq<char>, TypeBinding)>)
    ensures
        forall|x: Seq<char>| field_named(a + b, x) <==> field_named(a, x) || field_named(b, x),
{
    assert forall|x: Seq<char>| field_named(a + b, x) <==> field_named(a, x) || field_named(b, x) by {
        if field_named(a + b, x) {
            let i = choose|i: int| 0 <= i < (a + b).len() && #[trigger] (a + b)[i].0 == x;
            if i >= a.len() {
                assert(b[i - a.len()].0 == x);
            }
        }
        if field_named(a, x) {
            let i = choose|i: int| 0 <= i < a.len() && #[trigger] a[i].0 == x;
            assert((a + b)[i].0 == x);
        }
        if field_named(b, x) {
            let i = choose|i: int| 0 <= i < b.len() && #[trigger] b[i].0 == x;
            assert((a + b)[a.len() + i].0 == x);
        }
    }
}

/// Adds `name` to a set of names (`HashSet::insert`).
fn insert_name(names: &mut Vec<String>, name: &String)
    requires
        crate::hierarchy::distinct(old(names)@),
    ensures
        crate::hierarchy::distinct(final(names)@),
        forall|x: Seq<char>| #[trigger] crate::text::holds(final(names)@, x) <==> crate::text::holds(old(names)@, x) || x == name@,
{
    if crate::text::contains_string(names, name.as_str()) {
        return;
    }
    let ghost before = names@;
    names.push(copy_string(name));
    proof {
        assert forall|x: Seq<char>| crate::text::holds(names@, x) <==> crate::text::holds(before, x) || x == name@ by {
            if crate::text::holds(before, x) {
                let j = choose|j: int| 0 <= j < before.len() && #[trigger] before[j]@ == x;
                assert(names@[j] == before[j]);
            }
            if crate::text::holds(names@, x) {
                let j = choose|j: int| 0 <= j < names@.len() && #[trigger] names@[j]@ == x;
                if j < before.len() {
                    assert(names@[j] == before[j]);
                }
            }
            assert(names@[before.len() as int]@ == name@);
        }
        assert forall|i: int, j: int| 0 <= i < j < names@.len() implies names@[i]@ != names@[j]@ by {
            assert(names@[i] == before[i]);
            if j < before.len() {
                assert(names@[j] == before[j]);
            }
        }
    }
}

/// Collects, depth first from the class named `class_name`, the names of
/// the fields of every class not yet in `visited` into the set `fields`; the classes are visited as by
/// `collect_class_fields`.
pub fn collect_class_field_names(
    classes: &Vec<ClassInfo>,
    class_name: &str,
    fields: &mut Vec<String>,
    visited: &mut Vec<String>,
)
    requires
        crate::hierarchy::distinct(old(fields)@),
    ensures
        crate::hierarchy::distinct(final(fields)@),
        forall|fuel: nat|
            fuel > unvisited_classes(classes@, views(old(visited)@)) ==> {
                let w = #[trigger] fields_walk(classes@, class_name@, views(old(visited)@), fuel);
                views(final(visited)@) == w.0 && forall|x: Seq<char>|
                    #[trigger] crate::text::holds(final(fields)@, x) <==> crate::text::holds(old(fields)@, x) || field_named(w.1, x)
            },
    decreases unvisited_classes(classes@, views(old(visited)@)),
{
    let ghost v0 = views(visited@);
    let ghost f0 = fields@;
    if crate::text::contains_string(visited, class_name) {
        proof {
            let j = choose|j: int| 0 <= j < visited@.len() && #[trigger] visited@[j]@ == class_name@;
            assert(v0[j] == class_name@);
        }
        return;
    }
    proof {
        assert(!v0.contains(class_name@)) by {
            if v0.contains(class_name@) {
                let j = choose|j: int| 0 <= j < v0.len() && v0[j] == class_name@;
                assert(visited@[j]@ == class_name@);
            }
        }
    }
    visited.push(String::from_str(class_name));
    let ghost v1 = views(visited@);
    proof {
        assert(v1 =~= v0.push(class_name@));
    }
    let k = match find_first_class(classes, class_name) {
        Some(k) => k,
        None => {
            return;
        },
    };
    let info = &classes[k];
    let ghost u0 = unvisited_classes(classes@, v0);
    proof {
        lemma_first_class(classes@, class_name@);
        assert(v1.take(v0.len() as int) =~= v0);
        lemma_prefix_contains(v0, v1);
        assert(v1[v0.len() as int] == class_name@);
        lemma_unvisited_classes(classes@, v0, v1, k as int);
    }
    let mut j: usize = 0;
    while j < info.fields.len()
        invariant
            *info == classes@[k as int],
            j <= info.fields@.len(),
            crate::hierarchy::distinct(fields@),
            forall|x: Seq<char>|
                #[trigger] crate::text::holds(fields@, x) <==> crate::text::holds(f0, x) || field_named(field_pairs(*info).take(j as int), x),
        decreases info.fields@.len() - j,
    {
        let ghost before = fields@;
        insert_name(fields, &info.fields[j].name);
        proof {
            let own = field_pairs(*info);
            assert(own[j as int].0 == info.fields@[j as int].name@);
            assert(own.take(j + 1) =~= own.take(j as int).push(own[j as int]));
            assert forall|x: Seq<char>| field_named(own.take(j + 1), x) <==> field_named(own.take(j as int), x) || x
                == info.fields@[j as int].name@ by {
                if field_named(own.take(j + 1), x) {
                    let q = choose|q: int| 0 <= q < own.take(j + 1).len() && #[trigger] own.take(j + 1)[q].0 == x;
                    if q < j {
                        assert(own.take(j as int)[q].0 == x);
                    }
                }
                if field_named(own.take(j as int), x) {
                    let q = choose|q: int| 0 <= q < own.take(j as int).len() && #[trigger] own.take(j as int)[q].0 == x;
                    assert(own.take(j + 1)[q].0 == x);
                }
                if x == info.fields@[j as int].name@ {
                    assert(own.take(j + 1)[j as int].0 == x);
                }
            }
            assert forall|x: Seq<char>|
                crate::text::holds(fields@, x) <==> crate::text::holds(f0, x) || field_named(own.take(j + 1), x) by {
                assert(crate::text::holds(fields@, x) <==> crate::text::holds(before, x) || x == info.fields@[j as int].name@);
                assert(crate::text::holds(before, x) <==> crate::text::holds(f0, x) || field_named(own.take(j as int), x));
            }
        }
        j = j + 1;
    }
    let ghost mut acc: Seq<(Seq<char>, TypeBinding)> = Seq::empty();
    proof {
        assert(field_pairs(*info).take(info.fields@.len() as int) =~= field_pairs(*info));
        assert forall|x: Seq<char>|
            crate::text::holds(fields@, x) <==> crate::text::holds(f0, x) || field_named(field_pairs(*info), x)
                || field_named(acc, x) by {
            assert(!field_named(acc, x));
        }
    }
    let mut i: usize = 0;
    while i < info.bases.len()
        invariant
            *info == classes@[k as int],
            k < classes@.len(),
            first_class(classes@, class_name@) == Some(k as int),
            v0 == views(old(visited)@),
            v1 == v0.push(class_name@),
            !v0.contains(class_name@),
            u0 == unvisited_classes(classes@, v0),
            unvisited_classes(classes@, v1) < u0,
            i <= info.bases@.len(),
            forall|x: Seq<char>| v1.contains(x) ==> views(visited@).contains(x),
            crate::hierarchy::distinct(fields@),
            forall|x: Seq<char>|
                #[trigger] crate::text::holds(fields@, x) <==> crate::text::holds(f0, x) || field_named(field_pairs(*info), x)
                    || field_named(acc, x),
            forall|fuel: nat|
                fuel > u0 ==> #[trigger] bases_walk(classes@, info.bases@, 0, v1, (fuel - 1) as nat) == {
                    let b = bases_walk(classes@, info.bases@, i as int, views(visited@), (fuel - 1) as nat);
                    (b.0, acc + b.1)
                },
        decreases info.bases@.len() - i,
    {
        let ghost vb = views(visited@);
        let ghost fb = fields@;
        proof {
            lemma_unvisited_classes(classes@, v1, vb, -1);
        }
        collect_class_field_names(classes, info.bases[i].base.as_str(), fields, visited);
        proof {
            let va = views(visited@);
            let base = info.bases@[i as int].base@;
            let a = fields_walk(classes@, base, vb, u0);
            assert(u0 > unvisited_classes(classes@, vb));
            assert(va == a.0);
            lemma_walk_grows(classes@, base, vb, u0);
            lemma_field_named_add(acc, a.1);
            assert forall|fuel: nat| fuel > u0 implies #[trigger] bases_walk(classes@, info.bases@, 0, v1, (fuel - 1) as nat) == {
                let b = bases_walk(classes@, info.bases@, i + 1, va, (fuel - 1) as nat);
                (b.0, (acc + a.1) + b.1)
            } by {
                let f1 = (fuel - 1) as nat;
                lemma_walk_fuel(classes@, base, vb, f1, u0);
                let b = bases_walk(classes@, info.bases@, i + 1, va, f1);
                assert(acc + (a.1 + b.1) =~= (acc + a.1) + b.1);
            }
            assert forall|x: Seq<char>| v1.contains(x) implies va.contains(x) by {
                assert(vb.contains(x));
                let q = choose|q: int| 0 <= q < vb.len() && vb[q] == x;
                assert(va[q] == va.take(vb.len() as int)[q]);
            }
            assert forall|x: Seq<char>|
                crate::text::holds(fields@, x) <==> crate::text::holds(f0, x) || field_named(field_pairs(*info), x)
                    || field_named(acc + a.1, x) by {
                assert(crate::text::holds(fields@, x) <==> crate::text::holds(fb, x) || field_named(a.1, x));
                assert(crate::text::holds(fb, x) <==> crate::text::holds(f0, x) || field_named(field_pairs(*info), x)
                    || field_named(acc, x));
            }
            acc = acc + a.1;
        }
        i = i + 1;
    }
    proof {
        assert forall|fuel: nat| fuel > unvisited_classes(classes@, v0) implies {
            let w = #[trigger] fields_walk(classes@, class_name@, v0, fuel);
            views(visited@) == w.0 && forall|x: Seq<char>|
                crate::text::holds(fields@, x) <==> crate::text::holds(f0, x) || field_named(w.1, x)
        } by {
            let f1 = (fuel - 1) as nat;
            let r = bases_walk(classes@, info.bases@, 0, v1, f1);
            let b = bases_walk(classes@, info.bases@, info.bases@.len() as int, views(visited@), f1);
            assert(r == (b.0, acc + b.1));
            assert(b.1 =~= Seq::<(Seq<char>, TypeBinding)>::empty());
            assert(acc + b.1 =~= acc);
            assert(fields_walk(classes@, class_name@, v0, fuel) == (r.0, r.1 + field_pairs(classes@[k as int])));
            lemma_field_named_add(acc, field_pairs(*info));
            assert forall|x: Seq<char>|
                crate::text::holds(fields@, x) <==> crate::text::holds(f0, x) || field_named(acc + field_pairs(*info), x) by {
                assert(crate::text::holds(fields@, x) <==> crate::text::holds(f0, x) || field_named(field_pairs(*info), x)
                    || field_named(acc, x));
            }
        }
    }
}


/// The names of the fields of the class named `class_name` and of its
/// bases, each once.
pub fn class_field_names(classes: &Vec<ClassInfo>, class_name: &str) -> (r: Vec<String>)
    ensures
        crate::hierarchy::distinct(r@),
        forall|x: Seq<char>|
            #[trigger] crate::text::holds(r@, x) <==> field_named(
                fields_walk(classes@, class_name@, Seq::empty(), (classes@.len() + 1) as nat).1,
                x,
            ),
{
    let mut fields: Vec<String> = Vec::new();
    let mut visited: Vec<String> = Vec::new();
    collect_class_field_names(classes, class_name, &mut fields, &mut visited);
    proof {
        assert(views(Seq::<String>::empty()) =~= Seq::<Seq<char>>::empty());
        lemma_unvisited_bound(classes@, Seq::empty());
        let w = fields_walk(classes@, class_name@, Seq::empty(), (classes@.len() + 1) as nat);
        assert forall|x: Seq<char>| #[trigger] crate::text::holds(fields@, x) <==> field_named(w.1, x) by {
            assert(!crate::text::holds(Seq::<String>::empty(), x));
        }
    }
    fields
}


/// The class named `c` (the first of that name) names `b` among its bases.
pub open spec fn class_has_base(classes: Seq<ClassInfo>, c: Seq<char>, b: Seq<char>) -> bool {
    match first_class(classes, c) {
        Some(k) => exists|j: int| 0 <= j < classes[k].bases@.len() && #[trigger] classes[k].bases@[j].base@ == b,
        None => false,
    }
}

/// Some class that the walk from `c` newly visits names `b` among its bases.
pub open spec fn walk_finds_base(classes: Seq<ClassInfo>, c: Seq<char>, visited: Seq<Seq<char>>, fuel: nat, b: Seq<char>) -> bool {
    let w = fields_walk(classes, c, visited, fuel).0;
    exists|i: int| visited.len() <= i < w.len() && #[trigger] class_has_base(classes, w[i], b)
}

/// Whether a class that the depth-first walk from `concrete_type` visits,
/// skipping `visited`, names `base_type` among its bases; the walk stops at the first such class.
pub fn class_derives_from_inner(
    classes: &Vec<ClassInfo>,
    concrete_type: &str,
    base_type: &str,
    visited: &mut Vec<String>,
) -> (r: bool)
    ensures
        forall|fuel: nat|
            #![trigger walk_finds_base(classes@, concrete_type@, views(old(visited)@), fuel, base_type@)]
            #![trigger fields_walk(classes@, concrete_type@, views(old(visited)@), fuel)]
            fuel > unvisited_classes(classes@, views(old(visited)@)) ==> {
                &&& r == walk_finds_base(classes@, concrete_type@, views(old(visited)@), fuel, base_type@)
                &&& !r ==> views(final(visited)@) == fields_walk(classes@, concrete_type@, views(old(visited)@), fuel).0
            },
    decreases unvisited_classes(classes@, views(old(visited)@)),
{
    let ghost v0 = views(visited@);
    if crate::text::contains_string(visited, concrete_type) {
        proof {
            let j = choose|j: int| 0 <= j < visited@.len() && #[trigger] visited@[j]@ == concrete_type@;
            assert(v0[j] == concrete_type@);
        }
        return false;
    }
    proof {
        assert(!v0.contains(concrete_type@)) by {
            if v0.contains(concrete_type@) {
                let j = choose|j: int| 0 <= j < v0.len() && v0[j] == concrete_type@;
                assert(visited@[j]@ == concrete_type@);
            }
        }
    }
    visited.push(String::from_str(concrete_type));
    let ghost v1 = views(visited@);
    proof {
        assert(v1 =~= v0.push(concrete_type@));
    }
    let k = match find_first_class(classes, concrete_type) {
        Some(k) => k,
        None => {
            proof {
                assert forall|fuel: nat| fuel > unvisited_classes(classes@, v0) implies !#[trigger] walk_finds_base(
                    classes@,
                    concrete_type@,
                    v0,
                    fuel,
                    base_type@,
                ) by {
                    let w = fields_walk(classes@, concrete_type@, v0, fuel).0;
                    assert(w == v1);
                    if exists|i: int| v0.len() <= i < w.len() && #[trigger] class_has_base(classes@, w[i], base_type@) {
                        let i = choose|i: int| v0.len() <= i < w.len() && #[trigger] class_has_base(classes@, w[i], base_type@);
                        assert(w[i] == concrete_type@);
                    }
                }
            }
            return false;
        },
    };
    let info = &classes[k];
    let ghost u0 = unvisited_classes(classes@, v0);
    proof {
        lemma_first_class(classes@, concrete_type@);
        assert(v1.take(v0.len() as int) =~= v0);
        lemma_prefix_contains(v0, v1);
        assert(v1[v0.len() as int] == concrete_type@);
        lemma_unvisited_classes(classes@, v0, v1, k as int);
    }
    let mut i: usize = 0;
    while i < info.bases.len()
        invariant
            *info == classes@[k as int],
            k < classes@.len(),
            first_class(classes@, concrete_type@) == Some(k as int),
            v0 == views(old(visited)@),
            v1 == v0.push(concrete_type@),
            !v0.contains(concrete_type@),
            u0 == unvisited_classes(classes@, v0),
            unvisited_classes(classes@, v1) < u0,
            i <= info.bases@.len(),
            views(visited@).len() >= v1.len(),
            views(visited@).take(v1.len() as int) == v1,
            forall|j: int| 0 <= j < i ==> #[trigger] info.bases@[j].base@ != base_type@,
            forall|q: int| v1.len() <= q < views(visited@).len() ==> !#[trigger] class_has_base(classes@, views(visited@)[q], base_type@),
            forall|fuel: nat|
                fuel > u0 ==> #[trigger] bases_walk(classes@, info.bases@, 0, v1, (fuel - 1) as nat).0 == bases_walk(
                    classes@,
                    info.bases@,
                    i as int,
                    views(visited@),
                    (fuel - 1) as nat,
                ).0,
        decreases info.bases@.len() - i,
    {
        if same_text(info.bases[i].base.as_str(), base_type) {
            proof {
                assert forall|fuel: nat| fuel > u0 implies #[trigger] walk_finds_base(classes@, concrete_type@, v0, fuel, base_type@) by {
                    let f1 = (fuel - 1) as nat;
                    let w = fields_walk(classes@, concrete_type@, v0, fuel).0;
                    lemma_bases_grows(classes@, info.bases@, 0, v1, f1);
                    assert(w[v0.len() as int] == w.take(v1.len() as int)[v0.len() as int]);
                    assert(w[v0.len() as int] == concrete_type@);
                    assert(class_has_base(classes@, w[v0.len() as int], base_type@));
                }
            }
            return true;
        }
        let ghost vb = views(visited@);
        proof {
            lemma_prefix_contains(v1, vb);
            lemma_unvisited_classes(classes@, v1, vb, -1);
        }
        let found = class_derives_from_inner(classes, info.bases[i].base.as_str(), base_type, visited);
        let ghost base = info.bases@[i as int].base@;
        if found {
            proof {
                assert forall|fuel: nat| fuel > u0 implies #[trigger] walk_finds_base(classes@, concrete_type@, v0, fuel, base_type@) by {
                    let f1 = (fuel - 1) as nat;
                    assert(walk_finds_base(classes@, base, vb, f1, base_type@));
                    let a = fields_walk(classes@, base, vb, f1).0;
                    let q = choose|q: int| vb.len() <= q < a.len() && #[trigger] class_has_base(classes@, a[q], base_type@);
                    let b = bases_walk(classes@, info.bases@, i + 1, a, f1);
                    lemma_bases_grows(classes@, info.bases@, i + 1, a, f1);
                    let w = fields_walk(classes@, concrete_type@, v0, fuel).0;
                    assert(w == bases_walk(classes@, info.bases@, 0, v1, f1).0);
                    assert(w == b.0);
                    assert(w[q] == w.take(a.len() as int)[q]);
                    assert(class_has_base(classes@, w[q], base_type@));
                    lemma_prefix_contains(v1, vb);
                    assert(q >= v1.len());
                }
            }
            return true;
        }
        proof {
            let va = views(visited@);
            let a = fields_walk(classes@, base, vb, u0).0;
            assert(u0 > unvisited_classes(classes@, vb));
            assert(!walk_finds_base(classes@, base, vb, u0, base_type@));
            assert(va == a);
            lemma_walk_grows(classes@, base, vb, u0);
            assert(va.take(v1.len() as int) =~= v1) by {
                assert forall|q: int| 0 <= q < v1.len() implies va.take(v1.len() as int)[q] == v1[q] by {
                    assert(va[q] == va.take(vb.len() as int)[q]);
                    assert(vb[q] == vb.take(v1.len() as int)[q]);
                }
            }
            assert forall|q: int| v1.len() <= q < va.len() implies !#[trigger] class_has_base(classes@, va[q], base_type@) by {
                if q < vb.len() {
                    assert(va[q] == va.take(vb.len() as int)[q]);
                } else {
                    assert(!walk_finds_base(classes@, base, vb, u0, base_type@));
                }
            }
            assert forall|fuel: nat| fuel > u0 implies #[trigger] bases_walk(classes@, info.bases@, 0, v1, (fuel - 1) as nat).0
                == bases_walk(classes@, info.bases@, i + 1, va, (fuel - 1) as nat).0 by {
                let f1 = (fuel - 1) as nat;
                lemma_walk_fuel(classes@, base, vb, f1, u0);
            }
        }
        i = i + 1;
    }
    proof {
        assert forall|fuel: nat|
            #![trigger walk_finds_base(classes@, concrete_type@, views(old(visited)@), fuel, base_type@)]
            #![trigger fields_walk(classes@, concrete_type@, views(old(visited)@), fuel)]
            fuel > unvisited_classes(classes@, views(old(visited)@)) implies {
            &&& false == walk_finds_base(classes@, concrete_type@, views(old(visited)@), fuel, base_type@)
            &&& views(visited@) == fields_walk(classes@, concrete_type@, views(old(visited)@), fuel).0
        } by {
            let f1 = (fuel - 1) as nat;
            let w = fields_walk(classes@, concrete_type@, v0, fuel).0;
            assert(w == bases_walk(classes@, info.bases@, 0, v1, f1).0);
            assert(w == views(visited@));
            if walk_finds_base(classes@, concrete_type@, v0, fuel, base_type@) {
                let q = choose|q: int| v0.len() <= q < w.len() && #[trigger] class_has_base(classes@, w[q], base_type@);
                if q == v0.len() {
                    assert(w[q] == w.take(v1.len() as int)[q]);
                    assert(w[q] == concrete_type@);
                    let j = choose|j: int| 0 <= j < classes@[k as int].bases@.len() && #[trigger] classes@[k as int].bases@[j].base@ == base_type@;
                    assert(info.bases@[j].base@ != base_type@);
                }
            }
        }
    }
    false
}

/// Whether a class reached from `concrete_type` through the bases of
/// `classes` names `base_type` among its bases.
pub fn class_derives_from(classes: &Vec<ClassInfo>, concrete_type: &str, base_type: &str) -> (r: bool)
    ensures
        r == walk_finds_base(classes@, concrete_type@, Seq::empty(), (classes@.len() + 1) as nat, base_type@),
{
    let mut visited: Vec<String> = Vec::new();
    proof {
        assert(views(visited@) =~= Seq::<Seq<char>>::empty());
        lemma_unvisited_bound(classes@, Seq::empty());
    }
    class_derives_from_inner(classes, concrete_type, base_type, &mut visited)
}

} // verus!
