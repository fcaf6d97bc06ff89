//! What the module reader records of the code of a module: the names each
//! owner uses, the members it accesses on receivers of known class, the
//! classes it passes to functions, the receivers it cannot type and the
//! keyword payloads it cannot expand.
use vstd::prelude::*;

use crate::analysis::span_view;
use crate::config::{ConstructorRule, DecoratorRule};
use crate::index::{
    AccessKind, CallArgumentType, ClassInfo, FunctionParameter, FunctionSignature, ImportTarget, MemberReference,
    ResolvedImport, SymbolReference, TypeBinding, UnresolvedReceiver, UnsupportedExpansion,
};
use crate::report::SourceSpan;
use crate::resolve::{find_import, import_bound};
use crate::syntax::{ClassDef, Decorator, Expr, FunctionDef, Keyword, Parameter, Position, Stmt};
use crate::text::{contains_string, copy_string, dotted, holds, join_dot, same_text};

verus! {

/// What the reader knows of a module while it reads the module's code: its
/// name and file, the qualified names of its top-level functions and
/// classes, the classes of the project, the module's imports and the
/// configured constructor and decorator rules.
pub struct ReadContext {
    pub module: String,
    pub file: String,
    pub local_names: Vec<String>,
    pub classes: Vec<String>,
    pub imports: Vec<ResolvedImport>,
    pub constructors: Vec<ConstructorRule>,
    pub decorators: Vec<DecoratorRule>,
}

/// A local name of a function body and the class of its value, when known.
pub struct Local {
    pub name: String,
    pub class: Option<String>,
}

pub open spec fn local_view(l: Local) -> (Seq<char>, Option<Seq<char>>) {
    (
        l.name@,
        match l.class {
            Some(c) => Some(c@),
            None => None,
        },
    )
}

pub open spec fn local_views(v: Seq<Local>) -> Seq<(Seq<char>, Option<Seq<char>>)> {
    v.map_values(|l: Local| local_view(l))
}

/// The class of the local `name`: `Some(None)` for a local of unknown class,
/// `None` when `name` is no local; the last binding counts.
pub open spec fn local_class(env: Seq<(Seq<char>, Option<Seq<char>>)>, name: Seq<char>) -> Option<Option<Seq<char>>>
    decreases env.len(),
{
    if env.len() == 0 {
        None
    } else if env.last().0 == name {
        Some(env.last().1)
    } else {
        local_class(env.drop_last(), name)
    }
}

/// What a name of the module's code refers to: a top-level function or
/// class of the module, else what an import binding the name brings in.
pub open spec fn name_target(ctx: ReadContext, id: Seq<char>) -> Option<Seq<char>> {
    if holds(ctx.local_names@, dotted(ctx.module@, id)) {
        Some(dotted(ctx.module@, id))
    } else {
        match import_bound(ctx.imports@, id) {
            Some(ImportTarget::Symbol { module, name, .. }) => Some(dotted(module@, name@)),
            Some(ImportTarget::Module { module, .. }) => Some(module@),
            _ => None,
        }
    }
}

/// The project class a name refers to.
pub open spec fn class_named(ctx: ReadContext, id: Seq<char>) -> Option<Seq<char>> {
    match name_target(ctx, id) {
        Some(t) => if holds(ctx.classes@, t) {
            Some(t)
        } else {
            None
        },
        None => None,
    }
}

/// The class of a receiver: `Some(Some(c))` when known (a local of known
/// class, or a class named directly), `Some(None)` for a local of unknown
/// class, `None` for anything else.
pub open spec fn receiver_class(ctx: ReadContext, env: Seq<(Seq<char>, Option<Seq<char>>)>, e: Expr) -> Option<Option<Seq<char>>> {
    match e {
        Expr::Name { id, .. } => match local_class(env, id@) {
            Some(c) => Some(c),
            None => match class_named(ctx, id@) {
                Some(c) => Some(Some(c)),
                None => None,
            },
        },
        _ => None,
    }
}

/// The type a constructor rule gives to a call of `target`: the first rule
/// that matches it.
pub open spec fn rule_product(rules: Seq<ConstructorRule>, target: Seq<char>) -> Option<Seq<char>>
    decreases rules.len(),
{
    if rules.len() == 0 {
        None
    } else if rules[0].match_@ == target {
        Some(rules[0].produces_type@)
    } else {
        rule_product(rules.drop_first(), target)
    }
}

/// The project class that a call of `func` constructs.
pub open spec fn constructed_class(ctx: ReadContext, env: Seq<(Seq<char>, Option<Seq<char>>)>, func: Expr) -> Option<Seq<char>> {
    match func {
        Expr::Name { id, .. } => if local_class(env, id@) is Some {
            None
        } else {
            class_named(ctx, id@)
        },
        _ => None,
    }
}

/// The class of the value of `e`: a local of known class, an instance of a
/// project class, or the type a constructor rule gives to the call.
pub open spec fn value_class(ctx: ReadContext, env: Seq<(Seq<char>, Option<Seq<char>>)>, e: Expr) -> Option<Seq<char>> {
    match e {
        Expr::Name { id, .. } => match local_class(env, id@) {
            Some(c) => c,
            None => None,
        },
        Expr::Call { func, .. } => match constructed_class(ctx, env, *func) {
            Some(c) => Some(c),
            None => match *func {
                Expr::Name { id, .. } => if local_class(env, id@) is Some {
                    None
                } else {
                    match name_target(ctx, id@) {
                        Some(t) => rule_product(ctx.constructors@, t),
                        None => None,
                    }
                },
                _ => None,
            },
        },
        _ => None,
    }
}

/// The function or class a call of `func` calls, by its qualified name.
pub open spec fn callee_of(ctx: ReadContext, env: Seq<(Seq<char>, Option<Seq<char>>)>, func: Expr) -> Option<Seq<char>> {
    match func {
        Expr::Name { id, .. } => if local_class(env, id@) is Some {
            None
        } else {
            name_target(ctx, id@)
        },
        _ => None,
    }
}

/// The class an annotation names.
pub open spec fn annotation_class(ctx: ReadContext, e: Expr) -> Option<Seq<char>> {
    match e {
        Expr::Name { id, .. } => class_named(ctx, id@),
        _ => None,
    }
}

/// A name bound by `from m import n`, where `m.n` is a project class and the
/// module declares nothing of that name itself, denotes the class `m.n`.
pub proof fn lemma_imported_project_classes_are_named(ctx: ReadContext, id: Seq<char>, m: String, n: String, external: bool)
    requires
        import_bound(ctx.imports@, id) == Some(ImportTarget::Symbol { module: m, name: n, external }),
        !holds(ctx.local_names@, dotted(ctx.module@, id)),
        holds(ctx.classes@, dotted(m@, n@)),
    ensures
        class_named(ctx, id) == Some(dotted(m@, n@)),
{
}

/// A class declared at the top of the module is denoted by its name.
pub proof fn lemma_local_classes_are_named(ctx: ReadContext, id: Seq<char>)
    requires
        holds(ctx.local_names@, dotted(ctx.module@, id)),
        holds(ctx.classes@, dotted(ctx.module@, id)),
    ensures
        class_named(ctx, id) == Some(dotted(ctx.module@, id)),
{
}

/// A name denotes only project classes, and only what it refers to.
pub proof fn lemma_named_classes_are_project_classes(ctx: ReadContext, id: Seq<char>)
    ensures
        class_named(ctx, id) matches Some(c) ==> holds(ctx.classes@, c) && name_target(ctx, id) == Some(c),
{
}

/// A call of a name that denotes a project class, and is no local, makes
/// an instance of that class: the value has that class, and calling a
/// member on a local assigned from it reaches the class's member.
pub proof fn lemma_calls_of_class_names_construct(
    ctx: ReadContext,
    env: Seq<(Seq<char>, Option<Seq<char>>)>,
    func: Expr,
    args: Vec<Expr>,
    keywords: Vec<Keyword>,
    p: Position,
    local: String,
)
    requires
        func matches Expr::Name { id, .. } && local_class(env, id@) is None && class_named(ctx, id@) is Some,
    ensures
        ({
            let c = class_named(ctx, func->Name_id@)->0;
            let call = Expr::Call { func: Box::new(func), args, keywords, position: p };
            &&& constructed_class(ctx, env, func) == Some(c)
            &&& value_class(ctx, env, call) == Some(c)
            &&& receiver_class(ctx, env.push((local@, value_class(ctx, env, call))), Expr::Name { id: local, position: p })
                == Some(Some(c))
        }),
{
}

/// A call of `target` gets the type of the first constructor rule that
/// matches `target`.
pub proof fn lemma_first_matching_rule_gives_the_type(rules: Seq<ConstructorRule>, target: Seq<char>, i: int)
    requires
        0 <= i < rules.len(),
        rules[i].match_@ == target,
        forall|j: int| 0 <= j < i ==> (#[trigger] rules[j]).match_@ != target,
    ensures
        rule_product(rules, target) == Some(rules[i].produces_type@),
    decreases i,
{
    if i > 0 {
        let rest = rules.drop_first();
        assert forall|j: int| 0 <= j < i - 1 implies (#[trigger] rest[j]).match_@ != target by {
            assert(rest[j] == rules[j + 1]);
        }
        lemma_first_matching_rule_gives_the_type(rest, target, i - 1);
    }
}

/// No rule matching `target`, no type.
pub proof fn lemma_unmatched_calls_get_no_type(rules: Seq<ConstructorRule>, target: Seq<char>)
    requires
        forall|j: int| 0 <= j < rules.len() ==> (#[trigger] rules[j]).match_@ != target,
    ensures
        rule_product(rules, target) is None,
    decreases rules.len(),
{
    if rules.len() > 0 {
        let rest = rules.drop_first();
        assert forall|j: int| 0 <= j < rest.len() implies (#[trigger] rest[j]).match_@ != target by {
            assert(rest[j] == rules[j + 1]);
        }
        lemma_unmatched_calls_get_no_type(rest, target);
    }
}

fn copy_opt(o: &Option<String>) -> (r: Option<String>)
    ensures
        match (r, *o) {
            (Some(a), Some(b)) => a@ == b@,
            (None, None) => true,
            _ => false,
        },
{
    match o {
        Some(s) => Some(copy_string(s)),
        None => None,
    }
}

/// `local_class`, computed.
fn find_local(env: &Vec<Local>, name: &str) -> (r: Option<Option<String>>)
    ensures
        match r {
            Some(Some(c)) => local_class(local_views(env@), name@) == Some(Some(c@)),
            Some(None) => local_class(local_views(env@), name@) == Some(None::<Seq<char>>),
            None => local_class(local_views(env@), name@) is None,
        },
{
    let mut i: usize = env.len();
    assert(local_views(env@).take(env@.len() as int) =~= local_views(env@));
    while i > 0
        invariant
            i <= env@.len(),
            local_class(local_views(env@), name@) == local_class(local_views(env@).take(i as int), name@),
        decreases i,
    {
        let ghost t = local_views(env@).take(i as int);
        assert(t.drop_last() =~= local_views(env@).take(i - 1));
        assert(t.last() == local_view(env@[i - 1]));
        if same_text(env[i - 1].name.as_str(), name) {
            return Some(copy_opt(&env[i - 1].class));
        }
        i = i - 1;
    }
    None
}

/// `name_target`, computed.
fn target_of_name(ctx: &ReadContext, id: &str) -> (r: Option<String>)
    ensures
        match r {
            Some(t) => name_target(*ctx, id@) == Some(t@),
            None => name_target(*ctx, id@) is None,
        },
{
    let local = join_dot(ctx.module.as_str(), id);
    if contains_string(&ctx.local_names, local.as_str()) {
        return Some(local);
    }
    match find_import(&ctx.imports, id) {
        Some(j) => match &ctx.imports[j].target {
            ImportTarget::Symbol { module, name, .. } => Some(join_dot(module.as_str(), name.as_str())),
            ImportTarget::Module { module, .. } => Some(copy_string(module)),
            _ => None,
        },
        None => None,
    }
}

/// `class_named`, computed.
fn class_of_name(ctx: &ReadContext, id: &str) -> (r: Option<String>)
    ensures
        match r {
            Some(t) => class_named(*ctx, id@) == Some(t@),
            None => class_named(*ctx, id@) is None,
        },
{
    match target_of_name(ctx, id) {
        Some(t) => if contains_string(&ctx.classes, t.as_str()) {
            Some(t)
        } else {
            None
        },
        None => None,
    }
}

/// `receiver_class`, computed.
fn class_of_receiver(ctx: &ReadContext, env: &Vec<Local>, e: &Expr) -> (r: Option<Option<String>>)
    ensures
        match r {
            Some(Some(c)) => receiver_class(*ctx, local_views(env@), *e) == Some(Some(c@)),
            Some(None) => receiver_class(*ctx, local_views(env@), *e) == Some(None::<Seq<char>>),
            None => receiver_class(*ctx, local_views(env@), *e) is None,
        },
{
    match e {
        Expr::Name { id, .. } => match find_local(env, id.as_str()) {
            Some(c) => Some(c),
            None => match class_of_name(ctx, id.as_str()) {
                Some(c) => Some(Some(c)),
                None => None,
            },
        },
        _ => None,
    }
}

/// `rule_product`, computed.
fn product_of(rules: &Vec<ConstructorRule>, target: &str) -> (r: Option<String>)
    ensures
        match r {
            Some(t) => rule_product(rules@, target@) == Some(t@),
            None => rule_product(rules@, target@) is None,
        },
{
    let mut i: usize = 0;
    assert(rules@.skip(0) =~= rules@);
    while i < rules.len()
        invariant
            i <= rules@.len(),
            rule_product(rules@, target@) == rule_product(rules@.skip(i as int), target@),
        decreases rules@.len() - i,
    {
        assert(rules@.skip(i as int).drop_first() =~= rules@.skip(i + 1));
        assert(rules@.skip(i as int)[0] == rules@[i as int]);
        if same_text(rules[i].match_.as_str(), target) {
            return Some(copy_string(&rules[i].produces_type));
        }
        i = i + 1;
    }
    None
}

/// `constructed_class`, computed.
fn class_constructed(ctx: &ReadContext, env: &Vec<Local>, func: &Expr) -> (r: Option<String>)
    ensures
        match r {
            Some(t) => constructed_class(*ctx, local_views(env@), *func) == Some(t@),
            None => constructed_class(*ctx, local_views(env@), *func) is None,
        },
{
    match func {
        Expr::Name { id, .. } => {
            if find_local(env, id.as_str()).is_some() {
                None
            } else {
                class_of_name(ctx, id.as_str())
            }
        },
        _ => None,
    }
}

/// `value_class`, computed.
fn class_of_value(ctx: &ReadContext, env: &Vec<Local>, e: &Expr) -> (r: Option<String>)
    ensures
        match r {
            Some(t) => value_class(*ctx, local_views(env@), *e) == Some(t@),
            None => value_class(*ctx, local_views(env@), *e) is None,
        },
{
    match e {
        Expr::Name { id, .. } => match find_local(env, id.as_str()) {
            Some(c) => c,
            None => None,
        },
        Expr::Call { func, .. } => match class_constructed(ctx, env, &**func) {
            Some(c) => Some(c),
            None => match &**func {
                Expr::Name { id, .. } => {
                    if find_local(env, id.as_str()).is_some() {
                        None
                    } else {
                        match target_of_name(ctx, id.as_str()) {
                            Some(t) => product_of(&ctx.constructors, t.as_str()),
                            None => None,
                        }
                    }
                },
                _ => None,
            },
        },
        _ => None,
    }
}

/// `callee_of`, computed.
fn callee(ctx: &ReadContext, env: &Vec<Local>, func: &Expr) -> (r: Option<String>)
    ensures
        match r {
            Some(t) => callee_of(*ctx, local_views(env@), *func) == Some(t@),
            None => callee_of(*ctx, local_views(env@), *func) is None,
        },
{
    match func {
        Expr::Name { id, .. } => {
            if find_local(env, id.as_str()).is_some() {
                None
            } else {
                target_of_name(ctx, id.as_str())
            }
        },
        _ => None,
    }
}

/// `annotation_class`, computed.
pub fn class_of_annotation(ctx: &ReadContext, e: &Expr) -> (r: Option<String>)
    ensures
        match r {
            Some(t) => annotation_class(*ctx, *e) == Some(t@),
            None => annotation_class(*ctx, *e) is None,
        },
{
    match e {
        Expr::Name { id, .. } => class_of_name(ctx, id.as_str()),
        _ => None,
    }
}

/// A place of the module's file.
pub type SpanView = (Seq<char>, usize, usize);

/// What the reader records, by value: name references, member references,
/// call-argument classes, unresolved receivers and unsupported expansions.
pub type CollectedView = (
    Seq<(Seq<char>, Seq<char>, SpanView)>,
    Seq<(Seq<char>, Seq<char>, AccessKind, SpanView)>,
    Seq<(Seq<char>, Seq<char>, nat, Seq<char>, SpanView)>,
    Seq<(Seq<char>, Seq<char>, Seq<char>, SpanView)>,
    Seq<(Seq<char>, Seq<char>, SpanView)>,
);

/// What the reader records of some code.
pub struct Collected {
    pub references: Vec<SymbolReference>,
    pub member_references: Vec<MemberReference>,
    pub call_argument_types: Vec<CallArgumentType>,
    pub unresolved_receivers: Vec<UnresolvedReceiver>,
    pub unsupported_expansions: Vec<UnsupportedExpansion>,
}

pub open spec fn collected_view(c: Collected) -> CollectedView {
    (
        c.references@.map_values(|r: SymbolReference| (r.from@, r.name@, span_view(r.span))),
        c.member_references@.map_values(|m: MemberReference| (m.from@, m.target@, m.access, span_view(m.span))),
        c.call_argument_types@.map_values(
            |a: CallArgumentType| (a.from@, a.callee@, a.position as nat, a.concrete_type@, span_view(a.span)),
        ),
        c.unresolved_receivers@.map_values(|u: UnresolvedReceiver| (u.from@, u.receiver@, u.member@, span_view(u.span))),
        c.unsupported_expansions@.map_values(|x: UnsupportedExpansion| (x.from@, x.target@, span_view(x.span))),
    )
}

pub open spec fn nothing() -> CollectedView {
    (Seq::empty(), Seq::empty(), Seq::empty(), Seq::empty(), Seq::empty())
}

/// Everything of `a`, then everything of `b`.
pub open spec fn both(a: CollectedView, b: CollectedView) -> CollectedView {
    (a.0 + b.0, a.1 + b.1, a.2 + b.2, a.3 + b.3, a.4 + b.4)
}

pub open spec fn span_at(file: Seq<char>, p: Position) -> SpanView {
    (file, p.line, p.column)
}

/// Where an expression starts, or `fallback` for one that carries no place.
pub open spec fn expr_position(e: Expr, fallback: Position) -> Position {
    match e {
        Expr::Name { position, .. } => position,
        Expr::Attribute { position, .. } => position,
        Expr::Call { position, .. } => position,
        _ => fallback,
    }
}

/// The access `owner` makes of member `attr` of `value` at `p`: a member
/// reference for a receiver of known class, an unresolved receiver for a
/// local of unknown class, nothing otherwise.
pub open spec fn access_collected(
    ctx: ReadContext,
    owner: Seq<char>,
    env: Seq<(Seq<char>, Option<Seq<char>>)>,
    value: Expr,
    attr: Seq<char>,
    p: Position,
    access: AccessKind,
) -> CollectedView {
    match receiver_class(ctx, env, value) {
        Some(Some(c)) => (Seq::empty(), seq![(owner, dotted(c, attr), access, span_at(ctx.file@, p))], Seq::empty(), Seq::empty(), Seq::empty()),
        Some(None) => match value {
            Expr::Name { id, .. } => (Seq::empty(), Seq::empty(), Seq::empty(), seq![(owner, id@, attr, span_at(ctx.file@, p))], Seq::empty()),
            _ => nothing(),
        },
        None => nothing(),
    }
}

/// The fields that the keyword arguments of a construction of class `c`
/// name, and the `**` payloads that cannot be expanded.
pub open spec fn keyword_construction(ctx: ReadContext, owner: Seq<char>, c: Seq<char>, keywords: Seq<Keyword>) -> CollectedView
    decreases keywords.len(),
{
    if keywords.len() == 0 {
        nothing()
    } else {
        let k = keywords.last();
        both(
            keyword_construction(ctx, owner, c, keywords.drop_last()),
            match k.arg {
                Some(a) => (Seq::empty(), seq![(owner, dotted(c, a@), AccessKind::Construct, span_at(ctx.file@, k.position))], Seq::empty(), Seq::empty(), Seq::empty()),
                None => (Seq::empty(), Seq::empty(), Seq::empty(), Seq::empty(), seq![(owner, c, span_at(ctx.file@, k.position))]),
            },
        )
    }
}

/// The classes that the positional arguments pass to the function `f`, the
/// parameter of each argument counted from `shift` (1 for the `__init__`
/// of a constructed class, whose first parameter is the instance).
pub open spec fn argument_flows(
    ctx: ReadContext,
    owner: Seq<char>,
    env: Seq<(Seq<char>, Option<Seq<char>>)>,
    f: Seq<char>,
    shift: nat,
    args: Seq<Expr>,
    p: Position,
) -> CollectedView
    decreases args.len(),
{
    if args.len() == 0 {
        nothing()
    } else {
        both(
            argument_flows(ctx, owner, env, f, shift, args.drop_last(), p),
            match value_class(ctx, env, args.last()) {
                Some(t) => (
                    Seq::empty(),
                    Seq::empty(),
                    seq![(owner, f, (args.len() - 1 + shift) as nat, t, span_at(ctx.file@, expr_position(args.last(), p)))],
                    Seq::empty(),
                    Seq::empty(),
                ),
                None => nothing(),
            },
        )
    }
}

/// What `owner` records when it evaluates `e`, with the locals `env`.
pub open spec fn expr_collected(ctx: ReadContext, owner: Seq<char>, env: Seq<(Seq<char>, Option<Seq<char>>)>, e: Expr) -> CollectedView
    decreases e,
{
    match e {
        Expr::Name { id, position } => (seq![(owner, id@, span_at(ctx.file@, position))], Seq::empty(), Seq::empty(), Seq::empty(), Seq::empty()),
        Expr::Attribute { value, attr, position } => both(
            access_collected(ctx, owner, env, *value, attr@, position, AccessKind::Read),
            expr_collected(ctx, owner, env, *value),
        ),
        Expr::Call { func, args, keywords, position } => {
            let called = match *func {
                Expr::Attribute { value, attr, position: p } => both(
                    access_collected(ctx, owner, env, *value, attr@, p, AccessKind::Call),
                    expr_collected(ctx, owner, env, *value),
                ),
                other => expr_collected(ctx, owner, env, other),
            };
            let construction = match constructed_class(ctx, env, *func) {
                Some(c) => both(
                    (Seq::empty(), seq![(owner, dotted(c, "__init__"@), AccessKind::Construct, span_at(ctx.file@, position))], Seq::empty(), Seq::empty(), Seq::empty()),
                    keyword_construction(ctx, owner, c, keywords@),
                ),
                None => nothing(),
            };
            let flows = match constructed_class(ctx, env, *func) {
                Some(c) => argument_flows(ctx, owner, env, dotted(c, "__init__"@), 1, args@, position),
                None => match callee_of(ctx, env, *func) {
                    Some(f) => argument_flows(ctx, owner, env, f, 0, args@, position),
                    None => nothing(),
                },
            };
            both(both(both(both(called, construction), flows), exprs_collected(ctx, owner, env, args@)), keywords_collected(ctx, owner, env, keywords@))
        },
        Expr::Compare { left, comparators, .. } => both(expr_collected(ctx, owner, env, *left), exprs_collected(ctx, owner, env, comparators@)),
        _ => nothing(),
    }
}

/// `expr_collected` over expressions, in order.
pub open spec fn exprs_collected(ctx: ReadContext, owner: Seq<char>, env: Seq<(Seq<char>, Option<Seq<char>>)>, es: Seq<Expr>) -> CollectedView
    decreases es,
{
    if es.len() == 0 {
        nothing()
    } else {
        both(exprs_collected(ctx, owner, env, es.drop_last()), expr_collected(ctx, owner, env, es.last()))
    }
}

/// `expr_collected` over the values of keyword arguments, in order.
pub open spec fn keywords_collected(ctx: ReadContext, owner: Seq<char>, env: Seq<(Seq<char>, Option<Seq<char>>)>, ks: Seq<Keyword>) -> CollectedView
    decreases ks,
{
    if ks.len() == 0 {
        nothing()
    } else {
        both(keywords_collected(ctx, owner, env, ks.drop_last()), expr_collected(ctx, owner, env, ks.last().value))
    }
}

/// Nothing recorded.
pub fn collected_nothing() -> (r: Collected)
    ensures
        collected_view(r) == nothing(),
{
    let r = Collected {
        references: Vec::new(),
        member_references: Vec::new(),
        call_argument_types: Vec::new(),
        unresolved_receivers: Vec::new(),
        unsupported_expansions: Vec::new(),
    };
    assert(collected_view(r) =~= nothing());
    r
}

/// Appends everything `b` records to `a`.
pub fn append_collected(a: &mut Collected, b: Collected)
    ensures
        collected_view(*final(a)) == both(collected_view(*old(a)), collected_view(b)),
{
    let ghost va = collected_view(*a);
    let mut b = b;
    let ghost vb = collected_view(b);
    a.references.append(&mut b.references);
    a.member_references.append(&mut b.member_references);
    a.call_argument_types.append(&mut b.call_argument_types);
    a.unresolved_receivers.append(&mut b.unresolved_receivers);
    a.unsupported_expansions.append(&mut b.unsupported_expansions);
    assert(collected_view(*a).0 =~= va.0 + vb.0);
    assert(collected_view(*a).1 =~= va.1 + vb.1);
    assert(collected_view(*a).2 =~= va.2 + vb.2);
    assert(collected_view(*a).3 =~= va.3 + vb.3);
    assert(collected_view(*a).4 =~= va.4 + vb.4);
}

fn span_of(ctx: &ReadContext, p: Position) -> (r: SourceSpan)
    ensures
        span_view(r) == span_at(ctx.file@, p),
{
    SourceSpan::new(ctx.file.as_str(), p.line, p.column)
}

/// A member reference alone.
fn member_alone(owner: &str, target: String, access: AccessKind, span: SourceSpan) -> (r: Collected)
    ensures
        collected_view(r) == (
            Seq::<(Seq<char>, Seq<char>, SpanView)>::empty(),
            seq![(owner@, target@, access, span_view(span))],
            Seq::<(Seq<char>, Seq<char>, nat, Seq<char>, SpanView)>::empty(),
            Seq::<(Seq<char>, Seq<char>, Seq<char>, SpanView)>::empty(),
            Seq::<(Seq<char>, Seq<char>, SpanView)>::empty(),
        ),
{
    let mut r = collected_nothing();
    let m = MemberReference { from: String::from_str(owner), target, access, span };
    r.member_references.push(m);
    assert(collected_view(r).1 =~= seq![(owner@, m.target@, access, span_view(m.span))]);
    r
}

/// `access_collected`, computed.
fn collect_access(
    ctx: &ReadContext,
    owner: &str,
    env: &Vec<Local>,
    value: &Expr,
    attr: &str,
    p: Position,
    access: AccessKind,
) -> (r: Collected)
    ensures
        collected_view(r) == access_collected(*ctx, owner@, local_views(env@), *value, attr@, p, access),
{
    match class_of_receiver(ctx, env, value) {
        Some(Some(c)) => member_alone(owner, join_dot(c.as_str(), attr), access, span_of(ctx, p)),
        Some(None) => match value {
            Expr::Name { id, .. } => {
                let mut r = collected_nothing();
                let u = UnresolvedReceiver {
                    from: String::from_str(owner),
                    receiver: copy_string(id),
                    member: String::from_str(attr),
                    span: span_of(ctx, p),
                };
                r.unresolved_receivers.push(u);
                assert(collected_view(r).3 =~= seq![(owner@, id@, attr@, span_at(ctx.file@, p))]);
                assert(collected_view(r) =~= access_collected(*ctx, owner@, local_views(env@), *value, attr@, p, access));
                r
            },
            _ => collected_nothing(),
        },
        None => collected_nothing(),
    }
}

/// `keyword_construction`, computed.
fn collect_keyword_construction(ctx: &ReadContext, owner: &str, c: &str, keywords: &Vec<Keyword>) -> (r: Collected)
    ensures
        collected_view(r) == keyword_construction(*ctx, owner@, c@, keywords@),
{
    let mut out = collected_nothing();
    let mut i: usize = 0;
    while i < keywords.len()
        invariant
            i <= keywords@.len(),
            collected_view(out) == keyword_construction(*ctx, owner@, c@, keywords@.take(i as int)),
        decreases keywords@.len() - i,
    {
        let ghost t = keywords@.take(i + 1);
        assert(t.drop_last() =~= keywords@.take(i as int));
        assert(t.last() == keywords@[i as int]);
        let k = &keywords[i];
        let piece = match &k.arg {
            Some(a) => member_alone(owner, join_dot(c, a.as_str()), AccessKind::Construct, span_of(ctx, k.position)),
            None => {
                let mut r = collected_nothing();
                let x = UnsupportedExpansion { from: String::from_str(owner), target: String::from_str(c), span: span_of(ctx, k.position) };
                r.unsupported_expansions.push(x);
                assert(collected_view(r).4 =~= seq![(owner@, c@, span_at(ctx.file@, k.position))]);
                r
            },
        };
        append_collected(&mut out, piece);
        i = i + 1;
    }
    assert(keywords@.take(keywords@.len() as int) =~= keywords@);
    out
}

fn position_of(e: &Expr, fallback: Position) -> (r: Position)
    ensures
        r == expr_position(*e, fallback),
{
    match e {
        Expr::Name { position, .. } => *position,
        Expr::Attribute { position, .. } => *position,
        Expr::Call { position, .. } => *position,
        _ => fallback,
    }
}

/// `argument_flows`, computed.
fn collect_argument_flows(ctx: &ReadContext, owner: &str, env: &Vec<Local>, f: &str, shift: usize, args: &Vec<Expr>, p: Position) -> (r: Collected)
    requires
        shift <= 1,
    ensures
        collected_view(r) == argument_flows(*ctx, owner@, local_views(env@), f@, shift as nat, args@, p),
{
    let mut out = collected_nothing();
    let mut i: usize = 0;
    while i < args.len()
        invariant
            i <= args@.len(),
            shift <= 1,
            collected_view(out) == argument_flows(*ctx, owner@, local_views(env@), f@, shift as nat, args@.take(i as int), p),
        decreases args@.len() - i,
    {
        let ghost t = args@.take(i + 1);
        assert(t.drop_last() =~= args@.take(i as int));
        assert(t.last() == args@[i as int]);
        match class_of_value(ctx, env, &args[i]) {
            Some(cls) => {
                let mut r = collected_nothing();
                let a = CallArgumentType {
                    from: String::from_str(owner),
                    callee: String::from_str(f),
                    position: i + shift,
                    concrete_type: cls,
                    span: span_of(ctx, position_of(&args[i], p)),
                };
                r.call_argument_types.push(a);
                assert(collected_view(r).2 =~= seq![(owner@, f@, (i + shift) as nat, a.concrete_type@, span_view(a.span))]);
                append_collected(&mut out, r);
            },
            None => {
                let ghost before = collected_view(out);
                assert(both(before, nothing()) =~= before);
            },
        }
        i = i + 1;
    }
    assert(args@.take(args@.len() as int) =~= args@);
    out
}

/// What `owner` records when it evaluates `e` with the locals `env`.
pub fn collect_expr(ctx: &ReadContext, owner: &str, env: &Vec<Local>, e: &Expr) -> (r: Collected)
    ensures
        collected_view(r) == expr_collected(*ctx, owner@, local_views(env@), *e),
    decreases e, 1nat,
{
    match e {
        Expr::Name { id, position } => {
            let mut r = collected_nothing();
            let x = SymbolReference { from: String::from_str(owner), name: copy_string(id), span: span_of(ctx, *position) };
            r.references.push(x);
            assert(collected_view(r).0 =~= seq![(owner@, id@, span_at(ctx.file@, *position))]);
            r
        },
        Expr::Attribute { value, attr, position } => {
            let mut r = collect_access(ctx, owner, env, &**value, attr.as_str(), *position, AccessKind::Read);
            append_collected(&mut r, collect_expr(ctx, owner, env, &**value));
            r
        },
        Expr::Call { .. } => collect_call_references(ctx, owner, env, e),
        Expr::Compare { left, comparators, .. } => {
            let mut r = collect_expr(ctx, owner, env, &**left);
            append_collected(&mut r, collect_exprs(ctx, owner, env, comparators));
            r
        },
        _ => collected_nothing(),
    }
}

/// What `owner` records when it evaluates the call `e` with the locals
/// `env`: the member it calls or the name it calls, the construction of a
/// project class with the fields its keywords name, the classes its
/// positional arguments pass to the callee, then what its arguments and
/// keyword values use.
pub fn collect_call_references(ctx: &ReadContext, owner: &str, env: &Vec<Local>, e: &Expr) -> (r: Collected)
    requires
        e is Call,
    ensures
        collected_view(r) == expr_collected(*ctx, owner@, local_views(env@), *e),
    decreases e, 0nat,
{
    match e {
        Expr::Call { func, args, keywords, position } => {
    let mut r = match &**func {
        Expr::Attribute { value, attr, position: p } => {
            let mut called = collect_access(ctx, owner, env, &**value, attr.as_str(), *p, AccessKind::Call);
            append_collected(&mut called, collect_expr(ctx, owner, env, &**value));
            called
        },
        other => collect_expr(ctx, owner, env, other),
    };
    let construction = match class_constructed(ctx, env, &**func) {
        Some(c) => {
            let mut made = member_alone(owner, join_dot(c.as_str(), "__init__"), AccessKind::Construct, span_of(ctx, *position));
            proof {
                reveal_strlit("__init__");
            }
            append_collected(&mut made, collect_keyword_construction(ctx, owner, c.as_str(), keywords));
            made
        },
        None => collected_nothing(),
    };
    append_collected(&mut r, construction);
    let flows = match class_constructed(ctx, env, &**func) {
        Some(c) => {
            proof {
                reveal_strlit("__init__");
            }
            collect_argument_flows(ctx, owner, env, join_dot(c.as_str(), "__init__").as_str(), 1, args, *position)
        },
        None => match callee(ctx, env, &**func) {
            Some(f) => collect_argument_flows(ctx, owner, env, f.as_str(), 0, args, *position),
            None => collected_nothing(),
        },
    };
    append_collected(&mut r, flows);
    append_collected(&mut r, collect_exprs(ctx, owner, env, args));
    append_collected(&mut r, collect_keywords(ctx, owner, env, keywords));
    r
        },
        _ => collected_nothing(),
    }
}

/// `collect_expr` over expressions, in order.
pub fn collect_exprs(ctx: &ReadContext, owner: &str, env: &Vec<Local>, es: &Vec<Expr>) -> (r: Collected)
    ensures
        collected_view(r) == exprs_collected(*ctx, owner@, local_views(env@), es@),
    decreases es, 0nat,
{
    let mut out = collected_nothing();
    let mut i: usize = 0;
    while i < es.len()
        invariant
            i <= es@.len(),
            collected_view(out) == exprs_collected(*ctx, owner@, local_views(env@), es@.take(i as int)),
        decreases es@.len() - i,
    {
        let ghost t = es@.take(i + 1);
        assert(t.drop_last() =~= es@.take(i as int));
        assert(t.last() == es@[i as int]);
        append_collected(&mut out, collect_expr(ctx, owner, env, &es[i]));
        i = i + 1;
    }
    assert(es@.take(es@.len() as int) =~= es@);
    out
}

/// `collect_expr` over the values of keyword arguments, in order.
pub fn collect_keywords(ctx: &ReadContext, owner: &str, env: &Vec<Local>, ks: &Vec<Keyword>) -> (r: Collected)
    ensures
        collected_view(r) == keywords_collected(*ctx, owner@, local_views(env@), ks@),
    decreases ks, 0nat,
{
    let mut out = collected_nothing();
    let mut i: usize = 0;
    while i < ks.len()
        invariant
            i <= ks@.len(),
            collected_view(out) == keywords_collected(*ctx, owner@, local_views(env@), ks@.take(i as int)),
        decreases ks@.len() - i,
    {
        let ghost t = ks@.take(i + 1);
        assert(t.drop_last() =~= ks@.take(i as int));
        assert(t.last() == ks@[i as int]);
        append_collected(&mut out, collect_expr(ctx, owner, env, &ks[i].value));
        i = i + 1;
    }
    assert(ks@.take(ks@.len() as int) =~= ks@);
    out
}

pub type Env = Seq<(Seq<char>, Option<Seq<char>>)>;

/// The locals after statement `s`: an assignment to one name binds it to
/// the class of the value, an annotated one to the class of the annotation
/// (else of the value).
pub open spec fn statement_env(ctx: ReadContext, env: Env, s: Stmt) -> Env {
    match s {
        Stmt::Assign { targets, value, .. } => if targets@.len() == 1 {
            match targets@[0] {
                Expr::Name { id, .. } => env.push((id@, value_class(ctx, env, value))),
                _ => env,
            }
        } else {
            env
        },
        Stmt::AnnAssign { target, annotation, value, .. } => match target {
            Expr::Name { id, .. } => env.push(
                (
                    id@,
                    match annotation_class(ctx, annotation) {
                        Some(c) => Some(c),
                        None => match value {
                            Some(v) => value_class(ctx, env, v),
                            None => None,
                        },
                    },
                ),
            ),
            _ => env,
        },
        _ => env,
    }
}

/// The locals after the statements of a body.
pub open spec fn body_env(ctx: ReadContext, env: Env, ss: Seq<Stmt>) -> Env
    decreases ss.len(),
{
    if ss.len() == 0 {
        env
    } else {
        statement_env(ctx, body_env(ctx, env, ss.drop_last()), ss.last())
    }
}

/// What `owner` records when it runs statement `s` with the locals `env`;
/// `def` and `class` statements nested in code are not looked into.
pub open spec fn statement_collected(ctx: ReadContext, owner: Seq<char>, env: Env, s: Stmt) -> CollectedView
    decreases s,
{
    match s {
        Stmt::Expr { value } => expr_collected(ctx, owner, env, value),
        Stmt::Return { value } => match value {
            Some(v) => expr_collected(ctx, owner, env, v),
            None => nothing(),
        },
        Stmt::Assign { value, .. } => expr_collected(ctx, owner, env, value),
        Stmt::AnnAssign { annotation, value, .. } => both(
            expr_collected(ctx, owner, env, annotation),
            match value {
                Some(v) => expr_collected(ctx, owner, env, v),
                None => nothing(),
            },
        ),
        Stmt::If { test, body, orelse, .. } => both(
            both(expr_collected(ctx, owner, env, test), body_collected(ctx, owner, env, body@)),
            body_collected(ctx, owner, env, orelse@),
        ),
        _ => nothing(),
    }
}

/// What `owner` records when it runs the statements of a body, each with
/// the locals that the statements before it bound.
pub open spec fn body_collected(ctx: ReadContext, owner: Seq<char>, env: Env, ss: Seq<Stmt>) -> CollectedView
    decreases ss,
{
    if ss.len() == 0 {
        nothing()
    } else {
        both(
            body_collected(ctx, owner, env, ss.drop_last()),
            statement_collected(ctx, owner, body_env(ctx, env, ss.drop_last()), ss.last()),
        )
    }
}

pub fn copy_locals(env: &Vec<Local>) -> (r: Vec<Local>)
    ensures
        local_views(r@) == local_views(env@),
{
    let mut out: Vec<Local> = Vec::new();
    let mut i: usize = 0;
    while i < env.len()
        invariant
            i <= env@.len(),
            local_views(out@) == local_views(env@).take(i as int),
        decreases env@.len() - i,
    {
        let ghost before = local_views(out@);
        let l = Local { name: copy_string(&env[i].name), class: copy_opt(&env[i].class) };
        out.push(l);
        assert(local_views(out@) =~= before.push(local_view(l)));
        assert(local_views(env@).take(i + 1) =~= local_views(env@).take(i as int).push(local_view(env@[i as int])));
        i = i + 1;
    }
    assert(local_views(env@).take(env@.len() as int) =~= local_views(env@));
    out
}

fn bind_local(env: &mut Vec<Local>, name: &String, class: Option<String>)
    ensures
        local_views(final(env)@) == local_views(old(env)@).push(
            (
                name@,
                match class {
                    Some(c) => Some(c@),
                    None => None,
                },
            ),
        ),
{
    let ghost before = local_views(env@);
    let l = Local { name: copy_string(name), class };
    env.push(l);
    assert(local_views(env@) =~= before.push(local_view(l)));
}

/// Binds the locals that statement `s` assigns.
pub fn bind_statement(ctx: &ReadContext, env: &mut Vec<Local>, s: &Stmt)
    ensures
        local_views(final(env)@) == statement_env(*ctx, local_views(old(env)@), *s),
{
    match s {
        Stmt::Assign { targets, value, .. } => {
            if targets.len() == 1 {
                match &targets[0] {
                    Expr::Name { id, .. } => {
                        let c = class_of_value(ctx, env, value);
                        bind_local(env, id, c);
                    },
                    _ => {},
                }
            }
        },
        Stmt::AnnAssign { target, annotation, value, .. } => {
            match target {
                Expr::Name { id, .. } => {
                    let c = match class_of_annotation(ctx, annotation) {
                        Some(c) => Some(c),
                        None => match value {
                            Some(v) => class_of_value(ctx, env, v),
                            None => None,
                        },
                    };
                    bind_local(env, id, c);
                },
                _ => {},
            }
        },
        _ => {},
    }
}

/// What `owner` records when it runs statement `s` with the locals `env`.
pub fn collect_statement(ctx: &ReadContext, owner: &str, env: &Vec<Local>, s: &Stmt) -> (r: Collected)
    ensures
        collected_view(r) == statement_collected(*ctx, owner@, local_views(env@), *s),
    decreases s,
{
    match s {
        Stmt::Expr { value } => collect_expr(ctx, owner, env, value),
        Stmt::Return { value } => match value {
            Some(v) => collect_expr(ctx, owner, env, v),
            None => collected_nothing(),
        },
        Stmt::Assign { value, .. } => collect_expr(ctx, owner, env, value),
        Stmt::AnnAssign { annotation, value, .. } => {
            let mut r = collect_expr(ctx, owner, env, annotation);
            let more = match value {
                Some(v) => collect_expr(ctx, owner, env, v),
                None => collected_nothing(),
            };
            append_collected(&mut r, more);
            r
        },
        Stmt::If { test, body, orelse, .. } => {
            let mut r = collect_expr(ctx, owner, env, test);
            append_collected(&mut r, collect_body(ctx, owner, env, body));
            append_collected(&mut r, collect_body(ctx, owner, env, orelse));
            r
        },
        _ => collected_nothing(),
    }
}

/// What `owner` records when it runs the statements of a body.
pub fn collect_body(ctx: &ReadContext, owner: &str, env: &Vec<Local>, ss: &Vec<Stmt>) -> (r: Collected)
    ensures
        collected_view(r) == body_collected(*ctx, owner@, local_views(env@), ss@),
    decreases ss,
{
    let mut out = collected_nothing();
    let mut locals = copy_locals(env);
    let mut i: usize = 0;
    while i < ss.len()
        invariant
            i <= ss@.len(),
            collected_view(out) == body_collected(*ctx, owner@, local_views(env@), ss@.take(i as int)),
            local_views(locals@) == body_env(*ctx, local_views(env@), ss@.take(i as int)),
        decreases ss@.len() - i,
    {
        let ghost t = ss@.take(i + 1);
        assert(t.drop_last() =~= ss@.take(i as int));
        assert(t.last() == ss@[i as int]);
        append_collected(&mut out, collect_statement(ctx, owner, &locals, &ss[i]));
        bind_statement(ctx, &mut locals, &ss[i]);
        i = i + 1;
    }
    assert(ss@.take(ss@.len() as int) =~= ss@);
    out
}

/// The locals of a function body at its start: each parameter with the
/// class of its annotation; the first parameter of a method of class
/// `class` without an annotation holds an instance of `class`.
pub open spec fn parameter_env(ctx: ReadContext, ps: Seq<Parameter>, class: Option<Seq<char>>) -> Env
    decreases ps.len(),
{
    if ps.len() == 0 {
        Seq::empty()
    } else {
        parameter_env(ctx, ps.drop_last(), class).push(
            (
                ps.last().name@,
                match ps.last().annotation {
                    Some(a) => annotation_class(ctx, a),
                    None => if ps.len() == 1 {
                        class
                    } else {
                        None
                    },
                },
            ),
        )
    }
}

/// A decorator rule registers the functions it decorates, and matches the
/// callee of decorator `callee`: the function it names, or a method of its
/// receiver type.
pub open spec fn rule_matches(ctx: ReadContext, env: Env, rule: DecoratorRule, callee: Expr) -> bool {
    &&& rule.effect@ == "registerDecoratedFunction"@
    &&& match rule.function {
        Some(f) => callee_of(ctx, env, callee) == Some(f@),
        None => match (rule.receiver_type, callee) {
            (Some(t), Expr::Attribute { value, attr, .. }) => receiver_class(ctx, env, *value) == Some(Some(t@)) && holds(
                rule.methods@,
                attr@,
            ),
            _ => false,
        },
    }
}

/// The callee of a decorator: what is called when the decorator is a call.
pub open spec fn decorator_callee(d: Expr) -> Expr {
    match d {
        Expr::Call { func, .. } => *func,
        other => other,
    }
}

/// Some decorator rule registers the function that `d` decorates.
pub open spec fn decorator_registers(ctx: ReadContext, env: Env, d: Expr) -> bool {
    exists|i: int| 0 <= i < ctx.decorators@.len() && #[trigger] rule_matches(ctx, env, ctx.decorators@[i], decorator_callee(d))
}

/// What the decorators of a function record for the owner `enclosing`
/// where the `def` stands: a reference to the function (named `name` there)
/// when a rule registers it, then what the decorator expression uses.
pub open spec fn decorators_collected(ctx: ReadContext, enclosing: Seq<char>, env: Env, name: Seq<char>, ds: Seq<Decorator>) -> CollectedView
    decreases ds.len(),
{
    if ds.len() == 0 {
        nothing()
    } else {
        let d = ds.last();
        both(
            decorators_collected(ctx, enclosing, env, name, ds.drop_last()),
            both(
                if decorator_registers(ctx, env, d.expression) {
                    (seq![(enclosing, name, span_at(ctx.file@, d.position))], Seq::empty(), Seq::empty(), Seq::empty(), Seq::empty())
                } else {
                    nothing()
                },
                expr_collected(ctx, enclosing, env, d.expression),
            ),
        )
    }
}

/// What the annotations and defaults of the parameters record for `owner`.
pub open spec fn parameters_collected(ctx: ReadContext, owner: Seq<char>, ps: Seq<Parameter>) -> CollectedView
    decreases ps.len(),
{
    if ps.len() == 0 {
        nothing()
    } else {
        both(
            parameters_collected(ctx, owner, ps.drop_last()),
            both(
                match ps.last().annotation {
                    Some(a) => expr_collected(ctx, owner, Seq::empty(), a),
                    None => nothing(),
                },
                match ps.last().default {
                    Some(v) => expr_collected(ctx, owner, Seq::empty(), v),
                    None => nothing(),
                },
            ),
        )
    }
}

/// What a `def` records: its decorators (for the enclosing owner, with its
/// locals `env`), the annotations and defaults of its parameters and its
/// return annotation, then its body run with its parameters as locals.
pub open spec fn function_collected(
    ctx: ReadContext,
    enclosing: Seq<char>,
    env: Env,
    owner: Seq<char>,
    class: Option<Seq<char>>,
    name: Seq<char>,
    f: FunctionDef,
) -> CollectedView {
    both(
        both(
            both(decorators_collected(ctx, enclosing, env, name, f.decorators@), parameters_collected(ctx, owner, f.parameters@)),
            match f.return_annotation {
                Some(r) => expr_collected(ctx, owner, Seq::empty(), r),
                None => nothing(),
            },
        ),
        body_collected(ctx, owner, parameter_env(ctx, f.parameters@, class), f.body@),
    )
}

/// What a statement of the body of class `class` (qualified `owner`)
/// records.
pub open spec fn member_collected(ctx: ReadContext, owner: Seq<char>, class: Seq<char>, s: Stmt) -> CollectedView {
    match s {
        Stmt::FunctionDef(f) => function_collected(
            ctx,
            owner,
            Seq::empty(),
            dotted(owner, f.name@),
            Some(owner),
            dotted(class, f.name@),
            f,
        ),
        Stmt::AnnAssign { annotation, value, .. } => both(
            expr_collected(ctx, owner, Seq::empty(), annotation),
            match value {
                Some(v) => expr_collected(ctx, owner, Seq::empty(), v),
                None => nothing(),
            },
        ),
        Stmt::Assign { value, .. } => expr_collected(ctx, owner, Seq::empty(), value),
        _ => nothing(),
    }
}

pub open spec fn members_collected(ctx: ReadContext, owner: Seq<char>, class: Seq<char>, ss: Seq<Stmt>) -> CollectedView
    decreases ss.len(),
{
    if ss.len() == 0 {
        nothing()
    } else {
        both(members_collected(ctx, owner, class, ss.drop_last()), member_collected(ctx, owner, class, ss.last()))
    }
}

/// What a `class` statement of the module records: its bases, then its body.
pub open spec fn class_collected(ctx: ReadContext, c: ClassDef) -> CollectedView {
    both(
        exprs_collected(ctx, dotted(ctx.module@, c.name@), Seq::empty(), c.bases@),
        members_collected(ctx, dotted(ctx.module@, c.name@), c.name@, c.body@),
    )
}

/// What a statement of the module records, with the module-level locals
/// `env`.
pub open spec fn module_statement_collected(ctx: ReadContext, env: Env, s: Stmt) -> CollectedView {
    match s {
        Stmt::FunctionDef(f) => function_collected(ctx, ctx.module@, env, dotted(ctx.module@, f.name@), None, f.name@, f),
        Stmt::ClassDef(c) => class_collected(ctx, c),
        Stmt::Import { .. } => nothing(),
        Stmt::ImportFrom { .. } => nothing(),
        _ => statement_collected(ctx, ctx.module@, env, s),
    }
}

/// What the statements of the module record, in order.
pub open spec fn module_collected(ctx: ReadContext, ss: Seq<Stmt>) -> CollectedView
    decreases ss.len(),
{
    if ss.len() == 0 {
        nothing()
    } else {
        both(
            module_collected(ctx, ss.drop_last()),
            module_statement_collected(ctx, body_env(ctx, Seq::empty(), ss.drop_last()), ss.last()),
        )
    }
}

/// `parameter_env`, computed.
fn parameter_locals(ctx: &ReadContext, ps: &Vec<Parameter>, class: &Option<String>) -> (r: Vec<Local>)
    ensures
        local_views(r@) == parameter_env(
            *ctx,
            ps@,
            match *class {
                Some(c) => Some(c@),
                None => None,
            },
        ),
{
    let mut out: Vec<Local> = Vec::new();
    let mut i: usize = 0;
    assert(local_views(out@) =~= Seq::<(Seq<char>, Option<Seq<char>>)>::empty());
    while i < ps.len()
        invariant
            i <= ps@.len(),
            local_views(out@) == parameter_env(
                *ctx,
                ps@.take(i as int),
                match *class {
                    Some(c) => Some(c@),
                    None => None,
                },
            ),
        decreases ps@.len() - i,
    {
        let ghost t = ps@.take(i + 1);
        assert(t.drop_last() =~= ps@.take(i as int));
        assert(t.last() == ps@[i as int]);
        let c = match &ps[i].annotation {
            Some(a) => class_of_annotation(ctx, a),
            None => if i == 0 {
                copy_opt(class)
            } else {
                None
            },
        };
        bind_local(&mut out, &ps[i].name, c);
        i = i + 1;
    }
    assert(ps@.take(ps@.len() as int) =~= ps@);
    out
}

/// `rule_matches`, computed.
fn matches_rule(ctx: &ReadContext, env: &Vec<Local>, rule: &DecoratorRule, callee_expr: &Expr) -> (r: bool)
    ensures
        r == rule_matches(*ctx, local_views(env@), *rule, *callee_expr),
{
    proof {
        reveal_strlit("registerDecoratedFunction");
    }
    if !same_text(rule.effect.as_str(), "registerDecoratedFunction") {
        return false;
    }
    match &rule.function {
        Some(f) => match callee(ctx, env, callee_expr) {
            Some(c) => same_text(c.as_str(), f.as_str()),
            None => false,
        },
        None => match (&rule.receiver_type, callee_expr) {
            (Some(t), Expr::Attribute { value, attr, .. }) => {
                let same_type = match class_of_receiver(ctx, env, &**value) {
                    Some(Some(c)) => same_text(c.as_str(), t.as_str()),
                    _ => false,
                };
                same_type && contains_string(&rule.methods, attr.as_str())
            },
            _ => false,
        },
    }
}

/// `decorator_registers`, computed.
fn registers(ctx: &ReadContext, env: &Vec<Local>, d: &Expr) -> (r: bool)
    ensures
        r == decorator_registers(*ctx, local_views(env@), *d),
{
    let callee_expr = match d {
        Expr::Call { func, .. } => &**func,
        other => other,
    };
    let mut i: usize = 0;
    while i < ctx.decorators.len()
        invariant
            i <= ctx.decorators@.len(),
            *callee_expr == decorator_callee(*d),
            forall|k: int| 0 <= k < i ==> !rule_matches(*ctx, local_views(env@), #[trigger] ctx.decorators@[k], decorator_callee(*d)),
        decreases ctx.decorators@.len() - i,
    {
        if matches_rule(ctx, env, &ctx.decorators[i], callee_expr) {
            return true;
        }
        i = i + 1;
    }
    false
}

/// What the decorators of a function record for the owner `enclosing`,
/// with its locals `env`: a reference to the function (named `name` there)
/// for each decorator that a decorator rule registers, then what each
/// decorator expression uses.
pub fn collect_decorator_rules(ctx: &ReadContext, enclosing: &str, env: &Vec<Local>, name: &str, ds: &Vec<Decorator>) -> (r: Collected)
    ensures
        collected_view(r) == decorators_collected(*ctx, enclosing@, local_views(env@), name@, ds@),
{
    let mut out = collected_nothing();
    let mut i: usize = 0;
    while i < ds.len()
        invariant
            i <= ds@.len(),
            collected_view(out) == decorators_collected(*ctx, enclosing@, local_views(env@), name@, ds@.take(i as int)),
        decreases ds@.len() - i,
    {
        let ghost t = ds@.take(i + 1);
        assert(t.drop_last() =~= ds@.take(i as int));
        assert(t.last() == ds@[i as int]);
        let d = &ds[i];
        let mut piece = collected_nothing();
        if registers(ctx, env, &d.expression) {
            let x = SymbolReference { from: String::from_str(enclosing), name: String::from_str(name), span: span_of(ctx, d.position) };
            piece.references.push(x);
            assert(collected_view(piece).0 =~= seq![(enclosing@, name@, span_at(ctx.file@, d.position))]);
        }
        append_collected(&mut piece, collect_expr(ctx, enclosing, env, &d.expression));
        append_collected(&mut out, piece);
        i = i + 1;
    }
    assert(ds@.take(ds@.len() as int) =~= ds@);
    out
}

/// `parameters_collected`, computed.
fn collect_parameters(ctx: &ReadContext, owner: &str, ps: &Vec<Parameter>) -> (r: Collected)
    ensures
        collected_view(r) == parameters_collected(*ctx, owner@, ps@),
{
    let none: Vec<Local> = Vec::new();
    assert(local_views(none@) =~= Seq::<(Seq<char>, Option<Seq<char>>)>::empty());
    let mut out = collected_nothing();
    let mut i: usize = 0;
    while i < ps.len()
        invariant
            i <= ps@.len(),
            local_views(none@) == Seq::<(Seq<char>, Option<Seq<char>>)>::empty(),
            collected_view(out) == parameters_collected(*ctx, owner@, ps@.take(i as int)),
        decreases ps@.len() - i,
    {
        let ghost t = ps@.take(i + 1);
        assert(t.drop_last() =~= ps@.take(i as int));
        assert(t.last() == ps@[i as int]);
        let mut piece = match &ps[i].annotation {
            Some(a) => collect_expr(ctx, owner, &none, a),
            None => collected_nothing(),
        };
        let more = match &ps[i].default {
            Some(v) => collect_expr(ctx, owner, &none, v),
            None => collected_nothing(),
        };
        append_collected(&mut piece, more);
        append_collected(&mut out, piece);
        i = i + 1;
    }
    assert(ps@.take(ps@.len() as int) =~= ps@);
    out
}

/// `function_collected`, computed.
fn collect_function(
    ctx: &ReadContext,
    enclosing: &str,
    env: &Vec<Local>,
    owner: &str,
    class: &Option<String>,
    name: &str,
    f: &FunctionDef,
) -> (r: Collected)
    ensures
        collected_view(r) == function_collected(
            *ctx,
            enclosing@,
            local_views(env@),
            owner@,
            match *class {
                Some(c) => Some(c@),
                None => None,
            },
            name@,
            *f,
        ),
{
    let none: Vec<Local> = Vec::new();
    assert(local_views(none@) =~= Seq::<(Seq<char>, Option<Seq<char>>)>::empty());
    let mut r = collect_decorator_rules(ctx, enclosing, env, name, &f.decorators);
    append_collected(&mut r, collect_parameters(ctx, owner, &f.parameters));
    let annotated = match &f.return_annotation {
        Some(x) => collect_expr(ctx, owner, &none, x),
        None => collected_nothing(),
    };
    append_collected(&mut r, annotated);
    let locals = parameter_locals(ctx, &f.parameters, class);
    append_collected(&mut r, collect_body(ctx, owner, &locals, &f.body));
    r
}

/// `member_collected`, computed.
fn collect_member(ctx: &ReadContext, owner: &String, class: &str, s: &Stmt) -> (r: Collected)
    ensures
        collected_view(r) == member_collected(*ctx, owner@, class@, *s),
{
    let none: Vec<Local> = Vec::new();
    assert(local_views(none@) =~= Seq::<(Seq<char>, Option<Seq<char>>)>::empty());
    match s {
        Stmt::FunctionDef(f) => {
            let method = join_dot(owner.as_str(), f.name.as_str());
            let name = join_dot(class, f.name.as_str());
            let cls = Some(copy_string(owner));
            collect_function(ctx, owner.as_str(), &none, method.as_str(), &cls, name.as_str(), f)
        },
        Stmt::AnnAssign { annotation, value, .. } => {
            let mut r = collect_expr(ctx, owner.as_str(), &none, annotation);
            let more = match value {
                Some(v) => collect_expr(ctx, owner.as_str(), &none, v),
                None => collected_nothing(),
            };
            append_collected(&mut r, more);
            r
        },
        Stmt::Assign { value, .. } => collect_expr(ctx, owner.as_str(), &none, value),
        _ => collected_nothing(),
    }
}

/// `class_collected`, computed.
fn collect_class(ctx: &ReadContext, c: &ClassDef) -> (r: Collected)
    ensures
        collected_view(r) == class_collected(*ctx, *c),
{
    let none: Vec<Local> = Vec::new();
    assert(local_views(none@) =~= Seq::<(Seq<char>, Option<Seq<char>>)>::empty());
    let owner = join_dot(ctx.module.as_str(), c.name.as_str());
    let mut out = collect_exprs(ctx, owner.as_str(), &none, &c.bases);
    let ghost start = collected_view(out);
    let body = &c.body;
    let mut members = collected_nothing();
    let mut i: usize = 0;
    while i < body.len()
        invariant
            i <= body@.len(),
            owner@ == dotted(ctx.module@, c.name@),
            *body == c.body,
            collected_view(members) == members_collected(*ctx, owner@, c.name@, body@.take(i as int)),
        decreases body@.len() - i,
    {
        let ghost t = body@.take(i + 1);
        assert(t.drop_last() =~= body@.take(i as int));
        assert(t.last() == body@[i as int]);
        append_collected(&mut members, collect_member(ctx, &owner, c.name.as_str(), &body[i]));
        i = i + 1;
    }
    assert(body@.take(body@.len() as int) =~= body@);
    append_collected(&mut out, members);
    out
}

/// What the statements of the module record, in order: the name uses,
/// member accesses, call-argument classes, unresolved receivers and
/// unsupported expansions of the module-level code, of each function and
/// method, and of each class body.
pub fn collect_module(ctx: &ReadContext, ss: &Vec<Stmt>) -> (r: Collected)
    ensures
        collected_view(r) == module_collected(*ctx, ss@),
{
    let mut out = collected_nothing();
    let mut env: Vec<Local> = Vec::new();
    assert(local_views(env@) =~= Seq::<(Seq<char>, Option<Seq<char>>)>::empty());
    let mut i: usize = 0;
    while i < ss.len()
        invariant
            i <= ss@.len(),
            collected_view(out) == module_collected(*ctx, ss@.take(i as int)),
            local_views(env@) == body_env(*ctx, Seq::empty(), ss@.take(i as int)),
        decreases ss@.len() - i,
    {
        let ghost t = ss@.take(i + 1);
        assert(t.drop_last() =~= ss@.take(i as int));
        assert(t.last() == ss@[i as int]);
        let piece = match &ss[i] {
            Stmt::FunctionDef(f) => {
                let owner = join_dot(ctx.module.as_str(), f.name.as_str());
                collect_function(ctx, ctx.module.as_str(), &env, owner.as_str(), &None, f.name.as_str(), f)
            },
            Stmt::ClassDef(c) => collect_class(ctx, c),
            Stmt::Import { .. } => collected_nothing(),
            Stmt::ImportFrom { .. } => collected_nothing(),
            other => collect_statement(ctx, ctx.module.as_str(), &env, other),
        };
        append_collected(&mut out, piece);
        bind_statement(ctx, &mut env, &ss[i]);
        i = i + 1;
    }
    assert(ss@.take(ss@.len() as int) =~= ss@);
    out
}

/// A type binding by value: its class, how many arguments it has and
/// whether it lies outside the project.
pub open spec fn binding_view(t: TypeBinding) -> (Seq<char>, nat, bool) {
    (t.base@, t.args@.len(), t.external)
}

/// The binding of an annotation or base that names something.
pub open spec fn named_binding(ctx: ReadContext, e: Expr) -> Option<(Seq<char>, nat, bool)> {
    match e {
        Expr::Name { id, .. } => match name_target(ctx, id@) {
            Some(t) => Some((t, 0nat, !holds(ctx.classes@, t))),
            None => None,
        },
        _ => None,
    }
}

pub open spec fn opt_binding_view(t: Option<TypeBinding>) -> Option<(Seq<char>, nat, bool)> {
    match t {
        Some(b) => Some(binding_view(b)),
        None => None,
    }
}

/// The bindings of the bases of a class that name something, in order.
pub open spec fn base_bindings(ctx: ReadContext, bases: Seq<Expr>) -> Seq<(Seq<char>, nat, bool)>
    decreases bases.len(),
{
    if bases.len() == 0 {
        Seq::empty()
    } else {
        let rest = base_bindings(ctx, bases.drop_last());
        match named_binding(ctx, bases.last()) {
            Some(b) => rest.push(b),
            None => rest,
        }
    }
}

/// A class by value: its name, the bindings of its bases, and how many type
/// parameters, fields and attributes it lists.
pub open spec fn class_info_view(c: ClassInfo) -> (Seq<char>, Seq<(Seq<char>, nat, bool)>, nat, nat, nat) {
    (
        c.class@,
        c.bases@.map_values(|b: TypeBinding| binding_view(b)),
        c.type_params@.len(),
        c.fields@.len(),
        c.attributes@.len(),
    )
}

/// The classes that the statements of the module define, with their bases.
pub open spec fn module_classes(ctx: ReadContext, ss: Seq<Stmt>) -> Seq<(Seq<char>, Seq<(Seq<char>, nat, bool)>, nat, nat, nat)>
    decreases ss.len(),
{
    if ss.len() == 0 {
        Seq::empty()
    } else {
        let rest = module_classes(ctx, ss.drop_last());
        match ss.last() {
            Stmt::ClassDef(c) => rest.push((dotted(ctx.module@, c.name@), base_bindings(ctx, c.bases@), 0nat, 0nat, 0nat)),
            _ => rest,
        }
    }
}

/// A signature by value: the function, its parameters with their
/// annotations' bindings, its return binding, its concrete return binding
/// and how many validated return types it lists.
pub open spec fn signature_view(s: FunctionSignature) -> (
    Seq<char>,
    Seq<(Seq<char>, Option<(Seq<char>, nat, bool)>)>,
    Option<(Seq<char>, nat, bool)>,
    Option<(Seq<char>, nat, bool)>,
    nat,
) {
    (
        s.function@,
        s.parameters@.map_values(|p: FunctionParameter| (p.name@, opt_binding_view(p.annotation))),
        opt_binding_view(s.return_type),
        opt_binding_view(s.concrete_return_type),
        s.validated_return_types@.len(),
    )
}

pub open spec fn opt_named_binding(ctx: ReadContext, e: Option<Expr>) -> Option<(Seq<char>, nat, bool)> {
    match e {
        Some(x) => named_binding(ctx, x),
        None => None,
    }
}

/// The signature of the function `f`, qualified `q`: each parameter with the
/// binding of its annotation, and the binding of its return annotation.
pub open spec fn function_signature(ctx: ReadContext, q: Seq<char>, f: FunctionDef) -> (
    Seq<char>,
    Seq<(Seq<char>, Option<(Seq<char>, nat, bool)>)>,
    Option<(Seq<char>, nat, bool)>,
    Option<(Seq<char>, nat, bool)>,
    nat,
) {
    (
        q,
        f.parameters@.map_values(|p: Parameter| (p.name@, opt_named_binding(ctx, p.annotation))),
        opt_named_binding(ctx, f.return_annotation),
        None,
        0nat,
    )
}

/// The signatures of the methods in the body of class `owner`.
pub open spec fn method_signatures(ctx: ReadContext, owner: Seq<char>, ss: Seq<Stmt>) -> Seq<(
    Seq<char>,
    Seq<(Seq<char>, Option<(Seq<char>, nat, bool)>)>,
    Option<(Seq<char>, nat, bool)>,
    Option<(Seq<char>, nat, bool)>,
    nat,
)>
    decreases ss.len(),
{
    if ss.len() == 0 {
        Seq::empty()
    } else {
        let rest = method_signatures(ctx, owner, ss.drop_last());
        match ss.last() {
            Stmt::FunctionDef(f) => rest.push(function_signature(ctx, dotted(owner, f.name@), f)),
            _ => rest,
        }
    }
}

/// The signatures of the functions and methods of the module, in order.
pub open spec fn module_signatures(ctx: ReadContext, ss: Seq<Stmt>) -> Seq<(
    Seq<char>,
    Seq<(Seq<char>, Option<(Seq<char>, nat, bool)>)>,
    Option<(Seq<char>, nat, bool)>,
    Option<(Seq<char>, nat, bool)>,
    nat,
)>
    decreases ss.len(),
{
    if ss.len() == 0 {
        Seq::empty()
    } else {
        let rest = module_signatures(ctx, ss.drop_last());
        match ss.last() {
            Stmt::FunctionDef(f) => rest.push(function_signature(ctx, dotted(ctx.module@, f.name@), f)),
            Stmt::ClassDef(c) => rest + method_signatures(ctx, dotted(ctx.module@, c.name@), c.body@),
            _ => rest,
        }
    }
}

/// `named_binding`, computed.
fn binding_named(ctx: &ReadContext, e: &Expr) -> (r: Option<TypeBinding>)
    ensures
        opt_binding_view(r) == named_binding(*ctx, *e),
{
    match e {
        Expr::Name { id, .. } => match target_of_name(ctx, id.as_str()) {
            Some(t) => {
                let external = !contains_string(&ctx.classes, t.as_str());
                let b = TypeBinding { base: t, args: Vec::new(), external };
                Some(b)
            },
            None => None,
        },
        _ => None,
    }
}

fn opt_binding_named(ctx: &ReadContext, e: &Option<Expr>) -> (r: Option<TypeBinding>)
    ensures
        opt_binding_view(r) == opt_named_binding(*ctx, *e),
{
    match e {
        Some(x) => binding_named(ctx, x),
        None => None,
    }
}

/// The information on class `c` of the module: its name and the bindings of
/// its bases.
fn class_info_of(ctx: &ReadContext, c: &ClassDef) -> (r: ClassInfo)
    ensures
        class_info_view(r) == (dotted(ctx.module@, c.name@), base_bindings(*ctx, c.bases@), 0nat, 0nat, 0nat),
{
    let mut bases: Vec<TypeBinding> = Vec::new();
    let mut i: usize = 0;
    while i < c.bases.len()
        invariant
            i <= c.bases@.len(),
            bases@.map_values(|b: TypeBinding| binding_view(b)) == base_bindings(*ctx, c.bases@.take(i as int)),
        decreases c.bases@.len() - i,
    {
        let ghost t = c.bases@.take(i + 1);
        assert(t.drop_last() =~= c.bases@.take(i as int));
        assert(t.last() == c.bases@[i as int]);
        match binding_named(ctx, &c.bases[i]) {
            Some(b) => {
                let ghost before = bases@.map_values(|b: TypeBinding| binding_view(b));
                bases.push(b);
                assert(bases@.map_values(|b: TypeBinding| binding_view(b)) =~= before.push(binding_view(b)));
            },
            None => {},
        }
        i = i + 1;
    }
    assert(c.bases@.take(c.bases@.len() as int) =~= c.bases@);
    let r = ClassInfo {
        class: join_dot(ctx.module.as_str(), c.name.as_str()),
        bases,
        type_params: Vec::new(),
        fields: Vec::new(),
        attributes: Vec::new(),
    };
    assert(class_info_view(r).1 =~= base_bindings(*ctx, c.bases@));
    r
}

/// The classes that the statements of the module define, with their bases.
pub fn collect_classes(ctx: &ReadContext, ss: &Vec<Stmt>) -> (r: Vec<ClassInfo>)
    ensures
        r@.map_values(|c: ClassInfo| class_info_view(c)) == module_classes(*ctx, ss@),
{
    let mut out: Vec<ClassInfo> = Vec::new();
    let mut i: usize = 0;
    while i < ss.len()
        invariant
            i <= ss@.len(),
            out@.map_values(|c: ClassInfo| class_info_view(c)) == module_classes(*ctx, ss@.take(i as int)),
        decreases ss@.len() - i,
    {
        let ghost t = ss@.take(i + 1);
        assert(t.drop_last() =~= ss@.take(i as int));
        assert(t.last() == ss@[i as int]);
        match &ss[i] {
            Stmt::ClassDef(c) => {
                let ghost before = out@.map_values(|c: ClassInfo| class_info_view(c));
                let info = class_info_of(ctx, c);
                out.push(info);
                assert(out@.map_values(|c: ClassInfo| class_info_view(c)) =~= before.push(class_info_view(info)));
            },
            _ => {},
        }
        i = i + 1;
    }
    assert(ss@.take(ss@.len() as int) =~= ss@);
    out
}

/// The signature of `f`, qualified `q`.
fn signature_of(ctx: &ReadContext, q: String, f: &FunctionDef) -> (r: FunctionSignature)
    ensures
        signature_view(r) == function_signature(*ctx, q@, *f),
{
    let mut parameters: Vec<FunctionParameter> = Vec::new();
    let mut i: usize = 0;
    while i < f.parameters.len()
        invariant
            i <= f.parameters@.len(),
            parameters@.map_values(|p: FunctionParameter| (p.name@, opt_binding_view(p.annotation))) == f.parameters@.take(
                i as int,
            ).map_values(|p: Parameter| (p.name@, opt_named_binding(*ctx, p.annotation))),
        decreases f.parameters@.len() - i,
    {
        let ghost before = parameters@.map_values(|p: FunctionParameter| (p.name@, opt_binding_view(p.annotation)));
        let p = FunctionParameter { name: copy_string(&f.parameters[i].name), annotation: opt_binding_named(ctx, &f.parameters[i].annotation) };
        parameters.push(p);
        assert(parameters@.map_values(|p: FunctionParameter| (p.name@, opt_binding_view(p.annotation))) =~= before.push(
            (p.name@, opt_binding_view(p.annotation)),
        ));
        assert(f.parameters@.take(i + 1).map_values(|p: Parameter| (p.name@, opt_named_binding(*ctx, p.annotation)))
            =~= f.parameters@.take(i as int).map_values(|p: Parameter| (p.name@, opt_named_binding(*ctx, p.annotation))).push(
            (f.parameters@[i as int].name@, opt_named_binding(*ctx, f.parameters@[i as int].annotation)),
        ));
        i = i + 1;
    }
    assert(f.parameters@.take(f.parameters@.len() as int) =~= f.parameters@);
    let r = FunctionSignature {
        function: q,
        parameters,
        return_type: opt_binding_named(ctx, &f.return_annotation),
        concrete_return_type: None,
        validated_return_types: Vec::new(),
    };
    assert(signature_view(r) =~= function_signature(*ctx, r.function@, *f));
    r
}

/// The signatures of the functions and methods of the module, in order.
pub fn collect_signatures(ctx: &ReadContext, ss: &Vec<Stmt>) -> (r: Vec<FunctionSignature>)
    ensures
        r@.map_values(|s: FunctionSignature| signature_view(s)) == module_signatures(*ctx, ss@),
{
    let mut out: Vec<FunctionSignature> = Vec::new();
    let mut i: usize = 0;
    while i < ss.len()
        invariant
            i <= ss@.len(),
            out@.map_values(|s: FunctionSignature| signature_view(s)) == module_signatures(*ctx, ss@.take(i as int)),
        decreases ss@.len() - i,
    {
        let ghost t = ss@.take(i + 1);
        assert(t.drop_last() =~= ss@.take(i as int));
        assert(t.last() == ss@[i as int]);
        match &ss[i] {
            Stmt::FunctionDef(f) => {
                let ghost before = out@.map_values(|s: FunctionSignature| signature_view(s));
                let sig = signature_of(ctx, join_dot(ctx.module.as_str(), f.name.as_str()), f);
                out.push(sig);
                assert(out@.map_values(|s: FunctionSignature| signature_view(s)) =~= before.push(signature_view(sig)));
            },
            Stmt::ClassDef(c) => {
                let owner = join_dot(ctx.module.as_str(), c.name.as_str());
                let ghost before = out@.map_values(|s: FunctionSignature| signature_view(s));
                let mut k: usize = 0;
                while k < c.body.len()
                    invariant
                        k <= c.body@.len(),
                        out@.map_values(|s: FunctionSignature| signature_view(s)) == before + method_signatures(
                            *ctx,
                            owner@,
                            c.body@.take(k as int),
                        ),
                    decreases c.body@.len() - k,
                {
                    let ghost t2 = c.body@.take(k + 1);
                    assert(t2.drop_last() =~= c.body@.take(k as int));
                    assert(t2.last() == c.body@[k as int]);
                    match &c.body[k] {
                        Stmt::FunctionDef(f) => {
                            let ghost b2 = out@.map_values(|s: FunctionSignature| signature_view(s));
                            let sig = signature_of(ctx, join_dot(owner.as_str(), f.name.as_str()), f);
                            out.push(sig);
                            assert(out@.map_values(|s: FunctionSignature| signature_view(s)) =~= b2.push(signature_view(sig)));
                        },
                        _ => {},
                    }
                    k = k + 1;
                }
                assert(c.body@.take(c.body@.len() as int) =~= c.body@);
            },
            _ => {},
        }
        i = i + 1;
    }
    assert(ss@.take(ss@.len() as int) =~= ss@);
    out
}

} // verus!
