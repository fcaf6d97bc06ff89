//! The members that a function body uses on the values that calls of the
//! module's own functions returned: `x = make()` followed by `x.run()` uses
//! member `run` of whatever `make` returns.
use vstd::prelude::*;

use crate::analysis::span_view;
use crate::report::SourceSpan;
use crate::syntax::{Expr, Keyword, Position, Stmt};
use crate::text::{copy_string, dotted, join_dot, same_text};

verus! {

/// A member used on the value a local holds, where the local was assigned
/// the result of calling `callable`.
pub struct CallableReturnMemberUse {
    pub from: String,
    pub callable: String,
    pub member: String,
    pub span: SourceSpan,
}

/// What one assignment did to a local: it now holds what a call of
/// `callable` returned, or (`None`) it holds something else.
pub struct LocalBinding {
    pub name: String,
    pub callable: Option<String>,
}

pub type BindingView = (Seq<char>, Option<Seq<char>>);

pub type UseView = (Seq<char>, Seq<char>, Seq<char>, (Seq<char>, usize, usize));

pub open spec fn binding_view(b: LocalBinding) -> BindingView {
    (
        b.name@,
        match b.callable {
            Some(c) => Some(c@),
            None => None,
        },
    )
}

pub open spec fn binding_views(v: Seq<LocalBinding>) -> Seq<BindingView> {
    v.map_values(|b: LocalBinding| binding_view(b))
}

pub open spec fn use_view(u: CallableReturnMemberUse) -> UseView {
    (u.from@, u.callable@, u.member@, span_view(u.span))
}

pub open spec fn use_views(v: Seq<CallableReturnMemberUse>) -> Seq<UseView> {
    v.map_values(|u: CallableReturnMemberUse| use_view(u))
}

/// The callable whose result the local `name` holds: the last assignment
/// to `name` decides.
pub open spec fn origin_of(locals: Seq<BindingView>, name: Seq<char>) -> Option<Seq<char>>
    decreases locals.len(),
{
    if locals.len() == 0 {
        None
    } else if locals.last().0 == name {
        locals.last().1
    } else {
        origin_of(locals.drop_last(), name)
    }
}

/// The module's function that `value` calls, when `value` is a call of a
/// plain name.
pub open spec fn callable_origin(module: Seq<char>, value: Expr) -> Option<Seq<char>> {
    match value {
        Expr::Call { func, .. } => match *func {
            Expr::Name { id, .. } => Some(dotted(module, id@)),
            _ => None,
        },
        _ => None,
    }
}

/// The names that assignment targets bind, each as a local that no longer
/// holds a call's result.
pub open spec fn cleared(targets: Seq<Expr>) -> Seq<BindingView>
    decreases targets.len(),
{
    if targets.len() == 0 {
        Seq::empty()
    } else {
        cleared(targets.drop_last()) + match targets.last() {
            Expr::Name { id, .. } => seq![(id@, None::<Seq<char>>)],
            _ => Seq::empty(),
        }
    }
}

/// The locals after statement `s`: an assignment of a call of a module
/// function to one name records it; any other assignment to a name forgets
/// it. The branches of an `if` do not change the locals after it.
pub open spec fn return_locals(module: Seq<char>, s: Stmt, locals: Seq<BindingView>) -> Seq<BindingView> {
    match s {
        Stmt::Assign { targets, value, .. } => {
            if targets@.len() == 1 && targets@[0] is Name && callable_origin(module, value) is Some {
                locals.push((targets@[0]->Name_id@, callable_origin(module, value)))
            } else {
                locals + cleared(targets@)
            }
        },
        Stmt::AnnAssign { target, value, .. } => match target {
            Expr::Name { id, .. } => match value {
                Some(v) => if callable_origin(module, v) is Some {
                    locals.push((id@, callable_origin(module, v)))
                } else {
                    locals.push((id@, None))
                },
                None => locals.push((id@, None)),
            },
            _ => locals,
        },
        _ => locals,
    }
}

/// The locals after the statements of a suite.
pub open spec fn suite_locals(module: Seq<char>, ss: Seq<Stmt>, locals: Seq<BindingView>) -> Seq<BindingView>
    decreases ss.len(),
{
    if ss.len() == 0 {
        locals
    } else {
        return_locals(module, ss.last(), suite_locals(module, ss.drop_last(), locals))
    }
}

/// The member uses that `owner` makes when it evaluates `e`: a call of a
/// member of a local that holds a call's result, then what the callee, the
/// arguments and the keyword values use.
pub open spec fn expr_uses(file: Seq<char>, owner: Seq<char>, locals: Seq<BindingView>, e: Expr) -> Seq<UseView>
    decreases e,
{
    match e {
        Expr::Call { func, args, keywords, .. } => {
            let direct = match *func {
                Expr::Attribute { value, attr, position } => match *value {
                    Expr::Name { id, .. } => match origin_of(locals, id@) {
                        Some(c) => seq![(owner, c, attr@, (file, position.line, position.column))],
                        None => Seq::empty(),
                    },
                    _ => Seq::empty(),
                },
                _ => Seq::empty(),
            };
            direct + expr_uses(file, owner, locals, *func) + list_uses(file, owner, locals, args@) + keyword_uses(
                file,
                owner,
                locals,
                keywords@,
            )
        },
        Expr::Attribute { value, .. } => expr_uses(file, owner, locals, *value),
        _ => Seq::empty(),
    }
}

pub open spec fn list_uses(file: Seq<char>, owner: Seq<char>, locals: Seq<BindingView>, es: Seq<Expr>) -> Seq<UseView>
    decreases es,
{
    if es.len() == 0 {
        Seq::empty()
    } else {
        list_uses(file, owner, locals, es.drop_last()) + expr_uses(file, owner, locals, es.last())
    }
}

pub open spec fn keyword_uses(file: Seq<char>, owner: Seq<char>, locals: Seq<BindingView>, ks: Seq<Keyword>) -> Seq<UseView>
    decreases ks,
{
    if ks.len() == 0 {
        Seq::empty()
    } else {
        keyword_uses(file, owner, locals, ks.drop_last()) + expr_uses(file, owner, locals, ks.last().value)
    }
}

/// The member uses of statement `s`, run with `locals`; each branch of an
/// `if` starts from the locals before the `if`.
pub open spec fn statement_uses(module: Seq<char>, file: Seq<char>, owner: Seq<char>, locals: Seq<BindingView>, s: Stmt) -> Seq<UseView>
    decreases s,
{
    match s {
        Stmt::Assign { value, .. } => expr_uses(file, owner, locals, value),
        Stmt::AnnAssign { value, .. } => match value {
            Some(v) => expr_uses(file, owner, locals, v),
            None => Seq::empty(),
        },
        Stmt::Expr { value } => expr_uses(file, owner, locals, value),
        Stmt::Return { value } => match value {
            Some(v) => expr_uses(file, owner, locals, v),
            None => Seq::empty(),
        },
        Stmt::If { test, body, orelse, .. } => expr_uses(file, owner, locals, test) + suite_uses(
            module,
            file,
            owner,
            locals,
            body@,
        ) + suite_uses(module, file, owner, locals, orelse@),
        _ => Seq::empty(),
    }
}

/// The member uses of a suite, each statement run with the locals the
/// statements before it left.
pub open spec fn suite_uses(module: Seq<char>, file: Seq<char>, owner: Seq<char>, locals: Seq<BindingView>, ss: Seq<Stmt>) -> Seq<UseView>
    decreases ss,
{
    if ss.len() == 0 {
        Seq::empty()
    } else {
        suite_uses(module, file, owner, locals, ss.drop_last()) + statement_uses(
            module,
            file,
            owner,
            suite_locals(module, ss.drop_last(), locals),
            ss.last(),
        )
    }
}

/// `origin_of`, computed.
fn find_origin(locals: &Vec<LocalBinding>, name: &str) -> (r: Option<String>)
    ensures
        match r {
            Some(c) => origin_of(binding_views(locals@), name@) == Some(c@),
            None => origin_of(binding_views(locals@), name@) is None,
        },
{
    let mut i: usize = locals.len();
    assert(binding_views(locals@).take(locals@.len() as int) =~= binding_views(locals@));
    while i > 0
        invariant
            i <= locals@.len(),
            origin_of(binding_views(locals@), name@) == origin_of(binding_views(locals@).take(i as int), name@),
        decreases i,
    {
        let ghost t = binding_views(locals@).take(i as int);
        assert(t.drop_last() =~= binding_views(locals@).take(i - 1));
        assert(t.last() == binding_view(locals@[i - 1]));
        if same_text(locals[i - 1].name.as_str(), name) {
            return match &locals[i - 1].callable {
                Some(c) => Some(copy_string(c)),
                None => None,
            };
        }
        i = i - 1;
    }
    None
}

/// `callable_origin`, computed.
fn origin_of_value(module: &str, value: &Expr) -> (r: Option<String>)
    ensures
        match r {
            Some(c) => callable_origin(module@, *value) == Some(c@),
            None => callable_origin(module@, *value) is None,
        },
{
    match value {
        Expr::Call { func, .. } => match &**func {
            Expr::Name { id, .. } => Some(join_dot(module, id.as_str())),
            _ => None,
        },
        _ => None,
    }
}

fn push_binding(locals: &mut Vec<LocalBinding>, name: &String, callable: Option<String>)
    ensures
        binding_views(final(locals)@) == binding_views(old(locals)@).push(
            (
                name@,
                match callable {
                    Some(c) => Some(c@),
                    None => None,
                },
            ),
        ),
{
    let ghost before = binding_views(locals@);
    let b = LocalBinding { name: copy_string(name), callable };
    locals.push(b);
    assert(binding_views(locals@) =~= before.push(binding_view(b)));
}

fn copy_bindings(locals: &Vec<LocalBinding>) -> (r: Vec<LocalBinding>)
    ensures
        binding_views(r@) == binding_views(locals@),
{
    let mut out: Vec<LocalBinding> = Vec::new();
    let mut i: usize = 0;
    while i < locals.len()
        invariant
            i <= locals@.len(),
            binding_views(out@) == binding_views(locals@).take(i as int),
        decreases locals@.len() - i,
    {
        let c = match &locals[i].callable {
            Some(c) => Some(copy_string(c)),
            None => None,
        };
        push_binding(&mut out, &locals[i].name, c);
        assert(binding_views(locals@).take(i + 1) =~= binding_views(locals@).take(i as int).push(binding_view(locals@[i as int])));
        i = i + 1;
    }
    assert(binding_views(locals@).take(locals@.len() as int) =~= binding_views(locals@));
    out
}

/// Forgets each name among the targets.
fn clear_targets(locals: &mut Vec<LocalBinding>, targets: &Vec<Expr>)
    ensures
        binding_views(final(locals)@) == binding_views(old(locals)@) + cleared(targets@),
{
    let ghost start = binding_views(locals@);
    let mut i: usize = 0;
    while i < targets.len()
        invariant
            i <= targets@.len(),
            binding_views(locals@) == start + cleared(targets@.take(i as int)),
        decreases targets@.len() - i,
    {
        let ghost t = targets@.take(i + 1);
        assert(t.drop_last() =~= targets@.take(i as int));
        assert(t.last() == targets@[i as int]);
        match &targets[i] {
            Expr::Name { id, .. } => {
                push_binding(locals, id, None);
                assert(start + cleared(t) =~= (start + cleared(targets@.take(i as int))).push((id@, None::<Seq<char>>)));
            },
            _ => {
                assert(start + cleared(t) =~= start + cleared(targets@.take(i as int)));
            },
        }
        i = i + 1;
    }
    assert(targets@.take(targets@.len() as int) =~= targets@);
}

fn push_use(out: &mut Vec<CallableReturnMemberUse>, file: &str, owner: &str, callable: String, member: &String, position: Position)
    ensures
        use_views(final(out)@) == use_views(old(out)@).push((owner@, callable@, member@, (file@, position.line, position.column))),
{
    let ghost before = use_views(out@);
    let u = CallableReturnMemberUse {
        from: String::from_str(owner),
        callable,
        member: copy_string(member),
        span: SourceSpan::new(file, position.line, position.column),
    };
    out.push(u);
    assert(use_views(out@) =~= before.push(use_view(u)));
}

/// Records the member uses `owner` makes when it evaluates `e` with the
/// locals `locals`.
pub fn collect_callable_return_local_expr(
    file: &str,
    owner: &str,
    e: &Expr,
    locals: &Vec<LocalBinding>,
    out: &mut Vec<CallableReturnMemberUse>,
)
    ensures
        use_views(final(out)@) == use_views(old(out)@) + expr_uses(file@, owner@, binding_views(locals@), *e),
    decreases e, 1nat,
{
    let ghost start = use_views(out@);
    let ghost env = binding_views(locals@);
    match e {
        Expr::Call { func, args, keywords, .. } => {
            match &**func {
                Expr::Attribute { value, attr, position } => match &**value {
                    Expr::Name { id, .. } => match find_origin(locals, id.as_str()) {
                        Some(c) => push_use(out, file, owner, c, attr, *position),
                        None => {},
                    },
                    _ => {},
                },
                _ => {},
            }
            let ghost after_direct = use_views(out@);
            collect_callable_return_local_expr(file, owner, &**func, locals, out);
            collect_callable_return_local_list(file, owner, args, locals, out);
            collect_callable_return_local_keywords(file, owner, keywords, locals, out);
            assert(use_views(out@) =~= start + expr_uses(file@, owner@, env, *e));
        },
        Expr::Attribute { value, .. } => {
            collect_callable_return_local_expr(file, owner, &**value, locals, out);
        },
        _ => {
            assert(use_views(out@) =~= start + expr_uses(file@, owner@, env, *e));
        },
    }
}

fn collect_callable_return_local_list(
    file: &str,
    owner: &str,
    es: &Vec<Expr>,
    locals: &Vec<LocalBinding>,
    out: &mut Vec<CallableReturnMemberUse>,
)
    ensures
        use_views(final(out)@) == use_views(old(out)@) + list_uses(file@, owner@, binding_views(locals@), es@),
    decreases es, 0nat,
{
    let ghost start = use_views(out@);
    let ghost env = binding_views(locals@);
    let mut i: usize = 0;
    while i < es.len()
        invariant
            i <= es@.len(),
            use_views(out@) == start + list_uses(file@, owner@, env, es@.take(i as int)),
            env == binding_views(locals@),
        decreases es@.len() - i,
    {
        let ghost t = es@.take(i + 1);
        assert(t.drop_last() =~= es@.take(i as int));
        assert(t.last() == es@[i as int]);
        collect_callable_return_local_expr(file, owner, &es[i], locals, out);
        assert(use_views(out@) =~= start + list_uses(file@, owner@, env, t));
        i = i + 1;
    }
    assert(es@.take(es@.len() as int) =~= es@);
}

fn collect_callable_return_local_keywords(
    file: &str,
    owner: &str,
    ks: &Vec<Keyword>,
    locals: &Vec<LocalBinding>,
    out: &mut Vec<CallableReturnMemberUse>,
)
    ensures
        use_views(final(out)@) == use_views(old(out)@) + keyword_uses(file@, owner@, binding_views(locals@), ks@),
    decreases ks, 0nat,
{
    let ghost start = use_views(out@);
    let ghost env = binding_views(locals@);
    let mut i: usize = 0;
    while i < ks.len()
        invariant
            i <= ks@.len(),
            use_views(out@) == start + keyword_uses(file@, owner@, env, ks@.take(i as int)),
            env == binding_views(locals@),
        decreases ks@.len() - i,
    {
        let ghost t = ks@.take(i + 1);
        assert(t.drop_last() =~= ks@.take(i as int));
        assert(t.last() == ks@[i as int]);
        collect_callable_return_local_expr(file, owner, &ks[i].value, locals, out);
        assert(use_views(out@) =~= start + keyword_uses(file@, owner@, env, t));
        i = i + 1;
    }
    assert(ks@.take(ks@.len() as int) =~= ks@);
}

/// Records the member uses `owner` makes in statement `s`, and updates the
/// locals that hold results of calls of the module's functions.
pub fn collect_callable_return_local_statement(
    module: &str,
    file: &str,
    owner: &str,
    s: &Stmt,
    locals: &mut Vec<LocalBinding>,
    out: &mut Vec<CallableReturnMemberUse>,
)
    ensures
        binding_views(final(locals)@) == return_locals(module@, *s, binding_views(old(locals)@)),
        use_views(final(out)@) == use_views(old(out)@) + statement_uses(module@, file@, owner@, binding_views(old(locals)@), *s),
    decreases s, 1nat,
{
    let ghost start = use_views(out@);
    let ghost env = binding_views(locals@);
    match s {
        Stmt::Assign { targets, value, .. } => {
            collect_callable_return_local_expr(file, owner, value, locals, out);
            let origin = origin_of_value(module, value);
            if targets.len() == 1 && origin.is_some() {
                match &targets[0] {
                    Expr::Name { id, .. } => {
                        push_binding(locals, id, origin);
                        return;
                    },
                    _ => {},
                }
            }
            clear_targets(locals, targets);
        },
        Stmt::AnnAssign { target, value, .. } => {
            let mut origin: Option<String> = None;
            match value {
                Some(v) => {
                    collect_callable_return_local_expr(file, owner, v, locals, out);
                    origin = origin_of_value(module, v);
                },
                None => {
                    assert(use_views(out@) =~= start + statement_uses(module@, file@, owner@, env, *s));
                },
            }
            match target {
                Expr::Name { id, .. } => push_binding(locals, id, origin),
                _ => {},
            }
        },
        Stmt::Expr { value } => {
            collect_callable_return_local_expr(file, owner, value, locals, out);
        },
        Stmt::Return { value } => match value {
            Some(v) => collect_callable_return_local_expr(file, owner, v, locals, out),
            None => {
                assert(use_views(out@) =~= start + statement_uses(module@, file@, owner@, env, *s));
            },
        },
        Stmt::If { test, body, orelse, .. } => {
            collect_callable_return_local_expr(file, owner, test, locals, out);
            let mut branch = copy_bindings(locals);
            collect_callable_return_local_suite(module, file, owner, body, &mut branch, out);
            let mut other = copy_bindings(locals);
            collect_callable_return_local_suite(module, file, owner, orelse, &mut other, out);
            assert(use_views(out@) =~= start + statement_uses(module@, file@, owner@, env, *s));
        },
        _ => {
            assert(use_views(out@) =~= start + statement_uses(module@, file@, owner@, env, *s));
        },
    }
}

/// Records the member uses of the statements of a suite, in order.
pub fn collect_callable_return_local_suite(
    module: &str,
    file: &str,
    owner: &str,
    ss: &Vec<Stmt>,
    locals: &mut Vec<LocalBinding>,
    out: &mut Vec<CallableReturnMemberUse>,
)
    ensures
        binding_views(final(locals)@) == suite_locals(module@, ss@, binding_views(old(locals)@)),
        use_views(final(out)@) == use_views(old(out)@) + suite_uses(module@, file@, owner@, binding_views(old(locals)@), ss@),
    decreases ss, 0nat,
{
    let ghost start = use_views(out@);
    let ghost env = binding_views(locals@);
    let mut i: usize = 0;
    while i < ss.len()
        invariant
            i <= ss@.len(),
            binding_views(locals@) == suite_locals(module@, ss@.take(i as int), env),
            use_views(out@) == start + suite_uses(module@, file@, owner@, env, ss@.take(i as int)),
        decreases ss@.len() - i,
    {
        let ghost t = ss@.take(i + 1);
        assert(t.drop_last() =~= ss@.take(i as int));
        assert(t.last() == ss@[i as int]);
        collect_callable_return_local_statement(module, file, owner, &ss[i], locals, out);
        assert(use_views(out@) =~= start + suite_uses(module@, file@, owner@, env, t));
        i = i + 1;
    }
    assert(ss@.take(ss@.len() as int) =~= ss@);
}

/// The member uses that the body of function `owner` makes on the results
/// of calls of the module's functions, starting with no such local.
pub fn collect_callable_return_local_member_uses(module: &str, file: &str, owner: &str, body: &Vec<Stmt>) -> (r: Vec<CallableReturnMemberUse>)
    ensures
        use_views(r@) == suite_uses(module@, file@, owner@, Seq::empty(), body@),
{
    let mut locals: Vec<LocalBinding> = Vec::new();
    let mut out: Vec<CallableReturnMemberUse> = Vec::new();
    assert(binding_views(locals@) =~= Seq::<BindingView>::empty());
    collect_callable_return_local_suite(module, file, owner, body, &mut locals, &mut out);
    assert(use_views(out@) =~= suite_uses(module@, file@, owner@, Seq::empty(), body@));
    out
}

/// The member uses of the methods in the body of class `owner`.
pub open spec fn method_uses(module: Seq<char>, file: Seq<char>, owner: Seq<char>, ss: Seq<Stmt>) -> Seq<UseView>
    decreases ss.len(),
{
    if ss.len() == 0 {
        Seq::empty()
    } else {
        method_uses(module, file, owner, ss.drop_last()) + match ss.last() {
            Stmt::FunctionDef(f) => suite_uses(module, file, dotted(owner, f.name@), Seq::empty(), f.body@),
            _ => Seq::empty(),
        }
    }
}

/// The member uses of the functions and methods of a module, in order.
pub open spec fn module_uses(module: Seq<char>, file: Seq<char>, ss: Seq<Stmt>) -> Seq<UseView>
    decreases ss.len(),
{
    if ss.len() == 0 {
        Seq::empty()
    } else {
        module_uses(module, file, ss.drop_last()) + match ss.last() {
            Stmt::FunctionDef(f) => suite_uses(module, file, dotted(module, f.name@), Seq::empty(), f.body@),
            Stmt::ClassDef(c) => method_uses(module, file, dotted(module, c.name@), c.body@),
            _ => Seq::empty(),
        }
    }
}

fn append_uses(out: &mut Vec<CallableReturnMemberUse>, more: Vec<CallableReturnMemberUse>)
    ensures
        use_views(final(out)@) == use_views(old(out)@) + use_views(more@),
{
    let ghost a = use_views(out@);
    let mut more = more;
    let ghost b = use_views(more@);
    out.append(&mut more);
    assert(use_views(out@) =~= a + b);
}

fn collect_method_uses(module: &str, file: &str, owner: &str, ss: &Vec<Stmt>) -> (r: Vec<CallableReturnMemberUse>)
    ensures
        use_views(r@) == method_uses(module@, file@, owner@, ss@),
{
    let mut out: Vec<CallableReturnMemberUse> = Vec::new();
    let mut i: usize = 0;
    assert(use_views(out@) =~= Seq::<UseView>::empty());
    while i < ss.len()
        invariant
            i <= ss@.len(),
            use_views(out@) == method_uses(module@, file@, owner@, ss@.take(i as int)),
        decreases ss@.len() - i,
    {
        let ghost t = ss@.take(i + 1);
        assert(t.drop_last() =~= ss@.take(i as int));
        assert(t.last() == ss@[i as int]);
        match &ss[i] {
            Stmt::FunctionDef(f) => {
                let q = join_dot(owner, f.name.as_str());
                append_uses(&mut out, collect_callable_return_local_member_uses(module, file, q.as_str(), &f.body));
            },
            _ => {
                assert(use_views(out@) =~= use_views(out@) + Seq::<UseView>::empty());
            },
        }
        i = i + 1;
    }
    assert(ss@.take(ss@.len() as int) =~= ss@);
    out
}

/// The member uses that the functions and methods of a module make on the
/// results of calls of the module's functions.
pub fn module_call_result_uses(module: &str, file: &str, ss: &Vec<Stmt>) -> (r: Vec<CallableReturnMemberUse>)
    ensures
        use_views(r@) == module_uses(module@, file@, ss@),
{
    let mut out: Vec<CallableReturnMemberUse> = Vec::new();
    let mut i: usize = 0;
    assert(use_views(out@) =~= Seq::<UseView>::empty());
    while i < ss.len()
        invariant
            i <= ss@.len(),
            use_views(out@) == module_uses(module@, file@, ss@.take(i as int)),
        decreases ss@.len() - i,
    {
        let ghost t = ss@.take(i + 1);
        assert(t.drop_last() =~= ss@.take(i as int));
        assert(t.last() == ss@[i as int]);
        match &ss[i] {
            Stmt::FunctionDef(f) => {
                let q = join_dot(module, f.name.as_str());
                append_uses(&mut out, collect_callable_return_local_member_uses(module, file, q.as_str(), &f.body));
            },
            Stmt::ClassDef(c) => {
                let q = join_dot(module, c.name.as_str());
                append_uses(&mut out, collect_method_uses(module, file, q.as_str(), &c.body));
            },
            _ => {
                assert(use_views(out@) =~= use_views(out@) + Seq::<UseView>::empty());
            },
        }
        i = i + 1;
    }
    assert(ss@.take(ss@.len() as int) =~= ss@);
    out
}

} // verus!
