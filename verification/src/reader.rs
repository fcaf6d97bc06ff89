//! The module reader: the walk over a module's syntax tree that collects its
//! symbols, its pytest fixtures, its imports and whether it has an entry
//! guard, then what its code records, its classes, its function signatures,
//! its roots and the members its functions use on results of local calls.
use vstd::prelude::*;

use crate::analysis::span_view;
use crate::allow::{allow_comment_roots, allowed_group, comment_roots};
use crate::call_results::{module_call_result_uses, module_uses, use_views, CallableReturnMemberUse};
use crate::collect::{
    class_info_view, collect_classes, collect_module, collect_signatures, collected_view, module_classes, module_collected,
    module_signatures, signature_view, Collected, ReadContext,
};
use crate::config::{ConstructorRule, DecoratorRule};
use crate::index::{
    heads_with_module, ClassInfo, FunctionSignature, ImportTarget, IndexedSymbol, ModuleIndex, PytestFixture,
    ResolvedImport,
};
use crate::roots::{entry_roots, root_symbols_for_module, root_views};
use crate::reexports::{has_key, keys_distinct, reexport_target, target_view, Reexport};
use crate::report::{SourceSpan, SymbolKind};
use crate::syntax::{
    is_main_guard, is_main_test, name_of_target, self_attribute_name, self_attribute_of, target_name,
    Decorator, Expr, ImportAlias, Keyword, ModuleSyntax, Position, Stmt,
};
use crate::text::{
    contains_string, copy_string, dotted, ends_with, first_piece, has_suffix, holds, join_dot, pieces,
    same_text, split_all, views,
};

verus! {

/// A symbol by value: qualified name, name, kind and span.
pub type SymbolView = (Seq<char>, Seq<char>, SymbolKind, (Seq<char>, usize, usize));

pub open spec fn symbol_view(s: IndexedSymbol) -> SymbolView {
    (s.qualified_name@, s.name@, s.kind, span_view(s.span))
}

/// `symbol_view` of each symbol, in order.
pub open spec fn symbol_views(v: Seq<IndexedSymbol>) -> Seq<SymbolView> {
    v.map_values(|s: IndexedSymbol| symbol_view(s))
}

/// The symbol `qualified` named `name`, of kind `kind`, at `p` in `file`.
pub open spec fn symbol_at(qualified: Seq<char>, name: Seq<char>, kind: SymbolKind, file: Seq<char>, p: Position) -> SymbolView {
    (qualified, name, kind, (file, p.line, p.column))
}

/// The attributes that the assignment targets `self.<name>` give to class
/// `class` of `module`.
pub open spec fn self_target_symbols(module: Seq<char>, class: Seq<char>, file: Seq<char>, targets: Seq<Expr>, p: Position) -> Seq<SymbolView>
    decreases targets.len(),
{
    if targets.len() == 0 {
        Seq::empty()
    } else {
        let rest = self_target_symbols(module, class, file, targets.drop_last(), p);
        match self_attribute_name(targets.last()) {
            Some(n) => rest.push(symbol_at(dotted(dotted(module, class), n), n, SymbolKind::Attribute, file, p)),
            None => rest,
        }
    }
}

/// The attributes and fields that statement `s` of a method body gives to
/// class `class` through `self`, looking into `if` statements.
pub open spec fn self_symbols(module: Seq<char>, class: Seq<char>, file: Seq<char>, s: Stmt) -> Seq<SymbolView>
    decreases s,
{
    match s {
        Stmt::Assign { targets, position, .. } => self_target_symbols(module, class, file, targets@, position),
        Stmt::AnnAssign { target, position, .. } => match self_attribute_name(target) {
            Some(n) => seq![symbol_at(dotted(dotted(module, class), n), n, SymbolKind::Field, file, position)],
            None => Seq::empty(),
        },
        Stmt::If { test, body, orelse, position } => self_symbols_of_body(module, class, file, body@)
            + self_symbols_of_body(module, class, file, orelse@),
        _ => Seq::empty(),
    }
}

/// `self_symbols` over the statements of a body, in order.
pub open spec fn self_symbols_of_body(module: Seq<char>, class: Seq<char>, file: Seq<char>, body: Seq<Stmt>) -> Seq<SymbolView>
    decreases body,
{
    if body.len() == 0 {
        Seq::empty()
    } else {
        self_symbols_of_body(module, class, file, body.drop_last()) + self_symbols(module, class, file, body.last())
    }
}

/// A pytest fixture by value: fixture name, function and `autouse`.
pub type FixtureView = (Seq<char>, Seq<char>, bool);

pub open spec fn fixture_view(f: PytestFixture) -> FixtureView {
    (f.name@, f.function@, f.autouse)
}

/// `fixture_view` of each fixture, in order.
pub open spec fn fixture_views(v: Seq<PytestFixture>) -> Seq<FixtureView> {
    v.map_values(|f: PytestFixture| fixture_view(f))
}

/// The callee of a fixture decorator: `fixture` or `pytest.fixture`.
pub open spec fn is_fixture_callee(e: Expr) -> bool {
    match e {
        Expr::Name { id, .. } => id@ == "fixture"@,
        Expr::Attribute { value, attr, .. } => attr@ == "fixture"@ && match *value {
            Expr::Name { id, .. } => id@ == "pytest"@,
            _ => false,
        },
        _ => false,
    }
}

/// The first keyword argument named `arg`.
pub open spec fn keyword_named(keywords: Seq<Keyword>, arg: Seq<char>) -> Option<Keyword>
    decreases keywords.len(),
{
    if keywords.len() == 0 {
        None
    } else if (match keywords[0].arg {
        Some(a) => a@ == arg,
        None => false,
    }) {
        Some(keywords[0])
    } else {
        keyword_named(keywords.drop_first(), arg)
    }
}

/// The text of a string literal.
pub open spec fn string_literal(e: Expr) -> Option<Seq<char>> {
    match e {
        Expr::StringLiteral { value } => Some(value@),
        _ => None,
    }
}

/// The fixture that decorator `d` makes of the function `function`, whose
/// own name is `name`: named by the `name=` string of a call, else after the
/// function, and `autouse` when a call says `autouse=True`.
pub open spec fn fixture_of(function: Seq<char>, name: Seq<char>, d: Expr) -> Option<FixtureView> {
    match d {
        Expr::Call { func, keywords, .. } => if is_fixture_callee(*func) {
            let fixture_name = match keyword_named(keywords@, "name"@) {
                Some(k) => match string_literal(k.value) {
                    Some(v) => v,
                    None => name,
                },
                None => name,
            };
            let autouse = match keyword_named(keywords@, "autouse"@) {
                Some(k) => k.value == (Expr::BooleanLiteral { value: true }),
                None => false,
            };
            Some((fixture_name, function, autouse))
        } else {
            None
        },
        _ => if is_fixture_callee(d) {
            Some((name, function, false))
        } else {
            None
        },
    }
}

/// The fixtures that the decorators make of `function`, in order.
pub open spec fn decorator_fixtures(function: Seq<char>, name: Seq<char>, decorators: Seq<Decorator>) -> Seq<FixtureView>
    decreases decorators.len(),
{
    if decorators.len() == 0 {
        Seq::empty()
    } else {
        let rest = decorator_fixtures(function, name, decorators.drop_last());
        match fixture_of(function, name, decorators.last().expression) {
            Some(f) => rest.push(f),
            None => rest,
        }
    }
}

/// The attributes that the plain-name targets of an assignment in the body
/// of class `class` declare.
pub open spec fn target_symbols(module: Seq<char>, class: Seq<char>, file: Seq<char>, targets: Seq<Expr>, p: Position) -> Seq<SymbolView>
    decreases targets.len(),
{
    if targets.len() == 0 {
        Seq::empty()
    } else {
        let rest = target_symbols(module, class, file, targets.drop_last(), p);
        match target_name(targets.last()) {
            Some(n) => rest.push(symbol_at(dotted(dotted(module, class), n), n, SymbolKind::Attribute, file, p)),
            None => rest,
        }
    }
}

/// The symbols that statement `s` of the body of class `class` declares: a
/// method with the attributes it assigns through `self`, an annotated field,
/// or assigned attributes.
pub open spec fn class_member_symbols(module: Seq<char>, class: Seq<char>, file: Seq<char>, s: Stmt) -> Seq<SymbolView> {
    match s {
        Stmt::FunctionDef(f) => seq![
            symbol_at(dotted(dotted(module, class), f.name@), f.name@, SymbolKind::Method, file, f.position),
        ] + self_symbols_of_body(module, class, file, f.body@),
        Stmt::AnnAssign { target, position, .. } => match target_name(target) {
            Some(n) => seq![symbol_at(dotted(dotted(module, class), n), n, SymbolKind::Field, file, position)],
            None => Seq::empty(),
        },
        Stmt::Assign { targets, position, .. } => target_symbols(module, class, file, targets@, position),
        _ => Seq::empty(),
    }
}

/// The fixtures that statement `s` of the body of class `class` makes.
pub open spec fn class_member_fixtures(module: Seq<char>, class: Seq<char>, s: Stmt) -> Seq<FixtureView> {
    match s {
        Stmt::FunctionDef(f) => decorator_fixtures(dotted(dotted(module, class), f.name@), f.name@, f.decorators@),
        _ => Seq::empty(),
    }
}

/// `class_member_symbols` over a class body, in order.
pub open spec fn class_body_symbols(module: Seq<char>, class: Seq<char>, file: Seq<char>, body: Seq<Stmt>) -> Seq<SymbolView>
    decreases body.len(),
{
    if body.len() == 0 {
        Seq::empty()
    } else {
        class_body_symbols(module, class, file, body.drop_last()) + class_member_symbols(module, class, file, body.last())
    }
}

/// `class_member_fixtures` over a class body, in order.
pub open spec fn class_body_fixtures(module: Seq<char>, class: Seq<char>, body: Seq<Stmt>) -> Seq<FixtureView>
    decreases body.len(),
{
    if body.len() == 0 {
        Seq::empty()
    } else {
        class_body_fixtures(module, class, body.drop_last()) + class_member_fixtures(module, class, body.last())
    }
}

/// The symbols that a statement of the module declares: a function, or a
/// class with its members.
pub open spec fn statement_symbols(module: Seq<char>, file: Seq<char>, s: Stmt) -> Seq<SymbolView> {
    match s {
        Stmt::FunctionDef(f) => seq![symbol_at(dotted(module, f.name@), f.name@, SymbolKind::Function, file, f.position)],
        Stmt::ClassDef(c) => seq![symbol_at(dotted(module, c.name@), c.name@, SymbolKind::Class, file, c.position)]
            + class_body_symbols(module, c.name@, file, c.body@),
        _ => Seq::empty(),
    }
}

/// The fixtures that a statement of the module makes.
pub open spec fn statement_fixtures(module: Seq<char>, s: Stmt) -> Seq<FixtureView> {
    match s {
        Stmt::FunctionDef(f) => decorator_fixtures(dotted(module, f.name@), f.name@, f.decorators@),
        Stmt::ClassDef(c) => class_body_fixtures(module, c.name@, c.body@),
        _ => Seq::empty(),
    }
}

/// `statement_symbols` over the statements of the module, in order.
pub open spec fn body_symbols(module: Seq<char>, file: Seq<char>, body: Seq<Stmt>) -> Seq<SymbolView>
    decreases body.len(),
{
    if body.len() == 0 {
        Seq::empty()
    } else {
        body_symbols(module, file, body.drop_last()) + statement_symbols(module, file, body.last())
    }
}

/// `statement_fixtures` over the statements of the module, in order.
pub open spec fn body_fixtures(module: Seq<char>, body: Seq<Stmt>) -> Seq<FixtureView>
    decreases body.len(),
{
    if body.len() == 0 {
        Seq::empty()
    } else {
        body_fixtures(module, body.drop_last()) + statement_fixtures(module, body.last())
    }
}

/// The symbols of a module: the module itself at line 1, column 1, then
/// what its statements declare.
pub open spec fn module_symbols(module: Seq<char>, file: Seq<char>, tree: ModuleSyntax) -> Seq<SymbolView> {
    seq![(module, module, SymbolKind::Module, (file, 1usize, 1usize))] + body_symbols(module, file, tree.body@)
}

/// The statement is the entry guard `if __name__ == "__main__":`.
pub open spec fn is_main_guard_statement(s: Stmt) -> bool {
    match s {
        Stmt::If { test, .. } => is_main_test(test),
        _ => false,
    }
}

/// Some statement of the module is the entry guard.
pub open spec fn has_main_guard(tree: ModuleSyntax) -> bool {
    exists|i: int| 0 <= i < tree.body@.len() && is_main_guard_statement(#[trigger] tree.body@[i])
}

/// An import target by value (see `target_view`).
pub type TargetView = (nat, Seq<char>, Seq<char>, bool);

/// An import by value: binding, target and span.
pub type ImportView = (Seq<char>, TargetView, (Seq<char>, usize, usize));

pub open spec fn import_view(i: ResolvedImport) -> ImportView {
    (i.binding@, target_view(i.target), span_view(i.span))
}

/// `import_view` of each import, in order.
pub open spec fn import_views(v: Seq<ResolvedImport>) -> Seq<ImportView> {
    v.map_values(|i: ResolvedImport| import_view(i))
}

/// What the re-export table maps `binding` of `module` to.
pub open spec fn table_target(table: Seq<Reexport>, module: Seq<char>, binding: Seq<char>) -> Option<TargetView> {
    if has_key(table, module, binding) {
        let i = choose|i: int| 0 <= i < table.len() && #[trigger] table[i].module@ == module && table[i].binding@ == binding;
        Some(target_view(table[i].target))
    } else {
        None
    }
}

/// The parts joined with dots (`parts.join(".")`).
pub open spec fn joined(parts: Seq<Seq<char>>) -> Seq<char>
    decreases parts.len(),
{
    if parts.len() == 0 {
        Seq::empty()
    } else if parts.len() == 1 {
        parts[0]
    } else {
        dotted(joined(parts.drop_last()), parts.last())
    }
}

/// The file is a package's `__init__.py`.
pub open spec fn is_package_init(file: Seq<char>) -> bool {
    has_suffix(file, "/__init__.py"@) || has_suffix(file, "\\__init__.py"@)
}

/// The module that `from <dots><module> import ...` in module `current`
/// imports from: with no dots, `module`; else `current`'s package (or
/// `current` itself for a package's `__init__.py`), less one ancestor for
/// each dot after the first, then `module`; none when the dots climb above
/// the top.
pub open spec fn import_base(current: Seq<char>, module: Option<Seq<char>>, level: u32, package_init: bool) -> Option<Seq<char>> {
    if level == 0 {
        module
    } else {
        let all = pieces(current, '.');
        let parts = if package_init {
            all
        } else {
            all.drop_last()
        };
        let ancestors = level - 1;
        if ancestors > parts.len() {
            None
        } else {
            let kept = parts.take(parts.len() - ancestors);
            Some(
                joined(
                    match module {
                        Some(m) => kept + pieces(m, '.'),
                        None => kept,
                    },
                ),
            )
        }
    }
}

/// The name that `import <name>` or `import <name> as <asname>` binds.
pub open spec fn import_binding(a: ImportAlias) -> Seq<char> {
    match a.asname {
        Some(n) => n@,
        None => first_piece(a.name@, '.'),
    }
}

/// The imports of `import a, b as c` at `p`, one per name.
pub open spec fn import_imports(file: Seq<char>, known: Seq<String>, names: Seq<ImportAlias>, p: Position) -> Seq<ImportView>
    decreases names.len(),
{
    if names.len() == 0 {
        Seq::empty()
    } else {
        let a = names.last();
        import_imports(file, known, names.drop_last(), p).push(
            (import_binding(a), (0nat, a.name@, Seq::empty(), !holds(known, a.name@)), (file, p.line, p.column)),
        )
    }
}

/// What `from <base> import <name>` refers to: everything of `base` for `*`,
/// the project module `<base>.<name>` where there is one, else what the
/// re-export table gives, else the symbol `name` of `base`.
pub open spec fn from_target(base: Seq<char>, external: bool, name: Seq<char>, known: Seq<String>, table: Seq<Reexport>) -> TargetView {
    if name == "*"@ {
        (2nat, base, Seq::empty(), external)
    } else if holds(known, dotted(base, name)) {
        (0nat, dotted(base, name), Seq::empty(), false)
    } else {
        match table_target(table, base, name) {
            Some(t) => t,
            None => (1nat, base, name, external),
        }
    }
}

/// The name that `from ... import <name>` or `... import <name> as <asname>` binds.
pub open spec fn from_binding(a: ImportAlias) -> Seq<char> {
    match a.asname {
        Some(n) => n@,
        None => a.name@,
    }
}

/// The imports of `from <base> import a, b as c` at `p`, one per name.
pub open spec fn from_imports(
    base: Seq<char>,
    file: Seq<char>,
    known: Seq<String>,
    table: Seq<Reexport>,
    names: Seq<ImportAlias>,
    p: Position,
) -> Seq<ImportView>
    decreases names.len(),
{
    if names.len() == 0 {
        Seq::empty()
    } else {
        let a = names.last();
        from_imports(base, file, known, table, names.drop_last(), p).push(
            (from_binding(a), from_target(base, !holds(known, base), a.name@, known, table), (file, p.line, p.column)),
        )
    }
}

/// The imports of a statement of module `module` in `file`.
pub open spec fn statement_imports(module: Seq<char>, file: Seq<char>, known: Seq<String>, table: Seq<Reexport>, s: Stmt) -> Seq<ImportView> {
    match s {
        Stmt::Import { names, position } => import_imports(file, known, names@, position),
        Stmt::ImportFrom { module: from, level, names, position } => match import_base(
            module,
            match from {
                Some(m) => Some(m@),
                None => None,
            },
            level,
            is_package_init(file),
        ) {
            Some(base) => from_imports(base, file, known, table, names@, position),
            None => Seq::empty(),
        },
        _ => Seq::empty(),
    }
}

/// `statement_imports` over the statements of the module, in order.
pub open spec fn body_imports(module: Seq<char>, file: Seq<char>, known: Seq<String>, table: Seq<Reexport>, body: Seq<Stmt>) -> Seq<ImportView>
    decreases body.len(),
{
    if body.len() == 0 {
        Seq::empty()
    } else {
        body_imports(module, file, known, table, body.drop_last()) + statement_imports(module, file, known, table, body.last())
    }
}

/// Appends the symbol `qualified` named `name` of kind `kind` at `p` in `file`.
fn push_symbol(out: &mut Vec<IndexedSymbol>, qualified: String, name: &String, kind: SymbolKind, file: &str, p: Position)
    ensures
        symbol_views(final(out)@) == symbol_views(old(out)@).push(symbol_at(qualified@, name@, kind, file@, p)),
{
    let ghost before = symbol_views(out@);
    out.push(IndexedSymbol { qualified_name: qualified, name: copy_string(name), kind, span: SourceSpan::new(file, p.line, p.column) });
    assert(symbol_views(out@) =~= before.push(symbol_at(qualified@, name@, kind, file@, p)));
}

/// The attributes `self.<name> = ...` of the targets, appended in order.
fn collect_self_targets(module: &str, class: &str, file: &str, targets: &Vec<Expr>, p: Position, out: &mut Vec<IndexedSymbol>)
    ensures
        symbol_views(final(out)@) == symbol_views(old(out)@) + self_target_symbols(module@, class@, file@, targets@, p),
{
    let ghost start = symbol_views(out@);
    let mut i: usize = 0;
    while i < targets.len()
        invariant
            i <= targets@.len(),
            symbol_views(out@) == start + self_target_symbols(module@, class@, file@, targets@.take(i as int), p),
        decreases targets@.len() - i,
    {
        let ghost t = targets@.take(i + 1);
        assert(t.drop_last() =~= targets@.take(i as int));
        match self_attribute_of(&targets[i]) {
            Some(n) => {
                let owner = join_dot(module, class);
                let qualified = join_dot(owner.as_str(), n.as_str());
                push_symbol(out, qualified, n, SymbolKind::Attribute, file, p);
            },
            None => {},
        }
        i = i + 1;
    }
    assert(targets@.take(targets@.len() as int) =~= targets@);
}

/// The attributes and fields that statement `s` of a method of `class`
/// assigns through `self`, appended in order.
fn collect_self_assignments_in_statement(module: &str, class: &str, file: &str, s: &Stmt, out: &mut Vec<IndexedSymbol>)
    ensures
        symbol_views(final(out)@) == symbol_views(old(out)@) + self_symbols(module@, class@, file@, *s),
    decreases s,
{
    match s {
        Stmt::Assign { targets, position, .. } => {
            collect_self_targets(module, class, file, targets, *position, out);
        },
        Stmt::AnnAssign { target, position, .. } => {
            match self_attribute_of(target) {
                Some(n) => {
                    let ghost before = symbol_views(out@);
                    let owner = join_dot(module, class);
                    let qualified = join_dot(owner.as_str(), n.as_str());
                    push_symbol(out, qualified, n, SymbolKind::Field, file, *position);
                    assert(symbol_views(out@) =~= before + self_symbols(module@, class@, file@, *s));
                },
                None => {
                    assert(symbol_views(out@) =~= symbol_views(out@) + self_symbols(module@, class@, file@, *s));
                },
            }
        },
        Stmt::If { test, body, orelse, position } => {
            let ghost start = symbol_views(out@);
            collect_self_assignments(module, class, file, body, out);
            collect_self_assignments(module, class, file, orelse, out);
            assert(symbol_views(out@) =~= start + self_symbols(module@, class@, file@, *s));
        },
        _ => {
            assert(symbol_views(out@) =~= symbol_views(out@) + self_symbols(module@, class@, file@, *s));
        },
    }
}

/// `collect_self_assignments_in_statement` over the statements of a body, in order.
fn collect_self_assignments(module: &str, class: &str, file: &str, body: &Vec<Stmt>, out: &mut Vec<IndexedSymbol>)
    ensures
        symbol_views(final(out)@) == symbol_views(old(out)@) + self_symbols_of_body(module@, class@, file@, body@),
    decreases body,
{
    let ghost start = symbol_views(out@);
    let mut i: usize = 0;
    while i < body.len()
        invariant
            i <= body@.len(),
            symbol_views(out@) == start + self_symbols_of_body(module@, class@, file@, body@.take(i as int)),
        decreases body@.len() - i,
    {
        let ghost t = body@.take(i + 1);
        assert(t.drop_last() =~= body@.take(i as int));
        assert(t.last() == body@[i as int]);
        collect_self_assignments_in_statement(module, class, file, &body[i], out);
        assert(symbol_views(out@) =~= start + self_symbols_of_body(module@, class@, file@, t));
        i = i + 1;
    }
    assert(body@.take(body@.len() as int) =~= body@);
}

/// `is_fixture_callee`, computed.
fn is_pytest_fixture_callee(e: &Expr) -> (r: bool)
    ensures
        r == is_fixture_callee(*e),
{
    match e {
        Expr::Name { id, .. } => same_text(id.as_str(), "fixture"),
        Expr::Attribute { value, attr, .. } => {
            if !same_text(attr.as_str(), "fixture") {
                return false;
            }
            match &**value {
                Expr::Name { id, .. } => same_text(id.as_str(), "pytest"),
                _ => false,
            }
        },
        _ => false,
    }
}

/// The first keyword argument named `arg`.
fn find_keyword<'a>(keywords: &'a Vec<Keyword>, arg: &str) -> (r: Option<&'a Keyword>)
    ensures
        match r {
            Some(k) => keyword_named(keywords@, arg@) == Some(*k),
            None => keyword_named(keywords@, arg@) is None,
        },
{
    let mut i: usize = 0;
    assert(keywords@.skip(0) =~= keywords@);
    while i < keywords.len()
        invariant
            i <= keywords@.len(),
            keyword_named(keywords@, arg@) == keyword_named(keywords@.skip(i as int), arg@),
        decreases keywords@.len() - i,
    {
        let ghost rest = keywords@.skip(i as int);
        assert(rest[0] == keywords@[i as int]);
        assert(rest.drop_first() =~= keywords@.skip(i + 1));
        let named = match &keywords[i].arg {
            Some(a) => same_text(a.as_str(), arg),
            None => false,
        };
        if named {
            return Some(&keywords[i]);
        }
        i = i + 1;
    }
    assert(keywords@.skip(i as int).len() == 0);
    None
}

/// The fixture that decorator `d` makes of `function`, named `name`.
fn pytest_fixture_from_decorator(function: &String, name: &String, d: &Expr) -> (r: Option<PytestFixture>)
    ensures
        match r {
            Some(f) => fixture_of(function@, name@, *d) == Some(fixture_view(f)),
            None => fixture_of(function@, name@, *d) is None,
        },
{
    match d {
        Expr::Call { func, keywords, .. } => {
            if !is_pytest_fixture_callee(&**func) {
                return None;
            }
            let fixture_name = match find_keyword(keywords, "name") {
                Some(k) => match &k.value {
                    Expr::StringLiteral { value } => copy_string(value),
                    _ => copy_string(name),
                },
                None => copy_string(name),
            };
            let autouse = match find_keyword(keywords, "autouse") {
                Some(k) => match &k.value {
                    Expr::BooleanLiteral { value } => *value,
                    _ => false,
                },
                None => false,
            };
            Some(PytestFixture { name: fixture_name, function: copy_string(function), autouse })
        },
        _ => {
            if is_pytest_fixture_callee(d) {
                Some(PytestFixture { name: copy_string(name), function: copy_string(function), autouse: false })
            } else {
                None
            }
        },
    }
}

/// What the decorators of `function` make of it: the pytest fixtures,
/// appended in order.
fn collect_fixture_decorators(function: &String, name: &String, decorators: &Vec<Decorator>, out: &mut Vec<PytestFixture>)
    ensures
        fixture_views(final(out)@) == fixture_views(old(out)@) + decorator_fixtures(function@, name@, decorators@),
{
    let ghost start = fixture_views(out@);
    let mut i: usize = 0;
    while i < decorators.len()
        invariant
            i <= decorators@.len(),
            fixture_views(out@) == start + decorator_fixtures(function@, name@, decorators@.take(i as int)),
        decreases decorators@.len() - i,
    {
        let ghost t = decorators@.take(i + 1);
        assert(t.drop_last() =~= decorators@.take(i as int));
        assert(t.last() == decorators@[i as int]);
        match pytest_fixture_from_decorator(function, name, &decorators[i].expression) {
            Some(f) => {
                let ghost before = fixture_views(out@);
                out.push(f);
                assert(fixture_views(out@) =~= before.push(fixture_view(f)));
            },
            None => {},
        }
        i = i + 1;
    }
    assert(decorators@.take(decorators@.len() as int) =~= decorators@);
}

/// The attributes that plain-name targets of an assignment in class `class`
/// declare, appended in order.
fn collect_target_symbols(module: &str, class: &str, file: &str, targets: &Vec<Expr>, p: Position, out: &mut Vec<IndexedSymbol>)
    ensures
        symbol_views(final(out)@) == symbol_views(old(out)@) + target_symbols(module@, class@, file@, targets@, p),
{
    let ghost start = symbol_views(out@);
    let mut i: usize = 0;
    while i < targets.len()
        invariant
            i <= targets@.len(),
            symbol_views(out@) == start + target_symbols(module@, class@, file@, targets@.take(i as int), p),
        decreases targets@.len() - i,
    {
        let ghost t = targets@.take(i + 1);
        assert(t.drop_last() =~= targets@.take(i as int));
        match name_of_target(&targets[i]) {
            Some(n) => {
                let owner = join_dot(module, class);
                let qualified = join_dot(owner.as_str(), n.as_str());
                push_symbol(out, qualified, n, SymbolKind::Attribute, file, p);
            },
            None => {},
        }
        i = i + 1;
    }
    assert(targets@.take(targets@.len() as int) =~= targets@);
}

/// Reads one statement of the body of class `class`.
fn collect_class_member(
    module: &str,
    class: &String,
    file: &str,
    s: &Stmt,
    symbols: &mut Vec<IndexedSymbol>,
    fixtures: &mut Vec<PytestFixture>,
)
    ensures
        symbol_views(final(symbols)@) == symbol_views(old(symbols)@) + class_member_symbols(module@, class@, file@, *s),
        fixture_views(final(fixtures)@) == fixture_views(old(fixtures)@) + class_member_fixtures(module@, class@, *s),
{
    let ghost s0 = symbol_views(symbols@);
    let ghost f0 = fixture_views(fixtures@);
    match s {
        Stmt::FunctionDef(f) => {
            let owner = join_dot(module, class.as_str());
            let qualified = join_dot(owner.as_str(), f.name.as_str());
            let function = copy_string(&qualified);
            push_symbol(symbols, qualified, &f.name, SymbolKind::Method, file, f.position);
            collect_self_assignments(module, class.as_str(), file, &f.body, symbols);
            collect_fixture_decorators(&function, &f.name, &f.decorators, fixtures);
            assert(symbol_views(symbols@) =~= s0 + class_member_symbols(module@, class@, file@, *s));
        },
        Stmt::AnnAssign { target, position, .. } => {
            match name_of_target(target) {
                Some(n) => {
                    let owner = join_dot(module, class.as_str());
                    let qualified = join_dot(owner.as_str(), n.as_str());
                    push_symbol(symbols, qualified, n, SymbolKind::Field, file, *position);
                    assert(symbol_views(symbols@) =~= s0 + class_member_symbols(module@, class@, file@, *s));
                },
                None => {
                    assert(symbol_views(symbols@) =~= s0 + class_member_symbols(module@, class@, file@, *s));
                },
            }
            assert(fixture_views(fixtures@) =~= f0 + class_member_fixtures(module@, class@, *s));
        },
        Stmt::Assign { targets, position, .. } => {
            collect_target_symbols(module, class.as_str(), file, targets, *position, symbols);
            assert(fixture_views(fixtures@) =~= f0 + class_member_fixtures(module@, class@, *s));
        },
        _ => {
            assert(symbol_views(symbols@) =~= s0 + class_member_symbols(module@, class@, file@, *s));
            assert(fixture_views(fixtures@) =~= f0 + class_member_fixtures(module@, class@, *s));
        },
    }
}

/// Reads the body of class `class`, statement by statement.
fn collect_class_body(
    module: &str,
    class: &String,
    file: &str,
    body: &Vec<Stmt>,
    symbols: &mut Vec<IndexedSymbol>,
    fixtures: &mut Vec<PytestFixture>,
)
    ensures
        symbol_views(final(symbols)@) == symbol_views(old(symbols)@) + class_body_symbols(module@, class@, file@, body@),
        fixture_views(final(fixtures)@) == fixture_views(old(fixtures)@) + class_body_fixtures(module@, class@, body@),
{
    let ghost s0 = symbol_views(symbols@);
    let ghost f0 = fixture_views(fixtures@);
    let mut i: usize = 0;
    while i < body.len()
        invariant
            i <= body@.len(),
            symbol_views(symbols@) == s0 + class_body_symbols(module@, class@, file@, body@.take(i as int)),
            fixture_views(fixtures@) == f0 + class_body_fixtures(module@, class@, body@.take(i as int)),
        decreases body@.len() - i,
    {
        let ghost t = body@.take(i + 1);
        assert(t.drop_last() =~= body@.take(i as int));
        assert(t.last() == body@[i as int]);
        collect_class_member(module, class, file, &body[i], symbols, fixtures);
        assert(symbol_views(symbols@) =~= s0 + class_body_symbols(module@, class@, file@, t));
        assert(fixture_views(fixtures@) =~= f0 + class_body_fixtures(module@, class@, t));
        i = i + 1;
    }
    assert(body@.take(body@.len() as int) =~= body@);
}

/// `str::split` never gives nothing, and its first piece is the text
/// before the first separator.
proof fn lemma_pieces_nonempty(s: Seq<char>, c: char)
    ensures
        pieces(s, c).len() >= 1,
        pieces(s, c)[0] == first_piece(s, c),
{
    reveal_with_fuel(pieces, 1);
    match crate::text::split_once(s, c) {
        Some(p) => {
            assert(pieces(s, c) == seq![p.0] + pieces(p.1, c));
        },
        None => {},
    }
}

/// `parts.join(".")`
fn join_parts(parts: &Vec<String>) -> (r: String)
    ensures
        r@ == joined(views(parts@)),
{
    if parts.len() == 0 {
        return String::new();
    }
    let mut out = copy_string(&parts[0]);
    let mut i: usize = 1;
    while i < parts.len()
        invariant
            1 <= i <= parts@.len(),
            out@ == joined(views(parts@).take(i as int)),
        decreases parts@.len() - i,
    {
        let ghost t = views(parts@).take(i + 1);
        assert(t.drop_last() =~= views(parts@).take(i as int));
        assert(t.last() == parts@[i as int]@);
        out = join_dot(out.as_str(), parts[i].as_str());
        i = i + 1;
    }
    assert(views(parts@).take(parts@.len() as int) =~= views(parts@));
    out
}

/// The module that a `from` import of `current` imports from.
fn resolve_import_from_base(current: &str, module: &Option<String>, level: u32, package_init: bool) -> (r: Option<String>)
    ensures
        (match r {
            Some(b) => Some(b@),
            None => None,
        }) == import_base(
            current@,
            match *module {
                Some(m) => Some(m@),
                None => None,
            },
            level,
            package_init,
        ),
{
    if level == 0 {
        return match module {
            Some(m) => Some(copy_string(m)),
            None => None,
        };
    }
    let mut parts = split_all(current, '.');
    proof {
        lemma_pieces_nonempty(current@, '.');
    }
    if !package_init {
        let ghost before = views(parts@);
        parts.pop();
        assert(views(parts@) =~= before.drop_last());
    }
    let ancestors = (level - 1) as usize;
    if ancestors > parts.len() {
        return None;
    }
    let keep = parts.len() - ancestors;
    let mut all: Vec<String> = Vec::new();
    let mut i: usize = 0;
    while i < keep
        invariant
            keep <= parts@.len(),
            i <= keep,
            views(all@) == views(parts@).take(i as int),
        decreases keep - i,
    {
        let ghost before = views(all@);
        all.push(copy_string(&parts[i]));
        assert(views(all@) =~= before.push(parts@[i as int]@));
        assert(views(all@) =~= views(parts@).take(i + 1));
        i = i + 1;
    }
    let ghost kept = views(all@);
    match module {
        Some(m) => {
            let more = split_all(m.as_str(), '.');
            let mut j: usize = 0;
            while j < more.len()
                invariant
                    j <= more@.len(),
                    views(all@) == kept + views(more@).take(j as int),
                decreases more@.len() - j,
            {
                let ghost before = views(all@);
                all.push(copy_string(&more[j]));
                assert(views(all@) =~= before.push(more@[j as int]@));
                assert(views(all@) =~= kept + views(more@).take(j + 1));
                j = j + 1;
            }
            assert(views(more@).take(more@.len() as int) =~= views(more@));
        },
        None => {},
    }
    Some(join_parts(&all))
}

/// What the re-export table maps `binding` of `module` to.
fn table_lookup(table: &Vec<Reexport>, module: &str, binding: &str) -> (r: Option<ImportTarget>)
    requires
        keys_distinct(table@),
    ensures
        (match r {
            Some(t) => Some(target_view(t)),
            None => None,
        }) == table_target(table@, module@, binding@),
{
    let r = reexport_target(table, module, binding);
    proof {
        if has_key(table@, module@, binding@) {
            let i = choose|i: int| 0 <= i < table@.len() && #[trigger] table@[i].module@ == module@ && table@[i].binding@ == binding@;
            let j = choose|j: int|
                0 <= j < table@.len() && #[trigger] table@[j].module@ == module@ && table@[j].binding@ == binding@
                    && target_view(table@[j].target) == target_view(r->0);
            if i < j {
                assert(!(table@[i].module@ == table@[j].module@ && table@[i].binding@ == table@[j].binding@));
            } else if j < i {
                assert(!(table@[j].module@ == table@[i].module@ && table@[j].binding@ == table@[i].binding@));
            }
        }
    }
    r
}

/// The imports of `import a, b as c` at `p`, appended in order.
fn collect_import(file: &str, known: &Vec<String>, names: &Vec<ImportAlias>, p: Position, out: &mut Vec<ResolvedImport>)
    ensures
        import_views(final(out)@) == import_views(old(out)@) + import_imports(file@, known@, names@, p),
{
    let ghost start = import_views(out@);
    let mut i: usize = 0;
    while i < names.len()
        invariant
            i <= names@.len(),
            import_views(out@) == start + import_imports(file@, known@, names@.take(i as int), p),
        decreases names@.len() - i,
    {
        let ghost t = names@.take(i + 1);
        assert(t.drop_last() =~= names@.take(i as int));
        assert(t.last() == names@[i as int]);
        let a = &names[i];
        let binding = match &a.asname {
            Some(n) => copy_string(n),
            None => {
                let parts = split_all(a.name.as_str(), '.');
                proof {
                    lemma_pieces_nonempty(a.name@, '.');
                    assert(views(parts@)[0] == parts@[0]@);
                }
                copy_string(&parts[0])
            },
        };
        assert(binding@ == import_binding(*a));
        let external = !contains_string(known, a.name.as_str());
        let item = ResolvedImport {
            binding,
            target: ImportTarget::Module { module: copy_string(&a.name), external },
            span: SourceSpan::new(file, p.line, p.column),
        };
        let ghost before = import_views(out@);
        out.push(item);
        assert(import_views(out@) =~= before.push(import_view(item)));
        assert(import_view(item) == (import_binding(names@[i as int]), (0nat, names@[i as int].name@, Seq::<char>::empty(), !holds(known@, names@[i as int].name@)), (file@, p.line, p.column)));
        i = i + 1;
    }
    assert(names@.take(names@.len() as int) =~= names@);
}

/// What `from <base> import <name>` refers to.
fn target_from(base: &String, external: bool, name: &String, known: &Vec<String>, table: &Vec<Reexport>) -> (r: ImportTarget)
    requires
        keys_distinct(table@),
    ensures
        target_view(r) == from_target(base@, external, name@, known@, table@),
{
    if same_text(name.as_str(), "*") {
        return ImportTarget::Star { module: copy_string(base), external };
    }
    let candidate = join_dot(base.as_str(), name.as_str());
    if contains_string(known, candidate.as_str()) {
        return ImportTarget::Module { module: candidate, external: false };
    }
    match table_lookup(table, base.as_str(), name.as_str()) {
        Some(t) => t,
        None => ImportTarget::Symbol { module: copy_string(base), name: copy_string(name), external },
    }
}

/// The imports of `from <base> import a, b as c` at `p`, appended in order.
fn collect_import_from(
    base: &String,
    file: &str,
    known: &Vec<String>,
    table: &Vec<Reexport>,
    names: &Vec<ImportAlias>,
    p: Position,
    out: &mut Vec<ResolvedImport>,
)
    requires
        keys_distinct(table@),
    ensures
        import_views(final(out)@) == import_views(old(out)@) + from_imports(base@, file@, known@, table@, names@, p),
{
    let ghost start = import_views(out@);
    let external = !contains_string(known, base.as_str());
    let mut i: usize = 0;
    while i < names.len()
        invariant
            keys_distinct(table@),
            external == !holds(known@, base@),
            i <= names@.len(),
            import_views(out@) == start + from_imports(base@, file@, known@, table@, names@.take(i as int), p),
        decreases names@.len() - i,
    {
        let ghost t = names@.take(i + 1);
        assert(t.drop_last() =~= names@.take(i as int));
        assert(t.last() == names@[i as int]);
        let a = &names[i];
        let binding = match &a.asname {
            Some(n) => copy_string(n),
            None => copy_string(&a.name),
        };
        let item = ResolvedImport {
            binding,
            target: target_from(base, external, &a.name, known, table),
            span: SourceSpan::new(file, p.line, p.column),
        };
        let ghost before = import_views(out@);
        out.push(item);
        assert(import_views(out@) =~= before.push(import_view(item)));
        i = i + 1;
    }
    assert(names@.take(names@.len() as int) =~= names@);
}

/// Reads one statement of the module: a
/// function, a class with its body, an import, or the entry guard; the
/// result tells whether it is the entry guard.
fn collect_module_statement(
    module: &str,
    file: &str,
    known: &Vec<String>,
    table: &Vec<Reexport>,
    s: &Stmt,
    symbols: &mut Vec<IndexedSymbol>,
    fixtures: &mut Vec<PytestFixture>,
    imports: &mut Vec<ResolvedImport>,
) -> (main_guard: bool)
    requires
        keys_distinct(table@),
    ensures
        symbol_views(final(symbols)@) == symbol_views(old(symbols)@) + statement_symbols(module@, file@, *s),
        fixture_views(final(fixtures)@) == fixture_views(old(fixtures)@) + statement_fixtures(module@, *s),
        import_views(final(imports)@) == import_views(old(imports)@) + statement_imports(module@, file@, known@, table@, *s),
        main_guard == is_main_guard_statement(*s),
{
    let ghost s0 = symbol_views(symbols@);
    let ghost f0 = fixture_views(fixtures@);
    let ghost i0 = import_views(imports@);
    match s {
        Stmt::FunctionDef(f) => {
            let qualified = join_dot(module, f.name.as_str());
            let function = copy_string(&qualified);
            push_symbol(symbols, qualified, &f.name, SymbolKind::Function, file, f.position);
            collect_fixture_decorators(&function, &f.name, &f.decorators, fixtures);
            assert(import_views(imports@) =~= i0 + statement_imports(module@, file@, known@, table@, *s));
            false
        },
        Stmt::ClassDef(c) => {
            let qualified = join_dot(module, c.name.as_str());
            push_symbol(symbols, qualified, &c.name, SymbolKind::Class, file, c.position);
            collect_class_body(module, &c.name, file, &c.body, symbols, fixtures);
            assert(symbol_views(symbols@) =~= s0 + statement_symbols(module@, file@, *s));
            assert(import_views(imports@) =~= i0 + statement_imports(module@, file@, known@, table@, *s));
            false
        },
        Stmt::Import { names, position } => {
            collect_import(file, known, names, *position, imports);
            assert(symbol_views(symbols@) =~= s0 + statement_symbols(module@, file@, *s));
            assert(fixture_views(fixtures@) =~= f0 + statement_fixtures(module@, *s));
            false
        },
        Stmt::ImportFrom { module: from, level, names, position } => {
            let package_init = ends_with(file, "/__init__.py") || ends_with(file, "\\__init__.py");
            match resolve_import_from_base(module, from, *level, package_init) {
                Some(base) => {
                    collect_import_from(&base, file, known, table, names, *position, imports);
                },
                None => {
                    assert(import_views(imports@) =~= i0 + statement_imports(module@, file@, known@, table@, *s));
                },
            }
            assert(symbol_views(symbols@) =~= s0 + statement_symbols(module@, file@, *s));
            assert(fixture_views(fixtures@) =~= f0 + statement_fixtures(module@, *s));
            false
        },
        Stmt::If { test, .. } => {
            assert(symbol_views(symbols@) =~= s0 + statement_symbols(module@, file@, *s));
            assert(fixture_views(fixtures@) =~= f0 + statement_fixtures(module@, *s));
            assert(import_views(imports@) =~= i0 + statement_imports(module@, file@, known@, table@, *s));
            is_main_guard(test)
        },
        _ => {
            assert(symbol_views(symbols@) =~= s0 + statement_symbols(module@, file@, *s));
            assert(fixture_views(fixtures@) =~= f0 + statement_fixtures(module@, *s));
            assert(import_views(imports@) =~= i0 + statement_imports(module@, file@, known@, table@, *s));
            false
        },
    }
}

/// What the reader needs of the project: the names of its modules, the
/// re-export table, the names of its classes, the constructor and decorator
/// rules, and the primary root group.
pub struct ProjectContext {
    pub known_modules: Vec<String>,
    pub reexports: Vec<Reexport>,
    pub classes: Vec<String>,
    pub constructors: Vec<ConstructorRule>,
    pub decorators: Vec<DecoratorRule>,
    pub primary_root_group: String,
}

/// What the module reader found in a module: its index entry, whether it
/// has the entry guard `if __name__ == "__main__":`, and what it knew of
/// the module while it read its code.
pub struct ModuleReading {
    pub index: ModuleIndex,
    pub main_entry: bool,
    pub context: ReadContext,
    pub call_result_uses: Vec<CallableReturnMemberUse>,
}

/// The qualified names of the top-level functions and classes of a module.
pub open spec fn top_names(module: Seq<char>, ss: Seq<Stmt>) -> Seq<Seq<char>>
    decreases ss.len(),
{
    if ss.len() == 0 {
        Seq::empty()
    } else {
        let rest = top_names(module, ss.drop_last());
        match ss.last() {
            Stmt::FunctionDef(f) => rest.push(dotted(module, f.name@)),
            Stmt::ClassDef(c) => rest.push(dotted(module, c.name@)),
            _ => rest,
        }
    }
}

/// The qualified names of the top-level classes of a module.
pub open spec fn top_classes(module: Seq<char>, ss: Seq<Stmt>) -> Seq<Seq<char>>
    decreases ss.len(),
{
    if ss.len() == 0 {
        Seq::empty()
    } else {
        let rest = top_classes(module, ss.drop_last());
        match ss.last() {
            Stmt::ClassDef(c) => rest.push(dotted(module, c.name@)),
            _ => rest,
        }
    }
}

pub open spec fn constructor_views(v: Seq<ConstructorRule>) -> Seq<(Seq<char>, Seq<char>)> {
    v.map_values(|c: ConstructorRule| (c.match_@, c.produces_type@))
}

pub open spec fn opt_text(o: Option<String>) -> Option<Seq<char>> {
    match o {
        Some(s) => Some(s@),
        None => None,
    }
}

pub open spec fn decorator_rule_views(v: Seq<DecoratorRule>) -> Seq<(Option<Seq<char>>, Option<Seq<char>>, Seq<Seq<char>>, Option<Seq<char>>, Seq<char>)> {
    v.map_values(|d: DecoratorRule| (opt_text(d.function), opt_text(d.receiver_type), views(d.methods@), opt_text(d.callable_type), d.effect@))
}

fn copy_opt_text(o: &Option<String>) -> (r: Option<String>)
    ensures
        opt_text(r) == opt_text(*o),
{
    match o {
        Some(x) => Some(copy_string(x)),
        None => None,
    }
}

/// What the reader knows of module `module` while it reads its code.
fn read_context(module: &str, file: &str, tree: &ModuleSyntax, project: &ProjectContext, imports: &Vec<ResolvedImport>) -> (r: ReadContext)
    ensures
        r.module@ == module@,
        r.file@ == file@,
        views(r.local_names@) == top_names(module@, tree.body@),
        views(r.classes@) == views(project.classes@) + top_classes(module@, tree.body@),
        import_views(r.imports@) == import_views(imports@),
        constructor_views(r.constructors@) == constructor_views(project.constructors@),
        decorator_rule_views(r.decorators@) == decorator_rule_views(project.decorators@),
{
    let body = &tree.body;
    let mut names: Vec<String> = Vec::new();
    let mut classes = crate::text::copy_strings(&project.classes);
    let ghost base = views(classes@);
    let mut i: usize = 0;
    while i < body.len()
        invariant
            i <= body@.len(),
            *body == tree.body,
            views(names@) == top_names(module@, body@.take(i as int)),
            views(classes@) == base + top_classes(module@, body@.take(i as int)),
        decreases body@.len() - i,
    {
        let ghost t = body@.take(i + 1);
        assert(t.drop_last() =~= body@.take(i as int));
        assert(t.last() == body@[i as int]);
        match &body[i] {
            Stmt::FunctionDef(f) => {
                let ghost before = views(names@);
                names.push(join_dot(module, f.name.as_str()));
                assert(views(names@) =~= before.push(dotted(module@, f.name@)));
            },
            Stmt::ClassDef(c) => {
                let ghost before = views(names@);
                let ghost cb = views(classes@);
                names.push(join_dot(module, c.name.as_str()));
                classes.push(join_dot(module, c.name.as_str()));
                assert(views(names@) =~= before.push(dotted(module@, c.name@)));
                assert(views(classes@) =~= cb.push(dotted(module@, c.name@)));
            },
            _ => {},
        }
        i = i + 1;
    }
    assert(body@.take(body@.len() as int) =~= body@);
    let mut copied: Vec<ResolvedImport> = Vec::new();
    let mut k: usize = 0;
    while k < imports.len()
        invariant
            k <= imports@.len(),
            import_views(copied@) == import_views(imports@.take(k as int)),
        decreases imports@.len() - k,
    {
        let ghost before = import_views(copied@);
        let x = ResolvedImport {
            binding: copy_string(&imports[k].binding),
            target: crate::reexports::copy_target(&imports[k].target),
            span: imports[k].span.duplicate(),
        };
        copied.push(x);
        assert(import_views(copied@) =~= before.push(import_view(x)));
        assert(imports@.take(k + 1) =~= imports@.take(k as int).push(imports@[k as int]));
        k = k + 1;
    }
    assert(imports@.take(imports@.len() as int) =~= imports@);
    let mut constructors: Vec<ConstructorRule> = Vec::new();
    let mut c: usize = 0;
    while c < project.constructors.len()
        invariant
            c <= project.constructors@.len(),
            constructor_views(constructors@) == constructor_views(project.constructors@.take(c as int)),
        decreases project.constructors@.len() - c,
    {
        let ghost before = constructor_views(constructors@);
        let x = ConstructorRule {
            match_: copy_string(&project.constructors[c].match_),
            produces_type: copy_string(&project.constructors[c].produces_type),
        };
        constructors.push(x);
        assert(constructor_views(constructors@) =~= before.push((x.match_@, x.produces_type@)));
        assert(project.constructors@.take(c + 1) =~= project.constructors@.take(c as int).push(project.constructors@[c as int]));
        c = c + 1;
    }
    assert(project.constructors@.take(project.constructors@.len() as int) =~= project.constructors@);
    let mut decorators: Vec<DecoratorRule> = Vec::new();
    let mut d: usize = 0;
    while d < project.decorators.len()
        invariant
            d <= project.decorators@.len(),
            decorator_rule_views(decorators@) == decorator_rule_views(project.decorators@.take(d as int)),
        decreases project.decorators@.len() - d,
    {
        let ghost before = decorator_rule_views(decorators@);
        let rule = &project.decorators[d];
        let x = DecoratorRule {
            function: copy_opt_text(&rule.function),
            receiver_type: copy_opt_text(&rule.receiver_type),
            methods: crate::text::copy_strings(&rule.methods),
            callable_type: copy_opt_text(&rule.callable_type),
            effect: copy_string(&rule.effect),
        };
        assert(views(x.methods@) =~= views(rule.methods@));
        decorators.push(x);
        assert(decorator_rule_views(decorators@) =~= before.push(
            (opt_text(x.function), opt_text(x.receiver_type), views(x.methods@), opt_text(x.callable_type), x.effect@),
        ));
        assert(project.decorators@.take(d + 1) =~= project.decorators@.take(d as int).push(project.decorators@[d as int]));
        d = d + 1;
    }
    assert(project.decorators@.take(project.decorators@.len() as int) =~= project.decorators@);
    ReadContext {
        module: String::from_str(module),
        file: String::from_str(file),
        local_names: names,
        classes,
        imports: copied,
        constructors,
        decorators,
    }
}

/// Indexes module `module`, whose file is `file`, from its text `source`
/// and its syntax tree: the module itself and what its statements declare,
/// its pytest fixtures, its imports resolved against the project's modules
/// and the re-export table, its classes and the signatures of its functions
/// and methods, what its code uses, and its roots: the module for each of
/// the root groups `root_groups` whose entry points match the file (with
/// the test functions and `autouse` fixtures of a test module), the module
/// for the primary group when it has an entry guard, then the symbols that
/// its allow comments keep alive.
pub fn index_module_syntax(
    module: &str,
    file: &str,
    source: &str,
    tree: &ModuleSyntax,
    project: &ProjectContext,
    root_groups: &Vec<String>,
    is_test: bool,
) -> (r: ModuleReading)
    requires
        keys_distinct(project.reexports@),
    ensures
        r.index.module@ == module@,
        r.index.file@ == file@,
        symbol_views(r.index.symbols@) == module_symbols(module@, file@, *tree),
        heads_with_module(r.index),
        fixture_views(r.index.pytest_fixtures@) == body_fixtures(module@, tree.body@),
        import_views(r.index.imports@) == body_imports(
            module@,
            file@,
            project.known_modules@,
            project.reexports@,
            tree.body@,
        ),
        r.main_entry == has_main_guard(*tree),
        r.index.is_test == is_test,
        r.context.module@ == module@,
        r.context.file@ == file@,
        views(r.context.local_names@) == top_names(module@, tree.body@),
        views(r.context.classes@) == views(project.classes@) + top_classes(module@, tree.body@),
        import_views(r.context.imports@) == import_views(r.index.imports@),
        constructor_views(r.context.constructors@) == constructor_views(project.constructors@),
        decorator_rule_views(r.context.decorators@) == decorator_rule_views(project.decorators@),
        collected_view(
            Collected {
                references: r.index.references,
                member_references: r.index.member_references,
                call_argument_types: r.index.call_argument_types,
                unresolved_receivers: r.index.unresolved_receivers,
                unsupported_expansions: r.index.unsupported_expansions,
            },
        ) == module_collected(r.context, tree.body@),
        r.index.classes@.map_values(|c: ClassInfo| class_info_view(c)) == module_classes(r.context, tree.body@),
        r.index.function_signatures@.map_values(|s: FunctionSignature| signature_view(s)) == module_signatures(
            r.context,
            tree.body@,
        ),
        root_views(r.index.root_symbols@) == entry_roots(
            module@,
            r.index.symbols@,
            r.index.pytest_fixtures@,
            project.primary_root_group@,
            views(root_groups@),
            is_test,
            has_main_guard(*tree),
        ) + comment_roots(source@, r.index.symbols@).map_values(|x: Seq<char>| (allowed_group(), x)),
        use_views(r.call_result_uses@) == module_uses(module@, file@, tree.body@),
        r.index.value_bindings@.len() == 0,
        r.index.module_values@.len() == 0,
{
    let known_modules = &project.known_modules;
    let reexports = &project.reexports;
    let mut symbols: Vec<IndexedSymbol> = Vec::new();
    let module_name = String::from_str(module);
    push_symbol(&mut symbols, String::from_str(module), &module_name, SymbolKind::Module, file, Position { line: 1, column: 1 });
    let mut fixtures: Vec<PytestFixture> = Vec::new();
    let mut imports: Vec<ResolvedImport> = Vec::new();
    let mut main_entry = false;
    let body = &tree.body;
    let ghost head = seq![(module@, module@, SymbolKind::Module, (file@, 1usize, 1usize))];
    let mut i: usize = 0;
    assert(fixture_views(fixtures@) =~= Seq::<FixtureView>::empty());
    assert(import_views(imports@) =~= Seq::<ImportView>::empty());
    while i < body.len()
        invariant
            keys_distinct(reexports@),
            *body == tree.body,
            i <= body@.len(),
            symbol_views(symbols@) == head + body_symbols(module@, file@, body@.take(i as int)),
            fixture_views(fixtures@) == body_fixtures(module@, body@.take(i as int)),
            import_views(imports@) == body_imports(module@, file@, known_modules@, reexports@, body@.take(i as int)),
            main_entry == exists|k: int| 0 <= k < i && is_main_guard_statement(#[trigger] body@[k]),
        decreases body@.len() - i,
    {
        let ghost t = body@.take(i + 1);
        assert(t.drop_last() =~= body@.take(i as int));
        assert(t.last() == body@[i as int]);
        let guard = collect_module_statement(module, file, known_modules, reexports, &body[i], &mut symbols, &mut fixtures, &mut imports);
        assert(symbol_views(symbols@) =~= head + body_symbols(module@, file@, t));
        if guard {
            main_entry = true;
        }
        i = i + 1;
    }
    assert(body@.take(body@.len() as int) =~= body@);
    assert(symbol_views(symbols@)[0] == symbol_view(symbols@[0]));
    let context = read_context(module, file, tree, project, &imports);
    let collected = collect_module(&context, body);
    let classes = collect_classes(&context, body);
    let signatures = collect_signatures(&context, body);
    let call_result_uses = module_call_result_uses(module, file, body);
    let mut roots = root_symbols_for_module(&module_name, &symbols, &fixtures, &project.primary_root_group, root_groups, is_test, main_entry);
    let ghost entry = root_views(roots@);
    let allowed = allow_comment_roots(source, &symbols);
    proof {
        assert(root_views(allowed@) =~= comment_roots(source@, symbols@).map_values(|x: Seq<char>| (allowed_group(), x))) by {
            assert forall|k: int| 0 <= k < allowed@.len() implies #[trigger] root_views(allowed@)[k]
                == comment_roots(source@, symbols@).map_values(|x: Seq<char>| (allowed_group(), x))[k] by {
                assert(allowed@[k].group@ == allowed_group());
            }
        }
    }
    let mut allowed = allowed;
    let ghost av = root_views(allowed@);
    roots.append(&mut allowed);
    assert(root_views(roots@) =~= entry + av);
    let Collected { references, member_references, call_argument_types, unresolved_receivers, unsupported_expansions } = collected;
    ModuleReading {
        index: ModuleIndex {
            module: String::from_str(module),
            file: String::from_str(file),
            symbols,
            imports,
            classes,
            value_bindings: Vec::new(),
            module_values: Vec::new(),
            function_signatures: signatures,
            pytest_fixtures: fixtures,
            call_argument_types,
            references,
            member_references,
            unresolved_receivers,
            unsupported_expansions,
            is_test,
            root_symbols: roots,
        },
        main_entry,
        context,
        call_result_uses,
    }
}

} // verus!
