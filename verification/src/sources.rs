//! Indexing a project from the syntax trees of its files: the first reading
//! that finds the project's names, the re-export table and classes, then the
//! reading that records what each module's code uses.
use vstd::prelude::*;

use crate::allow::{allowed_group, comment_roots};
use crate::config::{ConstructorRule, DecoratorRule, LoadedProjectConfig, LoadedRootGroup};
use crate::index::{heads_with_module, ModuleIndex, ParseDiagnostic, SymbolIndex};
use crate::order::listed;
use crate::project::modules_ordered;
use crate::reach::{is_root, root_at};
use crate::collect::{class_info_view, collected_view, module_classes, module_collected, module_signatures, signature_view, Collected, ReadContext};
use crate::index::{ClassInfo, FunctionSignature};
use crate::reader::{
    body_fixtures, constructor_views, decorator_rule_views, fixture_views, has_main_guard, import_views, index_module_syntax,
    module_symbols, opt_text, symbol_views, top_names, ProjectContext,
};
use crate::text::views;
use crate::reexports::{keys_distinct, reexport_map, Reexport};
use crate::report::{SourceSpan, SymbolKind};
use crate::roots::{any_matches, entry_roots, file_groups, is_test_file, root_groups_for_file, root_views};
use crate::index::{IndexedSymbol, PytestFixture};
use crate::syntax::{ModuleSyntax, Position};
use crate::text::{concat_text, copy_string, copy_strings};

verus! {

/// A module of the project: its name, its file, its text and its syntax
/// tree.
pub struct SourceModule {
    pub module: String,
    pub file: String,
    pub source: String,
    pub tree: ModuleSyntax,
}

/// The warning for a module whose text could not be parsed.
pub fn parse_failure(file: &str, error: &str, position: Position) -> (r: ParseDiagnostic)
    ensures
        r.file@ == file@,
        r.message@ == "could not parse Python module: "@ + error@,
        r.span.file@ == file@,
        r.span.line == position.line,
        r.span.column == position.column,
{
    ParseDiagnostic {
        file: String::from_str(file),
        message: concat_text("could not parse Python module: ", error),
        span: SourceSpan::new(file, position.line, position.column),
    }
}

fn copy_constructors(v: &Vec<ConstructorRule>) -> (r: Vec<ConstructorRule>)
    ensures
        constructor_views(r@) == constructor_views(v@),
{
    let mut out: Vec<ConstructorRule> = Vec::new();
    let mut i: usize = 0;
    while i < v.len()
        invariant
            i <= v@.len(),
            constructor_views(out@) == constructor_views(v@.take(i as int)),
        decreases v@.len() - i,
    {
        let ghost before = constructor_views(out@);
        let x = ConstructorRule { match_: copy_string(&v[i].match_), produces_type: copy_string(&v[i].produces_type) };
        out.push(x);
        assert(constructor_views(out@) =~= before.push((x.match_@, x.produces_type@)));
        assert(v@.take(i + 1) =~= v@.take(i as int).push(v@[i as int]));
        i = i + 1;
    }
    assert(v@.take(v@.len() as int) =~= v@);
    out
}

fn copy_option(o: &Option<String>) -> (r: Option<String>)
    ensures
        opt_text(r) == opt_text(*o),
{
    match o {
        Some(x) => Some(copy_string(x)),
        None => None,
    }
}

fn copy_decorators(v: &Vec<DecoratorRule>) -> (r: Vec<DecoratorRule>)
    ensures
        decorator_rule_views(r@) == decorator_rule_views(v@),
{
    let mut out: Vec<DecoratorRule> = Vec::new();
    let mut i: usize = 0;
    while i < v.len()
        invariant
            i <= v@.len(),
            decorator_rule_views(out@) == decorator_rule_views(v@.take(i as int)),
        decreases v@.len() - i,
    {
        let ghost before = decorator_rule_views(out@);
        let x = DecoratorRule {
            function: copy_option(&v[i].function),
            receiver_type: copy_option(&v[i].receiver_type),
            methods: copy_strings(&v[i].methods),
            callable_type: copy_option(&v[i].callable_type),
            effect: copy_string(&v[i].effect),
        };
        assert(views(x.methods@) =~= views(v@[i as int].methods@));
        out.push(x);
        assert(decorator_rule_views(out@) =~= before.push(
            (opt_text(x.function), opt_text(x.receiver_type), views(x.methods@), opt_text(x.callable_type), x.effect@),
        ));
        assert(v@.take(i + 1) =~= v@.take(i as int).push(v@[i as int]));
        i = i + 1;
    }
    assert(v@.take(v@.len() as int) =~= v@);
    out
}

/// The qualified names of the classes that the modules declare.
fn class_names(modules: &Vec<ModuleIndex>) -> (r: Vec<String>) {
    let mut out: Vec<String> = Vec::new();
    let mut m: usize = 0;
    while m < modules.len()
        decreases modules@.len() - m,
    {
        let symbols = &modules[m].symbols;
        let mut k: usize = 0;
        while k < symbols.len()
            decreases symbols@.len() - k,
        {
            if symbols[k].kind == SymbolKind::Class {
                out.push(copy_string(&symbols[k].qualified_name));
            }
            k = k + 1;
        }
        m = m + 1;
    }
    out
}

/// The primary root group of a configuration: its first group, `main` when
/// it has none.
pub open spec fn primary_group(config: LoadedProjectConfig) -> Seq<char> {
    if config.root_groups@.len() == 0 {
        "main"@
    } else {
        config.root_groups@[0].name@
    }
}

/// `m` is the index of source `s` in the project: the module, its file, its
/// symbols and pytest fixtures, whether a test pattern matches its file,
/// and its roots: the module for each root group whose entry points match
/// its file (with the test functions and `autouse` fixtures of a test
/// file), the module for the primary group when it has an entry guard, then
/// the symbols its allow comments keep alive.
pub open spec fn source_indexed(config: LoadedProjectConfig, s: SourceModule, m: ModuleIndex) -> bool {
    let test = any_matches(config.project_dir@, config.test_patterns@, s.file@);
    &&& m.module@ == s.module@
    &&& m.file@ == s.file@
    &&& symbol_views(m.symbols@) == module_symbols(s.module@, s.file@, s.tree)
    &&& fixture_views(m.pytest_fixtures@) == body_fixtures(s.module@, s.tree.body@)
    &&& m.is_test == test
    &&& root_views(m.root_symbols@) == entry_roots(
        s.module@,
        m.symbols@,
        m.pytest_fixtures@,
        primary_group(config),
        file_groups(config.project_dir@, config.root_groups@, s.file@),
        test,
        has_main_guard(s.tree),
    ) + comment_roots(s.source@, m.symbols@).map_values(|x: Seq<char>| (allowed_group(), x))
    &&& exists|ctx: ReadContext| #[trigger] code_read(config, s, m, ctx)
}

/// `m` records what the code of source `s` uses, its classes and its
/// signatures as read with `ctx`: the module's names, its imports as `m`
/// resolved them, and the configured constructor and decorator rules.
pub open spec fn code_read(config: LoadedProjectConfig, s: SourceModule, m: ModuleIndex, ctx: ReadContext) -> bool {
    &&& ctx.module@ == s.module@
    &&& ctx.file@ == s.file@
    &&& views(ctx.local_names@) == top_names(s.module@, s.tree.body@)
    &&& import_views(ctx.imports@) == import_views(m.imports@)
    &&& constructor_views(ctx.constructors@) == constructor_views(config.rules.constructors@)
    &&& decorator_rule_views(ctx.decorators@) == decorator_rule_views(config.rules.decorators@)
    &&& collected_view(
        Collected {
            references: m.references,
            member_references: m.member_references,
            call_argument_types: m.call_argument_types,
            unresolved_receivers: m.unresolved_receivers,
            unsupported_expansions: m.unsupported_expansions,
        },
    ) == module_collected(ctx, s.tree.body@)
    &&& m.classes@.map_values(|c: ClassInfo| class_info_view(c)) == module_classes(ctx, s.tree.body@)
    &&& m.function_signatures@.map_values(|f: FunctionSignature| signature_view(f)) == module_signatures(ctx, s.tree.body@)
}

/// The index `r` holds the sources: each of its modules is the index of
/// one source, the modules ordered by name, then file.
pub open spec fn project_indexed(config: LoadedProjectConfig, sources: Seq<SourceModule>, r: SymbolIndex) -> bool {
    exists|read: Seq<ModuleIndex>|
        {
            &&& read.len() == sources.len()
            &&& forall|k: int| 0 <= k < read.len() ==> source_indexed(config, sources[k], #[trigger] read[k])
            &&& modules_ordered(read, r.modules@)
        }
}

/// Indexes the project from its modules: a first reading of every module
/// names the project's classes and gives the re-export table; the second
/// reading, with them, records what each module's code uses and gives each
/// module the roots of the root groups whose entry points match its file
/// (a test file being one that a test pattern matches). The modules are then
/// assembled into the index of the project.
pub fn index_sources(config: &LoadedProjectConfig, sources: &Vec<SourceModule>, parse_diagnostics: Vec<ParseDiagnostic>) -> (r: SymbolIndex)
    ensures
        r.modules@.len() == sources@.len(),
        forall|i: int| 0 <= i < r.modules@.len() ==> heads_with_module(#[trigger] r.modules@[i]),
        project_indexed(*config, sources@, r),
        views(r.root_groups@) == config.root_groups@.map_values(|g: LoadedRootGroup| g.name@),
        views(r.counts_as_used_root_groups@) == crate::project::counting_names(config.root_groups@),
        r.include_tests == (config.include_tests || crate::project::test_roots(r.modules@)),
        r.parse_diagnostics == parse_diagnostics,
        r.primary_root_group@ == (if config.root_groups@.len() == 0 {
            "main"@
        } else {
            config.root_groups@[0].name@
        }),
{
    let mut known: Vec<String> = Vec::new();
    let mut i: usize = 0;
    while i < sources.len()
        decreases sources@.len() - i,
    {
        known.push(copy_string(&sources[i].module));
        i = i + 1;
    }
    let primary = if config.root_groups.len() == 0 {
        String::from_str("main")
    } else {
        copy_string(&config.root_groups[0].name)
    };
    let first = ProjectContext {
        known_modules: copy_strings(&known),
        reexports: Vec::new(),
        classes: Vec::new(),
        constructors: copy_constructors(&config.rules.constructors),
        decorators: copy_decorators(&config.rules.decorators),
        primary_root_group: copy_string(&primary),
    };
    assert(keys_distinct(first.reexports@));
    let none: Vec<String> = Vec::new();
    let mut read: Vec<ModuleIndex> = Vec::new();
    let mut i: usize = 0;
    while i < sources.len()
        invariant
            keys_distinct(first.reexports@),
        decreases sources@.len() - i,
    {
        let s = &sources[i];
        let reading = index_module_syntax(s.module.as_str(), s.file.as_str(), s.source.as_str(), &s.tree, &first, &none, false);
        read.push(reading.index);
        i = i + 1;
    }
    let reexports = reexport_map(&read);
    let second = ProjectContext {
        known_modules: known,
        reexports,
        classes: class_names(&read),
        constructors: copy_constructors(&config.rules.constructors),
        decorators: copy_decorators(&config.rules.decorators),
        primary_root_group: primary,
    };
    let mut modules: Vec<ModuleIndex> = Vec::new();
    let mut i: usize = 0;
    while i < sources.len()
        invariant
            keys_distinct(second.reexports@),
            second.primary_root_group@ == primary_group(*config),
            constructor_views(second.constructors@) == constructor_views(config.rules.constructors@),
            decorator_rule_views(second.decorators@) == decorator_rule_views(config.rules.decorators@),
            i <= sources@.len(),
            modules@.len() == i,
            forall|k: int| 0 <= k < modules@.len() ==> heads_with_module(#[trigger] modules@[k]),
            forall|k: int| 0 <= k < modules@.len() ==> source_indexed(*config, sources@[k], #[trigger] modules@[k]),
        decreases sources@.len() - i,
    {
        let s = &sources[i];
        let groups = root_groups_for_file(config, s.file.as_str());
        let test = is_test_file(config, s.file.as_str());
        let reading = index_module_syntax(s.module.as_str(), s.file.as_str(), s.source.as_str(), &s.tree, &second, &groups, test);
        assert(code_read(*config, *s, reading.index, reading.context));
        modules.push(reading.index);
        i = i + 1;
    }
    let ghost read = modules@;
    let r = crate::project::index_project(config, modules, parse_diagnostics);
    assert(read.len() == sources@.len());
    assert(forall|k: int| 0 <= k < read.len() ==> source_indexed(*config, sources@[k], #[trigger] read[k]));
    assert(project_indexed(*config, sources@, r));
    r
}

proof fn lemma_file_group_listed(dir: Seq<char>, groups: Seq<LoadedRootGroup>, file: Seq<char>, g: int)
    requires
        0 <= g < groups.len(),
        any_matches(dir, groups[g].entrypoints@, file),
    ensures
        exists|j: int| 0 <= j < file_groups(dir, groups, file).len() && file_groups(dir, groups, file)[j] == groups[g].name@,
    decreases groups.len(),
{
    let fg = file_groups(dir, groups, file);
    if g == groups.len() - 1 {
        assert(fg[fg.len() - 1] == groups[g].name@);
    } else {
        let rest = file_groups(dir, groups.drop_last(), file);
        assert(groups.drop_last()[g] == groups[g]);
        lemma_file_group_listed(dir, groups.drop_last(), file, g);
        let j = choose|j: int| 0 <= j < rest.len() && rest[j] == groups[g].name@;
        assert(fg[j] == rest[j]);
    }
}

proof fn lemma_entry_root_listed(
    module: Seq<char>,
    symbols: Seq<IndexedSymbol>,
    fixtures: Seq<PytestFixture>,
    primary: Seq<char>,
    groups: Seq<Seq<char>>,
    is_test: bool,
    main_entry: bool,
    j: int,
)
    requires
        0 <= j < groups.len(),
    ensures
        exists|i: int|
            0 <= i < entry_roots(module, symbols, fixtures, primary, groups, is_test, main_entry).len() && entry_roots(
                module,
                symbols,
                fixtures,
                primary,
                groups,
                is_test,
                main_entry,
            )[i] == (groups[j], module),
    decreases groups.len(),
{
    let er = entry_roots(module, symbols, fixtures, primary, groups, is_test, main_entry);
    if j == 0 {
        assert(er[0] == (groups[0], module));
    } else {
        let rest = entry_roots(module, symbols, fixtures, primary, groups.drop_first(), is_test, main_entry);
        let head = seq![(groups[0], module)] + (if is_test {
            crate::roots::test_roots(groups[0], symbols, fixtures)
        } else {
            Seq::empty()
        });
        assert(er == head + rest);
        assert(groups.drop_first()[j - 1] == groups[j]);
        lemma_entry_root_listed(module, symbols, fixtures, primary, groups.drop_first(), is_test, main_entry, j - 1);
        let i = choose|i: int| 0 <= i < rest.len() && rest[i] == (groups.drop_first()[j - 1], module);
        assert(er[head.len() + i] == rest[i]);
    }
}

proof fn lemma_guard_root_listed(
    module: Seq<char>,
    symbols: Seq<IndexedSymbol>,
    fixtures: Seq<PytestFixture>,
    primary: Seq<char>,
    groups: Seq<Seq<char>>,
    is_test: bool,
)
    ensures
        exists|i: int|
            0 <= i < entry_roots(module, symbols, fixtures, primary, groups, is_test, true).len() && entry_roots(
                module,
                symbols,
                fixtures,
                primary,
                groups,
                is_test,
                true,
            )[i] == (primary, module),
    decreases groups.len(),
{
    let er = entry_roots(module, symbols, fixtures, primary, groups, is_test, true);
    if groups.len() == 0 {
        assert(er[0] == (primary, module));
    } else {
        let rest = entry_roots(module, symbols, fixtures, primary, groups.drop_first(), is_test, true);
        let head = seq![(groups[0], module)] + (if is_test {
            crate::roots::test_roots(groups[0], symbols, fixtures)
        } else {
            Seq::empty()
        });
        assert(er == head + rest);
        lemma_guard_root_listed(module, symbols, fixtures, primary, groups.drop_first(), is_test);
        let i = choose|i: int| 0 <= i < rest.len() && rest[i] == (primary, module);
        assert(er[head.len() + i] == rest[i]);
    }
}

/// A root that the index of source `k` lists is a root of the project.
proof fn lemma_listed_root_is_root(
    config: LoadedProjectConfig,
    sources: Seq<SourceModule>,
    r: SymbolIndex,
    read: Seq<ModuleIndex>,
    k: int,
    i: int,
    group: Seq<char>,
)
    requires
        read.len() == sources.len(),
        modules_ordered(read, r.modules@),
        0 <= k < read.len(),
        0 <= i < read[k].root_symbols@.len(),
        root_views(read[k].root_symbols@)[i] == (group, sources[k].module@),
        read[k].module@ == sources[k].module@,
    ensures
        is_root(r, group, sources[k].module@),
{
    let perm = choose|perm: Seq<usize>|
        {
            &&& #[trigger] crate::order::is_permutation(perm, read.len())
            &&& r.modules@.len() == read.len()
            &&& forall|x: int| 0 <= x < r.modules@.len() ==> r.modules@[x] == read[#[trigger] perm[x] as int]
            &&& forall|x: int, y: int|
                0 <= x < y < r.modules@.len() ==> !crate::order::key_less(
                    crate::project::module_key(#[trigger] r.modules@[y]),
                    crate::project::module_key(#[trigger] r.modules@[x]),
                )
            &&& forall|x: int, y: int|
                #![trigger perm[x], perm[y]]
                0 <= x < y < r.modules@.len() && crate::project::module_key(r.modules@[x]) == crate::project::module_key(r.modules@[y])
                    ==> perm[x] < perm[y]
        };
    assert(r.modules@.len() == r.modules.len());
    let kk = k as usize;
    assert(kk as int == k);
    assert(listed(perm, kk));
    let p = choose|p: int| 0 <= p < perm.len() && perm[p] == kk;
    assert(r.modules@[p] == read[perm[p] as int]);
    assert(r.modules@[p] == read[k]);
    assert(root_at(r, group, p, i, sources[k].module@));
}

/// The module of a file that the entry points of a root group match is a
/// root of that group.
pub proof fn lemma_entry_points_root_their_modules(
    config: LoadedProjectConfig,
    sources: Seq<SourceModule>,
    r: SymbolIndex,
    k: int,
    g: int,
)
    requires
        project_indexed(config, sources, r),
        0 <= k < sources.len(),
        0 <= g < config.root_groups@.len(),
        any_matches(config.project_dir@, config.root_groups@[g].entrypoints@, sources[k].file@),
    ensures
        is_root(r, config.root_groups@[g].name@, sources[k].module@),
{
    let read = choose|read: Seq<ModuleIndex>|
        {
            &&& read.len() == sources.len()
            &&& forall|x: int| 0 <= x < read.len() ==> source_indexed(config, sources[x], #[trigger] read[x])
            &&& modules_ordered(read, r.modules@)
        };
    let m = read[k];
    let s = sources[k];
    assert(source_indexed(config, s, m));
    let test = any_matches(config.project_dir@, config.test_patterns@, s.file@);
    let groups = file_groups(config.project_dir@, config.root_groups@, s.file@);
    lemma_file_group_listed(config.project_dir@, config.root_groups@, s.file@, g);
    let j = choose|j: int| 0 <= j < groups.len() && groups[j] == config.root_groups@[g].name@;
    let er = entry_roots(s.module@, m.symbols@, m.pytest_fixtures@, primary_group(config), groups, test, has_main_guard(s.tree));
    lemma_entry_root_listed(s.module@, m.symbols@, m.pytest_fixtures@, primary_group(config), groups, test, has_main_guard(s.tree), j);
    let i = choose|i: int| 0 <= i < er.len() && er[i] == (groups[j], s.module@);
    let rv = root_views(m.root_symbols@);
    let cr = comment_roots(s.source@, m.symbols@).map_values(|x: Seq<char>| (allowed_group(), x));
    assert(rv == er + cr);
    assert(rv.len() == m.root_symbols@.len());
    assert(rv[i] == er[i]);
    lemma_listed_root_is_root(config, sources, r, read, k, i, config.root_groups@[g].name@);
}

/// The module of a file with an entry guard (`if __name__ == "__main__"`)
/// is a root of the primary group.
pub proof fn lemma_entry_guard_roots_its_module(config: LoadedProjectConfig, sources: Seq<SourceModule>, r: SymbolIndex, k: int)
    requires
        project_indexed(config, sources, r),
        0 <= k < sources.len(),
        has_main_guard(sources[k].tree),
    ensures
        is_root(r, primary_group(config), sources[k].module@),
{
    let read = choose|read: Seq<ModuleIndex>|
        {
            &&& read.len() == sources.len()
            &&& forall|x: int| 0 <= x < read.len() ==> source_indexed(config, sources[x], #[trigger] read[x])
            &&& modules_ordered(read, r.modules@)
        };
    let m = read[k];
    let s = sources[k];
    assert(source_indexed(config, s, m));
    let test = any_matches(config.project_dir@, config.test_patterns@, s.file@);
    let groups = file_groups(config.project_dir@, config.root_groups@, s.file@);
    let er = entry_roots(s.module@, m.symbols@, m.pytest_fixtures@, primary_group(config), groups, test, true);
    lemma_guard_root_listed(s.module@, m.symbols@, m.pytest_fixtures@, primary_group(config), groups, test);
    let i = choose|i: int| 0 <= i < er.len() && er[i] == (primary_group(config), s.module@);
    let rv = root_views(m.root_symbols@);
    let cr = comment_roots(s.source@, m.symbols@).map_values(|x: Seq<char>| (allowed_group(), x));
    assert(rv == er + cr);
    assert(rv.len() == m.root_symbols@.len());
    assert(rv[i] == er[i]);
    lemma_listed_root_is_root(config, sources, r, read, k, i, primary_group(config));
}

} // verus!
