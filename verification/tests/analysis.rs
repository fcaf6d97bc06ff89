use deadcode::analysis::{compute_live_symbols, find_unused_symbols, root_group_names};
use deadcode::hierarchy::{class_closure, lookup_member};
use deadcode::flow::{add_flow, concrete_flow_candidates, propagate_concrete_return_flows};
use deadcode::diagnostics::{unresolved_receiver_diagnostics, unsupported_expansion_diagnostics};
use deadcode::index::{
    AccessKind, CallArgumentType, ClassInfo, FunctionParameter, FunctionSignature, ImportTarget,
    IndexedSymbol, MemberReference, ModuleIndex, ParseDiagnostic, PytestFixture, ResolvedImport,
    ResolvedRouteGlob, RootSymbol, SymbolIndex, SymbolReference, TypeBinding, UnresolvedReceiver,
    UnsupportedExpansion,
};
use deadcode::project::analyze_project;
use deadcode::report::{Severity, SourceSpan, SymbolKind};

fn span(file: &str, line: usize) -> SourceSpan {
    SourceSpan::new(file, line, 1)
}

fn module(name: &str, file: &str) -> ModuleIndex {
    ModuleIndex {
        module: name.to_string(),
        file: file.to_string(),
        symbols: vec![IndexedSymbol {
            qualified_name: name.to_string(),
            name: name.to_string(),
            kind: SymbolKind::Module,
            span: span(file, 1),
        }],
        imports: vec![],
        classes: vec![],
        value_bindings: vec![],
        module_values: vec![],
        function_signatures: vec![],
        pytest_fixtures: vec![],
        call_argument_types: vec![],
        references: vec![],
        member_references: vec![],
        unresolved_receivers: vec![],
        unsupported_expansions: vec![],
        is_test: false,
        root_symbols: vec![],
    }
}

fn symbol(m: &mut ModuleIndex, qualified: &str, kind: SymbolKind, line: usize) {
    let name = qualified.rsplit('.').next().unwrap().to_string();
    let file = m.file.clone();
    m.symbols.push(IndexedSymbol {
        qualified_name: qualified.to_string(),
        name,
        kind,
        span: span(&file, line),
    });
}

fn reference(m: &mut ModuleIndex, from: &str, name: &str) {
    let file = m.file.clone();
    m.references.push(SymbolReference {
        from: from.to_string(),
        name: name.to_string(),
        span: span(&file, 1),
    });
}

fn member(m: &mut ModuleIndex, from: &str, target: &str, access: AccessKind) {
    let file = m.file.clone();
    m.member_references.push(MemberReference {
        from: from.to_string(),
        target: target.to_string(),
        access,
        span: span(&file, 1),
    });
}

fn root(m: &mut ModuleIndex, group: &str, symbol: &str) {
    m.root_symbols.push(RootSymbol {
        group: group.to_string(),
        symbol: symbol.to_string(),
    });
}

fn class(m: &mut ModuleIndex, name: &str, bases: &[&str]) {
    m.classes.push(ClassInfo {
        class: name.to_string(),
        bases: bases
            .iter()
            .map(|b| TypeBinding::erased(b.to_string()))
            .collect(),
        type_params: vec![],
        fields: vec![],
        attributes: vec![],
    });
}

fn index(modules: Vec<ModuleIndex>) -> SymbolIndex {
    SymbolIndex {
        modules,
        parse_diagnostics: vec![],
        include_tests: false,
        root_groups: vec!["main".to_string()],
        counts_as_used_root_groups: vec!["main".to_string()],
        primary_root_group: "main".to_string(),
        class_surfaces: vec![],
        route_globs: vec![],
    }
}

fn reported(index: &SymbolIndex) -> Vec<String> {
    find_unused_symbols(index)
        .into_iter()
        .map(|finding| finding.symbol)
        .collect()
}

fn live(index: &SymbolIndex, group: &str) -> Vec<String> {
    let symbols = compute_live_symbols(index, group);
    symbols
}

#[test]
fn dead_islands_are_reported_not_just_unreferenced_functions() {
    let mut m = module("pkg.main", "pkg/main.py");
    symbol(&mut m, "pkg.main.live", SymbolKind::Function, 2);
    symbol(&mut m, "pkg.main.helper", SymbolKind::Function, 5);
    symbol(&mut m, "pkg.main.old_view", SymbolKind::Function, 8);
    symbol(&mut m, "pkg.main.old_helper", SymbolKind::Function, 11);
    root(&mut m, "main", "pkg.main");
    reference(&mut m, "pkg.main", "live");
    reference(&mut m, "pkg.main.live", "helper");
    reference(&mut m, "pkg.main.old_view", "old_helper");
    let index = index(vec![m]);

    let symbols = reported(&index);
    assert_eq!(symbols, vec!["pkg.main.old_view", "pkg.main.old_helper"]);
    let live = live(&index, "main");
    assert!(live.contains(&"pkg.main.live".to_string()));
    assert!(live.contains(&"pkg.main.helper".to_string()));
}

#[test]
fn import_bindings_lead_to_imported_symbols() {
    let mut main = module("pkg.main", "pkg/main.py");
    root(&mut main, "main", "pkg.main");
    main.imports.push(ResolvedImport {
        binding: "live".to_string(),
        target: ImportTarget::Symbol {
            module: "pkg.helpers".to_string(),
            name: "live".to_string(),
            external: false,
        },
        span: span("pkg/main.py", 1),
    });
    reference(&mut main, "pkg.main", "live");
    let mut helpers = module("pkg.helpers", "pkg/helpers.py");
    symbol(&mut helpers, "pkg.helpers.live", SymbolKind::Function, 2);
    symbol(&mut helpers, "pkg.helpers.dead", SymbolKind::Function, 5);
    let index = index(vec![helpers, main]);

    assert_eq!(reported(&index), vec!["pkg.helpers.dead"]);
    let live = live(&index, "main");
    assert!(live.contains(&"pkg.helpers".to_string()));
    assert!(live.contains(&"pkg.helpers.live".to_string()));
}

#[test]
fn inherited_method_is_live_through_subclass() {
    let mut m = module("pkg.main", "pkg/main.py");
    symbol(&mut m, "pkg.main.Repository", SymbolKind::Class, 2);
    symbol(&mut m, "pkg.main.Repository.save", SymbolKind::Method, 3);
    symbol(&mut m, "pkg.main.SqlRepository", SymbolKind::Class, 6);
    symbol(&mut m, "pkg.main.run", SymbolKind::Function, 9);
    class(&mut m, "pkg.main.Repository", &[]);
    class(&mut m, "pkg.main.SqlRepository", &["pkg.main.Repository"]);
    root(&mut m, "main", "pkg.main");
    reference(&mut m, "pkg.main", "run");
    reference(&mut m, "pkg.main.run", "SqlRepository");
    member(&mut m, "pkg.main.run", "pkg.main.SqlRepository.save", AccessKind::Call);
    let index = index(vec![m]);

    let symbols = reported(&index);
    assert!(!symbols.contains(&"pkg.main.Repository.save".to_string()));
    // The owner of a live method is live once the walk is over.
    assert!(!symbols.contains(&"pkg.main.Repository".to_string()));
    assert!(symbols.is_empty());
}

fn repository_module() -> ModuleIndex {
    let mut m = module("pkg.main", "pkg/main.py");
    symbol(&mut m, "pkg.main.Repository", SymbolKind::Class, 2);
    symbol(&mut m, "pkg.main.Repository.save", SymbolKind::Method, 3);
    symbol(&mut m, "pkg.main.SqlRepository", SymbolKind::Class, 6);
    symbol(&mut m, "pkg.main.SqlRepository.save", SymbolKind::Method, 7);
    symbol(&mut m, "pkg.main.MemoryRepository", SymbolKind::Class, 10);
    symbol(&mut m, "pkg.main.MemoryRepository.save", SymbolKind::Method, 11);
    symbol(&mut m, "pkg.main.use", SymbolKind::Function, 14);
    symbol(&mut m, "pkg.main.run", SymbolKind::Function, 17);
    class(&mut m, "pkg.main.Repository", &[]);
    class(&mut m, "pkg.main.SqlRepository", &["pkg.main.Repository"]);
    class(&mut m, "pkg.main.MemoryRepository", &["pkg.main.Repository"]);
    m.function_signatures.push(FunctionSignature {
        function: "pkg.main.use".to_string(),
        parameters: vec![FunctionParameter {
            name: "repo".to_string(),
            annotation: Some(TypeBinding::erased("pkg.main.Repository".to_string())),
        }],
        return_type: None,
        concrete_return_type: None,
        validated_return_types: vec![],
    });
    root(&mut m, "main", "pkg.main");
    reference(&mut m, "pkg.main", "run");
    reference(&mut m, "pkg.main.run", "use");
    reference(&mut m, "pkg.main.run", "SqlRepository");
    reference(&mut m, "pkg.main.run", "MemoryRepository");
    member(&mut m, "pkg.main.use", "pkg.main.Repository.save", AccessKind::Call);
    m
}

#[test]
fn unused_overrides_remain_reportable() {
    let mut m = module("pkg.main", "pkg/main.py");
    symbol(&mut m, "pkg.main.Repository", SymbolKind::Class, 2);
    symbol(&mut m, "pkg.main.Repository.save", SymbolKind::Method, 3);
    symbol(&mut m, "pkg.main.SqlRepository", SymbolKind::Class, 6);
    symbol(&mut m, "pkg.main.SqlRepository.save", SymbolKind::Method, 7);
    symbol(&mut m, "pkg.main.MemoryRepository", SymbolKind::Class, 10);
    symbol(&mut m, "pkg.main.MemoryRepository.save", SymbolKind::Method, 11);
    symbol(&mut m, "pkg.main.run", SymbolKind::Function, 14);
    class(&mut m, "pkg.main.Repository", &[]);
    class(&mut m, "pkg.main.SqlRepository", &["pkg.main.Repository"]);
    class(&mut m, "pkg.main.MemoryRepository", &["pkg.main.Repository"]);
    root(&mut m, "main", "pkg.main");
    reference(&mut m, "pkg.main", "run");
    reference(&mut m, "pkg.main.run", "SqlRepository");
    member(&mut m, "pkg.main.run", "pkg.main.SqlRepository.save", AccessKind::Call);
    let index = index(vec![m]);
    let symbols = reported(&index);
    assert!(!symbols.contains(&"pkg.main.SqlRepository.save".to_string()));
    assert!(symbols.contains(&"pkg.main.Repository.save".to_string()));
    assert!(symbols.contains(&"pkg.main.MemoryRepository.save".to_string()));
}

#[test]
fn overrides_of_a_base_typed_slot_without_flows_stay_reportable() {
    let index = index(vec![repository_module()]);
    let symbols = reported(&index);
    assert!(symbols.contains(&"pkg.main.SqlRepository.save".to_string()));
    assert!(symbols.contains(&"pkg.main.MemoryRepository.save".to_string()));
    assert!(!symbols.contains(&"pkg.main.Repository.save".to_string()));
}

#[test]
fn base_typed_slot_reaches_the_override_of_the_class_passed_in() {
    let mut m = repository_module();
    m.call_argument_types.push(CallArgumentType {
        from: "pkg.main.run".to_string(),
        callee: "pkg.main.use".to_string(),
        position: 0,
        concrete_type: "pkg.main.SqlRepository".to_string(),
        span: span("pkg/main.py", 18),
    });
    let index = index(vec![m]);
    let symbols = reported(&index);
    assert!(!symbols.contains(&"pkg.main.Repository.save".to_string()));
    assert!(!symbols.contains(&"pkg.main.SqlRepository.save".to_string()));
    assert!(symbols.contains(&"pkg.main.MemoryRepository.save".to_string()));
}

#[test]
fn unresolved_receivers_warn_only_in_live_code() {
    let mut m = module("pkg.main", "pkg/main.py");
    symbol(&mut m, "pkg.main.run", SymbolKind::Function, 2);
    symbol(&mut m, "pkg.main.dead", SymbolKind::Function, 6);
    root(&mut m, "main", "pkg.main");
    reference(&mut m, "pkg.main", "run");
    m.unresolved_receivers.push(UnresolvedReceiver {
        from: "pkg.main.run".to_string(),
        receiver: "x".to_string(),
        member: "save".to_string(),
        span: SourceSpan::new("pkg/main.py", 3, 5),
    });
    m.unresolved_receivers.push(UnresolvedReceiver {
        from: "pkg.main.dead".to_string(),
        receiver: "y".to_string(),
        member: "load".to_string(),
        span: SourceSpan::new("pkg/main.py", 7, 5),
    });
    let index = index(vec![m]);

    let diagnostics = unresolved_receiver_diagnostics(&index);
    assert_eq!(diagnostics.len(), 1);
    assert_eq!(diagnostics[0].code, "DCF101");
    assert_eq!(diagnostics[0].severity, Severity::Warning);
    assert_eq!(
        diagnostics[0].message,
        "cannot resolve receiver type for x.save"
    );
    assert_eq!(diagnostics[0].span.line, 3);
}

#[test]
fn unsupported_expansion_warns_for_live_construction() {
    let mut m = module("pkg.main", "pkg/main.py");
    symbol(&mut m, "pkg.main.run", SymbolKind::Function, 2);
    root(&mut m, "main", "pkg.main");
    reference(&mut m, "pkg.main", "run");
    m.unsupported_expansions.push(UnsupportedExpansion {
        from: "pkg.main.run".to_string(),
        target: "pkg.main.ExampleEntity".to_string(),
        span: SourceSpan::new("pkg/main.py", 4, 5),
    });
    let index = index(vec![m]);

    let diagnostics = unsupported_expansion_diagnostics(&index);
    assert_eq!(diagnostics.len(), 1);
    assert_eq!(diagnostics[0].code, "DCF103");
    assert_eq!(
        diagnostics[0].message,
        "cannot expand keyword payload for construction of pkg.main.ExampleEntity"
    );
}

#[test]
fn diagnostics_are_ordered_by_file_line_and_message() {
    let mut m = module("pkg.main", "pkg/main.py");
    symbol(&mut m, "pkg.main.run", SymbolKind::Function, 2);
    root(&mut m, "main", "pkg.main");
    reference(&mut m, "pkg.main", "run");
    for (receiver, line) in [("b", 9), ("z", 3), ("a", 9)] {
        m.unresolved_receivers.push(UnresolvedReceiver {
            from: "pkg.main.run".to_string(),
            receiver: receiver.to_string(),
            member: "m".to_string(),
            span: SourceSpan::new("pkg/main.py", line, 1),
        });
    }
    let index = index(vec![m]);
    let messages: Vec<String> = unresolved_receiver_diagnostics(&index)
        .into_iter()
        .map(|d| d.message)
        .collect();
    assert_eq!(
        messages,
        vec![
            "cannot resolve receiver type for z.m",
            "cannot resolve receiver type for a.m",
            "cannot resolve receiver type for b.m",
        ]
    );
}

#[test]
fn symbols_kept_only_by_other_groups_note_those_groups() {
    let mut m = module("pkg.main", "pkg/main.py");
    symbol(&mut m, "pkg.main.run", SymbolKind::Function, 2);
    symbol(&mut m, "pkg.main.script_only", SymbolKind::Function, 5);
    symbol(&mut m, "pkg.main.dead", SymbolKind::Function, 8);
    root(&mut m, "main", "pkg.main.run");
    root(&mut m, "weak", "pkg.main.script_only");
    let mut index = index(vec![m]);
    index.root_groups = vec!["main".to_string(), "weak".to_string()];

    let findings = find_unused_symbols(&index);
    assert_eq!(findings.len(), 2);
    assert_eq!(findings[0].symbol, "pkg.main.script_only");
    assert_eq!(findings[0].reachable_from, vec!["weak".to_string()]);
    assert_eq!(findings[1].symbol, "pkg.main.dead");
    assert!(findings[1].reachable_from.is_empty());
}

#[test]
fn groups_that_count_as_use_keep_symbols_from_findings() {
    let mut m = module("pkg.main", "pkg/main.py");
    symbol(&mut m, "pkg.main.run", SymbolKind::Function, 2);
    symbol(&mut m, "pkg.main.cli", SymbolKind::Function, 5);
    root(&mut m, "main", "pkg.main.run");
    root(&mut m, "scripts", "pkg.main.cli");
    let mut index = index(vec![m]);
    index.root_groups = vec!["main".to_string(), "scripts".to_string()];
    index.counts_as_used_root_groups = vec!["main".to_string(), "scripts".to_string()];
    assert!(reported(&index).is_empty());
}

#[test]
fn primary_group_comes_first_when_not_configured() {
    let mut index = index(vec![]);
    index.root_groups = vec!["weak".to_string()];
    index.primary_root_group = "main".to_string();
    assert_eq!(root_group_names(&index), vec!["main".to_string(), "weak".to_string()]);
    index.root_groups = vec!["weak".to_string(), "main".to_string()];
    assert_eq!(root_group_names(&index), vec!["weak".to_string(), "main".to_string()]);
}

#[test]
fn test_code_is_reported_only_when_analysed() {
    let mut t = module("tests.test_main", "tests/test_main.py");
    t.is_test = true;
    symbol(&mut t, "tests.test_main.helper", SymbolKind::Function, 2);
    let mut index = index(vec![t]);
    assert!(reported(&index).is_empty());
    index.include_tests = true;
    assert_eq!(reported(&index), vec!["tests.test_main.helper"]);
}

#[test]
fn findings_are_ordered_and_one_per_symbol() {
    let mut a = module("pkg.b", "pkg/b.py");
    symbol(&mut a, "pkg.b.z", SymbolKind::Function, 1);
    symbol(&mut a, "pkg.b.y", SymbolKind::Function, 1);
    symbol(&mut a, "pkg.b.x", SymbolKind::Class, 9);
    let mut b = module("pkg.a", "pkg/a.py");
    symbol(&mut b, "pkg.a.w", SymbolKind::Method, 4);
    symbol(&mut b, "pkg.b.z", SymbolKind::Function, 7);
    let index = index(vec![a, b]);
    let findings = find_unused_symbols(&index);
    let listed: Vec<(String, usize, String)> = findings
        .iter()
        .map(|f| (f.span.file.clone(), f.span.line, f.symbol.clone()))
        .collect();
    assert_eq!(
        listed,
        vec![
            ("pkg/a.py".to_string(), 4, "pkg.a.w".to_string()),
            ("pkg/a.py".to_string(), 7, "pkg.b.z".to_string()),
            ("pkg/b.py".to_string(), 1, "pkg.b.y".to_string()),
            ("pkg/b.py".to_string(), 9, "pkg.b.x".to_string()),
        ]
    );
    assert_eq!(findings[0].code, "DCF003");
    assert_eq!(findings[3].code, "DCF002");
    assert_eq!(findings[3].message, "unused symbol pkg.b.x");
}

#[test]
fn fixtures_requested_by_live_tests_are_live() {
    let mut t = module("tests.test_api", "tests/test_api.py");
    t.is_test = true;
    symbol(&mut t, "tests.test_api.client", SymbolKind::Function, 3);
    symbol(&mut t, "tests.test_api.unused_fixture", SymbolKind::Function, 7);
    symbol(&mut t, "tests.test_api.test_get", SymbolKind::Function, 10);
    t.pytest_fixtures.push(PytestFixture {
        name: "client".to_string(),
        function: "tests.test_api.client".to_string(),
        autouse: false,
    });
    t.function_signatures.push(FunctionSignature {
        function: "tests.test_api.test_get".to_string(),
        parameters: vec![FunctionParameter {
            name: "client".to_string(),
            annotation: None,
        }],
        return_type: None,
        concrete_return_type: None,
        validated_return_types: vec![],
    });
    root(&mut t, "main", "tests.test_api.test_get");
    let mut index = index(vec![t]);
    index.include_tests = true;
    assert_eq!(reported(&index), vec!["tests.test_api.unused_fixture"]);
}

#[test]
fn live_classes_keep_slots_and_surface_attributes() {
    let mut m = module("pkg.models", "pkg/models.py");
    symbol(&mut m, "pkg.models.Base", SymbolKind::Class, 1);
    symbol(&mut m, "pkg.models.User", SymbolKind::Class, 4);
    symbol(&mut m, "pkg.models.User.__slots__", SymbolKind::Attribute, 5);
    symbol(&mut m, "pkg.models.User.name", SymbolKind::Field, 6);
    symbol(&mut m, "pkg.models.User.save", SymbolKind::Method, 8);
    class(&mut m, "pkg.models.Base", &[]);
    class(&mut m, "pkg.models.User", &["pkg.models.Base"]);
    root(&mut m, "main", "pkg.models.User");
    let mut index = index(vec![m]);
    index.class_surfaces = vec!["pkg.models.Base".to_string()];
    let symbols = reported(&index);
    assert_eq!(symbols, vec!["pkg.models.Base", "pkg.models.User.save"]);
}

#[test]
fn route_globs_bring_in_modules_when_their_function_is_used() {
    let mut main = module("pkg.main", "pkg/main.py");
    symbol(&mut main, "pkg.main.include_routes", SymbolKind::Function, 2);
    root(&mut main, "main", "pkg.main");
    reference(&mut main, "pkg.main", "include_routes");
    let mut routes = module("pkg.routes.items", "pkg/routes/items.py");
    symbol(&mut routes, "pkg.routes.items.router", SymbolKind::Attribute, 3);
    let mut index = index(vec![main, routes]);
    index.route_globs = vec![ResolvedRouteGlob {
        when_function_called: "pkg.main.include_routes".to_string(),
        modules: vec!["pkg.routes.items".to_string()],
    }];
    let live = live(&index, "main");
    assert!(live.contains(&"pkg.routes.items".to_string()));
    assert_eq!(reported(&index), vec!["pkg.routes.items.router"]);
}

#[test]
fn pydantic_models_keep_their_model_config() {
    let mut m = module("pkg.main", "pkg/main.py");
    symbol(&mut m, "pkg.main.Entity", SymbolKind::Class, 3);
    symbol(&mut m, "pkg.main.Entity.model_config", SymbolKind::Attribute, 4);
    symbol(&mut m, "pkg.main.Plain", SymbolKind::Class, 7);
    symbol(&mut m, "pkg.main.Plain.model_config", SymbolKind::Attribute, 8);
    class(&mut m, "pkg.main.Entity", &["pydantic.BaseModel"]);
    class(&mut m, "pkg.main.Plain", &[]);
    root(&mut m, "main", "pkg.main.Entity");
    root(&mut m, "main", "pkg.main.Plain");
    let index = index(vec![m]);
    assert_eq!(reported(&index), vec!["pkg.main.Plain.model_config"]);
}

#[test]
fn analysis_report_lists_parse_problems_before_live_code_warnings() {
    let mut m = module("pkg.main", "pkg/main.py");
    symbol(&mut m, "pkg.main.run", SymbolKind::Function, 2);
    symbol(&mut m, "pkg.main.dead", SymbolKind::Function, 5);
    root(&mut m, "main", "pkg.main");
    reference(&mut m, "pkg.main", "run");
    m.unresolved_receivers.push(UnresolvedReceiver {
        from: "pkg.main.run".to_string(),
        receiver: "x".to_string(),
        member: "save".to_string(),
        span: SourceSpan::new("pkg/main.py", 3, 5),
    });
    let mut index = index(vec![m]);
    index.parse_diagnostics = vec![ParseDiagnostic {
        file: "pkg/broken.py".to_string(),
        message: "could not parse Python module: unexpected token".to_string(),
        span: SourceSpan::new("pkg/broken.py", 1, 12),
    }];
    let report = analyze_project(index);
    assert_eq!(report.findings.len(), 1);
    assert_eq!(report.findings[0].symbol, "pkg.main.dead");
    assert_eq!(report.diagnostics.len(), 2);
    assert_eq!(report.diagnostics[0].code, "DCF102");
    assert_eq!(report.diagnostics[1].code, "DCF101");
    assert!(!report.is_clean());
}

#[test]
fn member_lookup_takes_the_first_definition_in_depth_first_order() {
    let mut m = module("pkg.main", "pkg/main.py");
    class(&mut m, "pkg.main.Base", &[]);
    class(&mut m, "pkg.main.Left", &["pkg.main.Base"]);
    class(&mut m, "pkg.main.Right", &["pkg.main.Base"]);
    class(&mut m, "pkg.main.Child", &["pkg.main.Left", "pkg.main.Right"]);
    symbol(&mut m, "pkg.main.Base", SymbolKind::Class, 2);
    symbol(&mut m, "pkg.main.Base.save", SymbolKind::Method, 3);
    symbol(&mut m, "pkg.main.Right.save", SymbolKind::Method, 6);
    symbol(&mut m, "pkg.main.Child.name", SymbolKind::Method, 9);
    let index = index(vec![m]);
    assert_eq!(
        class_closure(&index, "pkg.main.Child"),
        vec!["pkg.main.Child", "pkg.main.Left", "pkg.main.Base", "pkg.main.Right"]
    );
    assert_eq!(
        lookup_member(&index, "pkg.main.Child", "save"),
        Some("pkg.main.Base.save".to_string())
    );
    assert_eq!(
        lookup_member(&index, "pkg.main.Right", "save"),
        Some("pkg.main.Right.save".to_string())
    );
    assert_eq!(
        lookup_member(&index, "pkg.main.Child", "name"),
        Some("pkg.main.Child.name".to_string())
    );
    assert_eq!(lookup_member(&index, "pkg.main.Left", "name"), None);
}

fn returning(m: &mut ModuleIndex, function: &str, returns: &str) {
    m.function_signatures.push(FunctionSignature {
        function: function.to_string(),
        parameters: vec![],
        return_type: Some(TypeBinding::erased(returns.to_string())),
        concrete_return_type: None,
        validated_return_types: vec![],
    });
}

#[test]
fn overrides_reached_through_concrete_receivers_record_their_returns() {
    let mut m = module("pkg", "pkg/__init__.py");
    class(&mut m, "pkg.Repo", &[]);
    class(&mut m, "pkg.SqlRepo", &["pkg.Repo"]);
    class(&mut m, "pkg.Other", &[]);
    class(&mut m, "pkg.Factory", &[]);
    class(&mut m, "pkg.SqlFactory", &["pkg.Factory"]);
    class(&mut m, "pkg.OddFactory", &["pkg.Factory"]);
    symbol(&mut m, "pkg.Factory.make", SymbolKind::Method, 2);
    symbol(&mut m, "pkg.SqlFactory.make", SymbolKind::Method, 4);
    symbol(&mut m, "pkg.OddFactory.make", SymbolKind::Method, 6);
    returning(&mut m, "pkg.Factory.make", "pkg.Repo");
    returning(&mut m, "pkg.SqlFactory.make", "pkg.SqlRepo");
    returning(&mut m, "pkg.OddFactory.make", "pkg.Other");
    let index = index(vec![m]);

    let mut flows = Vec::new();
    assert!(add_flow(&mut flows, "pkg.run", "pkg.Factory", "pkg.SqlFactory"));
    assert!(add_flow(&mut flows, "pkg.run", "pkg.Factory", "pkg.OddFactory"));
    assert!(add_flow(&mut flows, "pkg.run", "pkg.Factory", "pkg.Factory"));
    assert!(!add_flow(&mut flows, "pkg.run", "pkg.Factory", "pkg.Factory"));

    assert!(propagate_concrete_return_flows(&index, "pkg.run", "pkg.Factory.make", &mut flows));
    assert_eq!(
        concrete_flow_candidates(&flows, "pkg.run", "pkg.Repo"),
        vec!["pkg.SqlRepo".to_string()]
    );
    assert!(!propagate_concrete_return_flows(&index, "pkg.run", "pkg.Factory.make", &mut flows));
    assert!(!propagate_concrete_return_flows(&index, "pkg.run", "pkg.Factory.missing", &mut flows));
    assert!(!propagate_concrete_return_flows(&index, "pkg.other", "pkg.Factory.make", &mut flows));
}

#[test]
fn a_class_that_does_not_derive_from_the_slot_type_does_not_flow_into_it() {
    let mut m = repository_module();
    symbol(&mut m, "pkg.main.Unrelated", SymbolKind::Class, 20);
    symbol(&mut m, "pkg.main.Unrelated.save", SymbolKind::Method, 21);
    class(&mut m, "pkg.main.Unrelated", &[]);
    reference(&mut m, "pkg.main.run", "Unrelated");
    m.call_argument_types.push(CallArgumentType {
        from: "pkg.main.run".to_string(),
        callee: "pkg.main.use".to_string(),
        position: 0,
        concrete_type: "pkg.main.Unrelated".to_string(),
        span: span("pkg/main.py", 18),
    });
    let index = index(vec![m]);
    let symbols = reported(&index);
    assert!(symbols.contains(&"pkg.main.Unrelated.save".to_string()));
    assert!(!symbols.contains(&"pkg.main.Repository.save".to_string()));
}
