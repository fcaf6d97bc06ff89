use deadcode::call_results::{collect_callable_return_local_statement, module_call_result_uses, LocalBinding};
use deadcode::collect::{collect_call_references, Local, ReadContext};
use deadcode::analysis::find_unused_symbols;
use deadcode::config::{ConstructorRule, DecoratorRule, LoadedProjectConfig, LoadedRootGroup, ResolvedRoot, RuleConfig};
use deadcode::diagnostics::{unresolved_receiver_diagnostics, unsupported_expansion_diagnostics};
use deadcode::index::SymbolIndex;
use deadcode::project::analyze_project;
use deadcode::sources::{index_sources, parse_failure, SourceModule};
use deadcode::syntax::{
    ClassDef, CompareOp, Decorator, Expr, FunctionDef, ImportAlias, Keyword, ModuleSyntax, Parameter, Position, Stmt,
};

fn at(line: usize, column: usize) -> Position {
    Position { line, column }
}

fn name(id: &str, line: usize, column: usize) -> Expr {
    Expr::Name { id: id.to_string(), position: at(line, column) }
}

fn attribute(value: Expr, attr: &str, line: usize, column: usize) -> Expr {
    Expr::Attribute { value: Box::new(value), attr: attr.to_string(), position: at(line, column) }
}

fn call(func: Expr, args: Vec<Expr>, keywords: Vec<Keyword>, line: usize, column: usize) -> Expr {
    Expr::Call { func: Box::new(func), args, keywords, position: at(line, column) }
}

fn run(e: Expr) -> Stmt {
    Stmt::Expr { value: e }
}

fn parameter(n: &str, annotation: Option<Expr>) -> Parameter {
    Parameter { name: n.to_string(), annotation, default: None }
}

fn def(n: &str, line: usize, column: usize, parameters: Vec<Parameter>, body: Vec<Stmt>) -> Stmt {
    Stmt::FunctionDef(FunctionDef {
        name: n.to_string(),
        position: at(line, column),
        decorators: vec![],
        parameters,
        return_annotation: None,
        body,
    })
}

fn class(n: &str, line: usize, bases: Vec<Expr>, body: Vec<Stmt>) -> Stmt {
    Stmt::ClassDef(ClassDef { name: n.to_string(), position: at(line, 1), bases, body })
}

fn method_save(line: usize) -> Stmt {
    def("save", line, 5, vec![parameter("self", None)], vec![Stmt::Opaque])
}

fn source(module: &str, file: &str, body: Vec<Stmt>) -> SourceModule {
    SourceModule { module: module.to_string(), file: file.to_string(), source: String::new(), tree: ModuleSyntax { body } }
}

fn config(entrypoints: &[&str], rules: RuleConfig) -> LoadedProjectConfig {
    let entrypoints: Vec<String> = entrypoints.iter().map(|e| e.to_string()).collect();
    LoadedProjectConfig {
        config_path: "ws/dead-code-finder.json".to_string(),
        project_dir: "ws".to_string(),
        roots: vec![ResolvedRoot { path: "ws/pkg".to_string(), module: "pkg".to_string() }],
        root_groups: vec![LoadedRootGroup { name: "main".to_string(), entrypoints: entrypoints.clone(), counts_as_used: true }],
        entrypoints,
        weak_entrypoints: vec![],
        include_tests: false,
        test_patterns: vec![],
        rules,
    }
}

fn index_main(body: Vec<Stmt>) -> SymbolIndex {
    index_sources(&config(&["pkg/main.py"], RuleConfig::default()), &vec![source("pkg.main", "ws/pkg/main.py", body)], vec![])
}

fn finding_symbols(index: &SymbolIndex) -> Vec<String> {
    find_unused_symbols(index).into_iter().map(|f| f.symbol).collect()
}

fn has(symbols: &[String], s: &str) -> bool {
    symbols.iter().any(|x| x == s)
}

#[test]
fn reports_dead_islands_not_just_unreferenced_functions() {
    let index = index_main(vec![
        def("live", 2, 1, vec![], vec![run(call(name("helper", 3, 5), vec![], vec![], 3, 5))]),
        def("helper", 5, 1, vec![], vec![Stmt::Opaque]),
        def("old_view", 8, 1, vec![], vec![run(call(name("old_helper", 9, 5), vec![], vec![], 9, 5))]),
        def("old_helper", 11, 1, vec![], vec![Stmt::Opaque]),
        run(call(name("live", 14, 1), vec![], vec![], 14, 1)),
    ]);
    let symbols = finding_symbols(&index);
    assert!(!has(&symbols, "pkg.main.live"));
    assert!(!has(&symbols, "pkg.main.helper"));
    assert!(has(&symbols, "pkg.main.old_view"));
    assert!(has(&symbols, "pkg.main.old_helper"));
}

#[test]
fn follows_used_import_bindings_to_imported_symbols() {
    let main = source(
        "pkg.main",
        "ws/pkg/main.py",
        vec![
            Stmt::ImportFrom {
                module: Some("pkg.helpers".to_string()),
                level: 0,
                names: vec![ImportAlias { name: "live".to_string(), asname: None }],
                position: at(1, 1),
            },
            run(call(name("live", 3, 1), vec![], vec![], 3, 1)),
        ],
    );
    let helpers = source(
        "pkg.helpers",
        "ws/pkg/helpers.py",
        vec![def("live", 2, 1, vec![], vec![Stmt::Opaque]), def("dead", 5, 1, vec![], vec![Stmt::Opaque])],
    );
    let index = index_sources(&config(&["pkg/main.py"], RuleConfig::default()), &vec![main, helpers], vec![]);
    let symbols = finding_symbols(&index);
    assert!(!has(&symbols, "pkg.helpers.live"));
    assert!(has(&symbols, "pkg.helpers.dead"));
}

#[test]
fn treats_main_guard_as_entrypoint() {
    let guard = Stmt::If {
        test: Expr::Compare {
            left: Box::new(name("__name__", 8, 4)),
            ops: vec![CompareOp::Equal],
            comparators: vec![Expr::StringLiteral { value: "__main__".to_string() }],
        },
        body: vec![run(call(name("live", 9, 5), vec![], vec![], 9, 5))],
        orelse: vec![],
        position: at(8, 1),
    };
    let script = source(
        "pkg.script",
        "ws/pkg/script.py",
        vec![def("live", 2, 1, vec![], vec![Stmt::Opaque]), def("dead", 5, 1, vec![], vec![Stmt::Opaque]), guard],
    );
    let index = index_sources(&config(&[], RuleConfig::default()), &vec![script], vec![]);
    let symbols = finding_symbols(&index);
    assert!(!has(&symbols, "pkg.script.live"));
    assert!(has(&symbols, "pkg.script.dead"));
}

#[test]
fn resolves_method_call_from_constructor_assignment_without_name_matching() {
    let index = index_main(vec![
        class("ExampleEntity", 2, vec![], vec![method_save(3)]),
        class("Other", 6, vec![], vec![method_save(7)]),
        def(
            "run",
            10,
            1,
            vec![],
            vec![
                Stmt::Assign {
                    targets: vec![name("entity", 11, 5)],
                    value: call(name("ExampleEntity", 11, 14), vec![], vec![], 11, 14),
                    position: at(11, 5),
                },
                run(call(attribute(name("entity", 12, 5), "save", 12, 5), vec![], vec![], 12, 5)),
            ],
        ),
        run(call(name("run", 14, 1), vec![], vec![], 14, 1)),
    ]);
    let symbols = finding_symbols(&index);
    assert!(!has(&symbols, "pkg.main.ExampleEntity.save"));
    assert!(has(&symbols, "pkg.main.Other.save"));
}

fn repositories() -> Vec<Stmt> {
    vec![
        class("Repository", 2, vec![], vec![method_save(3)]),
        class("SqlRepository", 6, vec![name("Repository", 6, 21)], vec![method_save(7)]),
        class("MemoryRepository", 10, vec![name("Repository", 10, 24)], vec![method_save(11)]),
    ]
}

#[test]
fn overrides_without_calls_remain_reportable() {
    let mut body = repositories();
    body.push(def(
        "run",
        14,
        1,
        vec![],
        vec![
            Stmt::Assign {
                targets: vec![name("repo", 15, 5)],
                value: call(name("SqlRepository", 15, 12), vec![], vec![], 15, 12),
                position: at(15, 5),
            },
            run(call(attribute(name("repo", 16, 5), "save", 16, 5), vec![], vec![], 16, 5)),
        ],
    ));
    body.push(run(call(name("run", 18, 1), vec![], vec![], 18, 1)));
    let symbols = finding_symbols(&index_main(body));
    assert!(!has(&symbols, "pkg.main.SqlRepository.save"));
    assert!(has(&symbols, "pkg.main.Repository.save"));
    assert!(has(&symbols, "pkg.main.MemoryRepository.save"));
}

#[test]
fn base_typed_slot_reaches_concrete_subtype_override_from_direct_argument_flow() {
    let mut body = repositories();
    body.push(def(
        "process",
        14,
        1,
        vec![parameter("repo", Some(name("Repository", 14, 19)))],
        vec![run(call(attribute(name("repo", 15, 5), "save", 15, 5), vec![], vec![], 15, 5))],
    ));
    body.push(run(call(
        name("process", 17, 1),
        vec![call(name("SqlRepository", 17, 9), vec![], vec![], 17, 9)],
        vec![],
        17,
        1,
    )));
    let symbols = finding_symbols(&index_main(body));
    assert!(!has(&symbols, "pkg.main.Repository.save"));
    assert!(!has(&symbols, "pkg.main.SqlRepository.save"));
    assert!(has(&symbols, "pkg.main.MemoryRepository.save"));
}

#[test]
fn constructor_arguments_flow_into_the_init_parameters() {
    let mut body = repositories();
    body.push(class(
        "Service",
        14,
        vec![],
        vec![
            def(
                "__init__",
                15,
                5,
                vec![parameter("self", None), parameter("repo", Some(name("Repository", 15, 30)))],
                vec![run(call(attribute(name("repo", 16, 9), "save", 16, 9), vec![], vec![], 16, 9))],
            ),
        ],
    ));
    body.push(run(call(
        name("Service", 18, 1),
        vec![call(name("MemoryRepository", 18, 9), vec![], vec![], 18, 9)],
        vec![],
        18,
        1,
    )));
    let symbols = finding_symbols(&index_main(body));
    assert!(!has(&symbols, "pkg.main.Service.__init__"));
    assert!(!has(&symbols, "pkg.main.MemoryRepository.save"));
    assert!(has(&symbols, "pkg.main.SqlRepository.save"));
}

#[test]
fn emits_unresolved_receiver_diagnostic_for_reachable_code() {
    let index = index_main(vec![
        def(
            "run",
            2,
            1,
            vec![parameter("x", None)],
            vec![run(call(attribute(name("x", 3, 5), "save", 3, 5), vec![], vec![], 3, 5))],
        ),
        run(call(name("run", 5, 1), vec![Expr::Opaque], vec![], 5, 1)),
    ]);
    let diagnostics = unresolved_receiver_diagnostics(&index);
    assert_eq!(diagnostics.len(), 1);
    assert_eq!(diagnostics[0].code, "DCF101");
    assert!(diagnostics[0].message.contains("cannot resolve receiver type for x.save"));
}

#[test]
fn skips_unresolved_receiver_diagnostic_for_unreachable_code() {
    let index = index_main(vec![
        def("live", 2, 1, vec![], vec![Stmt::Opaque]),
        def(
            "dead",
            5,
            1,
            vec![parameter("x", None)],
            vec![run(call(attribute(name("x", 6, 5), "save", 6, 5), vec![], vec![], 6, 5))],
        ),
        run(call(name("live", 8, 1), vec![], vec![], 8, 1)),
    ]);
    assert!(unresolved_receiver_diagnostics(&index).is_empty());
}

#[test]
fn unsupported_constructor_expansion_warns_without_field_expansion() {
    let index = index_main(vec![
        class(
            "ExampleEntity",
            2,
            vec![],
            vec![Stmt::AnnAssign { target: name("name", 3, 5), annotation: name("str", 3, 11), value: None, position: at(3, 5) }],
        ),
        def(
            "run",
            5,
            1,
            vec![parameter("payload", None)],
            vec![run(call(
                name("ExampleEntity", 6, 5),
                vec![],
                vec![Keyword { arg: None, value: name("payload", 6, 21), position: at(6, 19) }],
                6,
                5,
            ))],
        ),
        run(call(name("run", 8, 1), vec![Expr::Opaque], vec![], 8, 1)),
    ]);
    let symbols = finding_symbols(&index);
    let diagnostics = unsupported_expansion_diagnostics(&index);
    assert!(has(&symbols, "pkg.main.ExampleEntity.name"));
    assert_eq!(diagnostics.len(), 1);
    assert_eq!(diagnostics[0].code, "DCF103");
    assert!(diagnostics[0].message.contains("cannot expand keyword payload for construction of pkg.main.ExampleEntity"));
}

#[test]
fn constructor_keywords_mark_only_matching_owner_field_used() {
    let field = |line: usize| Stmt::AnnAssign { target: name("name", line, 5), annotation: name("str", line, 11), value: None, position: at(line, 5) };
    let index = index_main(vec![
        class("ExampleEntity", 2, vec![], vec![field(3)]),
        class("Other", 5, vec![], vec![field(6)]),
        def(
            "run",
            8,
            1,
            vec![],
            vec![run(call(
                name("ExampleEntity", 9, 5),
                vec![],
                vec![Keyword { arg: Some("name".to_string()), value: Expr::Opaque, position: at(9, 19) }],
                9,
                5,
            ))],
        ),
        run(call(name("run", 11, 1), vec![], vec![], 11, 1)),
    ]);
    let symbols = finding_symbols(&index);
    assert!(!has(&symbols, "pkg.main.ExampleEntity.name"));
    assert!(has(&symbols, "pkg.main.Other.name"));
}

fn live_and_dead() -> Vec<Stmt> {
    vec![
        def("live", 2, 1, vec![], vec![Stmt::Opaque]),
        def("dead", 5, 1, vec![], vec![Stmt::Opaque]),
        run(call(name("live", 8, 1), vec![], vec![], 8, 1)),
    ]
}

#[test]
fn analysis_reports_unused_symbols() {
    let report = analyze_project(index_main(live_and_dead()));
    assert_eq!(report.findings.len(), 1);
    assert_eq!(report.findings[0].symbol, "pkg.main.dead");
}

fn router_module() -> Vec<Stmt> {
    let route = call(
        attribute(name("router", 6, 2), "get", 6, 2),
        vec![Expr::StringLiteral { value: "/items".to_string() }],
        vec![],
        6,
        2,
    );
    vec![
        Stmt::ImportFrom {
            module: Some("toyframework".to_string()),
            level: 0,
            names: vec![ImportAlias { name: "Router".to_string(), asname: None }],
            position: at(2, 1),
        },
        Stmt::Assign {
            targets: vec![name("router", 4, 1)],
            value: call(name("Router", 4, 10), vec![], vec![], 4, 10),
            position: at(4, 1),
        },
        Stmt::FunctionDef(FunctionDef {
            name: "list_items".to_string(),
            position: at(7, 1),
            decorators: vec![Decorator { expression: route, position: at(6, 2) }],
            parameters: vec![],
            return_annotation: None,
            body: vec![Stmt::Opaque],
        }),
    ]
}

#[test]
fn declarative_rules_register_decorated_functions() {
    let mut rules = RuleConfig::default();
    rules.constructors = vec![ConstructorRule {
        match_: "toyframework.Router".to_string(),
        produces_type: "toyframework.Router".to_string(),
    }];
    rules.decorators = vec![DecoratorRule {
        function: None,
        receiver_type: Some("toyframework.Router".to_string()),
        methods: vec!["get".to_string()],
        callable_type: None,
        effect: "registerDecoratedFunction".to_string(),
    }];
    let index = index_sources(&config(&["pkg/main.py"], rules), &vec![source("pkg.main", "ws/pkg/main.py", router_module())], vec![]);
    let report = analyze_project(index);
    assert!(report.findings.is_empty());
    assert!(report.diagnostics.is_empty());
}

#[test]
fn decorators_without_rules_do_not_keep_functions_alive() {
    let report = analyze_project(index_main(router_module()));
    assert_eq!(report.findings.len(), 1);
    assert_eq!(report.findings[0].symbol, "pkg.main.list_items");
}

#[test]
fn parse_errors_become_diagnostics() {
    let failure = parse_failure("ws/pkg/broken.py", "Expected a parameter name", at(1, 12));
    let broken = source("pkg.broken", "ws/pkg/broken.py", vec![]);
    let index = index_sources(&config(&["pkg/main.py"], RuleConfig::default()), &vec![broken], vec![failure]);
    assert_eq!(index.modules.len(), 1);
    assert_eq!(index.modules[0].symbols[0].qualified_name, "pkg.broken");
    assert_eq!(index.parse_diagnostics.len(), 1);
    assert!(index.parse_diagnostics[0].message.contains("could not parse"));
    let report = analyze_project(index);
    assert_eq!(report.diagnostics.len(), 1);
    assert_eq!(report.diagnostics[0].message, "could not parse Python module: Expected a parameter name");
}

#[test]
fn entry_point_groups_and_test_files_root_their_modules() {
    let mut config = config(&["pkg/main.py"], RuleConfig::default());
    config.test_patterns = vec!["test_*.py".to_string()];
    config.root_groups.push(LoadedRootGroup { name: "test".to_string(), entrypoints: vec!["test_*.py".to_string()], counts_as_used: false });
    let tests = source(
        "pkg.test_main",
        "ws/pkg/test_main.py",
        vec![def("test_runs", 1, 1, vec![], vec![Stmt::Opaque]), def("helper", 4, 1, vec![], vec![Stmt::Opaque])],
    );
    let index = index_sources(&config, &vec![source("pkg.main", "ws/pkg/main.py", live_and_dead()), tests], vec![]);
    let main = index.modules.iter().find(|m| m.module == "pkg.main").unwrap();
    assert!(!main.is_test);
    let roots: Vec<(&str, &str)> = main.root_symbols.iter().map(|r| (r.group.as_str(), r.symbol.as_str())).collect();
    assert_eq!(roots, vec![("main", "pkg.main")]);
    let test = index.modules.iter().find(|m| m.module == "pkg.test_main").unwrap();
    assert!(test.is_test);
    let roots: Vec<(&str, &str)> = test.root_symbols.iter().map(|r| (r.group.as_str(), r.symbol.as_str())).collect();
    assert_eq!(roots, vec![("test", "pkg.test_main"), ("test", "pkg.test_main.test_runs")]);
}

#[test]
fn members_used_on_results_of_local_calls_are_recorded() {
    let body = vec![
        Stmt::Assign {
            targets: vec![name("client", 3, 5)],
            value: call(name("make_client", 3, 14), vec![], vec![], 3, 14),
            position: at(3, 5),
        },
        run(call(attribute(name("client", 4, 5), "send", 4, 12), vec![], vec![], 4, 5)),
        Stmt::Assign { targets: vec![name("client", 5, 5)], value: Expr::Opaque, position: at(5, 5) },
        run(call(attribute(name("client", 6, 5), "close", 6, 12), vec![], vec![], 6, 5)),
    ];
    let module = vec![
        def("make_client", 1, 1, vec![], vec![Stmt::Opaque]),
        def("work", 2, 1, vec![], body),
        class("Holder", 8, vec![], vec![def("use_it", 9, 5, vec![parameter("self", None)], vec![
            Stmt::AnnAssign {
                target: name("other", 10, 9),
                annotation: name("Client", 10, 16),
                value: Some(call(name("make_client", 10, 25), vec![], vec![], 10, 25)),
                position: at(10, 9),
            },
            Stmt::Return { value: Some(call(attribute(name("other", 11, 16), "fetch", 11, 22), vec![], vec![], 11, 16)) },
        ])]),
    ];
    let uses = module_call_result_uses("pkg.main", "ws/pkg/main.py", &module);
    let seen: Vec<(&str, &str, &str, usize, usize)> = uses
        .iter()
        .map(|u| (u.from.as_str(), u.callable.as_str(), u.member.as_str(), u.span.line, u.span.column))
        .collect();
    assert_eq!(
        seen,
        vec![
            ("pkg.main.work", "pkg.main.make_client", "send", 4, 12),
            ("pkg.main.Holder.use_it", "pkg.main.make_client", "fetch", 11, 22),
        ]
    );

    let mut locals = vec![LocalBinding { name: "x".to_string(), callable: Some("pkg.main.make".to_string()) }];
    let mut out = Vec::new();
    let branch = Stmt::If {
        test: Expr::Opaque,
        body: vec![
            Stmt::Assign { targets: vec![name("x", 2, 9)], value: Expr::Opaque, position: at(2, 9) },
            run(call(attribute(name("x", 3, 9), "gone", 3, 11), vec![], vec![], 3, 9)),
        ],
        orelse: vec![run(call(attribute(name("x", 5, 9), "kept", 5, 11), vec![], vec![], 5, 9))],
        position: at(1, 5),
    };
    collect_callable_return_local_statement("pkg.main", "m.py", "pkg.main.f", &branch, &mut locals, &mut out);
    assert_eq!(locals.len(), 1);
    assert_eq!(out.len(), 1);
    assert_eq!((out[0].callable.as_str(), out[0].member.as_str()), ("pkg.main.make", "kept"));
}

#[test]
fn a_call_records_its_member_construction_and_argument_classes() {
    let ctx = ReadContext {
        module: "pkg.main".to_string(),
        file: "m.py".to_string(),
        local_names: vec!["pkg.main.Entity".to_string(), "pkg.main.store".to_string()],
        classes: vec!["pkg.main.Entity".to_string()],
        imports: vec![],
        constructors: vec![],
        decorators: vec![],
    };
    let env = vec![Local { name: "repo".to_string(), class: Some("pkg.main.Repo".to_string()) }];
    let made = call(name("Entity", 2, 10), vec![], vec![Keyword { arg: Some("name".to_string()), value: name("label", 2, 22), position: at(2, 17) }], 2, 10);
    let stored = call(name("store", 2, 1), vec![made], vec![], 2, 1);
    let r = collect_call_references(&ctx, "pkg.main.run", &env, &stored);
    let members: Vec<&str> = r.member_references.iter().map(|m| m.target.as_str()).collect();
    assert_eq!(members, vec!["pkg.main.Entity.__init__", "pkg.main.Entity.name"]);
    assert_eq!(r.call_argument_types.len(), 1);
    assert_eq!(r.call_argument_types[0].callee, "pkg.main.store");
    assert_eq!(r.call_argument_types[0].concrete_type, "pkg.main.Entity");
    let names: Vec<&str> = r.references.iter().map(|x| x.name.as_str()).collect();
    assert_eq!(names, vec!["store", "Entity", "label"]);
    let saved = call(attribute(name("repo", 3, 1), "save", 3, 1), vec![], vec![], 3, 1);
    let r = collect_call_references(&ctx, "pkg.main.run", &env, &saved);
    assert_eq!(r.member_references[0].target, "pkg.main.Repo.save");
    assert!(r.unresolved_receivers.is_empty());
    let nested = call(name("Entity", 4, 1), vec![call(name("Entity", 4, 8), vec![], vec![], 4, 8)], vec![], 4, 1);
    let r = collect_call_references(&ctx, "pkg.main.run", &env, &nested);
    assert_eq!(r.call_argument_types.len(), 1);
    assert_eq!(r.call_argument_types[0].callee, "pkg.main.Entity.__init__");
    assert_eq!(r.call_argument_types[0].position, 1);
    assert_eq!(r.call_argument_types[0].concrete_type, "pkg.main.Entity");
    assert_eq!((r.call_argument_types[0].span.line, r.call_argument_types[0].span.column), (4, 8));
}
