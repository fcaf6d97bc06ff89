use deadcode::config::ResolvedRoot;
use deadcode::index::{ImportTarget, ResolvedImport};
use deadcode::paths::module_name_for_file;
use deadcode::reader::{index_module_syntax, ProjectContext};
use deadcode::reexports::Reexport;
use deadcode::report::SymbolKind;
use deadcode::syntax::{
    ClassDef, CompareOp, Decorator, Expr, FunctionDef, ImportAlias, Keyword, ModuleSyntax, Position, Stmt,
};

fn at(line: usize, column: usize) -> Position {
    Position { line, column }
}

fn name(id: &str) -> Expr {
    Expr::Name { id: id.to_string(), position: at(1, 1) }
}

fn attribute(value: Expr, attr: &str) -> Expr {
    Expr::Attribute { value: Box::new(value), attr: attr.to_string(), position: at(1, 1) }
}

fn function(name: &str, position: Position, decorators: Vec<Decorator>, body: Vec<Stmt>) -> Stmt {
    Stmt::FunctionDef(FunctionDef { name: name.to_string(), position, decorators, parameters: vec![], return_annotation: None, body })
}

fn alias(name: &str, asname: Option<&str>) -> ImportAlias {
    ImportAlias { name: name.to_string(), asname: asname.map(|a| a.to_string()) }
}

fn main_guard(position: Position) -> Stmt {
    Stmt::If {
        test: Expr::Compare {
            left: Box::new(name("__name__")),
            ops: vec![CompareOp::Equal],
            comparators: vec![Expr::StringLiteral { value: "__main__".to_string() }],
        },
        body: vec![],
        orelse: vec![],
        position,
    }
}

fn project(known: &[&str], reexports: Vec<Reexport>) -> ProjectContext {
    ProjectContext {
        known_modules: known.iter().map(|m| m.to_string()).collect(),
        reexports,
        classes: vec![],
        constructors: vec![],
        decorators: vec![],
        primary_root_group: "main".to_string(),
    }
}

fn symbols(tree: &ModuleSyntax) -> Vec<(String, String, SymbolKind, usize, usize)> {
    let reading = index_module_syntax("pkg.main", "pkg/main.py", "", tree, &project(&[], vec![]), &vec![], false);
    reading
        .index
        .symbols
        .iter()
        .map(|s| (s.qualified_name.clone(), s.name.clone(), s.kind, s.span.line, s.span.column))
        .collect()
}

fn imports_of(tree: &ModuleSyntax, file: &str, known: Vec<&str>, table: Vec<Reexport>) -> Vec<ResolvedImport> {
    let known: Vec<String> = known.into_iter().map(|m| m.to_string()).collect();
    index_module_syntax("pkg.main", file, "", tree, &ProjectContext { known_modules: known, ..project(&[], table) }, &vec![], false).index.imports
}

#[test]
fn an_empty_module_is_indexed_by_its_name() {
    let reading = index_module_syntax("pkg.main", "pkg/main.py", "", &ModuleSyntax { body: vec![] }, &project(&[], vec![]), &vec![], true);
    assert_eq!(reading.index.module, "pkg.main");
    assert_eq!(reading.index.file, "pkg/main.py");
    assert_eq!(reading.index.symbols.len(), 1);
    assert_eq!(reading.index.symbols[0].qualified_name, "pkg.main");
    assert_eq!(reading.index.symbols[0].name, "pkg.main");
    assert_eq!(reading.index.symbols[0].kind, SymbolKind::Module);
    assert_eq!(reading.index.symbols[0].span.file, "pkg/main.py");
    assert_eq!((reading.index.symbols[0].span.line, reading.index.symbols[0].span.column), (1, 1));
    assert!(reading.index.is_test);
    assert!(!reading.main_entry);
    assert!(reading.index.imports.is_empty());
}

#[test]
fn functions_classes_and_members_become_symbols_in_order() {
    let method_body = vec![
        Stmt::Assign { targets: vec![attribute(name("self"), "items"), name("local")], value: Expr::Opaque, position: at(7, 9) },
        Stmt::If {
            test: name("flag"),
            body: vec![Stmt::AnnAssign { target: attribute(name("self"), "count"), annotation: Expr::Opaque, value: None, position: at(9, 13) }],
            orelse: vec![Stmt::Assign { targets: vec![attribute(name("other"), "x")], value: Expr::Opaque, position: at(11, 13) }],
            position: at(8, 9),
        },
    ];
    let class = Stmt::ClassDef(ClassDef {
        bases: vec![],
        name: "Repo".to_string(),
        position: at(4, 1),
        body: vec![
            Stmt::AnnAssign { target: name("label"), annotation: Expr::Opaque, value: None, position: at(5, 5) },
            function("save", at(6, 5), vec![], method_body),
            Stmt::Assign { targets: vec![name("a"), name("b")], value: Expr::Opaque, position: at(12, 5) },
            Stmt::Opaque,
        ],
    });
    let tree = ModuleSyntax { body: vec![function("helper", at(2, 1), vec![], vec![]), class, Stmt::Opaque] };
    assert_eq!(
        symbols(&tree),
        vec![
            ("pkg.main".to_string(), "pkg.main".to_string(), SymbolKind::Module, 1, 1),
            ("pkg.main.helper".to_string(), "helper".to_string(), SymbolKind::Function, 2, 1),
            ("pkg.main.Repo".to_string(), "Repo".to_string(), SymbolKind::Class, 4, 1),
            ("pkg.main.Repo.label".to_string(), "label".to_string(), SymbolKind::Field, 5, 5),
            ("pkg.main.Repo.save".to_string(), "save".to_string(), SymbolKind::Method, 6, 5),
            ("pkg.main.Repo.items".to_string(), "items".to_string(), SymbolKind::Attribute, 7, 9),
            ("pkg.main.Repo.count".to_string(), "count".to_string(), SymbolKind::Field, 9, 13),
            ("pkg.main.Repo.a".to_string(), "a".to_string(), SymbolKind::Attribute, 12, 5),
            ("pkg.main.Repo.b".to_string(), "b".to_string(), SymbolKind::Attribute, 12, 5),
        ]
    );
}

#[test]
fn the_entry_guard_is_recognised() {
    let tree = ModuleSyntax { body: vec![Stmt::Opaque, main_guard(at(3, 1))] };
    let reading = index_module_syntax("pkg.main", "pkg/main.py", "", &tree, &project(&[], vec![]), &vec![], false);
    assert!(reading.main_entry);
    let other = Stmt::If {
        test: Expr::Compare {
            left: Box::new(name("__name__")),
            ops: vec![CompareOp::Different],
            comparators: vec![Expr::StringLiteral { value: "__main__".to_string() }],
        },
        body: vec![],
        orelse: vec![],
        position: at(3, 1),
    };
    let tree = ModuleSyntax { body: vec![other] };
    let reading = index_module_syntax("pkg.main", "pkg/main.py", "", &tree, &project(&[], vec![]), &vec![], false);
    assert!(!reading.main_entry);
}

#[test]
fn fixture_decorators_make_pytest_fixtures() {
    let named = Decorator {
        expression: Expr::Call {
            func: Box::new(attribute(name("pytest"), "fixture")),
            args: vec![],
            position: at(1, 2),
            keywords: vec![
                Keyword { arg: Some("name".to_string()), value: Expr::StringLiteral { value: "db".to_string() }, position: at(1, 20) },
                Keyword { arg: Some("autouse".to_string()), value: Expr::BooleanLiteral { value: true }, position: at(1, 30) },
            ],
        },
        position: at(1, 1),
    };
    let bare = Decorator { expression: name("fixture"), position: at(4, 1) };
    let other = Decorator { expression: name("cache"), position: at(7, 1) };
    let method = function("client", at(11, 5), vec![Decorator { expression: name("fixture"), position: at(10, 5) }], vec![]);
    let tree = ModuleSyntax {
        body: vec![
            function("database", at(2, 1), vec![named], vec![]),
            function("session", at(5, 1), vec![bare], vec![]),
            function("plain", at(8, 1), vec![other], vec![]),
            Stmt::ClassDef(ClassDef { bases: vec![], name: "Suite".to_string(), position: at(9, 1), body: vec![method] }),
        ],
    };
    let reading = index_module_syntax("tests.conftest", "tests/conftest.py", "", &tree, &project(&[], vec![]), &vec![], true);
    let fixtures: Vec<(String, String, bool)> =
        reading.index.pytest_fixtures.iter().map(|f| (f.name.clone(), f.function.clone(), f.autouse)).collect();
    assert_eq!(
        fixtures,
        vec![
            ("db".to_string(), "tests.conftest.database".to_string(), true),
            ("session".to_string(), "tests.conftest.session".to_string(), false),
            ("client".to_string(), "tests.conftest.Suite.client".to_string(), false),
        ]
    );
}

#[test]
fn imports_resolve_against_project_modules() {
    let tree = ModuleSyntax {
        body: vec![
            Stmt::Import { names: vec![alias("os.path", None), alias("json", Some("j"))], position: at(1, 1) },
            Stmt::ImportFrom { module: None, level: 1, names: vec![alias("sibling", None)], position: at(2, 1) },
            Stmt::ImportFrom { module: Some("models".to_string()), level: 1, names: vec![alias("*", None)], position: at(3, 1) },
            Stmt::ImportFrom { module: Some("x".to_string()), level: 2, names: vec![alias("y", Some("z"))], position: at(4, 1) },
            Stmt::ImportFrom { module: None, level: 3, names: vec![alias("w", None)], position: at(5, 1) },
        ],
    };
    let imports = imports_of(&tree, "pkg/main.py", vec!["pkg.main", "pkg.sibling"], vec![]);
    let found: Vec<(String, ImportTarget, usize)> =
        imports.iter().map(|i| (i.binding.clone(), i.target.clone(), i.span.line)).collect();
    assert_eq!(
        found,
        vec![
            ("os".to_string(), ImportTarget::Module { module: "os.path".to_string(), external: true }, 1),
            ("j".to_string(), ImportTarget::Module { module: "json".to_string(), external: true }, 1),
            ("sibling".to_string(), ImportTarget::Module { module: "pkg.sibling".to_string(), external: false }, 2),
            ("*".to_string(), ImportTarget::Star { module: "pkg.models".to_string(), external: true }, 3),
            (
                "z".to_string(),
                ImportTarget::Symbol { module: "x".to_string(), name: "y".to_string(), external: true },
                4,
            ),
        ]
    );
}

#[test]
fn package_init_imports_are_relative_to_the_package_itself() {
    let tree = ModuleSyntax {
        body: vec![Stmt::ImportFrom { module: Some("api".to_string()), level: 1, names: vec![alias("run", None)], position: at(1, 1) }],
    };
    let imports = imports_of(&tree, "pkg/main/__init__.py", vec!["pkg.main", "pkg.main.api"], vec![]);
    assert_eq!(imports.len(), 1);
    assert_eq!(
        imports[0].target,
        ImportTarget::Symbol { module: "pkg.main.api".to_string(), name: "run".to_string(), external: false }
    );
}

#[test]
fn reexported_names_follow_the_table() {
    let table = vec![Reexport {
        module: "pkg.api".to_string(),
        binding: "Client".to_string(),
        target: ImportTarget::Symbol { module: "pkg.client".to_string(), name: "Client".to_string(), external: false },
    }];
    let tree = ModuleSyntax {
        body: vec![Stmt::ImportFrom {
            module: Some("pkg.api".to_string()),
            level: 0,
            names: vec![alias("Client", None), alias("Other", None)],
            position: at(1, 1),
        }],
    };
    let imports = imports_of(&tree, "pkg/main.py", vec!["pkg.api", "pkg.client"], table);
    assert_eq!(
        imports[0].target,
        ImportTarget::Symbol { module: "pkg.client".to_string(), name: "Client".to_string(), external: false }
    );
    assert_eq!(
        imports[1].target,
        ImportTarget::Symbol { module: "pkg.api".to_string(), name: "Other".to_string(), external: false }
    );
}

#[test]
fn allow_comments_root_the_symbols_they_name() {
    let tree = ModuleSyntax {
        body: vec![function("keep", at(2, 1), vec![], vec![]), function("drop", at(5, 1), vec![], vec![])],
    };
    let source = "# dead-code-finder: allow\ndef keep():\n    pass\n\ndef drop():\n    pass\n";
    let reading = index_module_syntax("pkg.main", "pkg/main.py", source, &tree, &project(&[], vec![]), &vec![], false);
    let roots: Vec<(String, String)> =
        reading.index.root_symbols.iter().map(|r| (r.group.clone(), r.symbol.clone())).collect();
    assert_eq!(roots, vec![("explicitlyAllowed".to_string(), "pkg.main.keep".to_string())]);
}

fn read(module: &str, file: &str, body: Vec<Stmt>, known: &[&str]) -> deadcode::index::ModuleIndex {
    let known: Vec<String> = known.iter().map(|m| m.to_string()).collect();
    index_module_syntax(module, file, "", &ModuleSyntax { body }, &ProjectContext { known_modules: known, ..project(&[], vec![]) }, &vec![], false).index
}

#[test]
fn indexes_module_functions_classes_methods_and_fields() {
    let save = function(
        "save",
        at(9, 5),
        vec![],
        vec![Stmt::Assign { targets: vec![attribute(name("self"), "saved")], value: Expr::Opaque, position: at(10, 9) }],
    );
    let configure = function(
        "configure",
        at(12, 5),
        vec![],
        vec![Stmt::If {
            test: Expr::BooleanLiteral { value: true },
            body: vec![Stmt::AnnAssign { target: attribute(name("self"), "flag"), annotation: Expr::Opaque, value: None, position: at(14, 13) }],
            orelse: vec![],
            position: at(13, 9),
        }],
    );
    let class = Stmt::ClassDef(ClassDef {
        bases: vec![],
        name: "ExampleEntity".to_string(),
        position: at(5, 1),
        body: vec![
            Stmt::Assign { targets: vec![name("class_attr")], value: Expr::Opaque, position: at(6, 5) },
            Stmt::AnnAssign { target: name("name"), annotation: Expr::Opaque, value: None, position: at(7, 5) },
            save,
            configure,
        ],
    });
    let index = read(
        "pkg.service",
        "ws/pkg/service.py",
        vec![function("module_function", at(2, 1), vec![], vec![]), class],
        &["pkg.service"],
    );
    let symbols: Vec<(&str, SymbolKind)> = index.symbols.iter().map(|s| (s.qualified_name.as_str(), s.kind)).collect();
    assert!(symbols.contains(&("pkg.service.module_function", SymbolKind::Function)));
    assert!(symbols.contains(&("pkg.service.ExampleEntity", SymbolKind::Class)));
    assert!(symbols.contains(&("pkg.service.ExampleEntity.save", SymbolKind::Method)));
    assert!(symbols.contains(&("pkg.service.ExampleEntity.configure", SymbolKind::Method)));
    assert!(symbols.contains(&("pkg.service.ExampleEntity.class_attr", SymbolKind::Attribute)));
    assert!(symbols.contains(&("pkg.service.ExampleEntity.name", SymbolKind::Field)));
    assert!(symbols.contains(&("pkg.service.ExampleEntity.saved", SymbolKind::Attribute)));
    assert!(symbols.contains(&("pkg.service.ExampleEntity.flag", SymbolKind::Field)));
}

#[test]
fn indexes_package_init_as_package_module() {
    let root = ResolvedRoot { path: "ws/pkg".to_string(), module: "pkg".to_string() };
    let module = module_name_for_file(&root, "ws/pkg/__init__.py");
    assert_eq!(module, "pkg");
    let index = read(&module, "ws/pkg/__init__.py", vec![function("exported", at(1, 1), vec![], vec![])], &["pkg"]);
    assert_eq!(index.module, "pkg");
    assert_eq!(index.symbols[0].qualified_name, "pkg");
    assert!(index.symbols.iter().any(|symbol| symbol.qualified_name == "pkg.exported"));
}

#[test]
fn resolves_absolute_and_relative_local_imports() {
    let known = ["pkg", "pkg.helpers", "pkg.sub", "pkg.sub.feature"];
    let feature = read(
        "pkg.sub.feature",
        "ws/pkg/sub/feature.py",
        vec![
            Stmt::Import { names: vec![alias("pkg.helpers", Some("helpers"))], position: at(1, 1) },
            Stmt::ImportFrom {
                module: Some("helpers".to_string()),
                level: 2,
                names: vec![alias("help_me", None)],
                position: at(2, 1),
            },
        ],
        &known,
    );
    assert_eq!(feature.imports.len(), 2);
    assert_eq!(feature.imports[0].binding, "helpers");
    assert_eq!(feature.imports[0].target, ImportTarget::Module { module: "pkg.helpers".to_string(), external: false });
    assert_eq!(feature.imports[1].binding, "help_me");
    assert_eq!(
        feature.imports[1].target,
        ImportTarget::Symbol { module: "pkg.helpers".to_string(), name: "help_me".to_string(), external: false }
    );
}

#[test]
fn preserves_external_import_identities() {
    let app = read(
        "pkg.app",
        "ws/pkg/app.py",
        vec![
            Stmt::ImportFrom {
                module: Some("fastapi".to_string()),
                level: 0,
                names: vec![alias("APIRouter", None)],
                position: at(1, 1),
            },
            Stmt::Import { names: vec![alias("pydantic.fields", None)], position: at(2, 1) },
        ],
        &["pkg.app"],
    );
    assert_eq!(app.imports.len(), 2);
    assert_eq!(app.imports[0].binding, "APIRouter");
    assert_eq!(
        app.imports[0].target,
        ImportTarget::Symbol { module: "fastapi".to_string(), name: "APIRouter".to_string(), external: true }
    );
    assert_eq!(app.imports[1].binding, "pydantic");
    assert_eq!(app.imports[1].target, ImportTarget::Module { module: "pydantic.fields".to_string(), external: true });
}

#[test]
fn resolves_imported_submodule_before_symbol() {
    let known = ["pkg", "pkg.models", "pkg.models.entity", "pkg.consumer"];
    let consumer = read(
        "pkg.consumer",
        "ws/pkg/consumer.py",
        vec![Stmt::ImportFrom {
            module: Some("pkg.models".to_string()),
            level: 0,
            names: vec![alias("entity", None)],
            position: at(1, 1),
        }],
        &known,
    );
    assert_eq!(consumer.imports[0].target, ImportTarget::Module { module: "pkg.models.entity".to_string(), external: false });
}
