use deadcode::allow::{allow_comment_roots, codes_match, parse_allow_comment, source_lines, AllowComments};
use deadcode::cli::{
    decimal_text, diagnostic_line, exit_status, finding_line, parse_options, summary_line,
    text_report_lines, usage, CliOptions, Command, OutputFormat,
};
use deadcode::config::{LoadedProjectConfig, ResolvedRoot, RouteGlobRule, RuleConfig};
use deadcode::index::{IndexedSymbol, ModuleIndex, RootSymbol};
use deadcode::paths::{is_python_source, module_name_for_file, path_components, strip_py_extension};
use deadcode::project::{index_project, locate, route_glob_matches, sort_modules};
use deadcode::report::{AnalysisReport, Diagnostic, Finding, ReportSummary, SourceSpan, SymbolKind};

fn root(path: &str, module: &str) -> ResolvedRoot {
    ResolvedRoot {
        path: path.to_string(),
        module: module.to_string(),
    }
}

#[test]
fn module_names_follow_the_path_below_the_root() {
    assert_eq!(module_name_for_file(&root("ws/pkg", "pkg"), "ws/pkg/service.py"), "pkg.service");
    assert_eq!(module_name_for_file(&root("ws/pkg", "pkg"), "ws/pkg/__init__.py"), "pkg");
    assert_eq!(
        module_name_for_file(&root("ws/pkg", "pkg"), "ws/pkg/sub/__init__.py"),
        "pkg.sub"
    );
    assert_eq!(
        module_name_for_file(&root("/abs/ws/pkg", "app"), "/abs/ws/pkg/a/b.pyi"),
        "app.a.b.pyi"
    );
    assert_eq!(strip_py_extension("x.py"), "x");
    assert_eq!(strip_py_extension("x.pyi"), "x.pyi");
}

#[test]
fn path_components_follow_path_iteration() {
    assert_eq!(path_components("/a//b/./c/"), vec!["/", "a", "b", "c"]);
    assert_eq!(path_components("./a/b"), vec![".", "a", "b"]);
    assert_eq!(path_components("a/../b"), vec!["a", "..", "b"]);
    assert!(path_components("").is_empty());
}

#[test]
fn python_sources_end_in_py_or_pyi() {
    assert!(is_python_source("pkg/main.py"));
    assert!(is_python_source("pkg/stubs.pyi"));
    assert!(!is_python_source("pkg/readme.md"));
    assert!(!is_python_source("pkg/.py"));
    assert!(!is_python_source("pkg/py"));
}

#[test]
fn route_globs_match_relative_paths() {
    assert!(route_glob_matches("ws", "pkg/routes/**/*.py", "ws/pkg/routes/items/*.py"));
    assert!(route_glob_matches("ws", "pkg/routes/**", "ws/pkg/routes/items.py"));
    assert!(route_glob_matches("ws", "pkg/routes/**/items.py", "ws/pkg/routes/v1/items.py"));
    assert!(!route_glob_matches("ws", "pkg/routes/**/items.py", "ws/pkg/models/items.py"));
    assert!(route_glob_matches("ws", "pkg/app.py", "ws/pkg/app.py"));
    assert!(!route_glob_matches("ws", "pkg/app.py", "ws/pkg/other.py"));
    assert!(route_glob_matches("/elsewhere", "x\\y.py", "x\\y.py") == false);
    assert!(route_glob_matches("/elsewhere", "x/y.py", "x\\y.py"));
}

fn module(name: &str, file: &str, is_test: bool, roots: usize) -> ModuleIndex {
    ModuleIndex {
        module: name.to_string(),
        file: file.to_string(),
        symbols: vec![IndexedSymbol {
            qualified_name: name.to_string(),
            name: name.to_string(),
            kind: SymbolKind::Module,
            span: SourceSpan::new(file, 1, 1),
        }],
        imports: vec![],
        classes: vec![],
        value_bindings: vec![],
        module_values: vec![],
        function_signatures: vec![],
        pytest_fixtures: vec![],
        call_argument_types: vec![],
        references: vec![],
        member_references: vec![],
        unresolved_receivers: vec![],
        unsupported_expansions: vec![],
        is_test,
        root_symbols: (0..roots)
            .map(|_| RootSymbol {
                group: "test".to_string(),
                symbol: name.to_string(),
            })
            .collect(),
    }
}

#[test]
fn modules_are_ordered_by_name_then_file() {
    let sorted = sort_modules(vec![
        module("pkg.b", "ws/pkg/b.py", false, 0),
        module("pkg.a", "ws/pkg/a2.py", false, 0),
        module("pkg.a", "ws/pkg/a1.py", false, 0),
    ]);
    let order: Vec<(String, String)> = sorted
        .iter()
        .map(|m| (m.module.clone(), m.file.clone()))
        .collect();
    assert_eq!(
        order,
        vec![
            ("pkg.a".to_string(), "ws/pkg/a1.py".to_string()),
            ("pkg.a".to_string(), "ws/pkg/a2.py".to_string()),
            ("pkg.b".to_string(), "ws/pkg/b.py".to_string()),
        ]
    );
}

#[test]
fn project_index_takes_groups_surfaces_and_route_globs_from_the_configuration() {
    let mut rules = RuleConfig::default();
    rules.route_globs = vec![RouteGlobRule {
        when_function_called: "pkg.app.include".to_string(),
        glob: "pkg/routes/**".to_string(),
        export: "router".to_string(),
        effect: "includeRouter".to_string(),
    }];
    let config = LoadedProjectConfig {
        config_path: "ws/dead-code-finder.json".to_string(),
        project_dir: "ws".to_string(),
        roots: vec![root("ws/pkg", "pkg")],
        root_groups: vec![],
        entrypoints: vec![],
        weak_entrypoints: vec![],
        include_tests: false,
        test_patterns: vec![],
        rules,
    };
    let index = index_project(
        &config,
        vec![
            module("pkg.routes.users", "ws/pkg/routes/users.py", false, 0),
            module("pkg.app", "ws/pkg/app.py", false, 0),
            module("tests.test_app", "ws/tests/test_app.py", true, 1),
        ],
        vec![],
    );
    assert_eq!(index.primary_root_group, "main");
    assert!(index.root_groups.is_empty());
    assert!(index.include_tests);
    assert_eq!(index.modules[0].module, "pkg.app");
    for m in &index.modules {
        assert_eq!(m.symbols[0].qualified_name, m.module);
        assert_eq!(m.symbols[0].kind, SymbolKind::Module);
        assert_eq!((m.symbols[0].span.file.as_str(), m.symbols[0].span.line, m.symbols[0].span.column), (m.file.as_str(), 1, 1));
    }
    assert_eq!(index.route_globs.len(), 1);
    assert_eq!(index.route_globs[0].modules, vec!["pkg.routes.users".to_string()]);
}

#[test]
fn byte_offsets_become_lines_and_columns() {
    let locator = locate("ab\ncd\n\nxyz".as_bytes());
    assert_eq!(locator.line_starts, vec![0, 3, 6, 7]);
    let at = |offset: usize| {
        let span = locator.span_from_range_string("f.py", offset);
        (span.line, span.column)
    };
    assert_eq!(at(0), (1, 1));
    assert_eq!(at(2), (1, 3));
    assert_eq!(at(3), (2, 1));
    assert_eq!(at(6), (3, 1));
    assert_eq!(at(9), (4, 3));
    assert_eq!(at(40), (4, 34));
}

#[test]
fn lines_follow_str_lines() {
    assert_eq!(source_lines("a\r\nb\n\nc\r"), vec!["a", "b", "", "c\r"]);
    assert!(source_lines("").is_empty());
    assert_eq!(source_lines("x\n"), vec!["x"]);
}

#[test]
fn allow_comments_parse_codes() {
    let allow = parse_allow_comment("def f():  # dead-code-finder: allow DCF001, DCF003 because").unwrap();
    assert!(!allow.file_level);
    assert_eq!(allow.codes, vec!["DCF001", "DCF003"]);
    let file = parse_allow_comment("#dead-code-finder:   allow-file").unwrap();
    assert!(file.file_level);
    assert!(file.codes.is_empty());
    assert!(parse_allow_comment("# dead-code-finder: ignore DCF001").is_none());
    assert!(parse_allow_comment("x = 1").is_none());
    assert!(parse_allow_comment("# some other comment").is_none());
    assert!(parse_allow_comment("# dead-code-finder:").is_none());
    assert!(codes_match(&vec![], "DCF004"));
    assert!(codes_match(&vec!["DCF004".to_string()], "DCF004"));
    assert!(!codes_match(&vec!["DCF001".to_string()], "DCF004"));
}

fn sym(name: &str, kind: SymbolKind, line: usize) -> IndexedSymbol {
    IndexedSymbol {
        qualified_name: name.to_string(),
        name: name.rsplit('.').next().unwrap().to_string(),
        kind,
        span: SourceSpan::new("m.py", line, 1),
    }
}

#[test]
fn comments_above_or_on_a_symbol_keep_it() {
    let source = "\
# dead-code-finder: allow DCF002
class Kept:
    def method(self):
        pass

def plain():  # dead-code-finder: allow
    pass

# dead-code-finder: allow DCF002

def wrong_code():
    pass
";
    let symbols = vec![
        sym("m", SymbolKind::Module, 1),
        sym("m.Kept", SymbolKind::Class, 2),
        sym("m.Kept.method", SymbolKind::Method, 3),
        sym("m.plain", SymbolKind::Function, 6),
        sym("m.wrong_code", SymbolKind::Function, 11),
    ];
    let comments = AllowComments::new(source);
    assert_eq!(comments.previous_significant_line(2), Some(1));
    assert_eq!(comments.previous_significant_line(11), Some(9));
    assert_eq!(comments.previous_significant_line(3), None);
    assert!(comments.allows_symbol_line(6, "DCF001"));
    assert!(!comments.allows_symbol_line(11, "DCF001"));
    let roots = allow_comment_roots(source, &symbols);
    let names: Vec<&str> = roots.iter().map(|r| r.symbol.as_str()).collect();
    assert_eq!(names, vec!["m.Kept", "m.Kept.method", "m.plain"]);
    assert!(roots.iter().all(|r| r.group == "explicitlyAllowed"));
}

#[test]
fn file_comments_keep_symbols_of_their_codes() {
    let source = "# dead-code-finder: allow-file DCF001\n# dead-code-finder: allow-file DCF003\n";
    let symbols = vec![
        sym("m", SymbolKind::Module, 1),
        sym("m.f", SymbolKind::Function, 3),
        sym("m.C", SymbolKind::Class, 5),
        sym("m.C.g", SymbolKind::Method, 6),
    ];
    let roots = allow_comment_roots(source, &symbols);
    let names: Vec<&str> = roots.iter().map(|r| r.symbol.as_str()).collect();
    assert_eq!(names, vec!["m.f", "m.C.g"]);
    let everything = "# dead-code-finder: allow-file\n# dead-code-finder: allow-file DCF001\n";
    assert_eq!(allow_comment_roots(everything, &symbols).len(), 3);
}

#[test]
fn command_line_options() {
    let args = |a: &[&str]| a.iter().map(|s| s.to_string()).collect::<Vec<_>>();
    assert_eq!(
        parse_options(&args(&[])).unwrap(),
        Command::Run(CliOptions {
            config_path: "dead-code-finder.json".to_string(),
            format: OutputFormat::Text,
            strict: false
        })
    );
    assert_eq!(
        parse_options(&args(&["--format", "json", "--strict", "--config", "c.json"])).unwrap(),
        Command::Run(CliOptions {
            config_path: "c.json".to_string(),
            format: OutputFormat::Json,
            strict: true
        })
    );
    assert_eq!(parse_options(&args(&["-h"])).unwrap(), Command::Help);
    assert_eq!(parse_options(&args(&["--config"])).unwrap_err(), "--config requires a path");
    assert_eq!(
        parse_options(&args(&["--format", "xml"])).unwrap_err(),
        "--format requires text or json"
    );
    assert_eq!(parse_options(&args(&["--bogus"])).unwrap_err(), "unknown argument: --bogus");
    assert!(usage().starts_with("usage: dead-code-finder"));
}

#[test]
fn printed_lines_and_exit_status() {
    let finding = Finding::unused(
        "DCF001",
        "pkg.main.dead",
        SymbolKind::Function,
        SourceSpan::new("pkg/main.py", 1, 1),
    );
    assert_eq!(finding_line(&finding), "pkg/main.py:1:1 DCF001 unused symbol pkg.main.dead");
    let diagnostic = Diagnostic::warning(
        "DCF101",
        "cannot resolve receiver type for x.save",
        SourceSpan::new("pkg/main.py", 3, 5),
    );
    assert_eq!(
        diagnostic_line(&diagnostic),
        "pkg/main.py:3:5 DCF101 warning: cannot resolve receiver type for x.save"
    );
    assert_eq!(
        summary_line(ReportSummary {
            findings: 1,
            diagnostics: 0
        }),
        "dead-code-finder: 1 finding(s), 0 diagnostic(s)"
    );
    assert_eq!(decimal_text(0), "0");
    assert_eq!(decimal_text(1907), "1907");
    let warned = AnalysisReport {
        findings: vec![],
        diagnostics: vec![diagnostic],
    };
    assert_eq!(exit_status(&warned, false), 0);
    assert_eq!(exit_status(&warned, true), 1);
    let failed = AnalysisReport {
        findings: vec![finding],
        diagnostics: vec![],
    };
    assert_eq!(exit_status(&failed, false), 1);
    let lines = text_report_lines(&failed);
    assert_eq!(lines.len(), 2);
    assert_eq!(lines[1], "dead-code-finder: 1 finding(s), 0 diagnostic(s)");
}
