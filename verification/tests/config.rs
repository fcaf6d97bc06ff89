use deadcode::config::{
    default_test_patterns, expand_module_template, loaded_project_config, resolve_roots,
    root_groups, validate_rules, CallRule, ClassSurfaceRule, ConfigError, ConstructorRule, DecoratorRule,
    ProjectConfig, ResolvedRoot, RootConfig, RootGroupConfig, RootMatches, RuleConfig,
};
use deadcode::errors::{AnalyzeError, AnalyzeOptions, SymbolIndexError};

fn config(roots: Vec<(&str, &str)>) -> ProjectConfig {
    ProjectConfig {
        roots: roots
            .into_iter()
            .map(|(path, module)| RootConfig {
                path: path.to_string(),
                module: module.to_string(),
            })
            .collect(),
        root_groups: vec![],
        entrypoints: vec![],
        weak_entrypoints: vec![],
        include_tests: false,
        test_patterns: default_test_patterns(),
        rules: RuleConfig::default(),
    }
}

fn found(candidate: &str, paths: &[&str]) -> RootMatches {
    RootMatches {
        candidate: candidate.to_string(),
        paths: paths.iter().map(|p| p.to_string()).collect(),
    }
}

#[test]
fn resolves_explicit_roots() {
    let config = config(vec![("example_app", "example_app")]);
    let roots = resolve_roots(&config, &vec![found("ws/example_app", &["ws/example_app"])]).unwrap();
    assert_eq!(
        roots,
        vec![ResolvedRoot {
            path: "ws/example_app".to_string(),
            module: "example_app".to_string()
        }]
    );
}

#[test]
fn expands_workspace_root_globs() {
    let config = config(vec![("packages/*/src/*", "{basename}")]);
    let matches = found(
        "ws/packages/*/src/*",
        &["ws/packages/b/src/pkg_b", "ws/packages/a/src/pkg_a"],
    );
    let roots = resolve_roots(&config, &vec![matches]).unwrap();
    assert_eq!(
        roots,
        vec![
            ResolvedRoot {
                path: "ws/packages/a/src/pkg_a".to_string(),
                module: "pkg_a".to_string()
            },
            ResolvedRoot {
                path: "ws/packages/b/src/pkg_b".to_string(),
                module: "pkg_b".to_string()
            },
        ]
    );
}

#[test]
fn rejects_duplicate_modules() {
    let config = config(vec![("one", "same"), ("two", "same")]);
    let error = resolve_roots(
        &config,
        &vec![found("ws/one", &["ws/one"]), found("ws/two", &["ws/two"])],
    )
    .unwrap_err();
    assert!(matches!(error, ConfigError::DuplicateModule { ref module } if module == "same"));
    assert_eq!(error.message(), "duplicate configured module root: same");
}

#[test]
fn missing_roots_and_unmatched_globs_are_errors() {
    let error = resolve_roots(&config(vec![("pkg", "pkg")]), &vec![found("ws/pkg", &[])]).unwrap_err();
    assert_eq!(error.message(), "configured root does not exist: ws/pkg");
    let error = resolve_roots(&config(vec![("src/*", "{basename}")]), &vec![found("ws/src/*", &[])])
        .unwrap_err();
    assert_eq!(error.message(), "configured root glob matched no paths: src/*");
    let error = resolve_roots(&config(vec![]), &vec![]).unwrap_err();
    assert!(matches!(error, ConfigError::EmptyRoots));
    assert_eq!(error.message(), "configuration must include at least one root");
}

#[test]
fn module_templates_use_the_last_path_component() {
    assert_eq!(expand_module_template("{basename}", "ws/packages/a/src/pkg_a"), "pkg_a");
    assert_eq!(expand_module_template("app.{basename}.api", "x/core"), "app.core.api");
    assert_eq!(expand_module_template("fixed", "x/core"), "fixed");
}

#[test]
fn default_groups_and_weak_and_test_groups() {
    let mut c = config(vec![("pkg", "pkg")]);
    c.entrypoints = vec!["pkg/main.py".to_string()];
    c.weak_entrypoints = vec!["scripts/*.py".to_string()];
    c.include_tests = true;
    let groups = root_groups(&c).unwrap();
    let names: Vec<&str> = groups.iter().map(|g| g.name.as_str()).collect();
    assert_eq!(names, vec!["main", "weak", "test"]);
    assert!(groups[0].counts_as_used);
    assert!(!groups[1].counts_as_used);
    assert!(!groups[2].counts_as_used);
    assert_eq!(groups[2].entrypoints, default_test_patterns());
}

#[test]
fn configured_groups_count_as_used_by_default_only_first() {
    let mut c = config(vec![("pkg", "pkg")]);
    c.root_groups = vec![
        RootGroupConfig {
            name: "api".to_string(),
            entrypoints: vec!["pkg/api.py".to_string()],
            counts_as_used: None,
        },
        RootGroupConfig {
            name: "jobs".to_string(),
            entrypoints: vec!["pkg/jobs.py".to_string()],
            counts_as_used: None,
        },
    ];
    let groups = root_groups(&c).unwrap();
    assert!(groups[0].counts_as_used);
    assert!(!groups[1].counts_as_used);
}

#[test]
fn root_group_errors() {
    let mut c = config(vec![("pkg", "pkg")]);
    c.root_groups = vec![RootGroupConfig {
        name: "  ".to_string(),
        entrypoints: vec![],
        counts_as_used: None,
    }];
    assert!(matches!(root_groups(&c).unwrap_err(), ConfigError::EmptyRootGroupName));
    c.root_groups = vec![
        RootGroupConfig {
            name: "main".to_string(),
            entrypoints: vec![],
            counts_as_used: None,
        },
        RootGroupConfig {
            name: "main".to_string(),
            entrypoints: vec!["a.py".to_string()],
            counts_as_used: None,
        },
    ];
    let error = root_groups(&c).unwrap_err();
    assert_eq!(error.message(), "duplicate configured root group: main");
    c.root_groups = vec![RootGroupConfig {
        name: "jobs".to_string(),
        entrypoints: vec![],
        counts_as_used: None,
    }];
    let error = root_groups(&c).unwrap_err();
    assert_eq!(error.message(), "root group jobs must include at least one entrypoint");
}

#[test]
fn rejects_invalid_rule_effects() {
    let mut rules = RuleConfig::default();
    rules.decorators = vec![DecoratorRule {
        function: None,
        receiver_type: Some("framework.Router".to_string()),
        methods: vec!["get".to_string()],
        callable_type: None,
        effect: "doSomethingDynamic".to_string(),
    }];
    let error = validate_rules(&rules).unwrap_err();
    assert!(matches!(error, ConfigError::InvalidRule { .. }));
    assert_eq!(error.message(), "invalid rule: unsupported decorator effect doSomethingDynamic");
}

#[test]
fn first_invalid_rule_is_reported() {
    let mut rules = RuleConfig::default();
    rules.constructors = vec![ConstructorRule {
        match_: "pkg.Factory".to_string(),
        produces_type: " ".to_string(),
    }];
    rules.class_surfaces = vec![ClassSurfaceRule {
        base: "pkg.Base".to_string(),
        effect: "other".to_string(),
    }];
    let error = validate_rules(&rules).unwrap_err();
    assert_eq!(error.message(), "invalid rule: constructor producesType must not be empty");
    rules.constructors.clear();
    let error = validate_rules(&rules).unwrap_err();
    assert_eq!(error.message(), "invalid rule: unsupported class surface effect other");
    rules.class_surfaces[0].effect = "markClassAttributes".to_string();
    assert!(validate_rules(&rules).is_ok());
}

#[test]
fn loads_a_checked_configuration() {
    let mut c = config(vec![("pkg", "pkg")]);
    c.include_tests = true;
    c.entrypoints = vec!["main.py".to_string()];
    c.weak_entrypoints = vec!["scripts/*.py".to_string()];
    c.rules.class_surfaces = vec![ClassSurfaceRule {
        base: "pkg.orm.Base".to_string(),
        effect: "markClassAttributes".to_string(),
    }];
    let loaded = loaded_project_config(
        c,
        "ws/dead-code-finder.json".to_string(),
        "ws".to_string(),
        &vec![found("ws/pkg", &["ws/pkg"])],
    )
    .unwrap();
    assert_eq!(loaded.entrypoints, vec!["main.py"]);
    assert_eq!(loaded.weak_entrypoints, vec!["scripts/*.py"]);
    assert!(loaded.include_tests);
    assert_eq!(loaded.roots[0].module, "pkg");
    assert_eq!(loaded.rules.class_surfaces[0].base, "pkg.orm.Base");
    assert_eq!(loaded.project_dir, "ws");
}

#[test]
fn error_texts() {
    let read = ConfigError::ReadFailed {
        path: "dead-code-finder.json".to_string(),
        message: "No such file or directory (os error 2)".to_string(),
    };
    assert_eq!(
        read.message(),
        "failed to read dead-code-finder.json: No such file or directory (os error 2)"
    );
    let parse = ConfigError::ParseFailed {
        path: "c.json".to_string(),
        message: "EOF while parsing".to_string(),
    };
    assert_eq!(parse.message(), "failed to parse c.json: EOF while parsing");
    assert_eq!(
        ConfigError::EmptyRootGroupName.message(),
        "root group name must not be empty"
    );
    let index_error = SymbolIndexError::ReadFile {
        path: "pkg/a.py".to_string(),
        message: "denied".to_string(),
    };
    assert_eq!(index_error.message(), "failed to read Python file pkg/a.py: denied");
    let dir_error = SymbolIndexError::ReadDirectory {
        path: "pkg".to_string(),
        message: "denied".to_string(),
    };
    assert_eq!(dir_error.message(), "failed to read directory pkg: denied");
    assert_eq!(AnalyzeOptions::new("x.json").config_path, "x.json");
}

#[test]
fn analysis_errors_say_what_stopped_the_analysis() {
    let config = AnalyzeError::Config(ConfigError::EmptyRoots);
    assert_eq!(config.message(), "configuration must include at least one root");
    let index = AnalyzeError::SymbolIndex(SymbolIndexError::ReadFile {
        path: "pkg/a.py".to_string(),
        message: "denied".to_string(),
    });
    assert_eq!(index.message(), "failed to read Python file pkg/a.py: denied");
    let directory = SymbolIndexError::ReadDirectory {
        path: "pkg".to_string(),
        message: "gone".to_string(),
    };
    assert_eq!(AnalyzeError::SymbolIndex(directory).message(), "failed to read directory pkg: gone");
}

#[test]
fn rules_accept_exactly_the_known_effects() {
    let mut c = config(vec![("pkg", "pkg")]);
    c.rules.decorators = vec![DecoratorRule {
        function: Some("pkg.task".to_string()),
        receiver_type: None,
        methods: vec![],
        callable_type: None,
        effect: "useFunctionParameters".to_string(),
    }];
    assert_eq!(
        validate_rules(&c.rules).unwrap_err().message(),
        "invalid rule: unsupported decorator effect useFunctionParameters"
    );
    c.rules.decorators[0].effect = "registerBoundaryFunction".to_string();
    assert!(validate_rules(&c.rules).is_ok());
    c.rules.calls = vec![CallRule {
        function: Some("pkg.wrap".to_string()),
        receiver_type: None,
        method: None,
        member: None,
        effect: "replaceCallableReturn".to_string(),
        argument: 0,
    }];
    assert_eq!(
        validate_rules(&c.rules).unwrap_err().message(),
        "invalid rule: unsupported call effect replaceCallableReturn"
    );
    c.rules.calls[0].effect = "connectRouter".to_string();
    assert!(validate_rules(&c.rules).is_ok());
}

#[test]
fn root_order_does_not_change_the_resolved_roots() {
    let forward = config(vec![("services/api", "api"), ("packages/*", "{basename}")]);
    let backward = config(vec![("packages/*", "{basename}"), ("services/api", "api")]);
    let api = found("ws/services/api", &["ws/services/api"]);
    let packages = found("ws/packages/*", &["ws/packages/zeta", "ws/packages/core"]);
    let first = resolve_roots(&forward, &vec![api.clone(), packages.clone()]).unwrap();
    let second = resolve_roots(&backward, &vec![packages, api]).unwrap();
    assert_eq!(first, second);
    let modules: Vec<&str> = first.iter().map(|r| r.module.as_str()).collect();
    assert_eq!(modules, vec!["api", "core", "zeta"]);
}

#[test]
fn root_order_does_not_change_the_repeated_module() {
    let forward = config(vec![("a/pkg", "pkg"), ("b/*", "{basename}")]);
    let backward = config(vec![("b/*", "{basename}"), ("a/pkg", "pkg")]);
    let first_root = found("ws/a/pkg", &["ws/a/pkg"]);
    let glob = found("ws/b/*", &["ws/b/pkg", "ws/b/other"]);
    let first = resolve_roots(&forward, &vec![first_root.clone(), glob.clone()]).unwrap_err();
    let second = resolve_roots(&backward, &vec![glob, first_root]).unwrap_err();
    assert_eq!(first.message(), second.message());
    assert_eq!(first.message(), "duplicate configured module root: pkg");
}
