use deadcode::index::{ImportTarget, ModuleIndex, ResolvedImport};
use deadcode::reexports::{reexport_map, reexport_target};
use deadcode::report::SourceSpan;

fn module(name: &str) -> ModuleIndex {
    ModuleIndex {
        module: name.to_string(),
        file: format!("{name}.py"),
        symbols: vec![],
        imports: vec![],
        classes: vec![],
        value_bindings: vec![],
        module_values: vec![],
        function_signatures: vec![],
        pytest_fixtures: vec![],
        call_argument_types: vec![],
        references: vec![],
        member_references: vec![],
        unresolved_receivers: vec![],
        unsupported_expansions: vec![],
        is_test: false,
        root_symbols: vec![],
    }
}

fn import(m: &mut ModuleIndex, binding: &str, target: ImportTarget) {
    let file = m.file.clone();
    m.imports.push(ResolvedImport {
        binding: binding.to_string(),
        target,
        span: SourceSpan::new(&file, 1, 1),
    });
}

fn symbol_target(module: &str, name: &str) -> ImportTarget {
    ImportTarget::Symbol {
        module: module.to_string(),
        name: name.to_string(),
        external: false,
    }
}

#[test]
fn reexport_map_keys_each_binding_by_module() {
    let mut package = module("pkg");
    import(&mut package, "helper", symbol_target("pkg.impl", "helper"));
    import(&mut package, "os", ImportTarget::Module { module: "os".to_string(), external: true });
    let mut other = module("other");
    import(&mut other, "helper", symbol_target("other.impl", "helper"));

    let table = reexport_map(&vec![package, other]);
    assert_eq!(table.len(), 3);
    assert_eq!(
        reexport_target(&table, "pkg", "helper"),
        Some(symbol_target("pkg.impl", "helper"))
    );
    assert_eq!(
        reexport_target(&table, "other", "helper"),
        Some(symbol_target("other.impl", "helper"))
    );
    assert_eq!(
        reexport_target(&table, "pkg", "os"),
        Some(ImportTarget::Module { module: "os".to_string(), external: true })
    );
    assert_eq!(reexport_target(&table, "other", "os"), None);
    assert_eq!(reexport_target(&table, "pkg.impl", "helper"), None);
}

#[test]
fn reexport_map_keeps_the_last_import_of_a_name() {
    let mut package = module("pkg");
    import(&mut package, "helper", symbol_target("pkg.first", "helper"));
    import(&mut package, "helper", symbol_target("pkg.second", "helper"));
    let mut again = module("pkg");
    import(&mut again, "tool", ImportTarget::Star { module: "pkg.tools".to_string(), external: false });

    let table = reexport_map(&vec![package, again]);
    assert_eq!(table.len(), 2);
    assert_eq!(
        reexport_target(&table, "pkg", "helper"),
        Some(symbol_target("pkg.second", "helper"))
    );
    assert_eq!(
        reexport_target(&table, "pkg", "tool"),
        Some(ImportTarget::Star { module: "pkg.tools".to_string(), external: false })
    );
}

#[test]
fn reexport_map_of_no_imports_is_empty() {
    let table = reexport_map(&vec![module("a"), module("b")]);
    assert!(table.is_empty());
    assert_eq!(reexport_target(&table, "a", "x"), None);
}
