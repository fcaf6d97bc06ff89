use deadcode::index::{ClassFieldInfo, ClassInfo, FieldAnnotation, ImportTarget, TypeBinding};
use deadcode::scan::{
    class_derives_from, class_derives_from_inner, class_field_names, class_fields, collect_class_fields,
    concrete_types_from_binding, external_member_type, function_object_binding,
    generator_yield_type, import_target_is_external, is_identifier, is_transparent_container,
    is_type_alias_type, json_mapping_type, replacement_field, string_format_replacement_fields,
    unwrap_annotated_alias,
};
use deadcode::types::{merge_completed_branch_types, ScopedType};

fn t(base: &str) -> TypeBinding {
    TypeBinding::erased(base.to_string())
}

fn g(base: &str, args: Vec<TypeBinding>) -> TypeBinding {
    TypeBinding {
        base: base.to_string(),
        args,
        external: false,
    }
}

fn fields(template: &str) -> Vec<(String, String)> {
    string_format_replacement_fields(template)
        .into_iter()
        .map(|field| (field.argument, field.member))
        .collect()
}

fn pair(argument: &str, member: &str) -> (String, String) {
    (argument.to_string(), member.to_string())
}

#[test]
fn format_fields_name_attributes_of_arguments() {
    assert_eq!(fields("{user.name} is {user.age}"), vec![pair("user", "name"), pair("user", "age")]);
    assert_eq!(fields("{ order.total !r:>10}"), vec![pair("order", "total")]);
    assert_eq!(fields("{item.parts[0]} {item.owner.name}"), vec![pair("item", "parts"), pair("item", "owner")]);
}

#[test]
fn format_fields_skip_escapes_and_plain_names() {
    assert_eq!(fields("{{user.name}} {0} {name} {0.real}"), Vec::<(String, String)>::new());
    assert_eq!(fields("{a.b"), vec![pair("a", "b")]);
    assert_eq!(fields("{"), Vec::<(String, String)>::new());
    assert_eq!(fields("{x .y} {x. y}"), vec![pair("x", "y")]);
}

#[test]
fn replacement_field_and_identifiers() {
    let field = replacement_field("self.value:>4").unwrap();
    assert_eq!((field.argument, field.member), pair("self", "value"));
    assert!(replacement_field("9a.b").is_none());
    assert!(replacement_field("a.").is_none());
    assert!(is_identifier("_private1"));
    assert!(!is_identifier(""));
    assert!(!is_identifier("1abc"));
    assert!(!is_identifier("a-b"));
    assert!(!is_identifier("é"));
}

#[test]
fn concrete_types_follow_unions_callables_and_collections() {
    let union = g("typing.Union", vec![t("pkg.A"), g("list", vec![t("pkg.B")]), g("typing.Tuple", vec![t("pkg.C")])]);
    assert_eq!(concrete_types_from_binding(&union), vec!["pkg.A", "pkg.B", "pkg.C"]);
    let callable = g("typing.Callable", vec![t("int"), t("pkg.Result")]);
    assert_eq!(concrete_types_from_binding(&callable), vec!["pkg.Result"]);
    assert_eq!(concrete_types_from_binding(&t("list")), Vec::<String>::new());
    assert_eq!(concrete_types_from_binding(&g("typing.Optional", vec![t("pkg.A")])), vec!["typing.Optional"]);
}

#[test]
fn alias_and_generator_bindings() {
    assert_eq!(unwrap_annotated_alias(g("typing.Annotated", vec![t("pkg.Id"), t("meta")])), t("pkg.Id"));
    assert_eq!(unwrap_annotated_alias(t("typing_extensions.Annotated")), t("object"));
    assert_eq!(unwrap_annotated_alias(g("list", vec![t("int")])), g("list", vec![t("int")]));
    assert!(is_type_alias_type("typing.TypeAliasType"));
    assert!(!is_type_alias_type("TypeAliasType"));
    let generator = g("collections.abc.Generator", vec![t("pkg.Row"), t("None"), t("None")]);
    assert_eq!(generator_yield_type(&generator), Some(&t("pkg.Row")));
    assert_eq!(generator_yield_type(&g("my.Generator", vec![t("int")])), Some(&t("int")));
    assert_eq!(generator_yield_type(&g("typing.Iterator", vec![t("int")])), None);
    assert!(is_transparent_container("typing.Optional"));
    assert!(!is_transparent_container("dict"));
}

#[test]
fn external_members_and_fixed_bindings() {
    let client = TypeBinding {
        base: "httpx.Client".to_string(),
        args: vec![],
        external: true,
    };
    let member = external_member_type(&client, "get").unwrap();
    assert_eq!(member.base, "httpx.Client.get");
    assert!(member.external);
    assert_eq!(external_member_type(&t("pkg.Local"), "get"), None);
    assert_eq!(json_mapping_type(), g("dict", vec![t("str"), t("object")]));
    assert_eq!(function_object_binding("pkg.run".to_string()), t("pkg.run"));
    assert!(import_target_is_external(&ImportTarget::Star { module: "os".to_string(), external: true }));
    assert!(!import_target_is_external(&ImportTarget::Module { module: "pkg".to_string(), external: false }));
}

fn scoped(name: &str, binding: TypeBinding) -> ScopedType {
    ScopedType {
        name: name.to_string(),
        binding,
    }
}

fn lookup<'a>(types: &'a [ScopedType], name: &str) -> Option<&'a TypeBinding> {
    types.iter().rev().find(|entry| entry.name == name).map(|entry| &entry.binding)
}

#[test]
fn completed_branches_keep_only_agreed_bindings() {
    let mut types = vec![scoped("x", t("int")), scoped("kept", t("str"))];
    let branches = vec![
        vec![scoped("x", t("pkg.A")), scoped("y", t("pkg.B")), scoped("z", t("pkg.C"))],
        vec![scoped("x", t("pkg.A")), scoped("y", t("pkg.Other")), scoped("z", t("pkg.C"))],
        vec![scoped("z", t("pkg.C")), scoped("x", t("pkg.A"))],
    ];
    merge_completed_branch_types(&mut types, branches);
    assert_eq!(lookup(&types, "x"), Some(&t("pkg.A")));
    assert_eq!(lookup(&types, "y"), None);
    assert_eq!(lookup(&types, "z"), Some(&t("pkg.C")));
    assert_eq!(lookup(&types, "kept"), Some(&t("str")));

    let mut unchanged = vec![scoped("x", t("int"))];
    merge_completed_branch_types(&mut unchanged, vec![]);
    assert_eq!(lookup(&unchanged, "x"), Some(&t("int")));
}

fn class(name: &str, bases: &[&str], fields: &[(&str, &str)]) -> ClassInfo {
    ClassInfo {
        class: name.to_string(),
        bases: bases.iter().map(|base| t(base)).collect(),
        type_params: vec![],
        fields: fields
            .iter()
            .map(|(field, annotation)| ClassFieldInfo {
                name: field.to_string(),
                annotation: FieldAnnotation::Concrete(t(annotation)),
            })
            .collect(),
        attributes: vec![],
    }
}

fn model_classes() -> Vec<ClassInfo> {
    vec![
        class("pkg.Base", &["pydantic.BaseModel"], &[("id", "int")]),
        class("pkg.Named", &["pkg.Base"], &[("name", "str")]),
        class("pkg.Stamped", &["pkg.Base"], &[("created", "datetime")]),
        class("pkg.User", &["pkg.Named", "pkg.Stamped"], &[("email", "str")]),
        class("pkg.User", &[], &[("shadowed", "int")]),
        class("pkg.Loop", &["pkg.Loop"], &[("again", "int")]),
    ]
}

#[test]
fn class_fields_list_bases_first_each_class_once() {
    let classes = model_classes();
    let fields: Vec<(String, String)> = class_fields(&classes, "pkg.User")
        .into_iter()
        .map(|(name, binding)| (name, binding.base))
        .collect();
    assert_eq!(
        fields,
        vec![pair("id", "int"), pair("name", "str"), pair("created", "datetime"), pair("email", "str")]
    );
    let looped: Vec<String> = class_fields(&classes, "pkg.Loop").into_iter().map(|(name, _)| name).collect();
    assert_eq!(looped, vec!["again"]);
    assert!(class_fields(&classes, "pkg.Missing").is_empty());
}

#[test]
fn collecting_fields_skips_visited_classes() {
    let classes = model_classes();
    let mut fields = Vec::new();
    let mut visited = vec!["pkg.Base".to_string()];
    collect_class_fields(&classes, "pkg.Named", &mut fields, &mut visited);
    let names: Vec<String> = fields.into_iter().map(|(name, _)| name).collect();
    assert_eq!(names, vec!["name"]);
    assert_eq!(visited, vec!["pkg.Base", "pkg.Named"]);
}

#[test]
fn class_field_names_form_a_set() {
    let classes = model_classes();
    let mut names = class_field_names(&classes, "pkg.User");
    names.sort();
    assert_eq!(names, vec!["created", "email", "id", "name"]);
    assert!(class_field_names(&classes, "int").is_empty());
}

#[test]
fn class_derivation_through_the_class_list() {
    let classes = model_classes();
    assert!(class_derives_from(&classes, "pkg.User", "pydantic.BaseModel"));
    assert!(class_derives_from(&classes, "pkg.User", "pkg.Base"));
    assert!(class_derives_from(&classes, "pkg.Named", "pkg.Base"));
    assert!(!class_derives_from(&classes, "pkg.Base", "pkg.Base"));
    assert!(!class_derives_from(&classes, "pkg.Base", "pkg.User"));
    assert!(class_derives_from(&classes, "pkg.Loop", "pkg.Loop"));
    assert!(!class_derives_from(&classes, "pkg.Missing", "pkg.Base"));

    let mut visited = vec!["pkg.Named".to_string(), "pkg.Stamped".to_string()];
    assert!(!class_derives_from_inner(&classes, "pkg.User", "pkg.Base", &mut visited));
}
