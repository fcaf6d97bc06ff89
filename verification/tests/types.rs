use deadcode::index::{ClassInfo, FunctionSignature, TypeBinding, ValueBinding};
use deadcode::types::{
    callable_alias_target, coalesced_optional_type, compatible_branch_type, flattened_union_members, is_datetime_like,
    is_iterable_collection, is_mapping_collection, is_project_type, is_timedelta,
    is_type_container, mark_external_if_outside_project, module_value_binding,
    narrowed_union_member, non_none_union_member, optional_inner_type,
    optional_list_with_empty_list_type, substitute_type_params, type_name_matches,
    union_from_members, union_member_matching, union_without, union_without_none, ScopedType,
};

fn t(base: &str) -> TypeBinding {
    TypeBinding::erased(base.to_string())
}

fn g(base: &str, args: Vec<TypeBinding>) -> TypeBinding {
    TypeBinding {
        base: base.to_string(),
        args,
        external: false,
    }
}

#[test]
fn equal_branches_join_to_either() {
    let a = g("list", vec![t("int")]);
    assert_eq!(compatible_branch_type(&a, &a.duplicate()), Some(a.duplicate()));
    assert_eq!(compatible_branch_type(&t("int"), &t("str")), None);
}

#[test]
fn none_branch_makes_the_other_optional() {
    let joined = compatible_branch_type(&t("pkg.User"), &t("None")).unwrap();
    assert_eq!(joined, g("typing.Optional", vec![t("pkg.User")]));
    let joined = compatible_branch_type(&t("builtins.None"), &t("pkg.User")).unwrap();
    assert_eq!(joined, g("typing.Optional", vec![t("pkg.User")]));
    let already = g("Optional", vec![t("pkg.User")]);
    assert_eq!(compatible_branch_type(&already, &t("None")), Some(already.duplicate()));
}

#[test]
fn optional_branch_absorbs_its_value() {
    let optional = g("typing.Union", vec![t("pkg.User"), t("None")]);
    assert_eq!(
        compatible_branch_type(&t("pkg.User"), &optional),
        Some(optional.duplicate())
    );
    assert_eq!(optional_inner_type(&optional), Some(0));
    assert_eq!(optional_inner_type(&g("typing.Union", vec![t("a"), t("b")])), None);
    assert_eq!(non_none_union_member(&g("Optional", vec![t("None"), t("a")])), Some(1));
}

#[test]
fn list_of_union_absorbs_list_of_member() {
    let wide = g("list", vec![g("typing.Union", vec![t("a"), t("b")])]);
    let narrow = g("typing.List", vec![t("b")]);
    assert_eq!(compatible_branch_type(&narrow, &wide), Some(wide.duplicate()));
}

#[test]
fn coalescing_and_empty_list_defaults() {
    let optional = g("typing.Optional", vec![g("list", vec![t("int")])]);
    assert_eq!(
        coalesced_optional_type(&optional, &g("list", vec![t("int")])),
        Some(g("list", vec![t("int")]))
    );
    assert_eq!(coalesced_optional_type(&optional, &t("str")), None);
    assert_eq!(
        optional_list_with_empty_list_type(&optional),
        Some(g("list", vec![t("int")]))
    );
    assert_eq!(optional_list_with_empty_list_type(&g("Optional", vec![t("int")])), None);
}

#[test]
fn narrowing_unions() {
    let u = g(
        "typing.Union",
        vec![t("a.A"), g("Optional", vec![t("b.B")]), t("None")],
    );
    assert_eq!(
        flattened_union_members(&u),
        vec![t("a.A"), t("b.B"), t("None")]
    );
    assert_eq!(union_member_matching(&u, "b.B"), Some(t("b.B")));
    assert_eq!(union_member_matching(&u, "c.C"), None);
    assert_eq!(union_member_matching(&t("c.C"), "c.C"), Some(t("c.C")));
    assert_eq!(
        union_without(&u, "a.A"),
        Some(g("typing.Union", vec![t("b.B"), t("None")]))
    );
    assert_eq!(union_without(&t("a.A"), "a.A"), None);
    assert_eq!(
        union_without_none(&u),
        Some(g("typing.Union", vec![t("a.A"), t("b.B")]))
    );
    assert_eq!(
        union_without_none(&g("Optional", vec![t("a.A")])),
        Some(t("a.A"))
    );
    assert_eq!(union_without_none(&t("None")), None);
    assert_eq!(union_from_members(vec![]), None);
    assert_eq!(union_from_members(vec![t("x")]), Some(t("x")));
    assert_eq!(narrowed_union_member(&u, "A"), Some(t("a.A")));
    assert_eq!(narrowed_union_member(&t("a.A"), "A"), None);
    assert!(type_name_matches("pkg.mod.Class", "Class"));
    assert!(type_name_matches("Class", "Class"));
    assert!(!type_name_matches("pkg.Class", "pkg.Class"));
}

#[test]
fn generic_fields_take_the_receiver_arguments() {
    let class = ClassInfo {
        class: "pkg.Box".to_string(),
        bases: vec![],
        type_params: vec!["T".to_string(), "U".to_string()],
        fields: vec![],
        attributes: vec![],
    };
    let receiver = g("pkg.Box", vec![t("pkg.Item")]);
    let field = g("list", vec![t("T"), t("U")]);
    assert_eq!(
        substitute_type_params(&field, &class, &receiver),
        g("list", vec![t("pkg.Item"), t("U")])
    );
}

#[test]
fn module_values_and_project_types() {
    let values = vec![
        ValueBinding {
            qualified_name: "pkg.mod.CLIENT".to_string(),
            binding: t("pkg.Client"),
        },
        ValueBinding {
            qualified_name: "pkg.mod.CLIENT".to_string(),
            binding: t("pkg.Other"),
        },
    ];
    assert_eq!(module_value_binding("pkg.mod", "CLIENT", &values), Some(t("pkg.Client")));
    assert_eq!(module_value_binding("pkg.mod", "OTHER", &values), None);
    let known = vec!["pkg".to_string()];
    assert!(is_project_type(&known, "pkg"));
    assert!(is_project_type(&known, "pkg.models.User"));
    assert!(!is_project_type(&known, "pkgx.User"));
    let marked = mark_external_if_outside_project(
        &known,
        g("typing.Optional", vec![t("pkg.User"), t("requests.Session")]),
    );
    assert!(!marked.external);
    assert!(!marked.args[0].external);
    assert!(marked.args[1].external);
}

#[test]
fn type_name_families() {
    assert!(is_iterable_collection("typing.Sequence"));
    assert!(is_iterable_collection("builtins.set"));
    assert!(!is_iterable_collection("dict"));
    assert!(is_mapping_collection("typing.Mapping"));
    assert!(is_type_container("tuple"));
    assert!(!is_type_container("pkg.User"));
    assert!(is_datetime_like(&t("datetime.date")));
    assert!(is_timedelta(&t("datetime.timedelta")));
}

fn signature(function: &str) -> FunctionSignature {
    FunctionSignature {
        function: function.to_string(),
        parameters: vec![],
        return_type: None,
        concrete_return_type: None,
        validated_return_types: vec![],
    }
}

#[test]
fn callable_alias_resolves_through_scope_then_module_values() {
    let signatures = vec![signature("pkg.mod.build"), signature("pkg.other.make")];
    let values = vec![ValueBinding {
        qualified_name: "pkg.mod.maker".to_string(),
        binding: t("pkg.other.make"),
    }];
    let types = vec![
        ScopedType { name: "builder".to_string(), binding: t("pkg.unknown") },
        ScopedType { name: "builder".to_string(), binding: t("pkg.mod.build") },
        ScopedType { name: "plain".to_string(), binding: t("int") },
    ];
    assert_eq!(
        callable_alias_target("pkg.mod", "builder", &types, &values, &signatures),
        Some("pkg.mod.build".to_string())
    );
    assert_eq!(
        callable_alias_target("pkg.mod", "maker", &types, &values, &signatures),
        Some("pkg.other.make".to_string())
    );
    assert_eq!(callable_alias_target("pkg.mod", "plain", &types, &values, &signatures), None);
    assert_eq!(callable_alias_target("pkg.mod", "missing", &types, &values, &signatures), None);
    assert_eq!(callable_alias_target("pkg.other", "maker", &types, &values, &signatures), None);
}
