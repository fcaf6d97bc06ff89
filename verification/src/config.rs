//! Project configuration: roots, root groups and declarative rules, and the
//! checks that a configuration must pass before analysis.
use vstd::prelude::*;

use crate::order::{is_permutation, key_less, key_view, sort_order, sorted_by_keys, SortKey};
use crate::text::{
    blank, chars_of, concat_text, contains_char, contains_string, copy_string, copy_strings, has_char,
    is_blank, rsplit_once, rsplit_once_char, same_text, string_of, text_less, views,
};

verus! {

#[derive(Debug, Clone, PartialEq, Eq)]
pub struct ProjectConfig {
    pub roots: Vec<RootConfig>,
    pub root_groups: Vec<RootGroupConfig>,
    pub entrypoints: Vec<String>,
    pub weak_entrypoints: Vec<String>,
    pub include_tests: bool,
    pub test_patterns: Vec<String>,
    pub rules: RuleConfig,
}

#[derive(Debug, Clone, PartialEq, Eq)]
pub struct RootConfig {
    pub path: String,
    pub module: String,
}

#[derive(Debug, Clone, PartialEq, Eq)]
pub struct RootGroupConfig {
    pub name: String,
    pub entrypoints: Vec<String>,
    pub counts_as_used: Option<bool>,
}

#[derive(Debug, Clone, PartialEq, Eq)]
pub struct LoadedProjectConfig {
    pub config_path: String,
    pub project_dir: String,
    pub roots: Vec<ResolvedRoot>,
    pub root_groups: Vec<LoadedRootGroup>,
    pub entrypoints: Vec<String>,
    pub weak_entrypoints: Vec<String>,
    pub include_tests: bool,
    pub test_patterns: Vec<String>,
    pub rules: RuleConfig,
}

#[derive(Debug, Clone, PartialEq, Eq)]
pub struct LoadedRootGroup {
    pub name: String,
    pub entrypoints: Vec<String>,
    pub counts_as_used: bool,
}

#[derive(Debug, Clone, PartialEq, Eq)]
pub struct RuleConfig {
    pub constructors: Vec<ConstructorRule>,
    pub factory_returns: Vec<FactoryReturnRule>,
    pub class_surfaces: Vec<ClassSurfaceRule>,
    pub decorators: Vec<DecoratorRule>,
    pub calls: Vec<CallRule>,
    pub fluent_methods: Vec<FluentMethodRule>,
    pub route_globs: Vec<RouteGlobRule>,
}

impl Default for RuleConfig {
    fn default() -> (r: Self)
        ensures
            r.constructors@.len() == 0,
            r.factory_returns@.len() == 0,
            r.class_surfaces@.len() == 0,
            r.decorators@.len() == 0,
            r.calls@.len() == 0,
            r.fluent_methods@.len() == 0,
            r.route_globs@.len() == 0,
    {
        RuleConfig {
            constructors: Vec::new(),
            factory_returns: Vec::new(),
            class_surfaces: Vec::new(),
            decorators: Vec::new(),
            calls: Vec::new(),
            fluent_methods: Vec::new(),
            route_globs: Vec::new(),
        }
    }
}

#[derive(Debug, Clone, PartialEq, Eq)]
pub struct ConstructorRule {
    pub match_: String,
    pub produces_type: String,
}

#[derive(Debug, Clone, PartialEq, Eq)]
pub struct FactoryReturnRule {
    pub function: String,
    pub type_keyword: String,
    pub type_position: Option<usize>,
    pub input_type_keyword: Option<String>,
    pub input_type_position: Option<usize>,
    pub return_container: Option<String>,
    pub mark_input_fields: bool,
    pub mark_output_fields: bool,
}

#[derive(Debug, Clone, PartialEq, Eq)]
pub struct ClassSurfaceRule {
    pub base: String,
    pub effect: String,
}

#[derive(Debug, Clone, PartialEq, Eq)]
pub struct DecoratorRule {
    pub function: Option<String>,
    pub receiver_type: Option<String>,
    pub methods: Vec<String>,
    pub callable_type: Option<String>,
    pub effect: String,
}

#[derive(Debug, Clone, PartialEq, Eq)]
pub struct CallRule {
    pub function: Option<String>,
    pub receiver_type: Option<String>,
    pub method: Option<String>,
    pub member: Option<String>,
    pub effect: String,
    pub argument: usize,
}

#[derive(Debug, Clone, PartialEq, Eq)]
pub struct FluentMethodRule {
    pub receiver_type: String,
    pub methods: Vec<String>,
}

#[derive(Debug, Clone, PartialEq, Eq)]
pub struct RouteGlobRule {
    pub when_function_called: String,
    pub glob: String,
    pub export: String,
    pub effect: String,
}

#[derive(Debug, Clone, PartialEq, Eq)]
pub struct ResolvedRoot {
    pub path: String,
    pub module: String,
}

/// What the file system shows for one configured root: the configured path
/// joined to the project directory, and the existing directories that it
/// names (the path itself, or every match of its `*` segments).
#[derive(Debug, Clone, PartialEq, Eq)]
pub struct RootMatches {
    pub candidate: String,
    pub paths: Vec<String>,
}

#[derive(Debug)]
pub enum ConfigError {
    ReadFailed { path: String, message: String },
    ParseFailed { path: String, message: String },
    MissingRoot { path: String },
    UnmatchedRootGlob { pattern: String },
    DuplicateModule { module: String },
    DuplicateRootGroup { name: String },
    EmptyRoots,
    EmptyRootGroupName,
    EmptyRootGroupEntrypoints { name: String },
    InvalidRule { message: String },
}

/// A configuration error with its texts as character sequences.
pub enum ConfigFault {
    ReadFailed { path: Seq<char>, message: Seq<char> },
    ParseFailed { path: Seq<char>, message: Seq<char> },
    MissingRoot { path: Seq<char> },
    UnmatchedRootGlob { pattern: Seq<char> },
    DuplicateModule { module: Seq<char> },
    DuplicateRootGroup { name: Seq<char> },
    EmptyRoots,
    EmptyRootGroupName,
    EmptyRootGroupEntrypoints { name: Seq<char> },
    InvalidRule { message: Seq<char> },
}

impl View for ConfigError {
    type V = ConfigFault;

    open spec fn view(&self) -> ConfigFault {
        match self {
            ConfigError::ReadFailed { path, message } => ConfigFault::ReadFailed {
                path: path@,
                message: message@,
            },
            ConfigError::ParseFailed { path, message } => ConfigFault::ParseFailed {
                path: path@,
                message: message@,
            },
            ConfigError::MissingRoot { path } => ConfigFault::MissingRoot { path: path@ },
            ConfigError::UnmatchedRootGlob { pattern } => ConfigFault::UnmatchedRootGlob {
                pattern: pattern@,
            },
            ConfigError::DuplicateModule { module } => ConfigFault::DuplicateModule {
                module: module@,
            },
            ConfigError::DuplicateRootGroup { name } => ConfigFault::DuplicateRootGroup {
                name: name@,
            },
            ConfigError::EmptyRoots => ConfigFault::EmptyRoots,
            ConfigError::EmptyRootGroupName => ConfigFault::EmptyRootGroupName,
            ConfigError::EmptyRootGroupEntrypoints { name } => ConfigFault::EmptyRootGroupEntrypoints {
                name: name@,
            },
            ConfigError::InvalidRule { message } => ConfigFault::InvalidRule { message: message@ },
        }
    }
}

// ---------------------------------------------------------------------------
// Root groups
// ---------------------------------------------------------------------------

/// A root group as its name, entry points and whether it counts as used.
pub type GroupTuple = (Seq<char>, Seq<Seq<char>>, bool);

/// The fault of group `i` given the groups before it, if any.
pub open spec fn group_fault(groups: Seq<GroupTuple>, i: int) -> Option<ConfigFault> {
    let g = groups[i];
    if is_blank(g.0) {
        Some(ConfigFault::EmptyRootGroupName)
    } else if exists|j: int| 0 <= j < i && #[trigger] groups[j].0 == g.0 {
        Some(ConfigFault::DuplicateRootGroup { name: g.0 })
    } else if g.0 != "main"@ && g.1.len() == 0 {
        Some(ConfigFault::EmptyRootGroupEntrypoints { name: g.0 })
    } else {
        None
    }
}

/// The outcome of checking a list of root groups: the groups, or the fault
/// of the first group that breaks the rules.
pub open spec fn groups_checked(groups: Seq<GroupTuple>, r: Result<Seq<GroupTuple>, ConfigFault>) -> bool {
    match r {
        Ok(v) => v == groups && forall|i: int| 0 <= i < groups.len() ==> group_fault(groups, i) is None,
        Err(e) => exists|i: int|
            0 <= i < groups.len() && (forall|j: int| 0 <= j < i ==> group_fault(groups, j) is None)
                && group_fault(groups, i) == Some(e),
    }
}

/// The group's name and entry points as character sequences.
pub open spec fn group_view(g: LoadedRootGroup) -> GroupTuple {
    (g.name@, views(g.entrypoints@), g.counts_as_used)
}

pub open spec fn group_views(gs: Seq<LoadedRootGroup>) -> Seq<GroupTuple> {
    gs.map_values(|g: LoadedRootGroup| group_view(g))
}

pub open spec fn result_views(r: Result<Vec<LoadedRootGroup>, ConfigError>) -> Result<Seq<GroupTuple>, ConfigFault> {
    match r {
        Ok(v) => Ok(group_views(v@)),
        Err(e) => Err(e@),
    }
}

pub fn copy_group(g: &LoadedRootGroup) -> (r: LoadedRootGroup)
    ensures
        group_view(r) == group_view(*g),
{
    let entrypoints = copy_strings(&g.entrypoints);
    assert(views(entrypoints@) =~= views(g.entrypoints@));
    LoadedRootGroup {
        name: copy_string(&g.name),
        entrypoints,
        counts_as_used: g.counts_as_used,
    }
}

/// Every group has a non-blank name used once, and every group but `main`
/// has entry points; the result is the groups unchanged, or the fault of the
/// first group that breaks these rules.
pub fn validate_root_groups(groups: &Vec<LoadedRootGroup>) -> (r: Result<Vec<LoadedRootGroup>, ConfigError>)
    ensures
        groups_checked(group_views(groups@), result_views(r)),
{
    let ghost gv = group_views(groups@);
    let mut names: Vec<String> = Vec::new();
    let mut out: Vec<LoadedRootGroup> = Vec::new();
    let mut i: usize = 0;
    while i < groups.len()
        invariant
            gv == group_views(groups@),
            i <= groups@.len(),
            names@.len() == i,
            out@.len() == i,
            forall|j: int| 0 <= j < i ==> #[trigger] names@[j]@ == groups@[j].name@,
            forall|j: int| 0 <= j < i ==> group_fault(gv, j) is None,
            forall|j: int| 0 <= j < i ==> group_view(#[trigger] out@[j]) == gv[j],
        decreases groups@.len() - i,
    {
        let group = &groups[i];
        assert(gv[i as int] == group_view(*group));
        if blank(group.name.as_str()) {
            assert(group_fault(gv, i as int) == Some(ConfigFault::EmptyRootGroupName));
            return Err(ConfigError::EmptyRootGroupName);
        }
        if contains_string(&names, group.name.as_str()) {
            proof {
                let k = choose|k: int| 0 <= k < names@.len() && #[trigger] names@[k]@ == group.name@;
                assert(gv[k].0 == gv[i as int].0);
            }
            let e = ConfigError::DuplicateRootGroup { name: copy_string(&group.name) };
            assert(group_fault(gv, i as int) == Some(e@));
            return Err(e);
        }
        proof {
            assert forall|j: int| 0 <= j < i implies #[trigger] gv[j].0 != gv[i as int].0 by {
                assert(names@[j]@ == groups@[j].name@);
            }
        }
        if !same_text(group.name.as_str(), "main") && group.entrypoints.len() == 0 {
            proof {
                reveal_strlit("main");
            }
            let e = ConfigError::EmptyRootGroupEntrypoints { name: copy_string(&group.name) };
            assert(views(group.entrypoints@).len() == 0);
            assert(group_fault(gv, i as int) == Some(e@));
            return Err(e);
        }
        names.push(copy_string(&group.name));
        out.push(copy_group(group));
        i = i + 1;
    }
    assert(group_views(out@) =~= gv);
    Ok(out)
}

/// The groups a configuration asks for before they are checked: its own root
/// groups (the first counts as used unless it says otherwise), or a `main`
/// group of its entry points; then a `weak` group of weak entry points, and a
/// `test` group of test patterns when tests are included.
pub open spec fn configured_groups(config: ProjectConfig) -> Seq<GroupTuple> {
    let base = if config.root_groups@.len() == 0 {
        seq![("main"@, views(config.entrypoints@), true)]
    } else {
        Seq::new(
            config.root_groups@.len(),
            |i: int|
                (
                    config.root_groups@[i].name@,
                    views(config.root_groups@[i].entrypoints@),
                    match config.root_groups@[i].counts_as_used {
                        Some(b) => b,
                        None => i == 0,
                    },
                ),
        )
    };
    let with_weak = if config.weak_entrypoints@.len() == 0 {
        base
    } else {
        base.push(("weak"@, views(config.weak_entrypoints@), false))
    };
    if config.include_tests {
        with_weak.push(("test"@, views(config.test_patterns@), false))
    } else {
        with_weak
    }
}

fn new_group(name: &str, entrypoints: &Vec<String>, counts_as_used: bool) -> (r: LoadedRootGroup)
    ensures
        group_view(r) == (name@, views(entrypoints@), counts_as_used),
{
    let copied = copy_strings(entrypoints);
    assert(views(copied@) =~= views(entrypoints@));
    LoadedRootGroup { name: String::from_str(name), entrypoints: copied, counts_as_used }
}

/// The checked root groups of a configuration (see `configured_groups` and
/// `validate_root_groups`).
pub fn root_groups(config: &ProjectConfig) -> (r: Result<Vec<LoadedRootGroup>, ConfigError>)
    ensures
        groups_checked(configured_groups(*config), result_views(r)),
{
    let ghost wanted = configured_groups(*config);
    let mut groups: Vec<LoadedRootGroup> = Vec::new();
    if config.root_groups.len() == 0 {
        groups.push(new_group("main", &config.entrypoints, true));
    } else {
        let mut i: usize = 0;
        while i < config.root_groups.len()
            invariant
                i <= config.root_groups@.len(),
                config.root_groups@.len() > 0,
                groups@.len() == i,
                forall|j: int| 0 <= j < i ==> group_view(#[trigger] groups@[j]) == (
                    config.root_groups@[j].name@,
                    views(config.root_groups@[j].entrypoints@),
                    match config.root_groups@[j].counts_as_used {
                        Some(b) => b,
                        None => j == 0,
                    },
                ),
            decreases config.root_groups@.len() - i,
        {
            let group = &config.root_groups[i];
            let counts = match group.counts_as_used {
                Some(b) => b,
                None => i == 0,
            };
            groups.push(new_group(group.name.as_str(), &group.entrypoints, counts));
            i = i + 1;
        }
    }
    if config.weak_entrypoints.len() != 0 {
        groups.push(new_group("weak", &config.weak_entrypoints, false));
    }
    if config.include_tests {
        groups.push(new_group("test", &config.test_patterns, false));
    }
    assert(group_views(groups@) =~= wanted);
    validate_root_groups(&groups)
}

// ---------------------------------------------------------------------------
// Rules
// ---------------------------------------------------------------------------

/// The first message in a list of possible faults.
pub open spec fn first_fault(s: Seq<Option<Seq<char>>>) -> Option<Seq<char>>
    decreases s.len(),
{
    if s.len() == 0 {
        None
    } else if s[0] is Some {
        s[0]
    } else {
        first_fault(s.drop_first())
    }
}

proof fn lemma_first_fault(s: Seq<Option<Seq<char>>>, i: int)
    requires
        0 <= i <= s.len(),
        forall|j: int| 0 <= j < i ==> s[j] is None,
    ensures
        i == s.len() ==> first_fault(s) is None,
        i < s.len() && s[i] is Some ==> first_fault(s) == s[i],
    decreases i,
{
    if i > 0 {
        let t = s.drop_first();
        assert forall|j: int| 0 <= j < i - 1 implies t[j] is None by {
            assert(t[j] == s[j + 1]);
        }
        lemma_first_fault(t, i - 1);
        if i < s.len() {
            assert(t[i - 1] == s[i]);
        }
    }
}

/// Whether `r` reports the fault `f`: success when there is none, an
/// invalid-rule error with its message otherwise.
pub open spec fn reports(f: Option<Seq<char>>, r: Result<(), ConfigError>) -> bool {
    match (f, r) {
        (None, Ok(_)) => true,
        (Some(m), Err(e)) => e@ == (ConfigFault::InvalidRule { message: m }),
        _ => false,
    }
}

pub open spec fn some_blank(o: Option<String>) -> bool {
    match o {
        Some(s) => is_blank(s@),
        None => false,
    }
}

pub open spec fn none_or_blank(o: Option<String>) -> bool {
    match o {
        Some(s) => is_blank(s@),
        None => true,
    }
}

pub open spec fn constructor_fault(c: ConstructorRule) -> Option<Seq<char>> {
    if is_blank(c.match_@) {
        Some("constructor match must not be empty"@)
    } else if is_blank(c.produces_type@) {
        Some("constructor producesType must not be empty"@)
    } else {
        None
    }
}

pub open spec fn factory_return_fault(f: FactoryReturnRule) -> Option<Seq<char>> {
    if is_blank(f.function@) {
        Some("factory return function must not be empty"@)
    } else if is_blank(f.type_keyword@) && f.type_position is None {
        Some("factory return typeKeyword or typePosition must be configured"@)
    } else if some_blank(f.input_type_keyword) {
        Some("factory return inputTypeKeyword must not be empty"@)
    } else if f.return_container is Some && f.return_container->0@ != "list"@ {
        Some("unsupported factory returnContainer "@ + f.return_container->0@)
    } else {
        None
    }
}

pub open spec fn class_surface_fault(c: ClassSurfaceRule) -> Option<Seq<char>> {
    if is_blank(c.base@) {
        Some("class surface base must not be empty"@)
    } else if c.effect@ != "markClassAttributes"@ {
        Some("unsupported class surface effect "@ + c.effect@)
    } else {
        None
    }
}

pub open spec fn decorator_effect_known(effect: Seq<char>) -> bool {
    ||| effect == "registerDecoratedFunction"@
    ||| effect == "registerBoundaryFunction"@
    ||| effect == "wrapWithCallableType"@
}

pub open spec fn decorator_fault(d: DecoratorRule) -> Option<Seq<char>> {
    if d.function is None && d.receiver_type is None {
        Some("decorator rules require function or receiverType plus methods"@)
    } else if some_blank(d.function) {
        Some("decorator function must not be empty"@)
    } else if some_blank(d.receiver_type) {
        Some("decorator receiverType must not be empty"@)
    } else if d.receiver_type is Some && d.methods@.len() == 0 {
        Some("decorator receiverType rules require methods"@)
    } else if !decorator_effect_known(d.effect@) {
        Some("unsupported decorator effect "@ + d.effect@)
    } else if d.effect@ == "wrapWithCallableType"@ && none_or_blank(d.callable_type) {
        Some("wrapWithCallableType decorator rules require callableType"@)
    } else {
        None
    }
}

pub open spec fn call_effect_known(effect: Seq<char>) -> bool {
    ||| effect == "useCallableArgument"@
    ||| effect == "connectRouter"@
    ||| effect == "useArgumentMember"@
}

pub open spec fn call_fault(c: CallRule) -> Option<Seq<char>> {
    if c.function is None && (c.receiver_type is None || c.method is None) {
        Some("call rules require function or receiverType plus method"@)
    } else if !call_effect_known(c.effect@) {
        Some("unsupported call effect "@ + c.effect@)
    } else if c.effect@ == "useArgumentMember"@ && none_or_blank(c.member) {
        Some("useArgumentMember call rules require member"@)
    } else {
        None
    }
}

pub open spec fn fluent_method_fault(f: FluentMethodRule) -> Option<Seq<char>> {
    if is_blank(f.receiver_type@) {
        Some("fluent method receiverType must not be empty"@)
    } else if f.methods@.len() == 0 {
        Some("fluent method methods must not be empty"@)
    } else {
        None
    }
}

pub open spec fn route_glob_fault(g: RouteGlobRule) -> Option<Seq<char>> {
    if is_blank(g.when_function_called@) {
        Some("route glob whenFunctionCalled must not be empty"@)
    } else if is_blank(g.glob@) {
        Some("route glob glob must not be empty"@)
    } else if is_blank(g.export@) {
        Some("route glob export must not be empty"@)
    } else if g.effect@ != "includeRouter"@ {
        Some("unsupported route glob effect "@ + g.effect@)
    } else {
        None
    }
}

/// The first fault among all rules, kind by kind in the order constructors,
/// factory returns, class surfaces, decorators, calls, fluent methods and route
/// globs.
pub open spec fn rules_fault(rules: RuleConfig) -> Option<Seq<char>> {
    first_fault(
        seq![
            first_fault(rules.constructors@.map_values(|c: ConstructorRule| constructor_fault(c))),
            first_fault(rules.factory_returns@.map_values(|f: FactoryReturnRule| factory_return_fault(f))),
            first_fault(rules.class_surfaces@.map_values(|c: ClassSurfaceRule| class_surface_fault(c))),
            first_fault(rules.decorators@.map_values(|d: DecoratorRule| decorator_fault(d))),
            first_fault(rules.calls@.map_values(|c: CallRule| call_fault(c))),
            first_fault(rules.fluent_methods@.map_values(|f: FluentMethodRule| fluent_method_fault(f))),
            first_fault(rules.route_globs@.map_values(|g: RouteGlobRule| route_glob_fault(g))),
        ],
    )
}

fn invalid_rule(message: String) -> (r: Result<(), ConfigError>)
    ensures
        reports(Some(message@), r),
{
    Err(ConfigError::InvalidRule { message })
}

fn is_some_blank(o: &Option<String>) -> (r: bool)
    ensures
        r == some_blank(*o),
{
    match o {
        Some(s) => blank(s.as_str()),
        None => false,
    }
}

fn is_none_or_blank(o: &Option<String>) -> (r: bool)
    ensures
        r == none_or_blank(*o),
{
    match o {
        Some(s) => blank(s.as_str()),
        None => true,
    }
}

fn constructor_check(c: &ConstructorRule) -> (r: Result<(), ConfigError>)
    ensures
        reports(constructor_fault(*c), r),
{
    if blank(c.match_.as_str()) {
        return invalid_rule(String::from_str("constructor match must not be empty"));
    }
    if blank(c.produces_type.as_str()) {
        return invalid_rule(String::from_str("constructor producesType must not be empty"));
    }
    Ok(())
}

fn factory_return_check(f: &FactoryReturnRule) -> (r: Result<(), ConfigError>)
    ensures
        reports(factory_return_fault(*f), r),
{
    if blank(f.function.as_str()) {
        return invalid_rule(String::from_str("factory return function must not be empty"));
    }
    if blank(f.type_keyword.as_str()) && f.type_position.is_none() {
        return invalid_rule(
            String::from_str("factory return typeKeyword or typePosition must be configured"),
        );
    }
    if is_some_blank(&f.input_type_keyword) {
        return invalid_rule(String::from_str("factory return inputTypeKeyword must not be empty"));
    }
    if let Some(container) = &f.return_container {
        if !same_text(container.as_str(), "list") {
            proof {
                reveal_strlit("list");
            }
            return invalid_rule(concat_text("unsupported factory returnContainer ", container.as_str()));
        }
    }
    proof {
        reveal_strlit("list");
    }
    Ok(())
}

fn class_surface_check(c: &ClassSurfaceRule) -> (r: Result<(), ConfigError>)
    ensures
        reports(class_surface_fault(*c), r),
{
    if blank(c.base.as_str()) {
        return invalid_rule(String::from_str("class surface base must not be empty"));
    }
    if !same_text(c.effect.as_str(), "markClassAttributes") {
        return invalid_rule(concat_text("unsupported class surface effect ", c.effect.as_str()));
    }
    Ok(())
}

fn decorator_check(d: &DecoratorRule) -> (r: Result<(), ConfigError>)
    ensures
        reports(decorator_fault(*d), r),
{
    if d.function.is_none() && d.receiver_type.is_none() {
        return invalid_rule(
            String::from_str("decorator rules require function or receiverType plus methods"),
        );
    }
    if is_some_blank(&d.function) {
        return invalid_rule(String::from_str("decorator function must not be empty"));
    }
    if is_some_blank(&d.receiver_type) {
        return invalid_rule(String::from_str("decorator receiverType must not be empty"));
    }
    if d.receiver_type.is_some() && d.methods.len() == 0 {
        return invalid_rule(String::from_str("decorator receiverType rules require methods"));
    }
    let effect = d.effect.as_str();
    let wraps = same_text(effect, "wrapWithCallableType");
    if !(same_text(effect, "registerDecoratedFunction") || same_text(
        effect,
        "registerBoundaryFunction",
    ) || wraps) {
        return invalid_rule(concat_text("unsupported decorator effect ", effect));
    }
    if wraps && is_none_or_blank(&d.callable_type) {
        return invalid_rule(
            String::from_str("wrapWithCallableType decorator rules require callableType"),
        );
    }
    Ok(())
}

fn call_check(c: &CallRule) -> (r: Result<(), ConfigError>)
    ensures
        reports(call_fault(*c), r),
{
    if c.function.is_none() && (c.receiver_type.is_none() || c.method.is_none()) {
        return invalid_rule(
            String::from_str("call rules require function or receiverType plus method"),
        );
    }
    let effect = c.effect.as_str();
    let uses_member = same_text(effect, "useArgumentMember");
    if !(same_text(effect, "useCallableArgument") || same_text(effect, "connectRouter")
        || uses_member) {
        return invalid_rule(concat_text("unsupported call effect ", effect));
    }
    if uses_member && is_none_or_blank(&c.member) {
        return invalid_rule(String::from_str("useArgumentMember call rules require member"));
    }
    Ok(())
}

fn fluent_method_check(f: &FluentMethodRule) -> (r: Result<(), ConfigError>)
    ensures
        reports(fluent_method_fault(*f), r),
{
    if blank(f.receiver_type.as_str()) {
        return invalid_rule(String::from_str("fluent method receiverType must not be empty"));
    }
    if f.methods.len() == 0 {
        return invalid_rule(String::from_str("fluent method methods must not be empty"));
    }
    Ok(())
}

fn route_glob_check(g: &RouteGlobRule) -> (r: Result<(), ConfigError>)
    ensures
        reports(route_glob_fault(*g), r),
{
    if blank(g.when_function_called.as_str()) {
        return invalid_rule(String::from_str("route glob whenFunctionCalled must not be empty"));
    }
    if blank(g.glob.as_str()) {
        return invalid_rule(String::from_str("route glob glob must not be empty"));
    }
    if blank(g.export.as_str()) {
        return invalid_rule(String::from_str("route glob export must not be empty"));
    }
    if !same_text(g.effect.as_str(), "includeRouter") {
        return invalid_rule(concat_text("unsupported route glob effect ", g.effect.as_str()));
    }
    Ok(())
}

fn validate_constructors(rules: &RuleConfig) -> (r: Result<(), ConfigError>)
    ensures
        reports(first_fault(rules.constructors@.map_values(|x: ConstructorRule| constructor_fault(x))), r),
{
    let ghost faults = rules.constructors@.map_values(|x: ConstructorRule| constructor_fault(x));
    let mut i: usize = 0;
    while i < rules.constructors.len()
        invariant
            i <= rules.constructors@.len(),
            faults == rules.constructors@.map_values(|x: ConstructorRule| constructor_fault(x)),
            forall|j: int| 0 <= j < i ==> faults[j] is None,
        decreases rules.constructors@.len() - i,
    {
        let r = constructor_check(&rules.constructors[i]);
        match r {
            Ok(_) => {},
            Err(_) => {
                proof {
                    lemma_first_fault(faults, i as int);
                }
                return r;
            },
        }
        i = i + 1;
    }
    proof {
        lemma_first_fault(faults, i as int);
    }
    Ok(())
}

fn validate_factory_returns(rules: &RuleConfig) -> (r: Result<(), ConfigError>)
    ensures
        reports(first_fault(rules.factory_returns@.map_values(|x: FactoryReturnRule| factory_return_fault(x))), r),
{
    let ghost faults = rules.factory_returns@.map_values(|x: FactoryReturnRule| factory_return_fault(x));
    let mut i: usize = 0;
    while i < rules.factory_returns.len()
        invariant
            i <= rules.factory_returns@.len(),
            faults == rules.factory_returns@.map_values(|x: FactoryReturnRule| factory_return_fault(x)),
            forall|j: int| 0 <= j < i ==> faults[j] is None,
        decreases rules.factory_returns@.len() - i,
    {
        let r = factory_return_check(&rules.factory_returns[i]);
        match r {
            Ok(_) => {},
            Err(_) => {
                proof {
                    lemma_first_fault(faults, i as int);
                }
                return r;
            },
        }
        i = i + 1;
    }
    proof {
        lemma_first_fault(faults, i as int);
    }
    Ok(())
}

fn validate_class_surfaces(rules: &RuleConfig) -> (r: Result<(), ConfigError>)
    ensures
        reports(first_fault(rules.class_surfaces@.map_values(|x: ClassSurfaceRule| class_surface_fault(x))), r),
{
    let ghost faults = rules.class_surfaces@.map_values(|x: ClassSurfaceRule| class_surface_fault(x));
    let mut i: usize = 0;
    while i < rules.class_surfaces.len()
        invariant
            i <= rules.class_surfaces@.len(),
            faults == rules.class_surfaces@.map_values(|x: ClassSurfaceRule| class_surface_fault(x)),
            forall|j: int| 0 <= j < i ==> faults[j] is None,
        decreases rules.class_surfaces@.len() - i,
    {
        let r = class_surface_check(&rules.class_surfaces[i]);
        match r {
            Ok(_) => {},
            Err(_) => {
                proof {
                    lemma_first_fault(faults, i as int);
                }
                return r;
            },
        }
        i = i + 1;
    }
    proof {
        lemma_first_fault(faults, i as int);
    }
    Ok(())
}

fn validate_decorators(rules: &RuleConfig) -> (r: Result<(), ConfigError>)
    ensures
        reports(first_fault(rules.decorators@.map_values(|x: DecoratorRule| decorator_fault(x))), r),
{
    let ghost faults = rules.decorators@.map_values(|x: DecoratorRule| decorator_fault(x));
    let mut i: usize = 0;
    while i < rules.decorators.len()
        invariant
            i <= rules.decorators@.len(),
            faults == rules.decorators@.map_values(|x: DecoratorRule| decorator_fault(x)),
            forall|j: int| 0 <= j < i ==> faults[j] is None,
        decreases rules.decorators@.len() - i,
    {
        let r = decorator_check(&rules.decorators[i]);
        match r {
            Ok(_) => {},
            Err(_) => {
                proof {
                    lemma_first_fault(faults, i as int);
                }
                return r;
            },
        }
        i = i + 1;
    }
    proof {
        lemma_first_fault(faults, i as int);
    }
    Ok(())
}

fn validate_calls(rules: &RuleConfig) -> (r: Result<(), ConfigError>)
    ensures
        reports(first_fault(rules.calls@.map_values(|x: CallRule| call_fault(x))), r),
{
    let ghost faults = rules.calls@.map_values(|x: CallRule| call_fault(x));
    let mut i: usize = 0;
    while i < rules.calls.len()
        invariant
            i <= rules.calls@.len(),
            faults == rules.calls@.map_values(|x: CallRule| call_fault(x)),
            forall|j: int| 0 <= j < i ==> faults[j] is None,
        decreases rules.calls@.len() - i,
    {
        let r = call_check(&rules.calls[i]);
        match r {
            Ok(_) => {},
            Err(_) => {
                proof {
                    lemma_first_fault(faults, i as int);
                }
                return r;
            },
        }
        i = i + 1;
    }
    proof {
        lemma_first_fault(faults, i as int);
    }
    Ok(())
}

fn validate_fluent_methods(rules: &RuleConfig) -> (r: Result<(), ConfigError>)
    ensures
        reports(first_fault(rules.fluent_methods@.map_values(|x: FluentMethodRule| fluent_method_fault(x))), r),
{
    let ghost faults = rules.fluent_methods@.map_values(|x: FluentMethodRule| fluent_method_fault(x));
    let mut i: usize = 0;
    while i < rules.fluent_methods.len()
        invariant
            i <= rules.fluent_methods@.len(),
            faults == rules.fluent_methods@.map_values(|x: FluentMethodRule| fluent_method_fault(x)),
            forall|j: int| 0 <= j < i ==> faults[j] is None,
        decreases rules.fluent_methods@.len() - i,
    {
        let r = fluent_method_check(&rules.fluent_methods[i]);
        match r {
            Ok(_) => {},
            Err(_) => {
                proof {
                    lemma_first_fault(faults, i as int);
                }
                return r;
            },
        }
        i = i + 1;
    }
    proof {
        lemma_first_fault(faults, i as int);
    }
    Ok(())
}

fn validate_route_globs(rules: &RuleConfig) -> (r: Result<(), ConfigError>)
    ensures
        reports(first_fault(rules.route_globs@.map_values(|x: RouteGlobRule| route_glob_fault(x))), r),
{
    let ghost faults = rules.route_globs@.map_values(|x: RouteGlobRule| route_glob_fault(x));
    let mut i: usize = 0;
    while i < rules.route_globs.len()
        invariant
            i <= rules.route_globs@.len(),
            faults == rules.route_globs@.map_values(|x: RouteGlobRule| route_glob_fault(x)),
            forall|j: int| 0 <= j < i ==> faults[j] is None,
        decreases rules.route_globs@.len() - i,
    {
        let r = route_glob_check(&rules.route_globs[i]);
        match r {
            Ok(_) => {},
            Err(_) => {
                proof {
                    lemma_first_fault(faults, i as int);
                }
                return r;
            },
        }
        i = i + 1;
    }
    proof {
        lemma_first_fault(faults, i as int);
    }
    Ok(())
}

/// Every rule names what it needs and asks for an effect the analyzer
/// knows; the error reports the first rule that does not.
pub fn validate_rules(rules: &RuleConfig) -> (r: Result<(), ConfigError>)
    ensures
        reports(rules_fault(*rules), r),
{
    let ghost parts = seq![
        first_fault(rules.constructors@.map_values(|c: ConstructorRule| constructor_fault(c))),
        first_fault(rules.factory_returns@.map_values(|f: FactoryReturnRule| factory_return_fault(f))),
        first_fault(rules.class_surfaces@.map_values(|c: ClassSurfaceRule| class_surface_fault(c))),
        first_fault(rules.decorators@.map_values(|d: DecoratorRule| decorator_fault(d))),
        first_fault(rules.calls@.map_values(|c: CallRule| call_fault(c))),
        first_fault(rules.fluent_methods@.map_values(|f: FluentMethodRule| fluent_method_fault(f))),
        first_fault(rules.route_globs@.map_values(|g: RouteGlobRule| route_glob_fault(g))),
    ];
    assert(rules_fault(*rules) == first_fault(parts));
    let r = validate_constructors(rules);
    if r.is_err() {
        proof {
            lemma_first_fault(parts, 0);
        }
        return r;
    }
    let r = validate_factory_returns(rules);
    if r.is_err() {
        proof {
            lemma_first_fault(parts, 1);
        }
        return r;
    }
    let r = validate_class_surfaces(rules);
    if r.is_err() {
        proof {
            lemma_first_fault(parts, 2);
        }
        return r;
    }
    let r = validate_decorators(rules);
    if r.is_err() {
        proof {
            lemma_first_fault(parts, 3);
        }
        return r;
    }
    let r = validate_calls(rules);
    if r.is_err() {
        proof {
            lemma_first_fault(parts, 4);
        }
        return r;
    }
    let r = validate_fluent_methods(rules);
    if r.is_err() {
        proof {
            lemma_first_fault(parts, 5);
        }
        return r;
    }
    let r = validate_route_globs(rules);
    if r.is_err() {
        proof {
            lemma_first_fault(parts, 6);
        }
        return r;
    }
    proof {
        lemma_first_fault(parts, 7);
    }
    Ok(())
}

// ---------------------------------------------------------------------------
// Roots
// ---------------------------------------------------------------------------

/// The last component of a path: what follows its last `/`.
pub open spec fn basename(path: Seq<char>) -> Seq<char> {
    match rsplit_once(path, '/') {
        Some(parts) => parts.1,
        None => path,
    }
}

/// `s.replace(pat, rep)` for a non-empty pattern: every occurrence, taken
/// from left to right without overlap, replaced.
pub open spec fn replace_all(s: Seq<char>, pat: Seq<char>, rep: Seq<char>) -> Seq<char>
    decreases s.len(),
{
    if pat.len() == 0 || s.len() < pat.len() {
        s
    } else if s.take(pat.len() as int) == pat {
        rep + replace_all(s.skip(pat.len() as int), pat, rep)
    } else {
        seq![s[0]] + replace_all(s.drop_first(), pat, rep)
    }
}

/// The module name given to a root directory: the template with each
/// `{basename}` replaced by the directory's last component.
pub open spec fn module_for_root(template: Seq<char>, path: Seq<char>) -> Seq<char> {
    replace_all(template, "{basename}"@, basename(path))
}

fn matches_at(x: &Vec<char>, i: usize, p: &Vec<char>) -> (r: bool)
    requires
        i <= x@.len(),
    ensures
        r == (p@.len() <= x@.len() - i && x@.skip(i as int).take(p@.len() as int) == p@),
{
    let n = x.len();
    if p.len() > n - i {
        return false;
    }
    let mut k: usize = 0;
    while k < p.len()
        invariant
            n == x@.len(),
            i + p@.len() <= x@.len(),
            k <= p@.len(),
            forall|j: int| 0 <= j < k ==> x@[i + j] == p@[j],
        decreases p@.len() - k,
    {
        assert(i + k < x@.len());
        if x[i + k] != p[k] {
            assert(x@.skip(i as int).take(p@.len() as int)[k as int] != p@[k as int]);
            return false;
        }
        k = k + 1;
    }
    assert(x@.skip(i as int).take(p@.len() as int) =~= p@);
    true
}

/// `template.replace("{basename}", <last component of path>)`
pub fn expand_module_template(template: &str, path: &str) -> (r: String)
    ensures
        r@ == module_for_root(template@, path@),
{
    let base = match rsplit_once_char(path, '/') {
        Some(parts) => parts.1,
        None => String::from_str(path),
    };
    let x = chars_of(template);
    let p = chars_of("{basename}");
    let b = chars_of(base.as_str());
    proof {
        reveal_strlit("{basename}");
    }
    assert(p@.len() > 0);
    let mut out: Vec<char> = Vec::new();
    let mut i: usize = 0;
    assert(x@.skip(0) =~= x@);
    assert(out@ + replace_all(x@.skip(0), p@, b@) =~= replace_all(x@, p@, b@));
    while i < x.len()
        invariant
            x@ == template@,
            p@ == "{basename}"@,
            b@ == basename(path@),
            p@.len() > 0,
            i <= x@.len(),
            replace_all(x@, p@, b@) == out@ + replace_all(x@.skip(i as int), p@, b@),
        decreases x@.len() - i,
    {
        let ghost rest = x@.skip(i as int);
        if matches_at(&x, i, &p) {
            let mut k: usize = 0;
            let ghost before = out@;
            while k < b.len()
                invariant
                    k <= b@.len(),
                    out@ == before + b@.take(k as int),
                decreases b@.len() - k,
            {
                out.push(b[k]);
                assert(b@.take(k + 1) == b@.take(k as int).push(b@[k as int]));
                k = k + 1;
            }
            assert(b@.take(b@.len() as int) =~= b@);
            assert(rest.skip(p@.len() as int) =~= x@.skip(i + p@.len()));
            assert(out@ + replace_all(x@.skip(i + p@.len()), p@, b@) =~= before + (b@ + replace_all(rest.skip(p@.len() as int), p@, b@)));
            i = i + p.len();
        } else {
            let ghost before = out@;
            out.push(x[i]);
            assert(rest.drop_first() =~= x@.skip(i + 1));
            assert(rest[0] == x@[i as int]);
            assert(out@ + replace_all(x@.skip(i + 1), p@, b@) =~= before + (seq![rest[0]] + replace_all(rest.drop_first(), p@, b@)));
            i = i + 1;
        }
    }
    assert(x@.skip(i as int).len() == 0);
    assert(out@ + replace_all(x@.skip(i as int), p@, b@) =~= out@);
    string_of(&out)
}

/// The file patterns that mark tests when the configuration names none.
pub fn default_test_patterns() -> (r: Vec<String>)
    ensures
        views(r@) == seq!["test_*.py"@, "*_test.py"@, "*_test_*.py"@, "tests/**"@, "conftest.py"@],
{
    let mut v: Vec<String> = Vec::new();
    v.push(String::from_str("test_*.py"));
    v.push(String::from_str("*_test.py"));
    v.push(String::from_str("*_test_*.py"));
    v.push(String::from_str("tests/**"));
    v.push(String::from_str("conftest.py"));
    assert(views(v@) =~= seq!["test_*.py"@, "*_test.py"@, "*_test_*.py"@, "tests/**"@, "conftest.py"@]);
    v
}

/// A resolved root as its path and module name.
pub open spec fn root_view(r: ResolvedRoot) -> (Seq<char>, Seq<char>) {
    (r.path@, r.module@)
}

/// Matched paths with the module names that a template gives them.
pub open spec fn expand_paths(paths: Seq<String>, template: Seq<char>) -> Seq<(Seq<char>, Seq<char>)> {
    paths.map_values(|p: String| (p@, module_for_root(template, p@)))
}

/// The roots named by the first `n` configured roots, in configuration order,
/// each match with its module name.
pub open spec fn expansions(roots: Seq<RootConfig>, found: Seq<RootMatches>, n: int) -> Seq<(Seq<char>, Seq<char>)>
    decreases n,
{
    if n <= 0 {
        Seq::empty()
    } else {
        expansions(roots, found, n - 1) + expand_paths(found[n - 1].paths@, roots[n - 1].module@)
    }
}

/// The fault of configured root `i` when nothing exists where it points.
pub open spec fn root_fault(root: RootConfig, found: RootMatches) -> Option<ConfigFault> {
    if found.paths@.len() != 0 {
        None
    } else if has_char(root.path@, '*') {
        Some(ConfigFault::UnmatchedRootGlob { pattern: root.path@ })
    } else {
        Some(ConfigFault::MissingRoot { path: found.candidate@ })
    }
}

/// The module occurs twice among the roots.
pub open spec fn duplicated(items: Seq<(Seq<char>, Seq<char>)>, m: Seq<char>) -> bool {
    exists|a: int, b: int| 0 <= a < b < items.len() && #[trigger] items[a].1 == m && #[trigger] items[b].1 == m
}

/// The outcome of resolving the configured roots, given what exists on
/// disk: the roots sorted by module then path, or the first fault.
pub open spec fn roots_resolved(
    config: ProjectConfig,
    found: Seq<RootMatches>,
    r: Result<Seq<(Seq<char>, Seq<char>)>, ConfigFault>,
) -> bool {
    let n = config.roots@.len() as int;
    let all = expansions(config.roots@, found, n);
    if n == 0 {
        r == Err::<Seq<(Seq<char>, Seq<char>)>, ConfigFault>(ConfigFault::EmptyRoots)
    } else if exists|i: int| 0 <= i < n && #[trigger] root_fault(config.roots@[i], found[i]) is Some {
        exists|i: int|
            0 <= i < n && (forall|j: int| 0 <= j < i ==> root_fault(config.roots@[j], found[j]) is None)
                && r == Err::<Seq<(Seq<char>, Seq<char>)>, ConfigFault>(
                root_fault(config.roots@[i], found[i])->0,
            )
    } else {
        match r {
            Ok(v) => {
                &&& exists|perm: Seq<usize>| is_permutation(perm, all.len()) && v.len() == all.len()
                    && forall|k: int| 0 <= k < v.len() ==> #[trigger] v[k] == all[perm[k] as int]
                &&& forall|a: int, b: int| 0 <= a < b < v.len() ==> !key_less(
                    (v[b].1, 0, v[b].0),
                    (v[a].1, 0, v[a].0),
                )
                &&& forall|a: int, b: int| 0 <= a < b < v.len() ==> v[a].1 != v[b].1
            },
            Err(e) => match e {
                ConfigFault::DuplicateModule { module } => duplicated(all, module) && forall|m: Seq<char>|
                    duplicated(all, m) ==> !text_less(m, module),
                _ => false,
            },
        }
    }
}

pub open spec fn roots_result_view(r: Result<Vec<ResolvedRoot>, ConfigError>) -> Result<Seq<(Seq<char>, Seq<char>)>, ConfigFault> {
    match r {
        Ok(v) => Ok(v@.map_values(|x: ResolvedRoot| root_view(x))),
        Err(e) => Err(e@),
    }
}

/// The configured roots resolved against what exists on disk (`found[i]`
/// for `config.roots[i]`): each existing match gets its module name, the
/// roots are sorted by module and path, and no module may be named twice.
pub fn resolve_roots(config: &ProjectConfig, found: &Vec<RootMatches>) -> (r: Result<Vec<ResolvedRoot>, ConfigError>)
    requires
        found@.len() == config.roots@.len(),
    ensures
        roots_resolved(*config, found@, roots_result_view(r)),
{
    if config.roots.len() == 0 {
        return Err(ConfigError::EmptyRoots);
    }
    let ghost n = config.roots@.len() as int;
    let mut i: usize = 0;
    while i < config.roots.len()
        invariant
            found@.len() == config.roots@.len(),
            i <= config.roots@.len(),
            forall|j: int| 0 <= j < i ==> root_fault(config.roots@[j], found@[j]) is None,
        decreases config.roots@.len() - i,
    {
        let root = &config.roots[i];
        let here = &found[i];
        if here.paths.len() == 0 {
            if contains_char(root.path.as_str(), '*') {
                let e = ConfigError::UnmatchedRootGlob { pattern: copy_string(&root.path) };
                assert(root_fault(config.roots@[i as int], found@[i as int]) == Some(e@));
                return Err(e);
            }
            let e = ConfigError::MissingRoot { path: copy_string(&here.candidate) };
            assert(root_fault(config.roots@[i as int], found@[i as int]) == Some(e@));
            return Err(e);
        }
        i = i + 1;
    }
    let mut items: Vec<ResolvedRoot> = Vec::new();
    let mut i: usize = 0;
    while i < config.roots.len()
        invariant
            found@.len() == config.roots@.len(),
            i <= config.roots@.len(),
            items@.map_values(|x: ResolvedRoot| root_view(x)) == expansions(config.roots@, found@, i as int),
            forall|j: int| 0 <= j < config.roots@.len() ==> root_fault(config.roots@[j], found@[j]) is None,
        decreases config.roots@.len() - i,
    {
        let root = &config.roots[i];
        let here = &found[i];
        let ghost start = items@.map_values(|x: ResolvedRoot| root_view(x));
        let mut k: usize = 0;
        while k < here.paths.len()
            invariant
                k <= here.paths@.len(),
                items@.map_values(|x: ResolvedRoot| root_view(x)) == start + expand_paths(
                    here.paths@.take(k as int),
                    root.module@,
                ),
            decreases here.paths@.len() - k,
        {
            let path = &here.paths[k];
            let module = expand_module_template(root.module.as_str(), path.as_str());
            let ghost before = items@;
            let item = ResolvedRoot { path: copy_string(path), module };
            assert(root_view(item) == (path@, module_for_root(root.module@, path@)));
            items.push(item);
            assert(items@ == before.push(item));
            assert(items@.map_values(|x: ResolvedRoot| root_view(x)) =~= before.map_values(
                |x: ResolvedRoot| root_view(x),
            ).push(root_view(item)));
            assert(here.paths@.take(k + 1) == here.paths@.take(k as int).push(here.paths@[k as int]));
            assert(expand_paths(here.paths@.take(k + 1), root.module@) =~= expand_paths(
                here.paths@.take(k as int),
                root.module@,
            ).push(root_view(item)));
            k = k + 1;
        }
        assert(here.paths@.take(here.paths@.len() as int) =~= here.paths@);
        i = i + 1;
    }
    let ghost all = items@.map_values(|x: ResolvedRoot| root_view(x));
    let mut keys: Vec<SortKey> = Vec::new();
    let mut k: usize = 0;
    while k < items.len()
        invariant
            k <= items@.len(),
            keys@.len() == k,
            forall|j: int| 0 <= j < k ==> #[trigger] key_view(keys@[j]) == (items@[j].module@, 0nat, items@[j].path@),
            all == items@.map_values(|x: ResolvedRoot| root_view(x)),
            all == expansions(config.roots@, found@, config.roots@.len() as int),
            forall|j: int| 0 <= j < config.roots@.len() ==> root_fault(config.roots@[j], found@[j]) is None,
        decreases items@.len() - k,
    {
        keys.push(SortKey { first: copy_string(&items[k].module), number: 0, second: copy_string(&items[k].path) });
        k = k + 1;
    }
    let perm = sort_order(&keys);
    let mut sorted: Vec<ResolvedRoot> = Vec::new();
    let mut seen: Vec<String> = Vec::new();
    let mut k: usize = 0;
    while k < perm.len()
        invariant
            is_permutation(perm@, items@.len() as nat),
            sorted_by_keys(keys@, perm@),
            keys@.len() == items@.len(),
            forall|j: int| 0 <= j < keys@.len() ==> #[trigger] key_view(keys@[j]) == (items@[j].module@, 0nat, items@[j].path@),
            all == items@.map_values(|x: ResolvedRoot| root_view(x)),
            k <= perm@.len(),
            sorted@.len() == k,
            seen@.len() == k,
            forall|j: int| 0 <= j < k ==> #[trigger] root_view(sorted@[j]) == all[perm@[j] as int],
            forall|j: int| 0 <= j < k ==> #[trigger] seen@[j]@ == all[perm@[j] as int].1,
            forall|a: int, b: int| 0 <= a < b < k ==> all[perm@[a] as int].1 != all[perm@[b] as int].1,
            all == expansions(config.roots@, found@, config.roots@.len() as int),
            config.roots@.len() > 0,
            forall|j: int| 0 <= j < config.roots@.len() ==> root_fault(config.roots@[j], found@[j]) is None,
        decreases perm@.len() - k,
    {
        let item = &items[perm[k]];
        if contains_string(&seen, item.module.as_str()) {
            let ghost m = item.module@;
            proof {
                let a0 = choose|a0: int| 0 <= a0 < seen@.len() && #[trigger] seen@[a0]@ == m;
                assert(root_view(items@[perm@[k as int] as int]) == all[perm@[k as int] as int]);
                assert(items@.len() == items.len());
                lemma_first_duplicate(keys@, items@, all, perm@, a0, k as int);
            }
            let e = ConfigError::DuplicateModule { module: copy_string(&item.module) };
            return Err(e);
        }
        assert(root_view(items@[perm@[k as int] as int]) == all[perm@[k as int] as int]);
        proof {
            assert forall|a: int| 0 <= a < k implies all[perm@[a] as int].1 != all[perm@[k as int] as int].1 by {
                assert(seen@[a]@ == all[perm@[a] as int].1);
            }
        }
        sorted.push(ResolvedRoot { path: copy_string(&item.path), module: copy_string(&item.module) });
        seen.push(copy_string(&item.module));
        k = k + 1;
    }
    proof {
        let v = sorted@.map_values(|x: ResolvedRoot| root_view(x));
        assert forall|q: int| 0 <= q < v.len() implies #[trigger] v[q] == all[perm@[q] as int] by {
            assert(root_view(sorted@[q]) == all[perm@[q] as int]);
        }
        assert forall|a: int, b: int| 0 <= a < b < v.len() implies !key_less(
            (v[b].1, 0, v[b].0),
            (v[a].1, 0, v[a].0),
        ) by {
            assert(v[a] == all[perm@[a] as int]);
            assert(v[b] == all[perm@[b] as int]);
            assert(key_view(keys@[perm@[a] as int]) == (v[a].1, 0nat, v[a].0));
            assert(key_view(keys@[perm@[b] as int]) == (v[b].1, 0nat, v[b].0));
        }
        assert forall|a: int, b: int| 0 <= a < b < v.len() implies v[a].1 != v[b].1 by {
            assert(v[a] == all[perm@[a] as int]);
            assert(v[b] == all[perm@[b] as int]);
        }
    }
    Ok(sorted)
}

/// In roots sorted by module, the first module seen twice is the least module
/// that occurs twice.
proof fn lemma_first_duplicate(
    keys: Seq<SortKey>,
    items: Seq<ResolvedRoot>,
    all: Seq<(Seq<char>, Seq<char>)>,
    perm: Seq<usize>,
    a0: int,
    k: int,
)
    requires
        is_permutation(perm, items.len() as nat),
        sorted_by_keys(keys, perm),
        keys.len() == items.len(),
        forall|j: int| 0 <= j < keys.len() ==> #[trigger] key_view(keys[j]) == (items[j].module@, 0nat, items[j].path@),
        all == items.map_values(|x: ResolvedRoot| root_view(x)),
        items.len() <= usize::MAX,
        0 <= a0 < k < perm.len(),
        all[perm[a0] as int].1 == all[perm[k] as int].1,
        forall|a: int, b: int| 0 <= a < b < k ==> all[perm[a] as int].1 != all[perm[b] as int].1,
    ensures
        duplicated(all, all[perm[k] as int].1),
        forall|m: Seq<char>| duplicated(all, m) ==> !text_less(m, all[perm[k] as int].1),
{
    let m = all[perm[k] as int].1;
    let (x, y) = if perm[a0] < perm[k] { (perm[a0] as int, perm[k] as int) } else { (perm[k] as int, perm[a0] as int) };
    assert(all[x].1 == m && all[y].1 == m);
    assert forall|m2: Seq<char>| duplicated(all, m2) implies !text_less(m2, m) by {
        let (a, b) = choose|a: int, b: int| 0 <= a < b < all.len() && #[trigger] all[a].1 == m2 && #[trigger] all[b].1 == m2;
        assert(all.len() == items.len());
        if text_less(m2, m) {
            // Both items of `m2` stand before position `k` in sorted order.
            assert(crate::order::listed(perm, a as usize));
            assert(crate::order::listed(perm, b as usize));
            let pa = choose|q: int| 0 <= q < perm.len() && perm[q] == a as usize;
            let pb = choose|q: int| 0 <= q < perm.len() && perm[q] == b as usize;
            assert(perm[pa] as int == a && perm[pb] as int == b);
            assert(pa != pb);
            lemma_position_before(keys, items, all, perm, pa, k);
            lemma_position_before(keys, items, all, perm, pb, k);
            if pa < pb {
                assert(all[perm[pa] as int].1 == all[perm[pb] as int].1);
            } else {
                assert(all[perm[pb] as int].1 == all[perm[pa] as int].1);
            }
        }
    }
}

/// An item whose module is less than the module at sorted position `k`
/// stands before `k`.
proof fn lemma_position_before(
    keys: Seq<SortKey>,
    items: Seq<ResolvedRoot>,
    all: Seq<(Seq<char>, Seq<char>)>,
    perm: Seq<usize>,
    p: int,
    k: int,
)
    requires
        is_permutation(perm, items.len() as nat),
        sorted_by_keys(keys, perm),
        keys.len() == items.len(),
        forall|j: int| 0 <= j < keys.len() ==> #[trigger] key_view(keys[j]) == (items[j].module@, 0nat, items[j].path@),
        all == items.map_values(|x: ResolvedRoot| root_view(x)),
        0 <= p < perm.len(),
        0 <= k < perm.len(),
        text_less(all[perm[p] as int].1, all[perm[k] as int].1),
    ensures
        p < k,
{
    let kp = key_view(keys[perm[p] as int]);
    let kk = key_view(keys[perm[k] as int]);
    crate::order::lemma_key_order(kp, kk, kp);
    if p > k {
        assert(!key_less(kp, kk));
    }
    if p == k {
        crate::order::lemma_key_order(kp, kp, kp);
    }
}

// ---------------------------------------------------------------------------
// Loading
// ---------------------------------------------------------------------------

/// The checked configuration: its roots resolved against the disk, its root
/// groups and rules checked, in that order; the first failure is the error.
pub fn loaded_project_config(
    config: ProjectConfig,
    config_path: String,
    project_dir: String,
    found: &Vec<RootMatches>,
) -> (r: Result<LoadedProjectConfig, ConfigError>)
    requires
        found@.len() == config.roots@.len(),
    ensures
        match r {
            Ok(loaded) => {
                &&& roots_resolved(config, found@, Ok(loaded.roots@.map_values(|x: ResolvedRoot| root_view(x))))
                &&& groups_checked(configured_groups(config), Ok(group_views(loaded.root_groups@)))
                &&& rules_fault(config.rules) is None
                &&& loaded.config_path == config_path
                &&& loaded.project_dir == project_dir
                &&& loaded.entrypoints == config.entrypoints
                &&& loaded.weak_entrypoints == config.weak_entrypoints
                &&& loaded.include_tests == config.include_tests
                &&& loaded.test_patterns == config.test_patterns
                &&& loaded.rules == config.rules
            },
            Err(e) => {
                ||| roots_resolved(config, found@, Err(e@))
                ||| (exists|v: Seq<(Seq<char>, Seq<char>)>| roots_resolved(config, found@, Ok(v)))
                    && groups_checked(configured_groups(config), Err(e@))
                ||| (exists|v: Seq<(Seq<char>, Seq<char>)>| roots_resolved(config, found@, Ok(v)))
                    && (exists|g: Seq<GroupTuple>| groups_checked(configured_groups(config), Ok(g)))
                    && reports(rules_fault(config.rules), Err(e))
            },
        },
{
    let roots = match resolve_roots(&config, found) {
        Ok(roots) => roots,
        Err(e) => {
            return Err(e);
        },
    };
    let root_groups = match root_groups(&config) {
        Ok(groups) => groups,
        Err(e) => {
            return Err(e);
        },
    };
    match validate_rules(&config.rules) {
        Ok(_) => {},
        Err(e) => {
            return Err(e);
        },
    }
    Ok(LoadedProjectConfig {
        config_path,
        project_dir,
        roots,
        root_groups,
        entrypoints: config.entrypoints,
        weak_entrypoints: config.weak_entrypoints,
        include_tests: config.include_tests,
        test_patterns: config.test_patterns,
        rules: config.rules,
    })
}

} // verus!
