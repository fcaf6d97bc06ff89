//! Name resolution: which symbol a name used inside an owner refers to.
use vstd::prelude::*;

use crate::index::{ImportTarget, ModuleIndex, ResolvedImport, SymbolIndex};
use crate::tables::{has_module_value, has_symbol, is_module_value, is_symbol};
use crate::text::{copy_string, dotted, has_char, join_dot, rsplit_once, rsplit_once_char, same_text};

verus! {

/// The target of the first import of `imports` that binds `name`.
pub open spec fn import_bound(imports: Seq<ResolvedImport>, name: Seq<char>) -> Option<ImportTarget>
    decreases imports.len(),
{
    if imports.len() == 0 {
        None
    } else if imports[0].binding@ == name {
        Some(imports[0].target)
    } else {
        import_bound(imports.drop_first(), name)
    }
}

/// What a name bound by an import refers to: a local module, or a symbol of
/// a local module; nothing for anything external or a star import.
pub open spec fn import_reference(target: ImportTarget) -> Option<Seq<char>> {
    match target {
        ImportTarget::Module { module, external } => if external { None } else { Some(module@) },
        ImportTarget::Symbol { module, name, external } => if external {
            None
        } else {
            Some(dotted(module@, name@))
        },
        ImportTarget::Star { .. } => None,
    }
}

/// `name` looked up in the scopes enclosing `scope`, innermost first, up to
/// (and not including) the module itself.
pub open spec fn enclosing_lookup(index: SymbolIndex, module: Seq<char>, scope: Seq<char>, name: Seq<char>) -> Option<Seq<char>>
    decreases scope.len(),
{
    match rsplit_once(scope, '.') {
        None => None,
        Some(parts) => {
            proof {
                crate::text::lemma_last_index(scope, '.');
            }
            if parts.0 == module {
                None
            } else if has_symbol(index, dotted(parts.0, name)) {
                Some(dotted(parts.0, name))
            } else {
                enclosing_lookup(index, module, parts.0, name)
            }
        },
    }
}

/// The target an import binds is that of one of the imports.
pub proof fn lemma_import_bound(imports: Seq<ResolvedImport>, name: Seq<char>)
    ensures
        import_bound(imports, name) matches Some(t) ==> exists|j: int| 0 <= j < imports.len() && #[trigger] imports[j].target == t,
    decreases imports.len(),
{
    if imports.len() > 0 && imports[0].binding@ != name {
        lemma_import_bound(imports.drop_first(), name);
        if let Some(t) = import_bound(imports, name) {
            let j = choose|j: int| 0 <= j < imports.drop_first().len() && #[trigger] imports.drop_first()[j].target == t;
            assert(imports[j + 1].target == t);
        }
    }
}

/// What an enclosing scope finds is a symbol.
pub proof fn lemma_enclosing_lookup(index: SymbolIndex, module: Seq<char>, scope: Seq<char>, name: Seq<char>)
    ensures
        enclosing_lookup(index, module, scope, name) matches Some(t) ==> has_symbol(index, t),
    decreases scope.len(),
{
    match rsplit_once(scope, '.') {
        None => {},
        Some(parts) => {
            crate::text::lemma_last_index(scope, '.');
            if parts.0 != module && !has_symbol(index, dotted(parts.0, name)) {
                lemma_enclosing_lookup(index, module, parts.0, name);
            }
        },
    }
}

/// What the name `name`, used inside `owner` in `module`, refers to: a
/// symbol of that exact name; else what an import binding the name brings
/// in; else a symbol local to the owner; else one of an enclosing scope;
/// else a symbol or module-level value of the module.
pub open spec fn reference_target(index: SymbolIndex, owner: Seq<char>, module: ModuleIndex, name: Seq<char>) -> Option<Seq<char>> {
    if has_symbol(index, name) {
        Some(name)
    } else {
        match import_bound(module.imports@, name) {
            Some(target) => import_reference(target),
            None => if has_symbol(index, dotted(owner, name)) {
                Some(dotted(owner, name))
            } else {
                match enclosing_lookup(index, module.module@, owner, name) {
                    Some(t) => Some(t),
                    None => {
                        let same = dotted(module.module@, name);
                        if has_symbol(index, same) || has_module_value(index, same) {
                            Some(same)
                        } else {
                            None
                        }
                    },
                }
            },
        }
    }
}

/// A name used inside `owner` that is no symbol itself and that no import of
/// the module binds, but that names a symbol declared inside `owner` (a
/// nested function or class, a member), refers to that symbol.
pub proof fn lemma_owner_local_names_resolve(index: SymbolIndex, owner: Seq<char>, module: ModuleIndex, name: Seq<char>)
    requires
        has_symbol(index, dotted(owner, name)),
        !has_symbol(index, name),
        import_bound(module.imports@, name) is None,
    ensures
        reference_target(index, owner, module, name) == Some(dotted(owner, name)),
{
}

/// A name used inside the scope `parent.leaf`, below the module, that is no
/// symbol itself, bound by no import and declared neither in the scope nor
/// in `parent`'s other enclosing scopes before `parent`, but declared in
/// `parent`, refers to `parent`'s symbol.
pub proof fn lemma_enclosing_scope_names_resolve(
    index: SymbolIndex,
    module: ModuleIndex,
    parent: Seq<char>,
    leaf: Seq<char>,
    name: Seq<char>,
)
    requires
        !has_char(leaf, '.'),
        parent != module.module@,
        has_symbol(index, dotted(parent, name)),
        !has_symbol(index, name),
        import_bound(module.imports@, name) is None,
        !has_symbol(index, dotted(dotted(parent, leaf), name)),
    ensures
        reference_target(index, dotted(parent, leaf), module, name) == Some(dotted(parent, name)),
{
    crate::text::lemma_rsplit_dotted(parent, leaf);
}

/// Inside a function or class declared at the top of the module, a name
/// that is no symbol itself, bound by no import and not declared inside the
/// owner refers to the module's own symbol or module-level value of that
/// name, and to nothing when there is none.
pub proof fn lemma_module_names_resolve_in_top_level_owners(
    index: SymbolIndex,
    module: ModuleIndex,
    leaf: Seq<char>,
    name: Seq<char>,
)
    requires
        !has_char(leaf, '.'),
        !has_symbol(index, name),
        import_bound(module.imports@, name) is None,
        !has_symbol(index, dotted(dotted(module.module@, leaf), name)),
    ensures
        reference_target(index, dotted(module.module@, leaf), module, name) == (if has_symbol(
            index,
            dotted(module.module@, name),
        ) || has_module_value(index, dotted(module.module@, name)) {
            Some(dotted(module.module@, name))
        } else {
            None
        }),
{
    crate::text::lemma_rsplit_dotted(module.module@, leaf);
}

/// A name that is a symbol's full name refers to that symbol.
pub proof fn lemma_full_names_resolve_to_themselves(index: SymbolIndex, owner: Seq<char>, module: ModuleIndex, name: Seq<char>)
    requires
        has_symbol(index, name),
    ensures
        reference_target(index, owner, module, name) == Some(name),
{
}

/// A name bound by an import of the module refers to what the first such
/// import brings in, unless it is a symbol's full name: an owner-local or
/// module-level symbol of the same name does not shadow the import.
pub proof fn lemma_imports_bind_before_locals(
    index: SymbolIndex,
    owner: Seq<char>,
    module: ModuleIndex,
    name: Seq<char>,
    j: int,
)
    requires
        !has_symbol(index, name),
        0 <= j < module.imports@.len(),
        module.imports@[j].binding@ == name,
        forall|k: int| 0 <= k < j ==> (#[trigger] module.imports@[k]).binding@ != name,
    ensures
        reference_target(index, owner, module, name) == import_reference(module.imports@[j].target),
{
    lemma_first_binding(module.imports@, name, j);
}

proof fn lemma_first_binding(imports: Seq<ResolvedImport>, name: Seq<char>, j: int)
    requires
        0 <= j < imports.len(),
        imports[j].binding@ == name,
        forall|k: int| 0 <= k < j ==> (#[trigger] imports[k]).binding@ != name,
    ensures
        import_bound(imports, name) == Some(imports[j].target),
    decreases j,
{
    if j > 0 {
        let rest = imports.drop_first();
        assert forall|k: int| 0 <= k < j - 1 implies (#[trigger] rest[k]).binding@ != name by {
            assert(rest[k] == imports[k + 1]);
        }
        lemma_first_binding(rest, name, j - 1);
    }
}

/// What a name refers to is a symbol, a module-level value, or what an
/// import of the module brings in.
pub proof fn lemma_resolved_names_exist(index: SymbolIndex, owner: Seq<char>, module: ModuleIndex, name: Seq<char>)
    ensures
        reference_target(index, owner, module, name) matches Some(t) ==> {
            ||| has_symbol(index, t)
            ||| has_module_value(index, t)
            ||| exists|j: int| 0 <= j < module.imports@.len() && import_reference(#[trigger] module.imports@[j].target) == Some(t)
        },
{
    lemma_import_bound(module.imports@, name);
    lemma_enclosing_lookup(index, module.module@, owner, name);
    if !has_symbol(index, name) {
        if let Some(target) = import_bound(module.imports@, name) {
            let j = choose|j: int| 0 <= j < module.imports@.len() && #[trigger] module.imports@[j].target == target;
            assert(import_reference(module.imports@[j].target) == import_reference(target));
        }
    }
}

pub(crate) fn find_import(imports: &Vec<ResolvedImport>, name: &str) -> (r: Option<usize>)
    ensures
        match r {
            Some(j) => j < imports@.len() && import_bound(imports@, name@) == Some(imports@[j as int].target),
            None => import_bound(imports@, name@) is None,
        },
{
    let mut j: usize = 0;
    assert(imports@.skip(0) =~= imports@);
    while j < imports.len()
        invariant
            j <= imports@.len(),
            import_bound(imports@, name@) == import_bound(imports@.skip(j as int), name@),
        decreases imports@.len() - j,
    {
        let ghost rest = imports@.skip(j as int);
        assert(rest[0] == imports@[j as int]);
        if same_text(imports[j].binding.as_str(), name) {
            return Some(j);
        }
        assert(rest.drop_first() =~= imports@.skip(j + 1));
        j = j + 1;
    }
    None
}

fn imported_reference(target: &ImportTarget) -> (r: Option<String>)
    ensures
        match r {
            Some(s) => import_reference(*target) == Some(s@),
            None => import_reference(*target) is None,
        },
{
    match target {
        ImportTarget::Module { module, external } => if *external {
            None
        } else {
            Some(copy_string(module))
        },
        ImportTarget::Symbol { module, name, external } => if *external {
            None
        } else {
            Some(join_dot(module.as_str(), name.as_str()))
        },
        ImportTarget::Star { .. } => None,
    }
}

fn enclosing_symbol(index: &SymbolIndex, module: &str, scope: &str, name: &str) -> (r: Option<String>)
    ensures
        match r {
            Some(s) => enclosing_lookup(*index, module@, scope@, name@) == Some(s@),
            None => enclosing_lookup(*index, module@, scope@, name@) is None,
        },
    decreases scope@.len(),
{
    proof {
        crate::text::lemma_last_index(scope@, '.');
    }
    match rsplit_once_char(scope, '.') {
        None => None,
        Some(parts) => {
            let parent = parts.0.as_str();
            if same_text(parent, module) {
                return None;
            }
            let candidate = join_dot(parent, name);
            if is_symbol(index, candidate.as_str()) {
                return Some(candidate);
            }
            enclosing_symbol(index, module, parent, name)
        },
    }
}

/// `resolve_reference`
pub fn resolve_reference(index: &SymbolIndex, owner: &str, module: &ModuleIndex, name: &str) -> (r: Option<String>)
    ensures
        match r {
            Some(s) => reference_target(*index, owner@, *module, name@) == Some(s@),
            None => reference_target(*index, owner@, *module, name@) is None,
        },
{
    if is_symbol(index, name) {
        return Some(String::from_str(name));
    }
    match find_import(&module.imports, name) {
        Some(j) => {
            return imported_reference(&module.imports[j].target);
        },
        None => {},
    }
    let local = join_dot(owner, name);
    if is_symbol(index, local.as_str()) {
        return Some(local);
    }
    match enclosing_symbol(index, module.module.as_str(), owner, name) {
        Some(t) => {
            return Some(t);
        },
        None => {},
    }
    let same = join_dot(module.module.as_str(), name);
    if is_symbol(index, same.as_str()) || is_module_value(index, same.as_str()) {
        return Some(same);
    }
    None
}

} // verus!
