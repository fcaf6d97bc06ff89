//! The re-export table: what each name bound by an import of a module
//! refers to, as seen from other modules that import the name from it.
use vstd::prelude::*;

use crate::index::{ImportTarget, ModuleIndex, ResolvedImport};
use crate::text::{copy_string, same_text};

verus! {

/// An import target by its plain values: the kind (a module, a symbol of a
/// module, or everything of a module), the module, the symbol's name, and
/// whether it lies outside the project.
pub open spec fn target_view(t: ImportTarget) -> (nat, Seq<char>, Seq<char>, bool) {
    match t {
        ImportTarget::Module { module, external } => (0, module@, Seq::empty(), external),
        ImportTarget::Symbol { module, name, external } => (1, module@, name@, external),
        ImportTarget::Star { module, external } => (2, module@, Seq::empty(), external),
    }
}

pub open spec fn opt_target_view(t: Option<ImportTarget>) -> Option<(nat, Seq<char>, Seq<char>, bool)> {
    match t {
        Some(t) => Some(target_view(t)),
        None => None,
    }
}

pub fn copy_target(t: &ImportTarget) -> (r: ImportTarget)
    ensures
        target_view(r) == target_view(*t),
{
    match t {
        ImportTarget::Module { module, external } => ImportTarget::Module { module: copy_string(module), external: *external },
        ImportTarget::Symbol { module, name, external } => ImportTarget::Symbol {
            module: copy_string(module),
            name: copy_string(name),
            external: *external,
        },
        ImportTarget::Star { module, external } => ImportTarget::Star { module: copy_string(module), external: *external },
    }
}

/// The target of the last import of `imports` that binds `binding`.
pub open spec fn last_binding(imports: Seq<ResolvedImport>, binding: Seq<char>) -> Option<ImportTarget>
    decreases imports.len(),
{
    if imports.len() == 0 {
        None
    } else if imports.last().binding@ == binding {
        Some(imports.last().target)
    } else {
        last_binding(imports.drop_last(), binding)
    }
}

/// What `binding`, bound by an import of the module `module`, refers to:
/// of all such imports, modules and their imports taken in order, the last.
pub open spec fn reexport_of(modules: Seq<ModuleIndex>, module: Seq<char>, binding: Seq<char>) -> Option<ImportTarget>
    decreases modules.len(),
{
    if modules.len() == 0 {
        None
    } else if modules.last().module@ == module && last_binding(modules.last().imports@, binding) is Some {
        last_binding(modules.last().imports@, binding)
    } else {
        reexport_of(modules.drop_last(), module, binding)
    }
}

/// One entry of the table: `binding`, bound by an import of `module`,
/// refers to `target`.
pub struct Reexport {
    pub module: String,
    pub binding: String,
    pub target: ImportTarget,
}

/// No two entries share a module and a name.
pub open spec fn keys_distinct(table: Seq<Reexport>) -> bool {
    forall|i: int, j: int|
        0 <= i < j < table.len() ==> !(table[i].module@ == table[j].module@ && table[i].binding@ == table[j].binding@)
}

/// Some entry is keyed by `module` and `binding`.
pub open spec fn has_key(table: Seq<Reexport>, module: Seq<char>, binding: Seq<char>) -> bool {
    exists|i: int| 0 <= i < table.len() && #[trigger] table[i].module@ == module && table[i].binding@ == binding
}

/// The table maps each key as `expect` does.
pub open spec fn table_is(
    table: Seq<Reexport>,
    expect: spec_fn(Seq<char>, Seq<char>) -> Option<(nat, Seq<char>, Seq<char>, bool)>,
) -> bool {
    &&& keys_distinct(table)
    &&& forall|m: Seq<char>, b: Seq<char>| #[trigger] has_key(table, m, b) <==> expect(m, b) is Some
    &&& forall|i: int|
        0 <= i < table.len() ==> expect(#[trigger] table[i].module@, table[i].binding@) == Some(target_view(table[i].target))
}

/// `expect` with `module`/`binding` mapped to `v`.
pub open spec fn updated(
    expect: spec_fn(Seq<char>, Seq<char>) -> Option<(nat, Seq<char>, Seq<char>, bool)>,
    module: Seq<char>,
    binding: Seq<char>,
    v: (nat, Seq<char>, Seq<char>, bool),
) -> spec_fn(Seq<char>, Seq<char>) -> Option<(nat, Seq<char>, Seq<char>, bool)> {
    |m: Seq<char>, b: Seq<char>| if m == module && b == binding { Some(v) } else { expect(m, b) }
}

/// Position of the entry keyed by `module` and `binding`.
fn find_entry(table: &Vec<Reexport>, module: &str, binding: &str) -> (r: Option<usize>)
    ensures
        match r {
            Some(k) => k < table@.len() && table@[k as int].module@ == module@ && table@[k as int].binding@ == binding@,
            None => !has_key(table@, module@, binding@),
        },
{
    let mut k: usize = 0;
    while k < table.len()
        invariant
            k <= table@.len(),
            forall|i: int| 0 <= i < k ==> !(#[trigger] table@[i].module@ == module@ && table@[i].binding@ == binding@),
        decreases table@.len() - k,
    {
        if same_text(table[k].module.as_str(), module) && same_text(table[k].binding.as_str(), binding) {
            return Some(k);
        }
        k = k + 1;
    }
    None
}

/// Maps `module`/`binding` to `target`, as inserting into a map does.
fn insert_entry(
    table: &mut Vec<Reexport>,
    module: &String,
    binding: &String,
    target: &ImportTarget,
    Ghost(expect): Ghost<spec_fn(Seq<char>, Seq<char>) -> Option<(nat, Seq<char>, Seq<char>, bool)>>,
)
    requires
        table_is(old(table)@, expect),
    ensures
        table_is(final(table)@, updated(expect, module@, binding@, target_view(*target))),
{
    let ghost e2 = updated(expect, module@, binding@, target_view(*target));
    let entry = Reexport { module: copy_string(module), binding: copy_string(binding), target: copy_target(target) };
    match find_entry(table, module.as_str(), binding.as_str()) {
        Some(k) => {
            let ghost before = table@;
            table.set(k, entry);
            proof {
                assert forall|m: Seq<char>, b: Seq<char>| #[trigger] has_key(table@, m, b) <==> e2(m, b) is Some by {
                    if has_key(before, m, b) {
                        let i = choose|i: int| 0 <= i < before.len() && #[trigger] before[i].module@ == m && before[i].binding@ == b;
                        if i == k {
                            assert(table@[k as int].module@ == m);
                        } else {
                            assert(table@[i] == before[i]);
                        }
                    }
                    if has_key(table@, m, b) {
                        let i = choose|i: int| 0 <= i < table@.len() && #[trigger] table@[i].module@ == m && table@[i].binding@ == b;
                        if i != k {
                            assert(table@[i] == before[i]);
                        }
                    }
                    if m == module@ && b == binding@ {
                        assert(table@[k as int].module@ == m);
                    }
                }
                assert forall|i: int| 0 <= i < table@.len() implies e2(#[trigger] table@[i].module@, table@[i].binding@) == Some(
                    target_view(table@[i].target),
                ) by {
                    if i != k {
                        assert(table@[i] == before[i]);
                        assert(!(before[i].module@ == before[k as int].module@ && before[i].binding@ == before[k as int].binding@));
                    }
                }
                assert forall|i: int, j: int| 0 <= i < j < table@.len() implies !(table@[i].module@ == table@[j].module@
                    && table@[i].binding@ == table@[j].binding@) by {
                    assert(!(before[i].module@ == before[j].module@ && before[i].binding@ == before[j].binding@));
                }
            }
        },
        None => {
            let ghost before = table@;
            table.push(entry);
            proof {
                let n = before.len() as int;
                assert(table@[n].module@ == module@);
                assert forall|m: Seq<char>, b: Seq<char>| #[trigger] has_key(table@, m, b) <==> e2(m, b) is Some by {
                    if has_key(before, m, b) {
                        let i = choose|i: int| 0 <= i < before.len() && #[trigger] before[i].module@ == m && before[i].binding@ == b;
                        assert(table@[i] == before[i]);
                    }
                    if has_key(table@, m, b) {
                        let i = choose|i: int| 0 <= i < table@.len() && #[trigger] table@[i].module@ == m && table@[i].binding@ == b;
                        if i < n {
                            assert(table@[i] == before[i]);
                        }
                    }
                }
                assert forall|i: int| 0 <= i < table@.len() implies e2(#[trigger] table@[i].module@, table@[i].binding@) == Some(
                    target_view(table@[i].target),
                ) by {
                    if i < n {
                        assert(table@[i] == before[i]);
                        assert(has_key(before, before[i].module@, before[i].binding@));
                    }
                }
                assert forall|i: int, j: int| 0 <= i < j < table@.len() implies !(table@[i].module@ == table@[j].module@
                    && table@[i].binding@ == table@[j].binding@) by {
                    assert(table@[i] == before[i]);
                    if j < n {
                        assert(table@[j] == before[j]);
                    } else if table@[i].module@ == module@ && table@[i].binding@ == binding@ {
                        assert(has_key(before, module@, binding@));
                    }
                }
            }
        },
    }
}

/// What `binding` of `module` refers to after the imports `imports[..j]`
/// of `module` were entered into a table holding `prior`.
pub open spec fn expect_at(
    prior: Seq<ModuleIndex>,
    module: Seq<char>,
    imports: Seq<ResolvedImport>,
    j: int,
) -> spec_fn(Seq<char>, Seq<char>) -> Option<(nat, Seq<char>, Seq<char>, bool)> {
    |m: Seq<char>, b: Seq<char>|
        if m == module && last_binding(imports.take(j), b) is Some {
            opt_target_view(last_binding(imports.take(j), b))
        } else {
            opt_target_view(reexport_of(prior, m, b))
        }
}

/// What the table of `modules` maps each key to.
pub open spec fn reexport_table(modules: Seq<ModuleIndex>) -> spec_fn(Seq<char>, Seq<char>) -> Option<(nat, Seq<char>, Seq<char>, bool)> {
    |m: Seq<char>, b: Seq<char>| opt_target_view(reexport_of(modules, m, b))
}

/// The re-export table of the modules: for each module and
/// each name bound by one of its imports, one entry, holding the target of
/// the last such import.
pub fn reexport_map(modules: &Vec<ModuleIndex>) -> (r: Vec<Reexport>)
    ensures
        table_is(r@, reexport_table(modules@)),
{
    let mut table: Vec<Reexport> = Vec::new();
    let mut i: usize = 0;
    proof {
        assert(modules@.take(0).len() == 0);
        assert forall|m: Seq<char>, b: Seq<char>| #[trigger] has_key(table@, m, b) <==> reexport_table(modules@.take(0))(
            m,
            b,
        ) is Some by {}
    }
    while i < modules.len()
        invariant
            i <= modules@.len(),
            table_is(table@, reexport_table(modules@.take(i as int))),
        decreases modules@.len() - i,
    {
        let module = &modules[i];
        let imports = &module.imports;
        let ghost prior = modules@.take(i as int);
        let mut j: usize = 0;
        proof {
            let e0 = expect_at(prior, module.module@, imports@, 0);
            assert forall|m: Seq<char>, b: Seq<char>| #[trigger] e0(m, b) == opt_target_view(reexport_of(prior, m, b)) by {
                assert(imports@.take(0).len() == 0);
            }
            assert(e0 =~= reexport_table(prior));
        }
        while j < imports.len()
            invariant
                i < modules@.len(),
                *module == modules@[i as int],
                *imports == module.imports,
                prior == modules@.take(i as int),
                j <= imports@.len(),
                table_is(table@, expect_at(prior, module.module@, imports@, j as int)),
            decreases imports@.len() - j,
        {
            let ghost e = expect_at(prior, module.module@, imports@, j as int);
            insert_entry(&mut table, &module.module, &imports[j].binding, &imports[j].target, Ghost(e));
            proof {
                let e1 = expect_at(prior, module.module@, imports@, j + 1);
                let e2 = updated(e, module.module@, imports@[j as int].binding@, target_view(imports@[j as int].target));
                assert forall|m: Seq<char>, b: Seq<char>| #[trigger] e1(m, b) == e2(m, b) by {
                    assert(imports@.take(j + 1).drop_last() =~= imports@.take(j as int));
                    assert(imports@.take(j + 1).last() == imports@[j as int]);
                }
                assert(e1 =~= e2);
            }
            j = j + 1;
        }
        proof {
            let e = expect_at(prior, module.module@, imports@, imports@.len() as int);
            let next = modules@.take(i + 1);
            assert(next.drop_last() =~= prior);
            assert(next.last() == modules@[i as int]);
            assert(imports@.take(imports@.len() as int) =~= imports@);
            assert forall|m: Seq<char>, b: Seq<char>| #[trigger] e(m, b) == opt_target_view(reexport_of(next, m, b)) by {}
            assert(e =~= reexport_table(next));
        }
        i = i + 1;
    }
    proof {
        assert(modules@.take(modules@.len() as int) =~= modules@);
    }
    table
}

/// What the table holds for `binding` of `module`, as a map lookup gives it.
pub fn reexport_target(table: &Vec<Reexport>, module: &str, binding: &str) -> (r: Option<ImportTarget>)
    requires
        keys_distinct(table@),
    ensures
        match r {
            Some(t) => exists|i: int|
                0 <= i < table@.len() && #[trigger] table@[i].module@ == module@ && table@[i].binding@ == binding@
                    && target_view(table@[i].target) == target_view(t),
            None => !has_key(table@, module@, binding@),
        },
{
    match find_entry(table, module, binding) {
        Some(k) => Some(copy_target(&table[k].target)),
        None => None,
    }
}

} // verus!
