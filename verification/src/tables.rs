//! Lookups into the symbol index by name. Where several entries share a
//! name, the one recorded last wins, as when the entries are collected into a
//! map one after another.
use vstd::prelude::*;

use crate::index::{
    ClassInfo, FunctionSignature, ImportTarget, IndexedSymbol, ModuleIndex, ModuleValue,
    PytestFixture, SymbolIndex,
};
use crate::report::SymbolKind;
use crate::text::{copy_string, same_text};

verus! {

/// An entry of the index that is found by a name.
pub trait Keyed {
    spec fn key(&self) -> Seq<char>;

    fn key_text(&self) -> (r: &str)
        ensures
            r@ == self.key(),
    ;
}

impl Keyed for IndexedSymbol {
    open spec fn key(&self) -> Seq<char> {
        self.qualified_name@
    }

    fn key_text(&self) -> (r: &str) {
        self.qualified_name.as_str()
    }
}

impl Keyed for ClassInfo {
    open spec fn key(&self) -> Seq<char> {
        self.class@
    }

    fn key_text(&self) -> (r: &str) {
        self.class.as_str()
    }
}

impl Keyed for FunctionSignature {
    open spec fn key(&self) -> Seq<char> {
        self.function@
    }

    fn key_text(&self) -> (r: &str) {
        self.function.as_str()
    }
}

impl Keyed for PytestFixture {
    open spec fn key(&self) -> Seq<char> {
        self.name@
    }

    fn key_text(&self) -> (r: &str) {
        self.name.as_str()
    }
}

impl Keyed for ModuleValue {
    open spec fn key(&self) -> Seq<char> {
        self.qualified_name@
    }

    fn key_text(&self) -> (r: &str) {
        self.qualified_name.as_str()
    }
}

impl Keyed for ModuleIndex {
    open spec fn key(&self) -> Seq<char> {
        self.module@
    }

    fn key_text(&self) -> (r: &str) {
        self.module.as_str()
    }
}

/// Position of the last entry of `s` named `name`.
pub open spec fn last_keyed<T: Keyed>(s: Seq<T>, name: Seq<char>) -> Option<int>
    decreases s.len(),
{
    if s.len() == 0 {
        None
    } else if s.last().key() == name {
        Some(s.len() - 1)
    } else {
        last_keyed(s.drop_last(), name)
    }
}

/// Row and position of the last entry named `name` in rows taken in order.
pub open spec fn last_in_rows<T: Keyed>(rows: Seq<Seq<T>>, name: Seq<char>) -> Option<(int, int)>
    decreases rows.len(),
{
    if rows.len() == 0 {
        None
    } else {
        match last_keyed(rows.last(), name) {
            Some(k) => Some((rows.len() - 1, k)),
            None => last_in_rows(rows.drop_last(), name),
        }
    }
}

/// Some entry of the rows is named `name`.
pub open spec fn named_in_rows<T: Keyed>(rows: Seq<Seq<T>>, name: Seq<char>) -> bool {
    exists|m: int, k: int| 0 <= m < rows.len() && 0 <= k < rows[m].len() && #[trigger] rows[m][k].key() == name
}

pub proof fn lemma_last_keyed<T: Keyed>(s: Seq<T>, name: Seq<char>)
    ensures
        match last_keyed(s, name) {
            Some(k) => 0 <= k < s.len() && s[k].key() == name && forall|j: int| k < j < s.len() ==> #[trigger] s[j].key() != name,
            None => forall|j: int| 0 <= j < s.len() ==> #[trigger] s[j].key() != name,
        },
    decreases s.len(),
{
    if s.len() > 0 && s.last().key() != name {
        lemma_last_keyed(s.drop_last(), name);
        assert forall|j: int| 0 <= j < s.len() - 1 implies s[j] == #[trigger] s.drop_last()[j] by {}
        match last_keyed(s, name) {
            Some(k) => {
                assert forall|j: int| k < j < s.len() implies #[trigger] s[j].key() != name by {
                    if j < s.len() - 1 {
                        assert(s[j] == s.drop_last()[j]);
                    }
                }
            },
            None => {
                assert forall|j: int| 0 <= j < s.len() implies #[trigger] s[j].key() != name by {
                    if j < s.len() - 1 {
                        assert(s[j] == s.drop_last()[j]);
                    }
                }
            },
        }
    }
}

pub proof fn lemma_last_in_rows<T: Keyed>(rows: Seq<Seq<T>>, name: Seq<char>)
    ensures
        match last_in_rows(rows, name) {
            Some(p) => 0 <= p.0 < rows.len() && 0 <= p.1 < rows[p.0].len() && rows[p.0][p.1].key() == name,
            None => !named_in_rows(rows, name),
        },
        named_in_rows(rows, name) <==> last_in_rows(rows, name) is Some,
    decreases rows.len(),
{
    if rows.len() > 0 {
        lemma_last_keyed(rows.last(), name);
        lemma_last_in_rows(rows.drop_last(), name);
        if last_keyed(rows.last(), name) is None {
            if named_in_rows(rows, name) {
                let (m, k) = choose|m: int, k: int|
                    0 <= m < rows.len() && 0 <= k < rows[m].len() && #[trigger] rows[m][k].key() == name;
                if m < rows.len() - 1 {
                    assert(rows.drop_last()[m][k].key() == name);
                } else {
                    assert(rows.last()[k].key() == name);
                }
            }
            if named_in_rows(rows.drop_last(), name) {
                let (m, k) = choose|m: int, k: int|
                    0 <= m < rows.drop_last().len() && 0 <= k < rows.drop_last()[m].len()
                        && #[trigger] rows.drop_last()[m][k].key() == name;
                assert(rows[m][k].key() == name);
            }
        } else {
            let k = last_keyed(rows.last(), name)->0;
            assert(rows[rows.len() - 1][k].key() == name);
        }
    }
}

/// Position of the last entry of `items` named `name`.
pub fn find_last<T: Keyed>(items: &Vec<T>, name: &str) -> (r: Option<usize>)
    ensures
        match r {
            Some(k) => last_keyed(items@, name@) == Some(k as int),
            None => last_keyed(items@, name@) is None,
        },
{
    let mut i: usize = items.len();
    assert(items@.take(i as int) =~= items@);
    while i > 0
        invariant
            i <= items@.len(),
            last_keyed(items@, name@) == last_keyed(items@.take(i as int), name@),
        decreases i,
    {
        let ghost t = items@.take(i as int);
        assert(t.last() == items@[i - 1]);
        if same_text(items[i - 1].key_text(), name) {
            return Some(i - 1);
        }
        assert(t.drop_last() =~= items@.take(i - 1));
        i = i - 1;
    }
    assert(items@.take(0).len() == 0);
    None
}

pub open spec fn symbol_rows(index: SymbolIndex) -> Seq<Seq<IndexedSymbol>> {
    index.modules@.map_values(|m: ModuleIndex| m.symbols@)
}

pub open spec fn class_rows(index: SymbolIndex) -> Seq<Seq<ClassInfo>> {
    index.modules@.map_values(|m: ModuleIndex| m.classes@)
}

pub open spec fn signature_rows(index: SymbolIndex) -> Seq<Seq<FunctionSignature>> {
    index.modules@.map_values(|m: ModuleIndex| m.function_signatures@)
}

/// Fixtures are only taken from test modules.
pub open spec fn fixture_rows(index: SymbolIndex) -> Seq<Seq<PytestFixture>> {
    index.modules@.map_values(
        |m: ModuleIndex|
            if m.is_test {
                m.pytest_fixtures@
            } else {
                Seq::empty()
            },
    )
}

pub open spec fn value_rows(index: SymbolIndex) -> Seq<Seq<ModuleValue>> {
    index.modules@.map_values(|m: ModuleIndex| m.module_values@)
}

/// The symbol recorded last under `name`.
pub open spec fn symbol_named(index: SymbolIndex, name: Seq<char>) -> Option<IndexedSymbol> {
    match last_in_rows(symbol_rows(index), name) {
        Some(p) => Some(index.modules@[p.0].symbols@[p.1]),
        None => None,
    }
}

/// The kind of the symbol recorded last under `name`.
pub open spec fn kind_of(index: SymbolIndex, name: Seq<char>) -> Option<SymbolKind> {
    match symbol_named(index, name) {
        Some(s) => Some(s.kind),
        None => None,
    }
}

/// A symbol is named `name`.
pub open spec fn has_symbol(index: SymbolIndex, name: Seq<char>) -> bool {
    kind_of(index, name) is Some
}

/// The class recorded last under `name`.
pub open spec fn class_named(index: SymbolIndex, name: Seq<char>) -> Option<ClassInfo> {
    match last_in_rows(class_rows(index), name) {
        Some(p) => Some(index.modules@[p.0].classes@[p.1]),
        None => None,
    }
}

/// The signature recorded last for the function `name`.
pub open spec fn signature_named(index: SymbolIndex, name: Seq<char>) -> Option<FunctionSignature> {
    match last_in_rows(signature_rows(index), name) {
        Some(p) => Some(index.modules@[p.0].function_signatures@[p.1]),
        None => None,
    }
}

/// The test fixture recorded last under `name`.
pub open spec fn fixture_named(index: SymbolIndex, name: Seq<char>) -> Option<PytestFixture> {
    match last_in_rows(fixture_rows(index), name) {
        Some(p) => Some(index.modules@[p.0].pytest_fixtures@[p.1]),
        None => None,
    }
}

/// Some module-level value is named `name`.
pub open spec fn has_module_value(index: SymbolIndex, name: Seq<char>) -> bool {
    last_in_rows(value_rows(index), name) is Some
}

/// The module recorded last under `name`.
pub open spec fn module_named(index: SymbolIndex, name: Seq<char>) -> Option<int> {
    last_keyed(index.modules@, name)
}

/// Position of the symbol recorded last under `name`.
pub fn find_symbol(index: &SymbolIndex, name: &str) -> (r: Option<(usize, usize)>)
    ensures
        match r {
            Some(p) => last_in_rows(symbol_rows(*index), name@) == Some((p.0 as int, p.1 as int)),
            None => last_in_rows(symbol_rows(*index), name@) is None,
        },
{
    let ghost rows = symbol_rows(*index);
    let mut m: usize = index.modules.len();
    assert(rows.take(m as int) =~= rows);
    while m > 0
        invariant
            m <= index.modules@.len(),
            rows == symbol_rows(*index),
            last_in_rows(rows, name@) == last_in_rows(rows.take(m as int), name@),
        decreases m,
    {
        let ghost t = rows.take(m as int);
        assert(t.last() == index.modules@[m - 1].symbols@);
        match find_last(&index.modules[m - 1].symbols, name) {
            Some(k) => {
                return Some((m - 1, k));
            },
            None => {},
        }
        assert(t.drop_last() =~= rows.take(m - 1));
        m = m - 1;
    }
    None
}

/// Kind of the symbol recorded last under `name` (`symbol_kinds.get(name)`).
pub fn symbol_kind(index: &SymbolIndex, name: &str) -> (r: Option<SymbolKind>)
    ensures
        r == kind_of(*index, name@),
{
    match find_symbol(index, name) {
        Some(p) => {
            proof {
                lemma_last_in_rows(symbol_rows(*index), name@);
            }
            Some(index.modules[p.0].symbols[p.1].kind)
        },
        None => None,
    }
}

/// Whether a symbol is named `name` (`symbol_kinds.contains_key(name)`).
pub fn is_symbol(index: &SymbolIndex, name: &str) -> (r: bool)
    ensures
        r == has_symbol(*index, name@),
{
    symbol_kind(index, name).is_some()
}

/// Position of the class recorded last under `name` (`class_map.get(name)`).
pub fn find_class(index: &SymbolIndex, name: &str) -> (r: Option<(usize, usize)>)
    ensures
        match r {
            Some(p) => last_in_rows(class_rows(*index), name@) == Some((p.0 as int, p.1 as int))
                && p.0 < index.modules@.len() && p.1 < index.modules@[p.0 as int].classes@.len()
                && class_named(*index, name@) == Some(index.modules@[p.0 as int].classes@[p.1 as int]),
            None => last_in_rows(class_rows(*index), name@) is None && class_named(*index, name@) is None,
        },
{
    let ghost rows = class_rows(*index);
    let mut m: usize = index.modules.len();
    assert(rows.take(m as int) =~= rows);
    while m > 0
        invariant
            m <= index.modules@.len(),
            rows == class_rows(*index),
            last_in_rows(rows, name@) == last_in_rows(rows.take(m as int), name@),
        decreases m,
    {
        let ghost t = rows.take(m as int);
        assert(t.last() == index.modules@[m - 1].classes@);
        match find_last(&index.modules[m - 1].classes, name) {
            Some(k) => {
                proof {
                    lemma_last_keyed(index.modules@[m - 1].classes@, name@);
                }
                return Some((m - 1, k));
            },
            None => {},
        }
        assert(t.drop_last() =~= rows.take(m - 1));
        m = m - 1;
    }
    None
}

/// Position of the signature recorded last for `name`
/// (`function_signature_map.get(name)`).
pub fn find_signature(index: &SymbolIndex, name: &str) -> (r: Option<(usize, usize)>)
    ensures
        match r {
            Some(p) => signature_named(*index, name@) == Some(
                index.modules@[p.0 as int].function_signatures@[p.1 as int],
            ) && p.0 < index.modules@.len() && p.1 < index.modules@[p.0 as int].function_signatures@.len(),
            None => signature_named(*index, name@) is None,
        },
{
    let ghost rows = signature_rows(*index);
    let mut m: usize = index.modules.len();
    assert(rows.take(m as int) =~= rows);
    while m > 0
        invariant
            m <= index.modules@.len(),
            rows == signature_rows(*index),
            last_in_rows(rows, name@) == last_in_rows(rows.take(m as int), name@),
        decreases m,
    {
        let ghost t = rows.take(m as int);
        assert(t.last() == index.modules@[m - 1].function_signatures@);
        match find_last(&index.modules[m - 1].function_signatures, name) {
            Some(k) => {
                proof {
                    lemma_last_keyed(index.modules@[m - 1].function_signatures@, name@);
                }
                return Some((m - 1, k));
            },
            None => {},
        }
        assert(t.drop_last() =~= rows.take(m - 1));
        m = m - 1;
    }
    None
}

/// Position of the test fixture recorded last under `name`
/// (`pytest_fixture_map.get(name)`).
pub fn find_fixture(index: &SymbolIndex, name: &str) -> (r: Option<(usize, usize)>)
    ensures
        match r {
            Some(p) => fixture_named(*index, name@) == Some(
                index.modules@[p.0 as int].pytest_fixtures@[p.1 as int],
            ) && p.0 < index.modules@.len() && p.1 < index.modules@[p.0 as int].pytest_fixtures@.len(),
            None => fixture_named(*index, name@) is None,
        },
{
    let ghost rows = fixture_rows(*index);
    let mut m: usize = index.modules.len();
    assert(rows.take(m as int) =~= rows);
    while m > 0
        invariant
            m <= index.modules@.len(),
            rows == fixture_rows(*index),
            last_in_rows(rows, name@) == last_in_rows(rows.take(m as int), name@),
        decreases m,
    {
        let ghost t = rows.take(m as int);
        let module = &index.modules[m - 1];
        if module.is_test {
            assert(t.last() == module.pytest_fixtures@);
            match find_last(&module.pytest_fixtures, name) {
                Some(k) => {
                    proof {
                        lemma_last_keyed(module.pytest_fixtures@, name@);
                    }
                    return Some((m - 1, k));
                },
                None => {},
            }
        } else {
            assert(t.last() =~= Seq::<PytestFixture>::empty());
        }
        assert(t.drop_last() =~= rows.take(m - 1));
        m = m - 1;
    }
    None
}

/// Whether a module-level value is named `name` (`module_values.contains(name)`).
pub fn is_module_value(index: &SymbolIndex, name: &str) -> (r: bool)
    ensures
        r == has_module_value(*index, name@),
{
    let ghost rows = value_rows(*index);
    let mut m: usize = index.modules.len();
    assert(rows.take(m as int) =~= rows);
    while m > 0
        invariant
            m <= index.modules@.len(),
            rows == value_rows(*index),
            last_in_rows(rows, name@) == last_in_rows(rows.take(m as int), name@),
        decreases m,
    {
        let ghost t = rows.take(m as int);
        assert(t.last() == index.modules@[m - 1].module_values@);
        match find_last(&index.modules[m - 1].module_values, name) {
            Some(_) => {
                return true;
            },
            None => {},
        }
        assert(t.drop_last() =~= rows.take(m - 1));
        m = m - 1;
    }
    false
}

/// Position of the module recorded last under `name` (`module_map.get(name)`).
pub fn find_module(index: &SymbolIndex, name: &str) -> (r: Option<usize>)
    ensures
        match r {
            Some(m) => module_named(*index, name@) == Some(m as int) && m < index.modules@.len(),
            None => module_named(*index, name@) is None,
        },
{
    proof {
        lemma_last_keyed(index.modules@, name@);
    }
    find_last(&index.modules, name)
}

/// Some module, symbol or module-level value is recorded under `name`, and
/// this is the module it belongs to: the module recorded last under the name
/// if any module is, else the module of the symbol or value recorded last.
pub open spec fn owner_of(index: SymbolIndex, name: Seq<char>) -> Option<Seq<char>> {
    if module_named(index, name) is Some {
        Some(name)
    } else {
        owner_by_rows(index.modules@, name)
    }
}

/// The module holding the last symbol or module value named `name`, where a
/// module's symbols come before its values.
pub open spec fn owner_by_rows(mods: Seq<ModuleIndex>, name: Seq<char>) -> Option<Seq<char>>
    decreases mods.len(),
{
    if mods.len() == 0 {
        None
    } else if last_keyed(mods.last().module_values@, name) is Some || last_keyed(mods.last().symbols@, name) is Some {
        Some(mods.last().module@)
    } else {
        owner_by_rows(mods.drop_last(), name)
    }
}

/// The module a live name belongs to.
pub fn owner_module(index: &SymbolIndex, owner: &str) -> (r: Option<String>)
    ensures
        match r {
            Some(s) => owner_of(*index, owner@) == Some(s@),
            None => owner_of(*index, owner@) is None,
        },
{
    if find_module(index, owner).is_some() {
        return Some(String::from_str(owner));
    }
    let mut m: usize = index.modules.len();
    assert(index.modules@.take(m as int) =~= index.modules@);
    while m > 0
        invariant
            m <= index.modules@.len(),
            module_named(*index, owner@) is None,
            owner_by_rows(index.modules@, owner@) == owner_by_rows(index.modules@.take(m as int), owner@),
        decreases m,
    {
        let ghost t = index.modules@.take(m as int);
        let module = &index.modules[m - 1];
        assert(t.last() == *module);
        if find_last(&module.module_values, owner).is_some() || find_last(&module.symbols, owner).is_some() {
            return Some(copy_string(&module.module));
        }
        assert(t.drop_last() =~= index.modules@.take(m - 1));
        m = m - 1;
    }
    None
}

/// The local module an import brings in.
pub open spec fn import_module(target: ImportTarget) -> Option<Seq<char>> {
    match target {
        ImportTarget::Module { module, external } => if external { None } else { Some(module@) },
        ImportTarget::Symbol { module, external, .. } => if external { None } else { Some(module@) },
        ImportTarget::Star { module, external } => if external { None } else { Some(module@) },
    }
}

pub fn imported_module_target(target: &ImportTarget) -> (r: Option<&String>)
    ensures
        match r {
            Some(s) => import_module(*target) == Some(s@),
            None => import_module(*target) is None,
        },
{
    match target {
        ImportTarget::Module { module, external } => if *external { None } else { Some(module) },
        ImportTarget::Symbol { module, external, .. } => if *external { None } else { Some(module) },
        ImportTarget::Star { module, external } => if *external { None } else { Some(module) },
    }
}

} // verus!
