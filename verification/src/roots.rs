//! Which files are entry points or tests, and the roots a module gives its
//! root groups.
use vstd::prelude::*;

use crate::config::{LoadedProjectConfig, LoadedRootGroup};
use crate::index::{IndexedSymbol, PytestFixture, RootSymbol};
use crate::project::{relative_path_text, relative_text};
use crate::report::SymbolKind;
use crate::text::{chars_of, copy_string, has_prefix, holds, last_index, string_of, views};

verus! {

/// A file pattern matches a path: `**` stands for any text, `*` for any text
/// without `/`, every other character for itself.
pub open spec fn wild(p: Seq<char>, t: Seq<char>) -> bool
    decreases p.len(), t.len(),
{
    if p.len() == 0 {
        t.len() == 0
    } else if p.len() >= 2 && p[0] == '*' && p[1] == '*' {
        wild(p.skip(2), t) || (t.len() > 0 && wild(p, t.drop_first()))
    } else if p[0] == '*' {
        wild(p.drop_first(), t) || (t.len() > 0 && t[0] != '/' && wild(p, t.drop_first()))
    } else {
        t.len() > 0 && t[0] == p[0] && wild(p.drop_first(), t.drop_first())
    }
}

/// The last component of a path.
pub open spec fn file_name(t: Seq<char>) -> Seq<char> {
    let k = last_index(t, '/');
    if k < 0 {
        t
    } else {
        t.skip(k + 1)
    }
}

/// An entry pattern matches a file of the project: the file's path below the
/// project directory matches it, or, for a pattern without `/`, the file's
/// name does.
pub open spec fn entry_matches(project_dir: Seq<char>, pattern: Seq<char>, file: Seq<char>) -> bool {
    let relative = relative_text(project_dir, file);
    wild(pattern, relative) || (last_index(pattern, '/') < 0 && wild(pattern, file_name(relative)))
}

/// Some pattern of `patterns` matches the file.
pub open spec fn any_matches(project_dir: Seq<char>, patterns: Seq<String>, file: Seq<char>) -> bool {
    exists|i: int| 0 <= i < patterns.len() && entry_matches(project_dir, #[trigger] patterns[i]@, file)
}

/// The root groups whose entry points match the file, in order.
pub open spec fn file_groups(project_dir: Seq<char>, groups: Seq<LoadedRootGroup>, file: Seq<char>) -> Seq<Seq<char>>
    decreases groups.len(),
{
    if groups.len() == 0 {
        Seq::empty()
    } else {
        let rest = file_groups(project_dir, groups.drop_last(), file);
        if any_matches(project_dir, groups.last().entrypoints@, file) {
            rest.push(groups.last().name@)
        } else {
            rest
        }
    }
}

proof fn lemma_skip_skip<A>(s: Seq<A>, i: int, k: int)
    requires
        0 <= i,
        0 <= k,
        i + k <= s.len(),
    ensures
        s.skip(i).skip(k) == s.skip(i + k),
        s.skip(i).len() > 0 ==> s.skip(i).drop_first() == s.skip(i + 1),
{
    assert(s.skip(i).skip(k) =~= s.skip(i + k));
    if s.skip(i).len() > 0 {
        assert(s.skip(i).drop_first() =~= s.skip(i + 1));
    }
}

/// `wild` on what follows position `i` of the pattern and `j` of the path.
fn wild_from(p: &Vec<char>, i: usize, t: &Vec<char>, j: usize) -> (r: bool)
    requires
        i <= p@.len(),
        j <= t@.len(),
    ensures
        r == wild(p@.skip(i as int), t@.skip(j as int)),
    decreases p@.len() - i, t@.len() - j,
{
    proof {
        lemma_skip_skip(p@, i as int, 0);
        lemma_skip_skip(t@, j as int, 0);
        if i + 2 <= p@.len() {
            lemma_skip_skip(p@, i as int, 2);
        }
        if j < t@.len() {
            assert(t@.skip(j as int)[0] == t@[j as int]);
        }
        if i < p@.len() {
            assert(p@.skip(i as int)[0] == p@[i as int]);
        }
        if i + 1 < p@.len() {
            assert(p@.skip(i as int)[1] == p@[i + 1]);
        }
    }
    if i == p.len() {
        return j == t.len();
    }
    if i + 1 < p.len() && p[i] == '*' && p[i + 1] == '*' {
        if wild_from(p, i + 2, t, j) {
            return true;
        }
        return j < t.len() && wild_from(p, i, t, j + 1);
    }
    if p[i] == '*' {
        if wild_from(p, i + 1, t, j) {
            return true;
        }
        return j < t.len() && t[j] != '/' && wild_from(p, i, t, j + 1);
    }
    j < t.len() && t[j] == p[i] && wild_from(p, i + 1, t, j + 1)
}

fn wild_match(p: &Vec<char>, t: &Vec<char>) -> (r: bool)
    ensures
        r == wild(p@, t@),
{
    assert(p@.skip(0) =~= p@);
    assert(t@.skip(0) =~= t@);
    wild_from(p, 0, t, 0)
}

/// Position of the last `/` of `t`, as `last_index` gives it.
fn last_slash(t: &Vec<char>) -> (r: Option<usize>)
    ensures
        match r {
            Some(k) => last_index(t@, '/') == k && k < t@.len(),
            None => last_index(t@, '/') < 0,
        },
{
    let s = string_of(t);
    proof {
        crate::text::lemma_last_index(t@, '/');
    }
    crate::text::rfind_char(s.as_str(), '/')
}

/// Whether the pattern matches the file.
pub fn entry_pattern_matches(project_dir: &str, pattern: &str, file: &str) -> (r: bool)
    ensures
        r == entry_matches(project_dir@, pattern@, file@),
{
    let relative = relative_path_text(project_dir, file);
    let p = chars_of(pattern);
    if wild_match(&p, &relative) {
        return true;
    }
    if last_slash(&p).is_some() {
        return false;
    }
    let name = match last_slash(&relative) {
        Some(k) => {
            let n = relative.len();
            assert(k < n);
            crate::text::skip_chars(&relative, k + 1)
        },
        None => crate::text::take_chars(&relative, relative.len()),
    };
    proof {
        assert(relative@.take(relative@.len() as int) =~= relative@);
    }
    wild_match(&p, &name)
}

fn any_pattern_matches(project_dir: &str, patterns: &Vec<String>, file: &str) -> (r: bool)
    ensures
        r == any_matches(project_dir@, patterns@, file@),
{
    let mut i: usize = 0;
    while i < patterns.len()
        invariant
            i <= patterns@.len(),
            forall|k: int| 0 <= k < i ==> !entry_matches(project_dir@, #[trigger] patterns@[k]@, file@),
        decreases patterns@.len() - i,
    {
        if entry_pattern_matches(project_dir, patterns[i].as_str(), file) {
            return true;
        }
        i = i + 1;
    }
    false
}

/// The names of the root groups whose entry points match the file, in
/// order.
pub fn root_groups_for_file(config: &LoadedProjectConfig, file: &str) -> (r: Vec<String>)
    ensures
        views(r@) == file_groups(config.project_dir@, config.root_groups@, file@),
{
    let groups = &config.root_groups;
    let mut out: Vec<String> = Vec::new();
    let mut i: usize = 0;
    while i < groups.len()
        invariant
            i <= groups@.len(),
            *groups == config.root_groups,
            views(out@) == file_groups(config.project_dir@, groups@.take(i as int), file@),
        decreases groups@.len() - i,
    {
        let ghost t = groups@.take(i + 1);
        assert(t.drop_last() =~= groups@.take(i as int));
        assert(t.last() == groups@[i as int]);
        if any_pattern_matches(config.project_dir.as_str(), &groups[i].entrypoints, file) {
            let ghost before = views(out@);
            out.push(copy_string(&groups[i].name));
            assert(views(out@) =~= before.push(groups@[i as int].name@));
        }
        i = i + 1;
    }
    assert(groups@.take(groups@.len() as int) =~= groups@);
    out
}

/// Whether the file is a test file: one of the test patterns matches it.
pub fn is_test_file(config: &LoadedProjectConfig, file: &str) -> (r: bool)
    ensures
        r == any_matches(config.project_dir@, config.test_patterns@, file@),
{
    any_pattern_matches(config.project_dir.as_str(), &config.test_patterns, file)
}

/// A symbol that a test runner calls: a function or method named `test…`.
pub open spec fn is_test_symbol(s: IndexedSymbol) -> bool {
    (s.kind == SymbolKind::Function || s.kind == SymbolKind::Method) && has_prefix(s.name@, "test"@)
}

/// The roots one group gets from a test module: its test functions and
/// methods, then its `autouse` fixtures.
pub open spec fn test_roots(group: Seq<char>, symbols: Seq<IndexedSymbol>, fixtures: Seq<PytestFixture>) -> Seq<(Seq<char>, Seq<char>)> {
    symbols.filter(|s: IndexedSymbol| is_test_symbol(s)).map_values(|s: IndexedSymbol| (group, s.qualified_name@))
        + fixtures.filter(|f: PytestFixture| f.autouse).map_values(|f: PytestFixture| (group, f.function@))
}

/// The roots a module gives the groups whose entry points match its file:
/// the module itself for each such group, with the test functions and
/// `autouse` fixtures of a test module; then the module for the primary
/// group when the module has an entry guard.
pub open spec fn entry_roots(
    module: Seq<char>,
    symbols: Seq<IndexedSymbol>,
    fixtures: Seq<PytestFixture>,
    primary: Seq<char>,
    groups: Seq<Seq<char>>,
    is_test: bool,
    main_entry: bool,
) -> Seq<(Seq<char>, Seq<char>)>
    decreases groups.len(),
{
    if groups.len() == 0 {
        if main_entry {
            seq![(primary, module)]
        } else {
            Seq::empty()
        }
    } else {
        let g = groups[0];
        seq![(g, module)] + (if is_test {
            test_roots(g, symbols, fixtures)
        } else {
            Seq::empty()
        }) + entry_roots(module, symbols, fixtures, primary, groups.drop_first(), is_test, main_entry)
    }
}

pub open spec fn root_views(v: Seq<RootSymbol>) -> Seq<(Seq<char>, Seq<char>)> {
    v.map_values(|r: RootSymbol| (r.group@, r.symbol@))
}

fn push_root(out: &mut Vec<RootSymbol>, group: &String, symbol: &String)
    ensures
        root_views(final(out)@) == root_views(old(out)@).push((group@, symbol@)),
{
    let ghost before = root_views(out@);
    let r = RootSymbol { group: copy_string(group), symbol: copy_string(symbol) };
    out.push(r);
    assert(root_views(out@) =~= before.push((group@, symbol@)));
}

fn starts_with_test(s: &String) -> (r: bool)
    ensures
        r == has_prefix(s@, "test"@),
{
    crate::text::starts_with(s.as_str(), "test")
}

/// Appends the roots that group `group` gets from a test module.
fn push_test_roots(out: &mut Vec<RootSymbol>, group: &String, symbols: &Vec<IndexedSymbol>, fixtures: &Vec<PytestFixture>)
    ensures
        root_views(final(out)@) == root_views(old(out)@) + test_roots(group@, symbols@, fixtures@),
{
    let ghost start = root_views(out@);
    let mut i: usize = 0;
    while i < symbols.len()
        invariant
            i <= symbols@.len(),
            root_views(out@) == start + symbols@.take(i as int).filter(|s: IndexedSymbol| is_test_symbol(s)).map_values(
                |s: IndexedSymbol| (group@, s.qualified_name@),
            ),
        decreases symbols@.len() - i,
    {
        let ghost t = symbols@.take(i + 1);
        assert(t.drop_last() =~= symbols@.take(i as int));
        assert(t.last() == symbols@[i as int]);
        let s = &symbols[i];
        let callable = match s.kind {
            SymbolKind::Function => true,
            SymbolKind::Method => true,
            _ => false,
        };
        if callable && starts_with_test(&s.name) {
            push_root(out, group, &s.qualified_name);
        }
        assert(t.filter(|s: IndexedSymbol| is_test_symbol(s)) =~= if is_test_symbol(t.last()) {
            symbols@.take(i as int).filter(|s: IndexedSymbol| is_test_symbol(s)).push(t.last())
        } else {
            symbols@.take(i as int).filter(|s: IndexedSymbol| is_test_symbol(s))
        }) by {
            reveal(Seq::filter);
        }
        i = i + 1;
    }
    assert(symbols@.take(symbols@.len() as int) =~= symbols@);
    let ghost middle = root_views(out@);
    let mut k: usize = 0;
    while k < fixtures.len()
        invariant
            k <= fixtures@.len(),
            root_views(out@) == middle + fixtures@.take(k as int).filter(|f: PytestFixture| f.autouse).map_values(
                |f: PytestFixture| (group@, f.function@),
            ),
        decreases fixtures@.len() - k,
    {
        let ghost t = fixtures@.take(k + 1);
        assert(t.drop_last() =~= fixtures@.take(k as int));
        assert(t.last() == fixtures@[k as int]);
        if fixtures[k].autouse {
            push_root(out, group, &fixtures[k].function);
        }
        assert(t.filter(|f: PytestFixture| f.autouse) =~= if t.last().autouse {
            fixtures@.take(k as int).filter(|f: PytestFixture| f.autouse).push(t.last())
        } else {
            fixtures@.take(k as int).filter(|f: PytestFixture| f.autouse)
        }) by {
            reveal(Seq::filter);
        }
        k = k + 1;
    }
    assert(fixtures@.take(fixtures@.len() as int) =~= fixtures@);
}

/// The roots a module gives its root groups.
pub fn root_symbols_for_module(
    module: &String,
    symbols: &Vec<IndexedSymbol>,
    fixtures: &Vec<PytestFixture>,
    primary: &String,
    groups: &Vec<String>,
    is_test: bool,
    main_entry: bool,
) -> (r: Vec<RootSymbol>)
    ensures
        root_views(r@) == entry_roots(module@, symbols@, fixtures@, primary@, views(groups@), is_test, main_entry),
{
    let mut out: Vec<RootSymbol> = Vec::new();
    let mut i: usize = 0;
    assert(root_views(out@) =~= Seq::<(Seq<char>, Seq<char>)>::empty());
    assert(views(groups@).skip(0) =~= views(groups@));
    assert(root_views(out@) + entry_roots(module@, symbols@, fixtures@, primary@, views(groups@), is_test, main_entry)
        =~= entry_roots(module@, symbols@, fixtures@, primary@, views(groups@), is_test, main_entry));
    while i < groups.len()
        invariant
            i <= groups@.len(),
            root_views(out@) + entry_roots(module@, symbols@, fixtures@, primary@, views(groups@).skip(i as int), is_test, main_entry)
                == entry_roots(module@, symbols@, fixtures@, primary@, views(groups@), is_test, main_entry),
        decreases groups@.len() - i,
    {
        let ghost rest = views(groups@).skip(i as int);
        assert(rest[0] == groups@[i as int]@);
        assert(rest.drop_first() =~= views(groups@).skip(i + 1));
        let ghost before = root_views(out@);
        push_root(&mut out, &groups[i], module);
        if is_test {
            push_test_roots(&mut out, &groups[i], symbols, fixtures);
        }
        let ghost added = (seq![(groups@[i as int]@, module@)] + (if is_test {
            test_roots(groups@[i as int]@, symbols@, fixtures@)
        } else {
            Seq::empty()
        }));
        assert(root_views(out@) =~= before + added);
        assert(before + entry_roots(module@, symbols@, fixtures@, primary@, rest, is_test, main_entry) =~= root_views(out@)
            + entry_roots(module@, symbols@, fixtures@, primary@, views(groups@).skip(i + 1), is_test, main_entry));
        i = i + 1;
    }
    assert(views(groups@).skip(i as int).len() == 0);
    if main_entry {
        push_root(&mut out, primary, module);
    }
    assert(root_views(out@) =~= entry_roots(module@, symbols@, fixtures@, primary@, views(groups@), is_test, main_entry));
    out
}

} // verus!
