//! Putting a project's index together: route globs resolved against the
//! indexed modules, modules in a stable order, source positions, and the
//! report of one analysis.
use vstd::prelude::*;

use crate::analysis::{find_unused_symbols, finding_views, groups_computed, reported, candidates, symbol_entries, GroupLive};
use crate::config::{LoadedProjectConfig, RouteGlobRule};
use crate::diagnostics::{
    diagnostic_view, diagnostic_views, expansion_entries, expansion_warnings, ordered_as, receiver_entries,
    receiver_warnings, unresolved_receiver_diagnostics, unsupported_expansion_diagnostics,
};
use crate::analysis::live_result;
use crate::index::{heads_with_module, ModuleIndex, ParseDiagnostic, ResolvedRouteGlob, SymbolIndex};
use crate::order::{is_permutation, key_less, key_view, listed, sort_order, KeyView, SortKey};
use crate::paths::{parts_prefix, path_components, path_parts};
use crate::report::{AnalysisReport, Diagnostic, Finding, SourceSpan};
use crate::text::{chars_of, copy_string, has_prefix, has_suffix, string_of, views};

verus! {

// ---------------------------------------------------------------------------
// Route globs
// ---------------------------------------------------------------------------

/// Components joined by `/`.
pub open spec fn slash_join(parts: Seq<Seq<char>>) -> Seq<char>
    decreases parts.len(),
{
    if parts.len() == 0 {
        Seq::empty()
    } else if parts.len() == 1 {
        parts[0]
    } else {
        slash_join(parts.drop_last()) + seq!['/'] + parts.last()
    }
}

/// Every `\` turned into `/`.
pub open spec fn forward_slashes(s: Seq<char>) -> Seq<char> {
    Seq::new(s.len(), |i: int| if s[i] == '\\' { '/' } else { s[i] })
}

/// The file's path relative to the project directory, as text with `/`
/// separators: its components below the directory joined by `/`, or the
/// path itself when it does not lie below it.
pub open spec fn relative_text(project_dir: Seq<char>, file: Seq<char>) -> Seq<char> {
    let base = path_parts(project_dir);
    let parts = path_parts(file);
    if parts_prefix(base, parts) {
        forward_slashes(slash_join(parts.skip(base.len() as int)))
    } else {
        forward_slashes(file)
    }
}

/// Position of the first `**` in `s` at or after `i`, or -1.
pub open spec fn double_star_from(s: Seq<char>, i: int) -> int
    decreases s.len() - i,
{
    if i < 0 || i + 1 >= s.len() {
        -1
    } else if s[i] == '*' && s[i + 1] == '*' {
        i
    } else {
        double_star_from(s, i + 1)
    }
}

/// `s` without its leading `/` characters.
pub open spec fn without_leading_slashes(s: Seq<char>) -> Seq<char>
    decreases s.len(),
{
    if s.len() > 0 && s[0] == '/' {
        without_leading_slashes(s.drop_first())
    } else {
        s
    }
}

/// A route glob matches a relative path: with a `**`, the path starts with
/// what comes before it and ends with what comes after it (leading slashes
/// dropped); without one, the path is the pattern.
pub open spec fn glob_matches(pattern: Seq<char>, relative: Seq<char>) -> bool {
    let k = double_star_from(pattern, 0);
    if k < 0 {
        relative == pattern
    } else {
        has_prefix(relative, pattern.take(k)) && has_suffix(relative, without_leading_slashes(pattern.skip(k + 2)))
    }
}

proof fn lemma_double_star(s: Seq<char>, i: int)
    requires
        0 <= i,
    ensures
        double_star_from(s, i) == -1 || (i <= double_star_from(s, i) && double_star_from(s, i) + 1 < s.len()),
    decreases s.len() - i,
{
    if i + 1 < s.len() && !(s[i] == '*' && s[i + 1] == '*') {
        lemma_double_star(s, i + 1);
    }
}

pub(crate) fn relative_path_text(project_dir: &str, file: &str) -> (r: Vec<char>)
    ensures
        r@ == relative_text(project_dir@, file@),
{
    let base = path_components(project_dir);
    let parts = path_components(file);
    let mut text: Vec<char> = Vec::new();
    let mut below = base.len() <= parts.len();
    let mut i: usize = 0;
    while below && i < base.len()
        invariant
            base@.len() <= parts@.len() || !below,
            i <= base@.len(),
            below ==> forall|j: int| 0 <= j < i ==> base@[j]@ == parts@[j]@,
            !below ==> !parts_prefix(views(base@), views(parts@)),
        decreases base@.len() - i,
    {
        if !crate::text::same_text(base[i].as_str(), parts[i].as_str()) {
            assert(views(parts@).take(base@.len() as int)[i as int] != views(base@)[i as int]);
            below = false;
        }
        i = i + 1;
    }
    if below {
        assert(views(parts@).take(base@.len() as int) =~= views(base@));
        let mut k: usize = base.len();
        assert(views(parts@).skip(base@.len() as int).take(0) =~= Seq::<Seq<char>>::empty());
        while k < parts.len()
            invariant
                base@.len() <= k <= parts@.len(),
                text@ == slash_join(views(parts@).skip(base@.len() as int).take(k - base@.len())),
            decreases parts@.len() - k,
        {
            let ghost rest = views(parts@).skip(base@.len() as int);
            let ghost t = rest.take(k + 1 - base@.len());
            assert(t.drop_last() =~= rest.take(k - base@.len()));
            assert(t.last() == parts@[k as int]@);
            if k > base.len() {
                text.push('/');
            }
            let piece = chars_of(parts[k].as_str());
            let ghost before = text@;
            let mut c: usize = 0;
            while c < piece.len()
                invariant
                    c <= piece@.len(),
                    text@ == before + piece@.take(c as int),
                decreases piece@.len() - c,
            {
                text.push(piece[c]);
                assert(piece@.take(c + 1) =~= piece@.take(c as int).push(piece@[c as int]));
                c = c + 1;
            }
            assert(piece@.take(piece@.len() as int) =~= piece@);
            if k == base.len() {
                assert(t.len() == 1);
                assert(text@ =~= t[0]);
            } else {
                assert(text@ =~= slash_join(t.drop_last()) + seq!['/'] + t.last());
            }
            k = k + 1;
        }
        assert(views(parts@).skip(base@.len() as int).take(parts@.len() - base@.len()) =~= views(parts@).skip(
            base@.len() as int,
        ));
    } else {
        text = chars_of(file);
    }
    let ghost joined = text@;
    let mut out: Vec<char> = Vec::new();
    let mut j: usize = 0;
    while j < text.len()
        invariant
            text@ == joined,
            j <= text@.len(),
            out@ == forward_slashes(joined).take(j as int),
        decreases text@.len() - j,
    {
        let c = text[j];
        out.push(if c == '\\' { '/' } else { c });
        assert(out@ =~= forward_slashes(joined).take(j + 1));
        j = j + 1;
    }
    assert(out@ =~= forward_slashes(joined));
    out
}

/// Whether a route glob matches a relative path.
fn glob_matches_text(pattern: &Vec<char>, relative: &Vec<char>) -> (r: bool)
    ensures
        r == glob_matches(pattern@, relative@),
{
    proof {
        lemma_double_star(pattern@, 0);
    }
    let mut k: usize = 0;
    let mut found = false;
    while !found && k < pattern.len() && pattern.len() - k > 1
        invariant
            k <= pattern@.len(),
            !found ==> double_star_from(pattern@, 0) == double_star_from(pattern@, k as int),
            found ==> k + 1 < pattern@.len() && double_star_from(pattern@, 0) == k,
        decreases pattern@.len() - k, (if found { 0int } else { 1int }),
    {
        if pattern[k] == '*' && pattern[k + 1] == '*' {
            found = true;
        } else {
            k = k + 1;
        }
    }
    if !found {
        let same = crate::text::same_chars(pattern, relative);
        return same;
    }
    let ghost star = k as int;
    assert(double_star_from(pattern@, 0) == star);
    let n = pattern.len();
    assert(k + 1 < n);
    let mut s: usize = k + 2;
    while s < pattern.len() && pattern[s] == '/'
        invariant
            k + 2 <= s <= pattern@.len(),
            without_leading_slashes(pattern@.skip(k + 2)) == without_leading_slashes(pattern@.skip(s as int)),
        decreases pattern@.len() - s,
    {
        assert(pattern@.skip(s as int).drop_first() =~= pattern@.skip(s + 1));
        s = s + 1;
    }
    assert(s < pattern@.len() ==> pattern@.skip(s as int)[0] != '/');
    let prefix = crate::text::take_chars(pattern, k);
    let suffix = crate::text::skip_chars(pattern, s);
    assert(suffix@ == without_leading_slashes(pattern@.skip(s as int)));
    crate::text::chars_have_prefix(relative, &prefix) && crate::text::chars_have_suffix(relative, &suffix)
}

/// Whether the file lies under the route glob.
pub fn route_glob_matches(project_dir: &str, pattern: &str, file: &str) -> (r: bool)
    ensures
        r == glob_matches(pattern@, relative_text(project_dir@, file@)),
{
    let relative = relative_path_text(project_dir, file);
    let p = chars_of(pattern);
    glob_matches_text(&p, &relative)
}

/// The modules of `mods` whose files the glob matches, in order.
pub open spec fn glob_modules(project_dir: Seq<char>, glob: Seq<char>, mods: Seq<ModuleIndex>) -> Seq<Seq<char>>
    decreases mods.len(),
{
    if mods.len() == 0 {
        Seq::empty()
    } else {
        let rest = glob_modules(project_dir, glob, mods.drop_last());
        if glob_matches(glob, relative_text(project_dir, mods.last().file@)) {
            rest.push(mods.last().module@)
        } else {
            rest
        }
    }
}

/// Each route glob rule with the modules whose files it matches.
pub fn resolve_route_globs(config: &LoadedProjectConfig, modules: &Vec<ModuleIndex>) -> (r: Vec<ResolvedRouteGlob>)
    ensures
        r@.len() == config.rules.route_globs@.len(),
        forall|i: int|
            0 <= i < r@.len() ==> (#[trigger] r@[i]).when_function_called@ == config.rules.route_globs@[i].when_function_called@
                && views(r@[i].modules@) == glob_modules(config.project_dir@, config.rules.route_globs@[i].glob@, modules@),
{
    let rules = &config.rules.route_globs;
    let mut out: Vec<ResolvedRouteGlob> = Vec::new();
    let mut i: usize = 0;
    while i < rules.len()
        invariant
            *rules == config.rules.route_globs,
            i <= rules@.len(),
            out@.len() == i,
            forall|k: int|
                0 <= k < i ==> (#[trigger] out@[k]).when_function_called@ == rules@[k].when_function_called@ && views(
                    out@[k].modules@,
                ) == glob_modules(config.project_dir@, rules@[k].glob@, modules@),
        decreases rules@.len() - i,
    {
        let rule: &RouteGlobRule = &rules[i];
        let mut names: Vec<String> = Vec::new();
        let mut m: usize = 0;
        assert(modules@.take(0) =~= Seq::<ModuleIndex>::empty());
        while m < modules.len()
            invariant
                m <= modules@.len(),
                views(names@) == glob_modules(config.project_dir@, rule.glob@, modules@.take(m as int)),
            decreases modules@.len() - m,
        {
            let ghost t = modules@.take(m + 1);
            assert(t.drop_last() =~= modules@.take(m as int));
            assert(t.last() == modules@[m as int]);
            if route_glob_matches(config.project_dir.as_str(), rule.glob.as_str(), modules[m].file.as_str()) {
                let ghost before = views(names@);
                names.push(copy_string(&modules[m].module));
                assert(views(names@) =~= before.push(modules@[m as int].module@));
            }
            m = m + 1;
        }
        assert(modules@.take(modules@.len() as int) =~= modules@);
        out.push(ResolvedRouteGlob { when_function_called: copy_string(&rule.when_function_called), modules: names });
        i = i + 1;
    }
    out
}

// ---------------------------------------------------------------------------
// Source positions
// ---------------------------------------------------------------------------

/// The byte offsets at which the lines of `src` start: 0, then one past
/// each newline.
pub open spec fn line_starts_of(src: Seq<u8>) -> Seq<usize>
    decreases src.len(),
{
    if src.len() == 0 {
        seq![0usize]
    } else {
        let rest = line_starts_of(src.drop_last());
        if src.last() == 10u8 {
            rest.push(src.len() as usize)
        } else {
            rest
        }
    }
}

/// Line starts of a source text, to turn byte offsets into lines and
/// columns.
pub struct SourceLocator {
    pub line_starts: Vec<usize>,
}

/// The starts begin at 0 and strictly increase.
pub open spec fn starts_ok(starts: Seq<usize>) -> bool {
    &&& starts.len() >= 1
    &&& starts[0] == 0
    &&& forall|i: int, j: int| 0 <= i < j < starts.len() ==> starts[i] < starts[j]
}

proof fn lemma_starts_ok(src: Seq<u8>)
    requires
        src.len() <= usize::MAX,
    ensures
        starts_ok(line_starts_of(src)),
        forall|i: int| 0 <= i < line_starts_of(src).len() ==> #[trigger] line_starts_of(src)[i] <= src.len(),
    decreases src.len(),
{
    if src.len() > 0 {
        let d = src.drop_last();
        lemma_starts_ok(d);
        let rest = line_starts_of(d);
        if src.last() == 10u8 {
            let all = rest.push(src.len() as usize);
            assert(line_starts_of(src) == all);
            assert forall|i: int, j: int| 0 <= i < j < all.len() implies all[i] < all[j] by {
                if j == all.len() - 1 {
                    assert(all[i] == rest[i]);
                    assert(rest[i] <= d.len());
                } else {
                    assert(all[i] == rest[i] && all[j] == rest[j]);
                }
            }
            assert forall|i: int| 0 <= i < all.len() implies #[trigger] all[i] <= src.len() by {
                if i < rest.len() {
                    assert(all[i] == rest[i]);
                    assert(rest[i] <= d.len());
                }
            }
        } else {
            assert(line_starts_of(src) == rest);
            assert forall|i: int| 0 <= i < rest.len() implies #[trigger] rest[i] <= src.len() by {
                assert(rest[i] <= d.len());
            }
        }
    }
}

impl SourceLocator {
    /// The line starts of `source` (`SourceLocator::new`).
    pub fn new(source: &[u8]) -> (r: Self)
        ensures
            r.line_starts@ == line_starts_of(source@),
    {
        let mut starts: Vec<usize> = Vec::new();
        starts.push(0);
        let mut i: usize = 0;
        assert(source@.take(0) =~= Seq::<u8>::empty());
        while i < source.len()
            invariant
                i <= source@.len(),
                starts@ == line_starts_of(source@.take(i as int)),
            decreases source@.len() - i,
        {
            let ghost t = source@.take(i + 1);
            assert(t.drop_last() =~= source@.take(i as int));
            assert(t.last() == source@[i as int]);
            if source[i] == 10u8 {
                starts.push(i + 1);
            }
            i = i + 1;
        }
        assert(source@.take(source@.len() as int) =~= source@);
        SourceLocator { line_starts: starts }
    }

    /// The line and column of a byte offset: the line is the last one that
    /// starts at or before it, counted from 1, and the column counts bytes
    /// from that start, from 1.
    pub fn span_from_range_string(&self, file: &str, offset: usize) -> (r: SourceSpan)
        requires
            starts_ok(self.line_starts@),
            offset < usize::MAX,
        ensures
            r.file@ == file@,
            1 <= r.line <= self.line_starts@.len(),
            self.line_starts@[r.line - 1] <= offset,
            r.line < self.line_starts@.len() ==> self.line_starts@[r.line as int] > offset,
            r.column == offset - self.line_starts@[r.line - 1] + 1,
    {
        let starts = &self.line_starts;
        let mut k: usize = 1;
        while k < starts.len() && starts[k] <= offset
            invariant
                starts_ok(starts@),
                1 <= k <= starts@.len(),
                starts@[k - 1] <= offset,
            decreases starts@.len() - k,
        {
            k = k + 1;
        }
        SourceSpan::new(file, k, offset - starts[k - 1] + 1)
    }
}

/// A locator for `source`, whose starts are in order.
pub fn locate(source: &[u8]) -> (r: SourceLocator)
    ensures
        r.line_starts@ == line_starts_of(source@),
        starts_ok(r.line_starts@),
{
    proof {
        assert(source@.len() == source.len());
        lemma_starts_ok(source@);
    }
    SourceLocator::new(source)
}

// ---------------------------------------------------------------------------
// The index of a project
// ---------------------------------------------------------------------------

/// Modules are ordered by name, then file.
pub open spec fn module_key(m: ModuleIndex) -> KeyView {
    (m.module@, 0nat, m.file@)
}

/// `r` is `mods` in a stable order by `module_key`.
pub open spec fn modules_ordered(mods: Seq<ModuleIndex>, r: Seq<ModuleIndex>) -> bool {
    exists|perm: Seq<usize>|
        {
            &&& #[trigger] is_permutation(perm, mods.len())
            &&& r.len() == mods.len()
            &&& forall|i: int| 0 <= i < r.len() ==> r[i] == mods[#[trigger] perm[i] as int]
            &&& forall|i: int, j: int|
                0 <= i < j < r.len() ==> !key_less(module_key(#[trigger] r[j]), module_key(#[trigger] r[i]))
            &&& forall|i: int, j: int|
                #![trigger perm[i], perm[j]]
                0 <= i < j < r.len() && module_key(r[i]) == module_key(r[j]) ==> perm[i] < perm[j]
        }
}

/// Sorts modules by name, then file, keeping the order of equals.
pub fn sort_modules(modules: Vec<ModuleIndex>) -> (r: Vec<ModuleIndex>)
    ensures
        modules_ordered(modules@, r@),
{
    let ghost orig = modules@;
    let mut keys: Vec<SortKey> = Vec::new();
    let mut i: usize = 0;
    while i < modules.len()
        invariant
            modules@ == orig,
            i <= modules@.len(),
            keys@.len() == i,
            forall|j: int| 0 <= j < i ==> key_view(#[trigger] keys@[j]) == module_key(orig[j]),
        decreases modules@.len() - i,
    {
        keys.push(SortKey { first: copy_string(&modules[i].module), number: 0, second: copy_string(&modules[i].file) });
        i = i + 1;
    }
    let perm = sort_order(&keys);
    let mut work = modules;
    let mut ids: Vec<usize> = Vec::new();
    let mut q: usize = 0;
    while q < work.len()
        invariant
            work@ == orig,
            q <= work@.len(),
            ids@.len() == q,
            forall|j: int| 0 <= j < q ==> #[trigger] ids@[j] == j,
        decreases work@.len() - q,
    {
        ids.push(q);
        q = q + 1;
    }
    let mut out: Vec<ModuleIndex> = Vec::new();
    let mut p: usize = 0;
    proof {
        assert forall|v: usize| v < orig.len() implies (listed(ids@, v) <==> !listed(perm@.take(0), v)) by {
            assert(ids@[v as int] == v);
            assert(perm@.take(0).len() == 0);
        }
    }
    while p < perm.len()
        invariant
            is_permutation(perm@, orig.len()),
            keys@.len() == orig.len(),
            p <= perm@.len(),
            out@.len() == p,
            forall|j: int| 0 <= j < p ==> out@[j] == orig[#[trigger] perm@[j] as int],
            work@.len() == ids@.len(),
            forall|j: int| 0 <= j < ids@.len() ==> #[trigger] ids@[j] < orig.len() && work@[j] == orig[ids@[j] as int],
            forall|a: int, b: int| 0 <= a < b < ids@.len() ==> ids@[a] != ids@[b],
            forall|v: usize| v < orig.len() ==> (listed(ids@, v) <==> !listed(perm@.take(p as int), v)),
        decreases perm@.len() - p,
    {
        let c = perm[p];
        assert(perm@[p as int] < orig.len());
        assert(!listed(perm@.take(p as int), c)) by {
            if listed(perm@.take(p as int), c) {
                let k = choose|k: int| 0 <= k < perm@.take(p as int).len() && perm@.take(p as int)[k] == c;
                assert(perm@[k] == perm@[p as int]);
            }
        }
        assert(listed(ids@, c));
        let mut at: usize = 0;
        while at < ids.len() && ids[at] != c
            invariant
                at <= ids@.len(),
                listed(ids@, c),
                forall|j: int| 0 <= j < at ==> ids@[j] != c,
            decreases ids@.len() - at,
        {
            at = at + 1;
        }
        assert(at < ids@.len()) by {
            if at >= ids@.len() {
                let k = choose|k: int| 0 <= k < ids@.len() && ids@[k] == c;
                assert(ids@[k] != c);
            }
        }
        let ghost ids0 = ids@;
        let ghost work0 = work@;
        let m = work.remove(at);
        ids.remove(at);
        out.push(m);
        proof {
            assert(m == orig[c as int]);
            assert forall|j: int| 0 <= j < ids@.len() implies #[trigger] ids@[j] < orig.len() && work@[j] == orig[ids@[j] as int] by {
                if j < at {
                    assert(ids@[j] == ids0[j] && work@[j] == work0[j]);
                } else {
                    assert(ids@[j] == ids0[j + 1] && work@[j] == work0[j + 1]);
                }
            }
            assert forall|a: int, b: int| 0 <= a < b < ids@.len() implies ids@[a] != ids@[b] by {
                let a0 = if a < at { a } else { a + 1 };
                let b0 = if b < at { b } else { b + 1 };
                assert(ids@[a] == ids0[a0] && ids@[b] == ids0[b0]);
            }
            assert forall|v: usize| v < orig.len() implies (listed(ids@, v) <==> !listed(perm@.take(p + 1), v)) by {
                let t0 = perm@.take(p as int);
                let t1 = perm@.take(p + 1);
                assert(t1 =~= t0.push(c));
                if listed(ids@, v) {
                    let k = choose|k: int| 0 <= k < ids@.len() && ids@[k] == v;
                    let k0 = if k < at { k } else { k + 1 };
                    assert(ids0[k0] == v);
                    assert(listed(ids0, v));
                    assert(v != c) by {
                        if v == c {
                            assert(ids0[at as int] == c);
                            assert(k0 != at);
                        }
                    }
                    if listed(t1, v) {
                        let k2 = choose|k2: int| 0 <= k2 < t1.len() && t1[k2] == v;
                        if k2 < p {
                            assert(t0[k2] == v);
                        }
                    }
                } else {
                    if v != c {
                        if !listed(t0, v) {
                            assert(listed(ids0, v));
                            let k = choose|k: int| 0 <= k < ids0.len() && ids0[k] == v;
                            assert(k != at);
                            let k1 = if k < at { k } else { k - 1 };
                            assert(ids@[k1] == v);
                        }
                        let k2 = choose|k2: int| 0 <= k2 < t0.len() && t0[k2] == v;
                        assert(t1[k2] == v);
                    } else {
                        assert(t1[p as int] == v);
                    }
                }
            }
        }
        p = p + 1;
    }
    proof {
        assert forall|a: int, b: int| 0 <= a < b < out@.len() implies !key_less(module_key(#[trigger] out@[b]), module_key(#[trigger] out@[a])) by {
            assert(key_view(keys@[perm@[a] as int]) == module_key(orig[perm@[a] as int]));
            assert(key_view(keys@[perm@[b] as int]) == module_key(orig[perm@[b] as int]));
        }
        assert forall|a: int, b: int|
            #![trigger perm@[a], perm@[b]]
            0 <= a < b < out@.len() && module_key(out@[a]) == module_key(out@[b]) implies perm@[a] < perm@[b] by {
            assert(key_view(keys@[perm@[a] as int]) == module_key(orig[perm@[a] as int]));
            assert(key_view(keys@[perm@[b] as int]) == module_key(orig[perm@[b] as int]));
        }
    }
    out
}

/// Some test module of `mods` has roots.
pub open spec fn test_roots(mods: Seq<ModuleIndex>) -> bool {
    exists|m: int| 0 <= m < mods.len() && (#[trigger] mods[m]).is_test && mods[m].root_symbols@.len() > 0
}

/// The names of the groups that count as use, in order.
pub open spec fn counting_names(groups: Seq<crate::config::LoadedRootGroup>) -> Seq<Seq<char>>
    decreases groups.len(),
{
    if groups.len() == 0 {
        Seq::empty()
    } else {
        let rest = counting_names(groups.drop_last());
        if groups.last().counts_as_used {
            rest.push(groups.last().name@)
        } else {
            rest
        }
    }
}

/// The index of a project from its loaded configuration and the modules
/// indexed from its files: the root groups of the
/// configuration (the first is primary, `main` when there is none), the
/// class surfaces of its rules, the modules ordered by name then file, test
/// code analysed when the configuration asks for it or a test module has
/// roots, and the route globs resolved against the ordered modules.
pub fn index_project(
    config: &LoadedProjectConfig,
    modules: Vec<ModuleIndex>,
    parse_diagnostics: Vec<ParseDiagnostic>,
) -> (r: SymbolIndex)
    requires
        forall|i: int| 0 <= i < modules@.len() ==> heads_with_module(#[trigger] modules@[i]),
    ensures
        forall|i: int| 0 <= i < r.modules@.len() ==> heads_with_module(#[trigger] r.modules@[i]),
        r.primary_root_group@ == (if config.root_groups@.len() == 0 {
            "main"@
        } else {
            config.root_groups@[0].name@
        }),
        views(r.root_groups@) == config.root_groups@.map_values(|g: crate::config::LoadedRootGroup| g.name@),
        views(r.counts_as_used_root_groups@) == counting_names(config.root_groups@),
        views(r.class_surfaces@) == config.rules.class_surfaces@.map_values(|c: crate::config::ClassSurfaceRule| c.base@),
        modules_ordered(modules@, r.modules@),
        r.parse_diagnostics == parse_diagnostics,
        r.include_tests == (config.include_tests || test_roots(r.modules@)),
        r.route_globs@.len() == config.rules.route_globs@.len(),
        forall|i: int|
            0 <= i < r.route_globs@.len() ==> (#[trigger] r.route_globs@[i]).when_function_called@
                == config.rules.route_globs@[i].when_function_called@ && views(r.route_globs@[i].modules@) == glob_modules(
                config.project_dir@,
                config.rules.route_globs@[i].glob@,
                r.modules@,
            ),
{
    let groups = &config.root_groups;
    let primary = if groups.len() == 0 {
        String::from_str("main")
    } else {
        copy_string(&groups[0].name)
    };
    let mut names: Vec<String> = Vec::new();
    let mut counting: Vec<String> = Vec::new();
    let mut i: usize = 0;
    assert(groups@.take(0) =~= Seq::<crate::config::LoadedRootGroup>::empty());
    while i < groups.len()
        invariant
            *groups == config.root_groups,
            i <= groups@.len(),
            names@.len() == i,
            forall|k: int| 0 <= k < i ==> #[trigger] names@[k]@ == groups@[k].name@,
            views(counting@) == counting_names(groups@.take(i as int)),
        decreases groups@.len() - i,
    {
        let ghost t = groups@.take(i + 1);
        assert(t.drop_last() =~= groups@.take(i as int));
        assert(t.last() == groups@[i as int]);
        names.push(copy_string(&groups[i].name));
        if groups[i].counts_as_used {
            let ghost before = views(counting@);
            counting.push(copy_string(&groups[i].name));
            assert(views(counting@) =~= before.push(groups@[i as int].name@));
        }
        i = i + 1;
    }
    assert(groups@.take(groups@.len() as int) =~= groups@);
    assert(views(names@) =~= groups@.map_values(|g: crate::config::LoadedRootGroup| g.name@));
    let surfaces_rules = &config.rules.class_surfaces;
    let mut surfaces: Vec<String> = Vec::new();
    let mut s: usize = 0;
    while s < surfaces_rules.len()
        invariant
            *surfaces_rules == config.rules.class_surfaces,
            s <= surfaces_rules@.len(),
            surfaces@.len() == s,
            forall|k: int| 0 <= k < s ==> #[trigger] surfaces@[k]@ == surfaces_rules@[k].base@,
        decreases surfaces_rules@.len() - s,
    {
        surfaces.push(copy_string(&surfaces_rules[s].base));
        s = s + 1;
    }
    assert(views(surfaces@) =~= surfaces_rules@.map_values(|c: crate::config::ClassSurfaceRule| c.base@));
    let ghost given = modules@;
    let sorted = sort_modules(modules);
    proof {
        let perm = choose|perm: Seq<usize>|
            {
                &&& #[trigger] is_permutation(perm, given.len())
                &&& sorted@.len() == given.len()
                &&& forall|i: int| 0 <= i < sorted@.len() ==> sorted@[i] == given[#[trigger] perm[i] as int]
                &&& forall|i: int, j: int|
                    0 <= i < j < sorted@.len() ==> !key_less(module_key(#[trigger] sorted@[j]), module_key(#[trigger] sorted@[i]))
                &&& forall|i: int, j: int|
                    #![trigger perm[i], perm[j]]
                    0 <= i < j < sorted@.len() && module_key(sorted@[i]) == module_key(sorted@[j]) ==> perm[i] < perm[j]
            };
        assert forall|i: int| 0 <= i < sorted@.len() implies heads_with_module(#[trigger] sorted@[i]) by {
            assert(sorted@[i] == given[perm[i] as int]);
            assert(0 <= perm[i] < given.len());
        }
    }
    let mut include_tests = config.include_tests;
    let mut m: usize = 0;
    while m < sorted.len()
        invariant
            m <= sorted@.len(),
            include_tests == (config.include_tests || exists|k: int|
                0 <= k < m && (#[trigger] sorted@[k]).is_test && sorted@[k].root_symbols@.len() > 0),
        decreases sorted@.len() - m,
    {
        if sorted[m].is_test && sorted[m].root_symbols.len() > 0 {
            include_tests = true;
        }
        m = m + 1;
    }
    let route_globs = resolve_route_globs(config, &sorted);
    SymbolIndex {
        modules: sorted,
        parse_diagnostics,
        include_tests,
        root_groups: names,
        counts_as_used_root_groups: counting,
        primary_root_group: primary,
        class_surfaces: surfaces,
        route_globs,
    }
}

// ---------------------------------------------------------------------------
// One analysis
// ---------------------------------------------------------------------------

/// The report of analysing an index: the unused symbols,
/// then as diagnostics the modules that could not be parsed, the receivers
/// whose type could not be resolved and the keyword payloads that could not
/// be expanded in live code.
pub fn analyze_project(index: SymbolIndex) -> (r: AnalysisReport)
    ensures
        exists|groups: Seq<GroupLive>|
            groups_computed(index, groups) && #[trigger] reported(
                candidates(index, groups, symbol_entries(index.modules@)),
                finding_views(r.findings@),
            ),
        exists|d1: Seq<(Seq<char>, crate::report::Severity, Seq<char>, (Seq<char>, usize, usize))>,
            d2: Seq<(Seq<char>, crate::report::Severity, Seq<char>, (Seq<char>, usize, usize))>|
            {
                &&& #[trigger] diagnostic_views(r.diagnostics@) == parse_warnings(index.parse_diagnostics@) + d1 + d2
                &&& exists|live: Seq<String>|
                    #![trigger live_result(index, index.primary_root_group@, live)]
                    live_result(index, index.primary_root_group@, live) && ordered_as(
                        receiver_warnings(live, receiver_entries(index.modules@)),
                        d1,
                    )
                &&& exists|live: Seq<String>|
                    #![trigger live_result(index, index.primary_root_group@, live)]
                    live_result(index, index.primary_root_group@, live) && ordered_as(
                        expansion_warnings(live, expansion_entries(index.modules@)),
                        d2,
                    )
            },
{
    let findings = find_unused_symbols(&index);
    let ghost groups = choose|groups: Seq<GroupLive>|
        groups_computed(index, groups) && #[trigger] reported(
            candidates(index, groups, symbol_entries(index.modules@)),
            finding_views(findings@),
        );
    let unresolved = unresolved_receiver_diagnostics(&index);
    let unsupported = unsupported_expansion_diagnostics(&index);
    let ghost d1 = diagnostic_views(unresolved@);
    let ghost d2 = diagnostic_views(unsupported@);
    let ghost pv = parse_warnings(index.parse_diagnostics@);
    let SymbolIndex { parse_diagnostics, .. } = index;
    let mut diagnostics: Vec<Diagnostic> = Vec::new();
    let mut rest = parse_diagnostics;
    let ghost pds = rest@;
    let mut parsed: Vec<ParseDiagnostic> = Vec::new();
    while rest.len() > 0
        invariant
            rest@.len() + parsed@.len() == pds.len(),
            forall|k: int| 0 <= k < parsed@.len() ==> #[trigger] parsed@[k] == pds[pds.len() - 1 - k],
            forall|k: int| 0 <= k < rest@.len() ==> #[trigger] rest@[k] == pds[k],
        decreases rest@.len(),
    {
        let d = rest.pop().unwrap();
        parsed.push(d);
    }
    while parsed.len() > 0
        invariant
            parsed@.len() <= pds.len(),
            diagnostics@.len() == pds.len() - parsed@.len(),
            forall|k: int| 0 <= k < parsed@.len() ==> #[trigger] parsed@[k] == pds[pds.len() - 1 - k],
            forall|k: int| 0 <= k < diagnostics@.len() ==> #[trigger] diagnostic_view(diagnostics@[k]) == pv[k],
            pv == parse_warnings(pds),
        decreases parsed@.len(),
    {
        let ghost k = diagnostics@.len() as int;
        let d = parsed.pop().unwrap();
        assert(d == pds[k]);
        diagnostics.push(d.into_core_diagnostic());
    }
    let mut j: usize = 0;
    while j < unresolved.len()
        invariant
            j <= unresolved@.len(),
            diagnostics@.len() == pds.len() + j,
            forall|k: int| 0 <= k < pds.len() ==> #[trigger] diagnostic_view(diagnostics@[k]) == pv[k],
            forall|k: int| 0 <= k < j ==> #[trigger] diagnostic_view(diagnostics@[pds.len() + k]) == d1[k],
            d1 == diagnostic_views(unresolved@),
            pv.len() == pds.len(),
        decreases unresolved@.len() - j,
    {
        diagnostics.push(crate::diagnostics::copy_diagnostic(&unresolved[j]));
        j = j + 1;
    }
    let mut k2: usize = 0;
    while k2 < unsupported.len()
        invariant
            k2 <= unsupported@.len(),
            diagnostics@.len() == pds.len() + d1.len() + k2,
            forall|k: int| 0 <= k < pds.len() ==> #[trigger] diagnostic_view(diagnostics@[k]) == pv[k],
            forall|k: int| 0 <= k < d1.len() ==> #[trigger] diagnostic_view(diagnostics@[pds.len() + k]) == d1[k],
            forall|k: int| 0 <= k < k2 ==> #[trigger] diagnostic_view(diagnostics@[pds.len() + d1.len() + k]) == d2[k],
            d2 == diagnostic_views(unsupported@),
            pv.len() == pds.len(),
        decreases unsupported@.len() - k2,
    {
        diagnostics.push(crate::diagnostics::copy_diagnostic(&unsupported[k2]));
        k2 = k2 + 1;
    }
    assert(diagnostic_views(diagnostics@) =~= pv + d1 + d2) by {
        assert forall|k: int| 0 <= k < diagnostics@.len() implies diagnostic_views(diagnostics@)[k] == (pv + d1 + d2)[k] by {
            if k < pds.len() {
            } else if k < pds.len() + d1.len() {
                assert(diagnostic_view(diagnostics@[pds.len() + (k - pds.len())]) == d1[k - pds.len()]);
            } else {
                assert(diagnostic_view(diagnostics@[pds.len() + d1.len() + (k - pds.len() - d1.len())]) == d2[k - pds.len() - d1.len()]);
            }
        }
    }
    let r = AnalysisReport { findings, diagnostics };
    assert(groups_computed(index, groups) && reported(
        candidates(index, groups, symbol_entries(index.modules@)),
        finding_views(r.findings@),
    ));
    r
}

/// The warnings for modules that could not be parsed, in order.
pub open spec fn parse_warnings(pds: Seq<ParseDiagnostic>) -> Seq<(Seq<char>, crate::report::Severity, Seq<char>, (Seq<char>, usize, usize))> {
    pds.map_values(|d: ParseDiagnostic| ("DCF102"@, crate::report::Severity::Warning, d.message@, crate::analysis::span_view(d.span)))
}

} // verus!
