//! The analysis proper: which symbols each root group keeps alive, which
//! symbols are reported unused, and the warnings about live code that the
//! analyzer could not follow.
use vstd::prelude::*;

use crate::hierarchy::distinct;
use crate::index::{IndexedSymbol, ModuleIndex, SymbolIndex};
use crate::order::{is_permutation, key_less, key_view, lemma_key_order, listed, sort_order, sorted_by_keys, stable, KeyView, SortKey};
use crate::report::{code_for_kind, kind_code, unused_message, Finding, SourceSpan, SymbolKind};
use crate::metadata::{
    mark_configured_live_class_surfaces, mark_live_class_creation_metadata, mark_symbol_owners_live, owner_edge,
    owners_added, slots_added, slots_edge, surface_edge, surfaces_added,
};
use crate::flow::FlowEntry;
use crate::reach::{edge, flows_closed, is_root, justified, static_closed, walk};
use crate::text::{contains_string, copy_string, copy_strings, holds, views};

verus! {

// ---------------------------------------------------------------------------
// Live symbols of one root group
// ---------------------------------------------------------------------------

/// One step of liveness: an edge followed by the walk, or one of the steps
/// taken once the walk is over.
pub open spec fn live_step(index: SymbolIndex, s: Seq<char>, t: Seq<char>) -> bool {
    ||| edge(index, s, t)
    ||| owner_edge(index, s, t)
    ||| slots_edge(index, s, t)
    ||| surface_edge(index, s, t)
}

/// Every symbol of `live` is a root of the group or is reached in one step
/// from a symbol listed before it.
pub open spec fn reached(index: SymbolIndex, group: Seq<char>, live: Seq<String>) -> bool {
    forall|i: int|
        0 <= i < live.len() ==> is_root(index, group, #[trigger] live[i]@) || exists|j: int|
            0 <= j < i && #[trigger] live_step(index, live[j]@, live[i]@)
}

/// `live` is what the walk from the roots of `group` reached (with all that
/// the walked symbols keep alive, and with the members accessed on a slot
/// resolved for every class that the walked callers pass into it), followed
/// by the owners of live members, then the `__slots__` of live classes, then
/// the surface attributes of live classes.
pub open spec fn live_result(index: SymbolIndex, group: Seq<char>, live: Seq<String>) -> bool {
    exists|w: Seq<String>, l1: Seq<String>, l2: Seq<String>|
        {
            &&& distinct(w)
            &&& justified(index, group, w)
            &&& forall|x: Seq<char>| is_root(index, group, x) ==> holds(w, x)
            &&& forall|i: int| 0 <= i < w.len() ==> static_closed(index, #[trigger] w[i]@, w)
            &&& exists|flows: Seq<FlowEntry>| flows_closed(index, w, flows)
            &&& #[trigger] owners_added(index, w, l1)
            &&& #[trigger] slots_added(index, l1, l2)
            &&& surfaces_added(index, l2, live)
        }
}

/// `t` is reached in one step from a symbol of `a`.
pub open spec fn step_from(index: SymbolIndex, a: Seq<String>, t: Seq<char>) -> bool {
    exists|j: int| 0 <= j < a.len() && #[trigger] live_step(index, a[j]@, t)
}

proof fn lemma_reached_pass(index: SymbolIndex, group: Seq<char>, a: Seq<String>, b: Seq<String>)
    requires
        reached(index, group, a),
        a.len() <= b.len(),
        b.take(a.len() as int) == a,
        forall|i: int| a.len() <= i < b.len() ==> step_from(index, a, #[trigger] b[i]@),
    ensures
        reached(index, group, b),
{
    assert forall|i: int| 0 <= i < b.len() implies is_root(index, group, #[trigger] b[i]@) || exists|j: int|
        0 <= j < i && #[trigger] live_step(index, b[j]@, b[i]@) by {
        if i < a.len() {
            assert(b[i] == b.take(a.len() as int)[i]);
            if !is_root(index, group, a[i]@) {
                let j = choose|j: int| 0 <= j < i && #[trigger] live_step(index, a[j]@, a[i]@);
                assert(b[j] == b.take(a.len() as int)[j]);
                assert(live_step(index, b[j]@, b[i]@));
            }
        } else {
            assert(step_from(index, a, b[i]@));
            let j = choose|j: int| 0 <= j < a.len() && #[trigger] live_step(index, a[j]@, b[i]@);
            assert(b[j] == b.take(a.len() as int)[j]);
            assert(live_step(index, b[j]@, b[i]@));
        }
    }
}

proof fn lemma_holds_prefix(a: Seq<String>, b: Seq<String>, x: Seq<char>)
    requires
        a.len() <= b.len(),
        b.take(a.len() as int) == a,
        holds(a, x),
    ensures
        holds(b, x),
{
    let i = choose|i: int| 0 <= i < a.len() && #[trigger] a[i]@ == x;
    assert(b[i] == b.take(a.len() as int)[i]);
}

/// The symbols that the roots of `group` keep alive, each once.
pub fn compute_live_symbols(index: &SymbolIndex, group: &str) -> (r: Vec<String>)
    ensures
        distinct(r@),
        reached(*index, group@, r@),
        forall|x: Seq<char>| is_root(*index, group@, x) ==> holds(r@, x),
        live_result(*index, group@, r@),
{
    let mut live = walk(index, group);
    let ghost w = live@;
    proof {
        assert forall|i: int| 0 <= i < w.len() implies is_root(*index, group@, #[trigger] w[i]@) || exists|j: int|
            0 <= j < i && #[trigger] live_step(*index, w[j]@, w[i]@) by {
            if !is_root(*index, group@, w[i]@) {
                let j = choose|j: int| 0 <= j < i && #[trigger] edge(*index, w[j]@, w[i]@);
                assert(live_step(*index, w[j]@, w[i]@));
            }
        }
    }
    mark_symbol_owners_live(index, &mut live);
    let ghost l1 = live@;
    proof {
        assert forall|i: int| w.len() <= i < l1.len() implies step_from(*index, w, #[trigger] l1[i]@) by {
            assert(crate::metadata::owner_from(*index, w, l1[i]@));
            let j = choose|j: int| 0 <= j < w.len() && #[trigger] owner_edge(*index, w[j]@, l1[i]@);
            assert(live_step(*index, w[j]@, l1[i]@));
        }
        lemma_reached_pass(*index, group@, w, l1);
    }
    mark_live_class_creation_metadata(index, &mut live);
    let ghost l2 = live@;
    proof {
        assert forall|i: int| l1.len() <= i < l2.len() implies step_from(*index, l1, #[trigger] l2[i]@) by {
            assert(crate::metadata::slots_from(*index, l1, l2[i]@));
            let j = choose|j: int| 0 <= j < l1.len() && #[trigger] slots_edge(*index, l1[j]@, l2[i]@);
            assert(live_step(*index, l1[j]@, l2[i]@));
        }
        lemma_reached_pass(*index, group@, l1, l2);
    }
    mark_configured_live_class_surfaces(index, &mut live);
    proof {
        assert forall|i: int| l2.len() <= i < live@.len() implies step_from(*index, l2, #[trigger] live@[i]@) by {
            assert(crate::metadata::surface_from(*index, l2, live@[i]@));
            let j = choose|j: int| 0 <= j < l2.len() && #[trigger] surface_edge(*index, l2[j]@, live@[i]@);
            assert(live_step(*index, l2[j]@, live@[i]@));
        }
        lemma_reached_pass(*index, group@, l2, live@);
        assert forall|x: Seq<char>| is_root(*index, group@, x) implies holds(live@, x) by {
            lemma_holds_prefix(w, l1, x);
            lemma_holds_prefix(l1, l2, x);
            lemma_holds_prefix(l2, live@, x);
        }
        assert(owners_added(*index, w, l1) && slots_added(*index, l1, l2));
    }
    live
}

// ---------------------------------------------------------------------------
// All root groups
// ---------------------------------------------------------------------------

/// The root groups analysed: the configured ones, with the primary group
/// first when it is not among them.
pub open spec fn group_names(index: SymbolIndex) -> Seq<Seq<char>> {
    if holds(index.root_groups@, index.primary_root_group@) {
        views(index.root_groups@)
    } else {
        seq![index.primary_root_group@] + views(index.root_groups@)
    }
}

/// `root_group_names`
pub fn root_group_names(index: &SymbolIndex) -> (r: Vec<String>)
    ensures
        views(r@) == group_names(*index),
{
    let mut names: Vec<String> = Vec::new();
    if !contains_string(&index.root_groups, index.primary_root_group.as_str()) {
        names.push(copy_string(&index.primary_root_group));
    }
    let ghost start = names@;
    let mut i: usize = 0;
    while i < index.root_groups.len()
        invariant
            i <= index.root_groups@.len(),
            names@.len() == start.len() + i,
            forall|k: int| 0 <= k < start.len() ==> #[trigger] names@[k] == start[k],
            forall|k: int| 0 <= k < i ==> #[trigger] names@[start.len() + k]@ == index.root_groups@[k]@,
        decreases index.root_groups@.len() - i,
    {
        names.push(copy_string(&index.root_groups[i]));
        i = i + 1;
    }
    proof {
        if holds(index.root_groups@, index.primary_root_group@) {
            assert forall|k: int| 0 <= k < names@.len() implies views(names@)[k] == views(index.root_groups@)[k] by {
                assert(names@[start.len() + k]@ == index.root_groups@[k]@);
            }
            assert(views(names@) =~= views(index.root_groups@));
        } else {
            let want = seq![index.primary_root_group@] + views(index.root_groups@);
            assert forall|k: int| 0 <= k < names@.len() implies views(names@)[k] == want[k] by {
                if k == 0 {
                    assert(names@[0] == start[0]);
                } else {
                    assert(names@[start.len() + (k - 1)]@ == index.root_groups@[k - 1]@);
                }
            }
            assert(views(names@) =~= want);
        }
    }
    names
}

/// The symbols kept alive by one root group.
pub struct GroupLive {
    pub group: String,
    pub live: Vec<String>,
}

/// The live symbols of every analysed root group, in the order of
/// `group_names`.
pub open spec fn groups_computed(index: SymbolIndex, groups: Seq<GroupLive>) -> bool {
    &&& groups.len() == group_names(index).len()
    &&& forall|i: int|
        0 <= i < groups.len() ==> (#[trigger] groups[i]).group@ == group_names(index)[i] && distinct(groups[i].live@)
            && live_result(index, groups[i].group@, groups[i].live@)
}

pub fn compute_live_symbols_by_group(index: &SymbolIndex) -> (r: Vec<GroupLive>)
    ensures
        groups_computed(*index, r@),
{
    let names = root_group_names(index);
    let mut groups: Vec<GroupLive> = Vec::new();
    let mut i: usize = 0;
    while i < names.len()
        invariant
            views(names@) == group_names(*index),
            i <= names@.len(),
            groups@.len() == i,
            forall|k: int|
                0 <= k < i ==> (#[trigger] groups@[k]).group@ == group_names(*index)[k] && distinct(groups@[k].live@)
                    && live_result(*index, groups@[k].group@, groups@[k].live@),
        decreases names@.len() - i,
    {
        let live = compute_live_symbols(index, names[i].as_str());
        assert(names@[i as int]@ == views(names@)[i as int]);
        groups.push(GroupLive { group: copy_string(&names[i]), live });
        i = i + 1;
    }
    groups
}

/// The last computed entry for the group named `g`, as a map from group
/// names keeps it.
pub open spec fn group_entry(groups: Seq<GroupLive>, g: Seq<char>) -> Option<int>
    decreases groups.len(),
{
    if groups.len() == 0 {
        None
    } else if groups.last().group@ == g {
        Some(groups.len() - 1)
    } else {
        group_entry(groups.drop_last(), g)
    }
}

proof fn lemma_group_entry(groups: Seq<GroupLive>, g: Seq<char>)
    ensures
        match group_entry(groups, g) {
            Some(k) => 0 <= k < groups.len() && groups[k].group@ == g && forall|j: int|
                k < j < groups.len() ==> #[trigger] groups[j].group@ != g,
            None => forall|j: int| 0 <= j < groups.len() ==> #[trigger] groups[j].group@ != g,
        },
    decreases groups.len(),
{
    if groups.len() > 0 && groups.last().group@ != g {
        let d = groups.drop_last();
        lemma_group_entry(d, g);
        assert forall|j: int| 0 <= j < groups.len() - 1 implies #[trigger] groups[j].group@ == d[j].group@ by {
            assert(groups[j] == d[j]);
        }
        match group_entry(d, g) {
            Some(k) => {
                assert(groups[k].group@ == g);
                assert forall|j: int| k < j < groups.len() implies #[trigger] groups[j].group@ != g by {
                    if j < groups.len() - 1 {
                        assert(groups[j].group@ == d[j].group@);
                    }
                }
            },
            None => {
                assert forall|j: int| 0 <= j < groups.len() implies #[trigger] groups[j].group@ != g by {
                    if j < groups.len() - 1 {
                        assert(groups[j].group@ == d[j].group@);
                    }
                }
            },
        }
    }
}

/// Position of the entry `group_entry` names.
fn find_group(groups: &Vec<GroupLive>, g: &str) -> (r: Option<usize>)
    ensures
        match r {
            Some(k) => group_entry(groups@, g@) == Some(k as int) && k < groups@.len(),
            None => group_entry(groups@, g@) is None,
        },
{
    proof {
        lemma_group_entry(groups@, g@);
    }
    let mut i: usize = groups.len();
    while i > 0
        invariant
            i <= groups@.len(),
            forall|j: int| i <= j < groups@.len() ==> #[trigger] groups@[j].group@ != g@,
            match group_entry(groups@, g@) {
                Some(k) => 0 <= k < groups@.len() && groups@[k].group@ == g@ && forall|j: int|
                    k < j < groups@.len() ==> #[trigger] groups@[j].group@ != g@,
                None => forall|j: int| 0 <= j < groups@.len() ==> #[trigger] groups@[j].group@ != g@,
            },
        decreases i,
    {
        if crate::text::same_text(groups[i - 1].group.as_str(), g) {
            return Some(i - 1);
        }
        i = i - 1;
    }
    None
}

/// `x` is live in the group named `g`.
pub open spec fn live_in_group(groups: Seq<GroupLive>, g: Seq<char>, x: Seq<char>) -> bool {
    match group_entry(groups, g) {
        Some(k) => holds(groups[k].live@, x),
        None => false,
    }
}

/// `x` is live in a group that counts as use.
pub open spec fn counted(index: SymbolIndex, groups: Seq<GroupLive>, x: Seq<char>) -> bool {
    exists|c: int|
        0 <= c < index.counts_as_used_root_groups@.len() && #[trigger] live_in_group(
            groups,
            index.counts_as_used_root_groups@[c]@,
            x,
        )
}

/// The symbols live in a group that counts as use.
pub fn counted_live_symbols(index: &SymbolIndex, groups: &Vec<GroupLive>) -> (r: Vec<String>)
    ensures
        forall|x: Seq<char>| holds(r@, x) <==> counted(*index, groups@, x),
{
    let mut out: Vec<String> = Vec::new();
    let counting = &index.counts_as_used_root_groups;
    let mut c: usize = 0;
    while c < counting.len()
        invariant
            *counting == index.counts_as_used_root_groups,
            c <= counting@.len(),
            forall|x: Seq<char>|
                holds(out@, x) <==> exists|c2: int| 0 <= c2 < c && #[trigger] live_in_group(groups@, counting@[c2]@, x),
        decreases counting@.len() - c,
    {
        let ghost before = out@;
        match find_group(groups, counting[c].as_str()) {
            Some(k) => {
                let live = &groups[k].live;
                let mut j: usize = 0;
                while j < live.len()
                    invariant
                        *counting == index.counts_as_used_root_groups,
                        c < counting@.len(),
                        k < groups@.len(),
                        *live == groups@[k as int].live,
                        j <= live@.len(),
                        out@.len() == before.len() + j,
                        forall|i: int| 0 <= i < before.len() ==> #[trigger] out@[i] == before[i],
                        forall|i: int| 0 <= i < j ==> #[trigger] out@[before.len() + i]@ == live@[i]@,
                        forall|x: Seq<char>|
                            holds(before, x) <==> exists|c2: int| 0 <= c2 < c && #[trigger] live_in_group(groups@, counting@[c2]@, x),
                        group_entry(groups@, counting@[c as int]@) == Some(k as int),
                    decreases live@.len() - j,
                {
                    out.push(copy_string(&live[j]));
                    j = j + 1;
                }
                proof {
                    assert forall|x: Seq<char>|
                        holds(out@, x) <==> exists|c2: int| 0 <= c2 < c + 1 && #[trigger] live_in_group(groups@, counting@[c2]@, x) by {
                        if holds(out@, x) {
                            let i = choose|i: int| 0 <= i < out@.len() && #[trigger] out@[i]@ == x;
                            if i < before.len() {
                                assert(out@[i] == before[i]);
                                assert(holds(before, x));
                            } else {
                                assert(out@[before.len() + (i - before.len())]@ == live@[i - before.len()]@);
                                assert(live_in_group(groups@, counting@[c as int]@, x));
                            }
                        }
                        if exists|c2: int| 0 <= c2 < c + 1 && #[trigger] live_in_group(groups@, counting@[c2]@, x) {
                            let c2 = choose|c2: int| 0 <= c2 < c + 1 && #[trigger] live_in_group(groups@, counting@[c2]@, x);
                            if c2 < c {
                                assert(exists|c3: int| 0 <= c3 < c && #[trigger] live_in_group(groups@, counting@[c3]@, x));
                                assert(holds(before, x));
                                let i = choose|i: int| 0 <= i < before.len() && #[trigger] before[i]@ == x;
                                assert(out@[i] == before[i]);
                            } else {
                                let i = choose|i: int| 0 <= i < live@.len() && #[trigger] live@[i]@ == x;
                                assert(out@[before.len() + i]@ == x);
                            }
                        }
                    }
                }
            },
            None => {
                proof {
                    assert forall|x: Seq<char>|
                        holds(out@, x) <==> exists|c2: int| 0 <= c2 < c + 1 && #[trigger] live_in_group(groups@, counting@[c2]@, x) by {
                        if exists|c2: int| 0 <= c2 < c + 1 && #[trigger] live_in_group(groups@, counting@[c2]@, x) {
                            let c2 = choose|c2: int| 0 <= c2 < c + 1 && #[trigger] live_in_group(groups@, counting@[c2]@, x);
                            assert(c2 < c);
                        }
                    }
                }
            },
        }
        c = c + 1;
    }
    out
}

/// `x` is live in some group (each name counted once, by its last entry).
pub open spec fn live_in_any_group(groups: Seq<GroupLive>, x: Seq<char>) -> bool {
    exists|k: int| 0 <= k < groups.len() && #[trigger] live_in_group(groups, groups[k].group@, x)
}

/// `symbol_reachable_from_any_group`
pub fn symbol_reachable_from_any_group(groups: &Vec<GroupLive>, symbol: &IndexedSymbol) -> (r: bool)
    ensures
        r == live_in_any_group(groups@, symbol.qualified_name@),
{
    let mut k: usize = 0;
    while k < groups.len()
        invariant
            k <= groups@.len(),
            forall|j: int| 0 <= j < k ==> !#[trigger] live_in_group(groups@, groups@[j].group@, symbol.qualified_name@),
        decreases groups@.len() - k,
    {
        match find_group(groups, groups[k].group.as_str()) {
            Some(e) => {
                if contains_string(&groups[e].live, symbol.qualified_name.as_str()) {
                    assert(live_in_group(groups@, groups@[k as int].group@, symbol.qualified_name@));
                    return true;
                }
            },
            None => {},
        }
        k = k + 1;
    }
    false
}

/// The groups of `groups` from position `n` on, other than the primary
/// group, in which `x` is live.
pub open spec fn reachable_groups(groups: Seq<GroupLive>, primary: Seq<char>, x: Seq<char>, n: int) -> Seq<Seq<char>>
    decreases groups.len() - n,
{
    if n < 0 || n >= groups.len() {
        Seq::empty()
    } else if groups[n].group@ != primary && live_in_group(groups, groups[n].group@, x) {
        seq![groups[n].group@] + reachable_groups(groups, primary, x, n + 1)
    } else {
        reachable_groups(groups, primary, x, n + 1)
    }
}

/// The root groups other than the primary one that keep `symbol` alive, in
/// the order the groups are analysed.
pub fn reachable_from_groups(index: &SymbolIndex, groups: &Vec<GroupLive>, symbol: &IndexedSymbol) -> (r: Vec<String>)
    ensures
        views(r@) == reachable_groups(groups@, index.primary_root_group@, symbol.qualified_name@, 0),
{
    let mut out: Vec<String> = Vec::new();
    let mut k: usize = groups.len();
    assert(views(out@) =~= reachable_groups(groups@, index.primary_root_group@, symbol.qualified_name@, k as int));
    while k > 0
        invariant
            k <= groups@.len(),
            views(out@) == reachable_groups(groups@, index.primary_root_group@, symbol.qualified_name@, k as int),
        decreases k,
    {
        let g = groups[k - 1].group.as_str();
        let mut keep = false;
        if !crate::text::same_text(g, index.primary_root_group.as_str()) {
            match find_group(groups, g) {
                Some(e) => {
                    keep = contains_string(&groups[e].live, symbol.qualified_name.as_str());
                },
                None => {},
            }
        }
        if keep {
            let ghost before = out@;
            out.insert(0, copy_string(&groups[k - 1].group));
            assert(views(out@) =~= seq![groups@[k - 1].group@] + views(before));
        }
        k = k - 1;
    }
    out
}


// ---------------------------------------------------------------------------
// Findings
// ---------------------------------------------------------------------------

/// A span by value: file, line and column.
pub open spec fn span_view(s: SourceSpan) -> (Seq<char>, usize, usize) {
    (s.file@, s.line, s.column)
}

/// A finding by value: code, message, symbol, kind, span and the other root
/// groups that keep the symbol alive.
pub open spec fn finding_view(f: Finding) -> (Seq<char>, Seq<char>, Seq<char>, SymbolKind, (Seq<char>, usize, usize), Seq<Seq<char>>) {
    (f.code@, f.message@, f.symbol@, f.symbol_kind, span_view(f.span), views(f.reachable_from@))
}

pub open spec fn finding_views(fs: Seq<Finding>) -> Seq<(Seq<char>, Seq<char>, Seq<char>, SymbolKind, (Seq<char>, usize, usize), Seq<Seq<char>>)> {
    fs.map_values(|f: Finding| finding_view(f))
}

/// Findings are listed by file, then line, then symbol.
pub open spec fn finding_key(f: (Seq<char>, Seq<char>, Seq<char>, SymbolKind, (Seq<char>, usize, usize), Seq<Seq<char>>)) -> KeyView {
    (f.4.0, f.4.1 as nat, f.2)
}

/// The finding a symbol of a module (a test module when `is_test`) gives:
/// none for a module; in a test module, one when test code is analysed and
/// no root group keeps the symbol alive; elsewhere, one when no group that
/// counts as use keeps it alive, noting the other groups that do.
pub open spec fn symbol_finding(
    index: SymbolIndex,
    groups: Seq<GroupLive>,
    is_test: bool,
    s: IndexedSymbol,
) -> Option<(Seq<char>, Seq<char>, Seq<char>, SymbolKind, (Seq<char>, usize, usize), Seq<Seq<char>>)> {
    if s.kind == SymbolKind::Module {
        None
    } else if is_test {
        if !index.include_tests || live_in_any_group(groups, s.qualified_name@) {
            None
        } else {
            Some(
                (
                    kind_code(s.kind),
                    unused_message(s.qualified_name@),
                    s.qualified_name@,
                    s.kind,
                    span_view(s.span),
                    Seq::empty(),
                ),
            )
        }
    } else if counted(index, groups, s.qualified_name@) {
        None
    } else {
        Some(
            (
                kind_code(s.kind),
                unused_message(s.qualified_name@),
                s.qualified_name@,
                s.kind,
                span_view(s.span),
                reachable_groups(groups, index.primary_root_group@, s.qualified_name@, 0),
            ),
        )
    }
}

/// The first `k` symbols of a module, with the module's test flag.
pub open spec fn row_entries(m: ModuleIndex, k: int) -> Seq<(bool, IndexedSymbol)> {
    Seq::new(k as nat, |i: int| (m.is_test, m.symbols@[i]))
}

/// The symbols of the modules, module by module, with their test flags.
pub open spec fn symbol_entries(mods: Seq<ModuleIndex>) -> Seq<(bool, IndexedSymbol)>
    decreases mods.len(),
{
    if mods.len() == 0 {
        Seq::empty()
    } else {
        symbol_entries(mods.drop_last()) + row_entries(mods.last(), mods.last().symbols@.len() as int)
    }
}

/// The findings of the entries, in order.
pub open spec fn candidates(
    index: SymbolIndex,
    groups: Seq<GroupLive>,
    es: Seq<(bool, IndexedSymbol)>,
) -> Seq<(Seq<char>, Seq<char>, Seq<char>, SymbolKind, (Seq<char>, usize, usize), Seq<Seq<char>>)>
    decreases es.len(),
{
    if es.len() == 0 {
        Seq::empty()
    } else {
        let rest = candidates(index, groups, es.drop_last());
        match symbol_finding(index, groups, es.last().0, es.last().1) {
            Some(f) => rest.push(f),
            None => rest,
        }
    }
}

/// `r` lists, by file, line and symbol, one finding per symbol of `cands`:
/// of the findings about a symbol, the first by that order, the earliest
/// listed among equals.
pub open spec fn reported(
    cands: Seq<(Seq<char>, Seq<char>, Seq<char>, SymbolKind, (Seq<char>, usize, usize), Seq<Seq<char>>)>,
    r: Seq<(Seq<char>, Seq<char>, Seq<char>, SymbolKind, (Seq<char>, usize, usize), Seq<Seq<char>>)>,
) -> bool {
    &&& forall|i: int| 0 <= i < r.len() ==> #[trigger] chosen(cands, r[i])
    &&& forall|c: int| 0 <= c < cands.len() ==> symbol_listed(r, #[trigger] cands[c].2)
    &&& forall|i: int, j: int| 0 <= i < j < r.len() ==> r[i].2 != r[j].2
    &&& forall|i: int, j: int| 0 <= i < j < r.len() ==> !key_less(finding_key(r[j]), finding_key(r[i]))
}

/// Some finding of `r` is about `s`.
pub open spec fn symbol_listed(
    r: Seq<(Seq<char>, Seq<char>, Seq<char>, SymbolKind, (Seq<char>, usize, usize), Seq<Seq<char>>)>,
    s: Seq<char>,
) -> bool {
    exists|i: int| 0 <= i < r.len() && #[trigger] r[i].2 == s
}

/// `f` is the finding of `cands` kept for its symbol.
pub open spec fn chosen(
    cands: Seq<(Seq<char>, Seq<char>, Seq<char>, SymbolKind, (Seq<char>, usize, usize), Seq<Seq<char>>)>,
    f: (Seq<char>, Seq<char>, Seq<char>, SymbolKind, (Seq<char>, usize, usize), Seq<Seq<char>>),
) -> bool {
    exists|c: int| 0 <= c < cands.len() && cands[c] == f && #[trigger] first_of_symbol(cands, c)
}

/// No other finding about the symbol of `cands[c]` comes before it by key,
/// nor has an equal key and is listed before it.
pub open spec fn first_of_symbol(
    cands: Seq<(Seq<char>, Seq<char>, Seq<char>, SymbolKind, (Seq<char>, usize, usize), Seq<Seq<char>>)>,
    c: int,
) -> bool {
    forall|c2: int|
        0 <= c2 < cands.len() && #[trigger] cands[c2].2 == cands[c].2 ==> key_less(finding_key(cands[c]), finding_key(cands[c2]))
            || (finding_key(cands[c]) == finding_key(cands[c2]) && c <= c2)
}

fn copy_finding(f: &Finding) -> (r: Finding)
    ensures
        finding_view(r) == finding_view(*f),
{
    let reach = copy_strings(&f.reachable_from);
    assert(views(reach@) =~= views(f.reachable_from@));
    Finding {
        code: copy_string(&f.code),
        message: copy_string(&f.message),
        symbol: copy_string(&f.symbol),
        symbol_kind: f.symbol_kind,
        span: f.span.duplicate(),
        reachable_from: reach,
    }
}

/// The finding for each symbol, module by module, before ordering.
fn unused_candidates(index: &SymbolIndex, groups: &Vec<GroupLive>) -> (r: Vec<Finding>)
    ensures
        finding_views(r@) == candidates(*index, groups@, symbol_entries(index.modules@)),
{
    let counted_live = counted_live_symbols(index, groups);
    let mut out: Vec<Finding> = Vec::new();
    let mut m: usize = 0;
    assert(index.modules@.take(0) =~= Seq::<ModuleIndex>::empty());
    assert(finding_views(out@) =~= candidates(*index, groups@, symbol_entries(index.modules@.take(0))));
    while m < index.modules.len()
        invariant
            m <= index.modules@.len(),
            forall|x: Seq<char>| holds(counted_live@, x) <==> counted(*index, groups@, x),
            finding_views(out@) == candidates(*index, groups@, symbol_entries(index.modules@.take(m as int))),
        decreases index.modules@.len() - m,
    {
        let module = &index.modules[m];
        let ghost base = symbol_entries(index.modules@.take(m as int));
        assert(base + row_entries(*module, 0) =~= base);
        let mut k: usize = 0;
        while k < module.symbols.len()
            invariant
                m < index.modules@.len(),
                *module == index.modules@[m as int],
                base == symbol_entries(index.modules@.take(m as int)),
                k <= module.symbols@.len(),
                forall|x: Seq<char>| holds(counted_live@, x) <==> counted(*index, groups@, x),
                finding_views(out@) == candidates(*index, groups@, base + row_entries(*module, k as int)),
            decreases module.symbols@.len() - k,
        {
            let sym = &module.symbols[k];
            let ghost es = base + row_entries(*module, k as int);
            let ghost es1 = base + row_entries(*module, k + 1);
            assert(es1.drop_last() =~= es);
            assert(es1.last() == (module.is_test, *sym));
            let ghost before = out@;
            if sym.kind != SymbolKind::Module {
                if module.is_test {
                    if index.include_tests && !symbol_reachable_from_any_group(groups, sym) {
                        let f = Finding::unused(
                            code_for_kind(&sym.kind),
                            sym.qualified_name.as_str(),
                            sym.kind,
                            sym.span.duplicate(),
                        );
                        out.push(f);
                        proof {
                            assert(views(f.reachable_from@) =~= Seq::<Seq<char>>::empty());
                            assert(finding_views(out@) =~= finding_views(before).push(finding_view(f)));
                        }
                    }
                } else if !contains_string(&counted_live, sym.qualified_name.as_str()) {
                    let reach = reachable_from_groups(index, groups, sym);
                    let f = Finding::unused(
                        code_for_kind(&sym.kind),
                        sym.qualified_name.as_str(),
                        sym.kind,
                        sym.span.duplicate(),
                    ).with_reachable_from(reach);
                    out.push(f);
                    proof {
                        assert(finding_views(out@) =~= finding_views(before).push(finding_view(f)));
                    }
                }
            }
            k = k + 1;
        }
        proof {
            let t1 = index.modules@.take(m + 1);
            assert(t1.drop_last() =~= index.modules@.take(m as int));
            assert(t1.last() == *module);
        }
        m = m + 1;
    }
    assert(index.modules@.take(m as int) =~= index.modules@);
    out
}

/// Orders the findings by file, line and symbol, and keeps the first one for
/// each symbol.
fn order_findings(cands: &Vec<Finding>) -> (r: Vec<Finding>)
    ensures
        reported(finding_views(cands@), finding_views(r@)),
{
    let ghost cv = finding_views(cands@);
    let mut keys: Vec<SortKey> = Vec::new();
    let mut i: usize = 0;
    while i < cands.len()
        invariant
            i <= cands@.len(),
            cv == finding_views(cands@),
            keys@.len() == i,
            forall|j: int| 0 <= j < i ==> key_view(#[trigger] keys@[j]) == finding_key(cv[j]),
        decreases cands@.len() - i,
    {
        let f = &cands[i];
        keys.push(SortKey { first: copy_string(&f.span.file), number: f.span.line, second: copy_string(&f.symbol) });
        i = i + 1;
    }
    let perm = sort_order(&keys);
    let mut out: Vec<Finding> = Vec::new();
    let mut seen: Vec<String> = Vec::new();
    let ghost mut pos: Seq<int> = Seq::empty();
    let mut p: usize = 0;
    while p < perm.len()
        invariant
            cv == finding_views(cands@),
            keys@.len() == cands@.len(),
            forall|j: int| 0 <= j < keys@.len() ==> key_view(#[trigger] keys@[j]) == finding_key(cv[j]),
            is_permutation(perm@, keys@.len()),
            sorted_by_keys(keys@, perm@),
            stable(keys@, perm@),
            p <= perm@.len(),
            out@.len() == pos.len(),
            seen@.len() == out@.len(),
            forall|i2: int| 0 <= i2 < out@.len() ==> #[trigger] seen@[i2]@ == out@[i2].symbol@,
            forall|i2: int|
                0 <= i2 < pos.len() ==> 0 <= #[trigger] pos[i2] < p && finding_view(out@[i2]) == cv[perm@[pos[i2]] as int],
            forall|i2: int, j2: int| 0 <= i2 < j2 < pos.len() ==> pos[i2] < pos[j2],
            forall|i2: int, q: int|
                #![trigger pos[i2], perm@[q]]
                0 <= i2 < pos.len() && 0 <= q < pos[i2] ==> cv[perm@[q] as int].2 != cv[perm@[pos[i2]] as int].2,
            forall|q: int| 0 <= q < p ==> holds(seen@, cv[#[trigger] perm@[q] as int].2),
            forall|i2: int, j2: int| 0 <= i2 < j2 < out@.len() ==> out@[i2].symbol@ != out@[j2].symbol@,
        decreases perm@.len() - p,
    {
        let c = perm[p];
        assert(perm@[p as int] < cands@.len());
        let f = &cands[c];
        assert(cv[c as int] == finding_view(*f));
        if !contains_string(&seen, f.symbol.as_str()) {
            let ghost out0 = out@;
            let ghost seen0 = seen@;
            out.push(copy_finding(f));
            seen.push(copy_string(&f.symbol));
            proof {
                pos = pos.push(p as int);
                assert forall|q: int| 0 <= q < p implies cv[#[trigger] perm@[q] as int].2 != cv[perm@[p as int] as int].2 by {
                    assert(holds(seen0, cv[perm@[q] as int].2));
                }
                assert forall|i2: int| 0 <= i2 < out@.len() implies #[trigger] seen@[i2]@ == out@[i2].symbol@ by {
                    if i2 < out0.len() {
                        assert(seen@[i2] == seen0[i2] && out@[i2] == out0[i2]);
                    }
                }
                assert forall|i2: int, j2: int| 0 <= i2 < j2 < out@.len() implies out@[i2].symbol@ != out@[j2].symbol@ by {
                    if j2 < out0.len() {
                        assert(out@[i2] == out0[i2] && out@[j2] == out0[j2]);
                    } else {
                        assert(out@[i2] == out0[i2]);
                        assert(seen0[i2]@ == out0[i2].symbol@);
                    }
                }
                assert forall|q: int| 0 <= q < p + 1 implies holds(seen@, cv[#[trigger] perm@[q] as int].2) by {
                    if q < p {
                        let k = choose|k: int| 0 <= k < seen0.len() && #[trigger] seen0[k]@ == cv[perm@[q] as int].2;
                        assert(seen@[k] == seen0[k]);
                    } else {
                        assert(seen@[seen0.len() as int]@ == cv[perm@[q] as int].2);
                    }
                }
                assert forall|i2: int| 0 <= i2 < pos.len() implies 0 <= #[trigger] pos[i2] < p + 1 && finding_view(out@[i2])
                    == cv[perm@[pos[i2]] as int] by {
                    if i2 < out0.len() {
                        assert(out@[i2] == out0[i2]);
                    }
                }
            }
        } else {
            proof {
                assert forall|q: int| 0 <= q < p + 1 implies holds(seen@, cv[#[trigger] perm@[q] as int].2) by {
                    if q == p {
                        assert(cv[perm@[q] as int].2 == f.symbol@);
                    }
                }
            }
        }
        p = p + 1;
    }
    proof {
        let rv = finding_views(out@);
        assert forall|i2: int| 0 <= i2 < rv.len() implies #[trigger] chosen(cv, rv[i2]) by {
            let c = perm@[pos[i2]] as int;
            assert(rv[i2] == finding_view(out@[i2]));
            assert forall|c2: int| 0 <= c2 < cv.len() && #[trigger] cv[c2].2 == cv[c].2 implies key_less(
                finding_key(cv[c]),
                finding_key(cv[c2]),
            ) || (finding_key(cv[c]) == finding_key(cv[c2]) && c <= c2) by {
                assert(listed(perm@, c2 as usize));
                let q2 = choose|q2: int| 0 <= q2 < perm@.len() && perm@[q2] == c2 as usize;
                if c2 != c {
                    assert(perm@[q2] == c2);
                    if q2 < pos[i2] {
                        assert(cv[perm@[q2] as int].2 != cv[perm@[pos[i2]] as int].2);
                    } else {
                        assert(q2 != pos[i2]);
                        assert(!key_less(key_view(keys@[perm@[q2] as int]), key_view(keys@[perm@[pos[i2]] as int])));
                        lemma_key_order(finding_key(cv[c]), finding_key(cv[c2]), finding_key(cv[c2]));
                        if finding_key(cv[c]) == finding_key(cv[c2]) {
                            assert(key_view(keys@[perm@[pos[i2]] as int]) == key_view(keys@[perm@[q2] as int]));
                        }
                    }
                }
            }
            assert(first_of_symbol(cv, c));
        }
        assert forall|c: int| 0 <= c < cv.len() implies symbol_listed(rv, #[trigger] cv[c].2) by {
            assert(listed(perm@, c as usize));
            let q = choose|q: int| 0 <= q < perm@.len() && perm@[q] == c as usize;
            assert(holds(seen@, cv[perm@[q] as int].2));
            let k = choose|k: int| 0 <= k < seen@.len() && #[trigger] seen@[k]@ == cv[perm@[q] as int].2;
            assert(rv[k].2 == out@[k].symbol@);
        }
        assert forall|i2: int, j2: int| 0 <= i2 < j2 < rv.len() implies rv[i2].2 != rv[j2].2 by {
            assert(rv[i2].2 == out@[i2].symbol@ && rv[j2].2 == out@[j2].symbol@);
        }
        assert forall|i2: int, j2: int| 0 <= i2 < j2 < rv.len() implies !key_less(finding_key(rv[j2]), finding_key(rv[i2])) by {
            let a = pos[i2];
            let b = pos[j2];
            assert(a < b);
            assert(rv[i2] == cv[perm@[a] as int]);
            assert(rv[j2] == cv[perm@[b] as int]);
            assert(!key_less(key_view(keys@[perm@[b] as int]), key_view(keys@[perm@[a] as int])));
        }
    }
    out
}

/// The symbols reported unused, given the live symbols of each root group.
pub fn unused_findings(index: &SymbolIndex, groups: &Vec<GroupLive>) -> (r: Vec<Finding>)
    ensures
        reported(candidates(*index, groups@, symbol_entries(index.modules@)), finding_views(r@)),
{
    let cands = unused_candidates(index, groups);
    order_findings(&cands)
}

/// The symbols of the index that no root group that counts as use keeps
/// alive, one finding per symbol, by file, line and symbol.
pub fn find_unused_symbols(index: &SymbolIndex) -> (r: Vec<Finding>)
    ensures
        exists|groups: Seq<GroupLive>|
            groups_computed(*index, groups) && #[trigger] reported(
                candidates(*index, groups, symbol_entries(index.modules@)),
                finding_views(r@),
            ),
{
    let groups = compute_live_symbols_by_group(index);
    let r = unused_findings(index, &groups);
    assert(groups_computed(*index, groups@));
    r
}


// ---------------------------------------------------------------------------
// What the findings promise
// ---------------------------------------------------------------------------

proof fn lemma_candidate_origin(
    index: SymbolIndex,
    groups: Seq<GroupLive>,
    es: Seq<(bool, IndexedSymbol)>,
    k: int,
)
    requires
        0 <= k < candidates(index, groups, es).len(),
    ensures
        exists|j: int|
            0 <= j < es.len() && #[trigger] symbol_finding(index, groups, es[j].0, es[j].1) == Some(
                candidates(index, groups, es)[k],
            ),
    decreases es.len(),
{
    let rest = candidates(index, groups, es.drop_last());
    if k < rest.len() {
        lemma_candidate_origin(index, groups, es.drop_last(), k);
        let j = choose|j: int|
            0 <= j < es.drop_last().len() && #[trigger] symbol_finding(index, groups, es.drop_last()[j].0, es.drop_last()[j].1)
                == Some(rest[k]);
        assert(es[j] == es.drop_last()[j]);
        assert(symbol_finding(index, groups, es[j].0, es[j].1) == Some(candidates(index, groups, es)[k]));
    } else {
        assert(symbol_finding(index, groups, es[es.len() - 1].0, es[es.len() - 1].1) == Some(
            candidates(index, groups, es)[k],
        ));
    }
}

proof fn lemma_candidate_present(
    index: SymbolIndex,
    groups: Seq<GroupLive>,
    es: Seq<(bool, IndexedSymbol)>,
    j: int,
)
    requires
        0 <= j < es.len(),
        symbol_finding(index, groups, es[j].0, es[j].1) is Some,
    ensures
        exists|k: int|
            0 <= k < candidates(index, groups, es).len() && candidates(index, groups, es)[k] == symbol_finding(
                index,
                groups,
                es[j].0,
                es[j].1,
            )->0,
    decreases es.len(),
{
    let rest = candidates(index, groups, es.drop_last());
    if j < es.len() - 1 {
        assert(es.drop_last()[j] == es[j]);
        lemma_candidate_present(index, groups, es.drop_last(), j);
        let k = choose|k: int| 0 <= k < rest.len() && rest[k] == symbol_finding(index, groups, es[j].0, es[j].1)->0;
        assert(candidates(index, groups, es)[k] == rest[k]);
    } else {
        assert(candidates(index, groups, es)[rest.len() as int] == symbol_finding(index, groups, es[j].0, es[j].1)->0);
    }
}

proof fn lemma_entries_hold(mods: Seq<ModuleIndex>, m: int, k: int)
    requires
        0 <= m < mods.len(),
        0 <= k < mods[m].symbols@.len(),
    ensures
        exists|j: int|
            0 <= j < symbol_entries(mods).len() && #[trigger] symbol_entries(mods)[j] == (mods[m].is_test, mods[m].symbols@[k]),
    decreases mods.len(),
{
    let base = symbol_entries(mods.drop_last());
    let row = row_entries(mods.last(), mods.last().symbols@.len() as int);
    if m < mods.len() - 1 {
        assert(mods.drop_last()[m] == mods[m]);
        lemma_entries_hold(mods.drop_last(), m, k);
        let j = choose|j: int| 0 <= j < base.len() && #[trigger] base[j] == (mods[m].is_test, mods[m].symbols@[k]);
        assert(symbol_entries(mods)[j] == base[j]);
    } else {
        assert(symbol_entries(mods)[base.len() + k] == row[k]);
    }
}

proof fn lemma_counted_live_somewhere(index: SymbolIndex, groups: Seq<GroupLive>, x: Seq<char>)
    requires
        counted(index, groups, x),
    ensures
        live_in_any_group(groups, x),
{
    let c = choose|c: int|
        0 <= c < index.counts_as_used_root_groups@.len() && #[trigger] live_in_group(
            groups,
            index.counts_as_used_root_groups@[c]@,
            x,
        );
    let g = index.counts_as_used_root_groups@[c]@;
    lemma_group_entry(groups, g);
    let k = group_entry(groups, g)->0;
    assert(groups[k].group@ == g);
    assert(live_in_group(groups, groups[k].group@, x));
}

/// A symbol kept alive by a root group that counts as use is never reported
/// unused.
pub proof fn lemma_counted_never_reported(
    index: SymbolIndex,
    groups: Seq<GroupLive>,
    r: Seq<(Seq<char>, Seq<char>, Seq<char>, SymbolKind, (Seq<char>, usize, usize), Seq<Seq<char>>)>,
    x: Seq<char>,
)
    requires
        reported(candidates(index, groups, symbol_entries(index.modules@)), r),
        counted(index, groups, x),
    ensures
        forall|i: int| 0 <= i < r.len() ==> r[i].2 != x,
{
    let es = symbol_entries(index.modules@);
    let cands = candidates(index, groups, es);
    lemma_counted_live_somewhere(index, groups, x);
    assert forall|i: int| 0 <= i < r.len() implies r[i].2 != x by {
        assert(chosen(cands, r[i]));
        let c = choose|c: int| 0 <= c < cands.len() && cands[c] == r[i] && #[trigger] first_of_symbol(cands, c);
        lemma_candidate_origin(index, groups, es, c);
        let j = choose|j: int| 0 <= j < es.len() && #[trigger] symbol_finding(index, groups, es[j].0, es[j].1) == Some(cands[c]);
    }
}

/// Every symbol of a module outside the tests, other than a module, that no
/// root group counting as use keeps alive is reported unused.
pub proof fn lemma_uncounted_reported(
    index: SymbolIndex,
    groups: Seq<GroupLive>,
    r: Seq<(Seq<char>, Seq<char>, Seq<char>, SymbolKind, (Seq<char>, usize, usize), Seq<Seq<char>>)>,
    m: int,
    k: int,
)
    requires
        reported(candidates(index, groups, symbol_entries(index.modules@)), r),
        0 <= m < index.modules@.len(),
        0 <= k < index.modules@[m].symbols@.len(),
        !index.modules@[m].is_test,
        index.modules@[m].symbols@[k].kind != SymbolKind::Module,
        !counted(index, groups, index.modules@[m].symbols@[k].qualified_name@),
    ensures
        exists|i: int| 0 <= i < r.len() && r[i].2 == index.modules@[m].symbols@[k].qualified_name@,
{
    let es = symbol_entries(index.modules@);
    let cands = candidates(index, groups, es);
    lemma_entries_hold(index.modules@, m, k);
    let j = choose|j: int| 0 <= j < es.len() && #[trigger] es[j] == (index.modules@[m].is_test, index.modules@[m].symbols@[k]);
    lemma_candidate_present(index, groups, es, j);
    let c = choose|c: int| 0 <= c < cands.len() && cands[c] == symbol_finding(index, groups, es[j].0, es[j].1)->0;
    assert(symbol_listed(r, cands[c].2));
}

/// In analysed test code, every symbol other than a module that no root
/// group keeps alive is reported unused.
pub proof fn lemma_dead_test_symbol_reported(
    index: SymbolIndex,
    groups: Seq<GroupLive>,
    r: Seq<(Seq<char>, Seq<char>, Seq<char>, SymbolKind, (Seq<char>, usize, usize), Seq<Seq<char>>)>,
    m: int,
    k: int,
)
    requires
        reported(candidates(index, groups, symbol_entries(index.modules@)), r),
        index.include_tests,
        0 <= m < index.modules@.len(),
        0 <= k < index.modules@[m].symbols@.len(),
        index.modules@[m].is_test,
        index.modules@[m].symbols@[k].kind != SymbolKind::Module,
        !live_in_any_group(groups, index.modules@[m].symbols@[k].qualified_name@),
    ensures
        exists|i: int| 0 <= i < r.len() && r[i].2 == index.modules@[m].symbols@[k].qualified_name@,
{
    let es = symbol_entries(index.modules@);
    let cands = candidates(index, groups, es);
    lemma_entries_hold(index.modules@, m, k);
    let j = choose|j: int| 0 <= j < es.len() && #[trigger] es[j] == (index.modules@[m].is_test, index.modules@[m].symbols@[k]);
    lemma_candidate_present(index, groups, es, j);
    let c = choose|c: int| 0 <= c < cands.len() && cands[c] == symbol_finding(index, groups, es[j].0, es[j].1)->0;
    assert(symbol_listed(r, cands[c].2));
}

/// Every reported finding is about a symbol of the index, with the code of
/// its kind and the message `unused symbol {symbol}`.
pub proof fn lemma_findings_describe_symbols(
    index: SymbolIndex,
    groups: Seq<GroupLive>,
    r: Seq<(Seq<char>, Seq<char>, Seq<char>, SymbolKind, (Seq<char>, usize, usize), Seq<Seq<char>>)>,
    i: int,
)
    requires
        reported(candidates(index, groups, symbol_entries(index.modules@)), r),
        0 <= i < r.len(),
    ensures
        exists|j: int|
            0 <= j < symbol_entries(index.modules@).len() && {
                let s = (#[trigger] symbol_entries(index.modules@)[j]).1;
                &&& s.kind != SymbolKind::Module
                &&& r[i].0 == kind_code(s.kind)
                &&& r[i].1 == unused_message(s.qualified_name@)
                &&& r[i].2 == s.qualified_name@
                &&& r[i].4 == span_view(s.span)
            },
{
    let es = symbol_entries(index.modules@);
    let cands = candidates(index, groups, es);
    assert(chosen(cands, r[i]));
    let c = choose|c: int| 0 <= c < cands.len() && cands[c] == r[i] && #[trigger] first_of_symbol(cands, c);
    lemma_candidate_origin(index, groups, es, c);
    let j = choose|j: int| 0 <= j < es.len() && #[trigger] symbol_finding(index, groups, es[j].0, es[j].1) == Some(cands[c]);
    assert(es[j] == symbol_entries(index.modules@)[j]);
}


/// A symbol that is no root of the group and that no step of liveness
/// leads to is not live in the group.
pub proof fn lemma_unreached_not_live(index: SymbolIndex, group: Seq<char>, live: Seq<String>, x: Seq<char>)
    requires
        reached(index, group, live),
        !is_root(index, group, x),
        forall|y: Seq<char>| !#[trigger] live_step(index, y, x),
    ensures
        !holds(live, x),
{
    if holds(live, x) {
        let i = choose|i: int| 0 <= i < live.len() && #[trigger] live[i]@ == x;
        assert(is_root(index, group, live[i]@) || exists|j: int| 0 <= j < i && #[trigger] live_step(index, live[j]@, live[i]@));
        if !is_root(index, group, live[i]@) {
            let j = choose|j: int| 0 <= j < i && #[trigger] live_step(index, live[j]@, live[i]@);
            assert(live_step(index, live[j]@, x));
        }
    }
}

} // verus!
