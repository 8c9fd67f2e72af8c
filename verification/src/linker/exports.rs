//! The export surface of a module: what it exports itself and through its
//! wildcard re-exports.

use crate::types::linking_metadata::ResolvedExport;
use crate::types::module_id::ModuleId;
use crate::types::module_table::{
    exports_name, exports_symbol, star_chain, star_edge, star_target, target_of_record,
    ModuleRecord,
};
use crate::types::symbols::SymbolRef;
use vstd::prelude::*;
use vstd::set_lib::{lemma_int_range, lemma_len_subset, set_int_range};

verus! {

/// Whether the last module of `chain` exports `origin` under `name` to the first
/// one: the chain is made of wildcard re-exports, no module before the last
/// exports the name itself, and a wildcard never carries the default export.
pub open spec fn provides(
    modules: Seq<ModuleRecord>,
    chain: Seq<usize>,
    name: Seq<char>,
    origin: SymbolRef,
) -> bool {
    &&& star_chain(modules, chain)
    &&& origin.owner.raw == chain.last()
    &&& exports_symbol(modules, chain.last() as int, name, origin.symbol)
    &&& forall|i: int|
        0 <= i < chain.len() - 1 ==> !exports_name(modules, #[trigger] chain[i] as int, name)
    &&& chain.len() > 1 ==> name != "default"@
}

/// Whether `module` exposes the declaration `origin` under `name`, by itself or
/// through some chain of wildcard re-exports.
pub open spec fn exposes(
    modules: Seq<ModuleRecord>,
    module: usize,
    name: Seq<char>,
    origin: SymbolRef,
) -> bool {
    exists|chain: Seq<usize>| #[trigger]
        provides(modules, chain, name, origin) && chain[0] == module
}

/// What a module exports itself comes before what its wildcards carry: under a
/// name that the module exports itself, it exposes its own declarations alone.
pub proof fn lemma_own_export_wins(
    modules: Seq<ModuleRecord>,
    module: usize,
    name: Seq<char>,
    origin: SymbolRef,
)
    requires
        exports_name(modules, module as int, name),
        exposes(modules, module, name, origin),
    ensures
        origin.owner.raw == module,
        exports_symbol(modules, module as int, name, origin.symbol),
{
    let chain = choose|chain: Seq<usize>| #[trigger]
        provides(modules, chain, name, origin) && chain[0] == module;
    if chain.len() > 1 {
        assert(!exports_name(modules, chain[0] as int, name));
    }
}

/// A wildcard never carries a default export: the default export that a module
/// exposes is its own.
pub proof fn lemma_default_is_own(modules: Seq<ModuleRecord>, module: usize, origin: SymbolRef)
    requires
        exposes(modules, module, "default"@, origin),
    ensures
        origin.owner.raw == module,
{
    let chain = choose|chain: Seq<usize>| #[trigger]
        provides(modules, chain, "default"@, origin) && chain[0] == module;
    assert(chain.len() == 1);
}

/// A module exposes each of its own exports.
pub proof fn lemma_own_export_exposed(
    modules: Seq<ModuleRecord>,
    module: usize,
    name: Seq<char>,
    symbol: usize,
)
    requires
        module < modules.len(),
        exports_symbol(modules, module as int, name, symbol),
    ensures
        exposes(modules, module, name, SymbolRef { owner: ModuleId { raw: module }, symbol }),
{
    let chain = seq![module];
    assert(star_chain(modules, chain));
    assert(provides(
        modules,
        chain,
        name,
        SymbolRef { owner: ModuleId { raw: module }, symbol },
    ));
}

/// A wildcard carries what the module it names exports itself: a module that
/// re-exports all of another one exposes each export of the other, unless it
/// is the default export or the module exports the name itself.
pub proof fn lemma_wildcard_carries(
    modules: Seq<ModuleRecord>,
    module: usize,
    source: usize,
    name: Seq<char>,
    symbol: usize,
)
    requires
        module < modules.len(),
        source < modules.len(),
        module != source,
        star_edge(modules, module as int, source as int),
        exports_symbol(modules, source as int, name, symbol),
        !exports_name(modules, module as int, name),
        name != "default"@,
    ensures
        exposes(modules, module, name, SymbolRef { owner: ModuleId { raw: source }, symbol }),
{
    let chain = seq![module, source];
    assert(star_chain(modules, chain));
    assert(provides(
        modules,
        chain,
        name,
        SymbolRef { owner: ModuleId { raw: source }, symbol },
    ));
}

/// Whether no name is listed twice.
pub open spec fn distinct_names(surface: Seq<ResolvedExport>) -> bool {
    forall|i: int, j: int|
        0 <= i < j < surface.len() ==> (#[trigger] surface[i]).name@ != (#[trigger] surface[j]).name@
}

/// Whether `surface` is the export surface of `module`: it lists each name
/// that the module exposes once, with a declaration that the name stands
/// for, and marks the names that stand for more than one.
pub open spec fn is_surface(
    modules: Seq<ModuleRecord>,
    module: usize,
    surface: Seq<ResolvedExport>,
) -> bool {
    &&& distinct_names(surface)
    &&& forall|i: int|
        0 <= i < surface.len() ==> exposes(
            modules,
            module,
            (#[trigger] surface[i]).name@,
            surface[i].origin,
        )
    &&& forall|i: int|
        0 <= i < surface.len() ==> ((#[trigger] surface[i]).ambiguous <==> exists|other: SymbolRef|
            other != surface[i].origin && #[trigger] exposes(
                modules,
                module,
                surface[i].name@,
                other,
            ))
    &&& forall|name: Seq<char>, origin: SymbolRef| #[trigger]
        exposes(modules, module, name, origin) ==> exists|i: int|
            0 <= i < surface.len() && (#[trigger] surface[i]).name@ == name
}

/// Whether `surface` accounts for `origin` under `name`: as the declaration
/// listed for the name, or by marking the name ambiguous.
pub open spec fn covers(surface: Seq<ResolvedExport>, name: Seq<char>, origin: SymbolRef) -> bool {
    exists|i: int|
        0 <= i < surface.len() && (#[trigger] surface[i]).name@ == name && (surface[i].origin
            == origin || surface[i].ambiguous)
}

/// Whether everything in `surface` is exposed by `module`.
pub open spec fn sound(
    modules: Seq<ModuleRecord>,
    module: usize,
    surface: Seq<ResolvedExport>,
) -> bool {
    forall|i: int|
        0 <= i < surface.len() ==> {
            &&& exposes(modules, module, (#[trigger] surface[i]).name@, surface[i].origin)
            &&& surface[i].ambiguous ==> exists|other: SymbolRef|
                other != surface[i].origin && #[trigger] exposes(
                    modules,
                    module,
                    surface[i].name@,
                    other,
                )
        }
}

/// Whether `chain` begins with `prefix`.
pub open spec fn extends(chain: Seq<usize>, prefix: Seq<usize>) -> bool {
    prefix.len() <= chain.len() && chain.subrange(0, prefix.len() as int) == prefix
}

/// A list of distinct numbers below `bound` has at most `bound` items.
pub proof fn lemma_chain_bounded(chain: Seq<usize>, bound: nat)
    requires
        chain.no_duplicates(),
        forall|i: int| 0 <= i < chain.len() ==> #[trigger] chain[i] < bound,
    ensures
        chain.len() <= bound,
{
    let wide = chain.map_values(|x: usize| x as int);
    assert(wide.no_duplicates());
    wide.unique_seq_to_set();
    lemma_int_range(0, bound as int);
    assert(wide.to_set().subset_of(set_int_range(0, bound as int))) by {
        assert forall|x: int| wide.to_set().contains(x) implies set_int_range(
            0,
            bound as int,
        ).contains(x) by {
            let i = choose|i: int| 0 <= i < wide.len() && wide[i] == x;
            assert(chain[i] < bound);
        }
    }
    lemma_len_subset(wide.to_set(), set_int_range(0, bound as int));
}

fn same_symbol(a: SymbolRef, b: SymbolRef) -> (same: bool)
    ensures
        same == (a == b),
{
    a.owner.raw == b.owner.raw && a.symbol == b.symbol
}

/// Whether `name` is the name of the default export.
pub fn is_default(name: &String) -> (default: bool)
    ensures
        default == (name@ == "default"@),
{
    let default_name = "default".to_owned();
    *name == default_name
}

/// Whether `module` itself exports something under `name`.
pub fn has_export(modules: &Vec<ModuleRecord>, module: usize, name: &String) -> (found: bool)
    requires
        module < modules@.len(),
    ensures
        found == exports_name(modules@, module as int, name@),
{
    let exports = &modules[module].named_exports;
    let mut k: usize = 0;
    while k < exports.len()
        invariant
            module < modules@.len(),
            exports == &modules@[module as int].named_exports,
            k <= exports@.len(),
            forall|j: int| 0 <= j < k ==> (#[trigger] exports@[j]).name@ != name@,
        decreases exports@.len() - k,
    {
        if exports[k].name == *name {
            return true;
        }
        k = k + 1;
    }
    false
}

/// The names of a surface, in order.
pub open spec fn names_of(surface: Seq<ResolvedExport>) -> Seq<Seq<char>> {
    Seq::new(surface.len(), |i: int| surface[i].name@)
}

/// The surface after `origin` has been met under `name`: a new name is added
/// after the others, and a name that is listed with another declaration
/// becomes ambiguous.
pub open spec fn with_export(surface: Seq<ResolvedExport>, name: String, origin: SymbolRef) -> Seq<
    ResolvedExport,
> {
    match names_of(surface).index_of_first(name@) {
        Some(i) => if surface[i].origin == origin {
            surface
        } else {
            surface.update(i, ResolvedExport { ambiguous: true, ..surface[i] })
        },
        None => surface.push(ResolvedExport { name, origin, ambiguous: false }),
    }
}

/// Whether the last module of `chain` keeps `name` from the first one: a
/// wildcard does not carry the default export, nor a name that a module
/// before the last exports itself.
pub open spec fn hidden(modules: Seq<ModuleRecord>, chain: Seq<usize>, name: Seq<char>) -> bool {
    ||| (chain.len() > 1 && name == "default"@)
    ||| exists|i: int|
        0 <= i < chain.len() - 1 && exports_name(modules, #[trigger] chain[i] as int, name)
}

/// The surface after the first `count` exports of the last module of `chain`
/// have been met.
pub open spec fn with_own_exports(
    modules: Seq<ModuleRecord>,
    chain: Seq<usize>,
    surface: Seq<ResolvedExport>,
    count: nat,
) -> Seq<ResolvedExport>
    decreases count,
{
    if count == 0 {
        surface
    } else {
        let before = with_own_exports(modules, chain, surface, (count - 1) as nat);
        let export = modules[chain.last() as int].named_exports@[count - 1];
        if hidden(modules, chain, export.name@) {
            before
        } else {
            with_export(
                before,
                export.name,
                SymbolRef { owner: ModuleId { raw: chain.last() }, symbol: export.symbol },
            )
        }
    }
}

/// The surface after the first `count` wildcards of the last module of `chain`
/// have been followed, each to its end before the next: a wildcard leads to the
/// exports of the module it names, then to the wildcards of that module, and
/// is not followed to a module that the chain has passed.
pub open spec fn with_wildcards(
    modules: Seq<ModuleRecord>,
    chain: Seq<usize>,
    surface: Seq<ResolvedExport>,
    count: nat,
) -> Seq<ResolvedExport>
    decreases modules.len() - chain.len(), count,
{
    if count == 0 {
        surface
    } else {
        let before = with_wildcards(modules, chain, surface, (count - 1) as nat);
        match star_target(modules, chain.last() as int, count - 1) {
            Some(next) => if !chain.contains(next) && chain.len() < modules.len() {
                let longer = chain.push(next);
                with_wildcards(
                    modules,
                    longer,
                    with_own_exports(
                        modules,
                        longer,
                        before,
                        modules[next as int].named_exports@.len(),
                    ),
                    modules[next as int].star_exports@.len(),
                )
            } else {
                before
            },
            None => before,
        }
    }
}

/// The surface after the last module of `chain` has been walked: its own
/// exports first, then its wildcards in order.
pub open spec fn walked(
    modules: Seq<ModuleRecord>,
    chain: Seq<usize>,
    surface: Seq<ResolvedExport>,
) -> Seq<ResolvedExport> {
    with_wildcards(
        modules,
        chain,
        with_own_exports(
            modules,
            chain,
            surface,
            modules[chain.last() as int].named_exports@.len(),
        ),
        modules[chain.last() as int].star_exports@.len(),
    )
}

/// Records that `origin` is exposed under `name`: a new name is added, and a
/// name that is listed with another declaration becomes ambiguous.
fn add_export(surface: &mut Vec<ResolvedExport>, name: &String, origin: SymbolRef)
    ensures
        final(surface)@ == with_export(old(surface)@, *name, origin),
        final(surface)@.len() >= old(surface)@.len(),
        distinct_names(old(surface)@) ==> distinct_names(final(surface)@),
        covers(final(surface)@, name@, origin),
        forall|n: Seq<char>, o: SymbolRef| #[trigger]
            covers(old(surface)@, n, o) ==> covers(final(surface)@, n, o),
        forall|i: int|
            0 <= i < old(surface)@.len() ==> {
                &&& (#[trigger] final(surface)@[i]).name == old(surface)@[i].name
                &&& final(surface)@[i].origin == old(surface)@[i].origin
                &&& final(surface)@[i].ambiguous ==> old(surface)@[i].ambiguous || (old(
                    surface,
                )@[i].name@ == name@ && old(surface)@[i].origin != origin)
            },
        forall|i: int|
            old(surface)@.len() <= i < final(surface)@.len() ==> {
                &&& (#[trigger] final(surface)@[i]).name@ == name@
                &&& final(surface)@[i].origin == origin
                &&& !final(surface)@[i].ambiguous
            },
{
    let ghost before = surface@;
    let mut i: usize = 0;
    while i < surface.len() && surface[i].name != *name
        invariant
            i <= surface@.len(),
            forall|j: int| 0 <= j < i ==> (#[trigger] surface@[j]).name@ != name@,
        decreases surface@.len() - i,
    {
        i = i + 1;
    }
    if i < surface.len() {
        if !same_symbol(surface[i].origin, origin) {
            surface[i].ambiguous = true;
        }
    } else {
        surface.push(ResolvedExport { name: name.clone(), origin, ambiguous: false });
    }
    proof {
        let after = surface@;
        assert(after[i as int].name@ == name@);
        let names = names_of(before);
        names.index_of_first_ensures(name@);
        if i < before.len() {
            assert(names[i as int] == name@);
            assert(names.contains(name@));
            let first = names.index_of_first(name@).unwrap();
            if first < i {
                assert(before[first].name@ != name@);
            }
            assert(after =~= with_export(before, *name, origin));
        } else {
            if names.contains(name@) {
                let w = choose|w: int| 0 <= w < names.len() && names[w] == name@;
                assert(before[w].name@ != name@);
            }
        }
        assert forall|n: Seq<char>, o: SymbolRef| #[trigger] covers(before, n, o) implies covers(
            after,
            n,
            o,
        ) by {
            let w = choose|w: int|
                0 <= w < before.len() && (#[trigger] before[w]).name@ == n && (before[w].origin
                    == o || before[w].ambiguous);
            assert(after[w].name@ == n);
        }
    }
}

/// The module that wildcard re-export `k` of `module` takes its names from.
fn star_target_of(modules: &Vec<ModuleRecord>, module: usize, k: usize) -> (target: Option<usize>)
    requires
        module < modules@.len(),
        k < modules@[module as int].star_exports@.len(),
    ensures
        target == star_target(modules@, module as int, k as int),
{
    target_of_record(modules, module, modules[module].star_exports[k])
}

fn on_chain(chain: &Vec<usize>, module: usize) -> (found: bool)
    ensures
        found == chain@.contains(module),
{
    let mut i: usize = 0;
    while i < chain.len()
        invariant
            i <= chain@.len(),
            forall|j: int| 0 <= j < i ==> chain@[j] != module,
        decreases chain@.len() - i,
    {
        if chain[i] == module {
            return true;
        }
        i = i + 1;
    }
    false
}

/// Whether a module of the chain before its last exports `name` itself.
fn shadowed(modules: &Vec<ModuleRecord>, chain: &Vec<usize>, name: &String) -> (found: bool)
    requires
        chain@.len() >= 1,
        forall|i: int| 0 <= i < chain@.len() ==> #[trigger] chain@[i] < modules@.len(),
    ensures
        found == exists|i: int|
            0 <= i < chain@.len() - 1 && exports_name(modules@, #[trigger] chain@[i] as int, name@),
{
    let mut i: usize = 0;
    while i < chain.len() - 1
        invariant
            chain@.len() >= 1,
            i <= chain@.len() - 1,
            forall|i: int| 0 <= i < chain@.len() ==> #[trigger] chain@[i] < modules@.len(),
            forall|j: int| 0 <= j < i ==> !exports_name(modules@, #[trigger] chain@[j] as int, name@),
        decreases chain@.len() - i,
    {
        if has_export(modules, chain[i], name) {
            return true;
        }
        i = i + 1;
    }
    false
}

/// Adds to `surface` what the last module of `chain` contributes to the surface
/// of the first one, by itself and through its wildcard re-exports.
fn collect_exports(
    modules: &Vec<ModuleRecord>,
    chain: &mut Vec<usize>,
    surface: &mut Vec<ResolvedExport>,
)
    requires
        star_chain(modules@, old(chain)@),
        sound(modules@, old(chain)@[0], old(surface)@),
        distinct_names(old(surface)@),
    ensures
        final(chain)@ == old(chain)@,
        final(surface)@ == walked(modules@, old(chain)@, old(surface)@),
        sound(modules@, old(chain)@[0], final(surface)@),
        distinct_names(final(surface)@),
        forall|n: Seq<char>, o: SymbolRef| #[trigger]
            covers(old(surface)@, n, o) ==> covers(final(surface)@, n, o),
        forall|p: Seq<usize>, n: Seq<char>, o: SymbolRef|
            extends(p, old(chain)@) && #[trigger] provides(modules@, p, n, o) ==> covers(
                final(surface)@,
                n,
                o,
            ),
    decreases modules@.len() - old(chain)@.len(),
{
    let ghost start = chain@;
    let ghost root = chain@[0];
    let ghost surface0 = surface@;
    let depth: usize = chain.len();
    let module: usize = chain[depth - 1];
    let mut k: usize = 0;
    while k < modules[module].named_exports.len()
        invariant
            chain@ == start,
            star_chain(modules@, start),
            module == start.last(),
            depth == start.len(),
            root == start[0],
            k <= modules@[module as int].named_exports@.len(),
            surface@ == with_own_exports(modules@, start, surface0, k as nat),
            sound(modules@, root, surface@),
            distinct_names(surface@),
            forall|n: Seq<char>, o: SymbolRef| #[trigger]
                covers(surface0, n, o) ==> covers(surface@, n, o),
            forall|j: int, n: Seq<char>, o: SymbolRef|
                0 <= j < k && (#[trigger] modules@[module as int].named_exports@[j]).name@ == n
                    && modules@[module as int].named_exports@[j].symbol == o.symbol
                    && #[trigger] provides(modules@, start, n, o) ==> covers(surface@, n, o),
        decreases modules@[module as int].named_exports@.len() - k,
    {
        let export = &modules[module].named_exports[k];
        let carried_default = depth > 1 && is_default(&export.name);
        let kept_back = carried_default || shadowed(modules, chain, &export.name);
        let ghost previous = surface@;
        assert(kept_back == hidden(modules@, start, export.name@));
        if !kept_back {
            let origin = SymbolRef { owner: ModuleId { raw: module }, symbol: export.symbol };
            proof {
                assert(exports_symbol(modules@, module as int, export.name@, export.symbol));
                assert(provides(modules@, start, export.name@, origin));
                assert(exposes(modules@, root, export.name@, origin));
            }
            add_export(surface, &export.name, origin);
            proof {
                assert forall|i: int| 0 <= i < surface@.len() implies {
                    &&& exposes(modules@, root, (#[trigger] surface@[i]).name@, surface@[i].origin)
                    &&& surface@[i].ambiguous ==> exists|other: SymbolRef|
                        other != surface@[i].origin && #[trigger] exposes(
                            modules@,
                            root,
                            surface@[i].name@,
                            other,
                        )
                } by {
                    if i < previous.len() {
                        assert(surface@[i].name == previous[i].name);
                        if surface@[i].ambiguous && !previous[i].ambiguous {
                            assert(origin != surface@[i].origin && exposes(
                                modules@,
                                root,
                                surface@[i].name@,
                                origin,
                            ));
                        }
                    }
                }
            }
        }
        proof {
            assert forall|j: int, n: Seq<char>, o: SymbolRef|
                0 <= j < k + 1 && (#[trigger] modules@[module as int].named_exports@[j]).name@ == n
                    && modules@[module as int].named_exports@[j].symbol == o.symbol
                    && #[trigger] provides(modules@, start, n, o) implies covers(
                surface@,
                n,
                o,
            ) by {
                if j < k {
                    assert(covers(previous, n, o));
                } else if kept_back {
                    if !carried_default {
                        let i = choose|i: int|
                            0 <= i < start.len() - 1 && exports_name(
                                modules@,
                                #[trigger] start[i] as int,
                                n,
                            );
                        assert(exports_name(modules@, start[i] as int, n));
                    }
                } else {
                    assert(o == SymbolRef { owner: ModuleId { raw: module }, symbol: export.symbol });
                }
            }
        }
        k = k + 1;
    }
    let ghost surface1 = surface@;
    proof {
        assert forall|n: Seq<char>, o: SymbolRef| #[trigger]
            provides(modules@, start, n, o) implies covers(surface1, n, o) by {
            let j = choose|j: int|
                0 <= j < modules@[module as int].named_exports@.len() && (
                #[trigger] modules@[module as int].named_exports@[j]).name@ == n
                    && modules@[module as int].named_exports@[j].symbol == o.symbol;
            assert(modules@[module as int].named_exports@[j].name@ == n);
        }
    }
    let mut k: usize = 0;
    while k < modules[module].star_exports.len()
        invariant
            chain@ == start,
            star_chain(modules@, start),
            module == start.last(),
            depth == start.len(),
            root == start[0],
            k <= modules@[module as int].star_exports@.len(),
            start == old(chain)@,
            surface@ == with_wildcards(modules@, start, surface1, k as nat),
            sound(modules@, root, surface@),
            distinct_names(surface@),
            forall|n: Seq<char>, o: SymbolRef| #[trigger]
                covers(surface1, n, o) ==> covers(surface@, n, o),
            forall|p: Seq<usize>, n: Seq<char>, o: SymbolRef, j: int|
                extends(p, start) && p.len() > start.len() && 0 <= j < k && #[trigger] star_target(
                    modules@,
                    module as int,
                    j,
                ) == Some(p[start.len() as int]) && #[trigger] provides(modules@, p, n, o)
                    ==> covers(surface@, n, o),
        decreases modules@[module as int].star_exports@.len() - k,
    {
        let ghost previous = surface@;
        let target = star_target_of(modules, module, k);
        let mut visited: bool = false;
        match target {
            Some(next) => {
                if !on_chain(chain, next) {
                    proof {
                        let longer = start.push(next);
                        assert(star_edge(modules@, module as int, next as int));
                        assert forall|i: int| 0 <= i < longer.len() - 1 implies star_edge(
                            modules@,
                            #[trigger] longer[i] as int,
                            longer[i + 1] as int,
                        ) by {
                            if i < start.len() - 1 {
                                assert(longer[i] == start[i]);
                                assert(longer[i + 1] == start[i + 1]);
                            }
                        }
                        assert(star_chain(modules@, longer));
                        lemma_chain_bounded(longer, modules@.len());
                    }
                    chain.push(next);
                    collect_exports(modules, chain, surface);
                    chain.pop();
                    visited = true;
                    assert(chain@ =~= start);
                }
            },
            None => {},
        }
        proof {
            assert forall|p: Seq<usize>, n: Seq<char>, o: SymbolRef, j: int|
                extends(p, start) && p.len() > start.len() && 0 <= j < k + 1
                    && #[trigger] star_target(modules@, module as int, j) == Some(
                    p[start.len() as int],
                ) && #[trigger] provides(modules@, p, n, o) implies covers(surface@, n, o) by {
                if j < k {
                    assert(covers(previous, n, o));
                } else {
                    let next = p[start.len() as int];
                    assert(p.subrange(0, start.len() as int) == start);
                    if start.contains(next) {
                        let i = choose|i: int| 0 <= i < start.len() && start[i] == next;
                        assert(p.subrange(0, start.len() as int)[i] == p[i]);
                        assert(p[i] == p[start.len() as int]);
                    } else {
                        assert(visited);
                        assert(p.subrange(0, start.len() + 1int) =~= start.push(next)) by {
                            assert forall|i: int| 0 <= i < start.len() implies p[i] == start[i] by {
                                assert(p.subrange(0, start.len() as int)[i] == p[i]);
                            }
                        }
                        assert(extends(p, start.push(next)));
                    }
                }
            }
        }
        k = k + 1;
    }
    proof {
        assert forall|p: Seq<usize>, n: Seq<char>, o: SymbolRef|
            extends(p, start) && #[trigger] provides(modules@, p, n, o) implies covers(
            surface@,
            n,
            o,
        ) by {
            assert(p.subrange(0, start.len() as int) == start);
            if p.len() == start.len() {
                assert(p =~= p.subrange(0, start.len() as int));
                assert(covers(surface1, n, o));
            } else {
                let last = start.len() - 1;
                assert(p.subrange(0, start.len() as int)[last] == p[last]);
                assert(star_edge(modules@, p[last] as int, p[last + 1] as int));
                let j = choose|j: int|
                    0 <= j < modules@[module as int].star_exports@.len() && #[trigger] star_target(
                        modules@,
                        module as int,
                        j,
                    ) == Some(p[last + 1]);
                assert(star_target(modules@, module as int, j) == Some(p[start.len() as int]));
            }
        }
    }
}

/// The export surface of `module`.
pub fn resolve_exports(modules: &Vec<ModuleRecord>, module: usize) -> (surface: Vec<ResolvedExport>)
    requires
        module < modules@.len(),
    ensures
        surface@ == walked(modules@, seq![module], Seq::empty()),
        is_surface(modules@, module, surface@),
{
    let mut chain: Vec<usize> = Vec::new();
    chain.push(module);
    let mut surface: Vec<ResolvedExport> = Vec::new();
    assert(star_chain(modules@, chain@));
    collect_exports(modules, &mut chain, &mut surface);
    proof {
        let start = seq![module];
        assert(chain@ =~= start);
        assert forall|name: Seq<char>, origin: SymbolRef| #[trigger]
            exposes(modules@, module, name, origin) implies covers(surface@, name, origin) by {
            let p = choose|p: Seq<usize>| #[trigger]
                provides(modules@, p, name, origin) && p[0] == module;
            assert(p.subrange(0, 1) =~= start);
            assert(extends(p, start));
        }
        assert forall|i: int| 0 <= i < surface@.len() implies ((#[trigger] surface@[i]).ambiguous
            <==> exists|other: SymbolRef|
            other != surface@[i].origin && #[trigger] exposes(
                modules@,
                module,
                surface@[i].name@,
                other,
            )) by {
            if exists|other: SymbolRef|
                other != surface@[i].origin && #[trigger] exposes(
                    modules@,
                    module,
                    surface@[i].name@,
                    other,
                ) {
                let other = choose|other: SymbolRef|
                    other != surface@[i].origin && #[trigger] exposes(
                        modules@,
                        module,
                        surface@[i].name@,
                        other,
                    );
                assert(covers(surface@, surface@[i].name@, other));
                let j = choose|j: int|
                    0 <= j < surface@.len() && (#[trigger] surface@[j]).name@ == surface@[i].name@
                        && (surface@[j].origin == other || surface@[j].ambiguous);
                assert(j == i);
            }
        }
        assert forall|name: Seq<char>, origin: SymbolRef| #[trigger]
            exposes(modules@, module, name, origin) implies exists|i: int|
            0 <= i < surface@.len() && (#[trigger] surface@[i]).name@ == name by {
            assert(covers(surface@, name, origin));
        }
    }
    surface
}

} // verus!
