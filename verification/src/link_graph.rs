//! Linking the whole graph: the export surface and the import matches of every
//! module, and the registry in which every import shares the identity of the
//! declaration it stands for.

use crate::error::BuildError;
use crate::linker::exports::{is_surface, resolve_exports, walked};
use crate::linker::imports::{
    describes, failing_imports, imports_matched, match_imports, surfaces_known, surfaces_of,
    ImportMatches,
};
use crate::types::linking_metadata::{LinkingMetadata, ResolvedExport};
use crate::types::match_import_kind::MatchImportKind;
use crate::types::module_id::ModuleId;
use crate::types::module_table::{ModuleRecord, ModuleTable};
use crate::types::symbols::{merge, SymbolRef, Symbols};
use vstd::prelude::*;

verus! {

/// Where the imports fail in the first `upto` modules: the module and the named
/// import of each failure, in the order of the modules and of their imports.
pub open spec fn failure_sites(modules: Seq<ModuleRecord>, upto: nat) -> Seq<(int, int)>
    decreases upto,
{
    if upto == 0 {
        Seq::empty()
    } else {
        let module = upto - 1;
        let failing = failing_imports(modules, module, modules[module].named_imports@.len());
        failure_sites(modules, module as nat) + Seq::new(
            failing.len(),
            |i: int| (module, failing[i]),
        )
    }
}

/// Whether `warnings` reports every failing import of the first `upto` modules,
/// each once, in order.
pub open spec fn all_failures_reported(
    modules: Seq<ModuleRecord>,
    upto: nat,
    warnings: Seq<BuildError>,
) -> bool {
    &&& warnings.len() == failure_sites(modules, upto).len()
    &&& forall|i: int|
        0 <= i < warnings.len() ==> describes(
            #[trigger] warnings[i],
            modules,
            failure_sites(modules, upto)[i].0,
            failure_sites(modules, upto)[i].1,
        )
}

/// Whether the registry holds symbol `s` of module `m` under its name, at the
/// handle that its place among the symbols of all modules gives it.
pub open spec fn symbol_registered(
    symbols: Symbols,
    modules: Seq<ModuleRecord>,
    m: int,
    s: int,
) -> bool {
    let handle = symbols.offset(m) + s;
    &&& 0 <= handle < symbols@.len()
    &&& symbols.origins()[handle] == SymbolRef {
        owner: ModuleId { raw: m as usize },
        symbol: s as usize,
    }
    &&& symbols.names()[handle] == modules[m].symbols@[s].name
    &&& symbols.top_level()[handle] == (modules[m].symbols@[s].scope == 0)
}

/// Whether the registry holds the symbols of the first `count` modules, module
/// after module.
pub open spec fn registered(symbols: Symbols, modules: Seq<ModuleRecord>, count: nat) -> bool {
    &&& symbols.modules() == count
    &&& symbols.offset(0) == 0
    &&& symbols.offset(count as int) == symbols@.len()
    &&& forall|m: int|
        0 <= m < count ==> #[trigger] symbols.offset(m + 1) == symbols.offset(m)
            + modules[m].symbols@.len()
    &&& forall|m: int, s: int|
        0 <= m < count && 0 <= s < modules[m].symbols@.len() ==> #[trigger] symbol_registered(
            symbols,
            modules,
            m,
            s,
        )
}

/// The registry of the symbols of all modules, none merged with another.
pub fn register_symbols(modules: &Vec<ModuleRecord>) -> (symbols: Symbols)
    ensures
        symbols.wf(),
        registered(symbols, modules@, modules@.len()),
        symbols@ == Seq::new(symbols@.len(), |h: int| h),
{
    let mut symbols = Symbols::new();
    let mut m: usize = 0;
    proof {
        symbols.lemma_wf();
    }
    while m < modules.len()
        invariant
            m <= modules@.len(),
            symbols.wf(),
            registered(symbols, modules@, m as nat),
            symbols@ == Seq::new(symbols@.len(), |h: int| h),
        decreases modules@.len() - m,
    {
        let ghost before = symbols;
        proof {
            before.lemma_wf();
        }
        let module = symbols.add_module(&modules[m].symbols);
        proof {
            symbols.lemma_wf();
            let added = modules@[m as int].symbols@.len();
            assert(symbols@ =~= Seq::new(symbols@.len(), |h: int| h));
            assert forall|n: int| 0 <= n < m + 1 implies #[trigger] symbols.offset(n + 1)
                == symbols.offset(n) + modules@[n].symbols@.len() by {
                if n < m {
                    assert(before.offset(n + 1) == before.offset(n) + modules@[n].symbols@.len());
                }
            }
            assert forall|n: int, s: int|
                0 <= n < m + 1 && 0 <= s < modules@[n].symbols@.len() implies #[trigger]
                symbol_registered(symbols, modules@, n, s) by {
                if n < m {
                    assert(symbol_registered(before, modules@, n, s));
                    assert(before.offset(n + 1) == before.offset(n) + modules@[n].symbols@.len());
                    assert(before.offset(n + 1) <= before.offset(m as int));
                } else {
                    let handle = before@.len() + s;
                    assert(symbols.offset(n) == before@.len());
                    assert(symbols@.len() == before@.len() + added);
                    assert(module == ModuleId { raw: n as usize });
                    assert(symbols.origins()[handle] == SymbolRef {
                        owner: module,
                        symbol: s as usize,
                    });
                    assert(symbols.names()[handle] == modules@[n].symbols@[s].name);
                    assert(symbols.top_level()[handle] == (modules@[n].symbols@[s].scope == 0));
                }
            }
        }
        m = m + 1;
    }
    symbols
}

/// The handles that named import `k` of `module` makes one: the handle of the
/// binding and the handle of the declaration that the import was found to stand for.
pub open spec fn import_link(
    symbols: Symbols,
    modules: Seq<ModuleRecord>,
    resolutions: Seq<MatchImportKind>,
    module: int,
    k: int,
) -> Option<(int, int)> {
    match resolutions[k] {
        MatchImportKind::Found(origin) => match (
            symbols.handle_of(
                SymbolRef {
                    owner: ModuleId { raw: module as usize },
                    symbol: modules[module].named_imports@[k].local,
                },
            ),
            symbols.handle_of(origin),
        ) {
            (Some(binding), Some(declaration)) => Some((binding, declaration)),
            _ => None,
        },
        _ => None,
    }
}

/// The canonical handles after the first `count` named imports of `module` have
/// been merged with what they stand for.
pub open spec fn linked_module(
    symbols: Symbols,
    canonical: Seq<int>,
    modules: Seq<ModuleRecord>,
    resolutions: Seq<MatchImportKind>,
    module: int,
    count: nat,
) -> Seq<int>
    decreases count,
{
    if count == 0 {
        canonical
    } else {
        let before = linked_module(
            symbols,
            canonical,
            modules,
            resolutions,
            module,
            (count - 1) as nat,
        );
        match import_link(symbols, modules, resolutions, module, count - 1) {
            Some((binding, declaration)) => merge(before, binding, declaration),
            None => before,
        }
    }
}

/// The canonical handles after the imports of the first `upto` modules have been
/// merged with what they stand for.
pub open spec fn linked(
    symbols: Symbols,
    canonical: Seq<int>,
    modules: Seq<ModuleRecord>,
    metas: Seq<LinkingMetadata>,
    upto: nat,
) -> Seq<int>
    decreases upto,
{
    if upto == 0 {
        canonical
    } else {
        linked_module(
            symbols,
            linked(symbols, canonical, modules, metas, (upto - 1) as nat),
            modules,
            metas[upto - 1].resolutions@,
            upto - 1,
            metas[upto - 1].resolutions@.len(),
        )
    }
}

/// Whether two registries give every symbol the same handle.
pub open spec fn same_handles(first: Symbols, second: Symbols) -> bool {
    &&& first.modules() == second.modules()
    &&& forall|m: int| first.offset(m) == second.offset(m)
    &&& first.origins() == second.origins()
    &&& first.names() == second.names()
    &&& first.top_level() == second.top_level()
}

/// Merges every import of `module` that was found with the declaration it stands for.
fn bind_module(
    symbols: &mut Symbols,
    modules: &Vec<ModuleRecord>,
    resolutions: &Vec<MatchImportKind>,
    module: usize,
)
    requires
        old(symbols).wf(),
        module < modules@.len(),
        resolutions@.len() == modules@[module as int].named_imports@.len(),
    ensures
        final(symbols).wf(),
        same_handles(*final(symbols), *old(symbols)),
        final(symbols)@ == linked_module(
            *old(symbols),
            old(symbols)@,
            modules@,
            resolutions@,
            module as int,
            resolutions@.len(),
        ),
{
    let ghost base = *symbols;
    let mut k: usize = 0;
    while k < resolutions.len()
        invariant
            symbols.wf(),
            module < modules@.len(),
            resolutions@.len() == modules@[module as int].named_imports@.len(),
            k <= resolutions@.len(),
            same_handles(*symbols, base),
            symbols@ == linked_module(base, base@, modules@, resolutions@, module as int, k as nat),
        decreases resolutions@.len() - k,
    {
        match resolutions[k] {
            MatchImportKind::Found(origin) => {
                let local = SymbolRef {
                    owner: ModuleId { raw: module },
                    symbol: modules[module].named_imports[k].local,
                };
                let binding = symbols.handle(local);
                let declaration = symbols.handle(origin);
                assert(symbols.handle_of(local) == base.handle_of(local));
                assert(symbols.handle_of(origin) == base.handle_of(origin));
                match (binding, declaration) {
                    (Some(a), Some(b)) => {
                        symbols.union(a, b);
                    },
                    _ => {},
                }
            },
            _ => {},
        }
        k = k + 1;
    }
}

/// What linking the graph gives.
///
/// Every module has its export surface and the matches of its imports. In the
/// registry every import that was found shares the identity of the declaration
/// it stands for, and every identity has its final name.
pub struct LinkOutput {
    pub module_table: ModuleTable,
    /// The registry of all symbols, with every import merged with the
    /// declaration it stands for.
    pub symbols: Symbols,
    /// One error for each import that failed.
    pub warnings: Vec<BuildError>,
}

/// Whether `output` is what linking `modules` gives, with the warnings of
/// linking after `earlier` others.
pub open spec fn is_linked(modules: Seq<ModuleRecord>, output: LinkOutput, earlier: nat) -> bool {
    let metas = output.module_table.linking@;
    &&& output.module_table.modules@ == modules
    &&& surfaces_walked(modules, surfaces_of(metas))
    &&& surfaces_known(modules, surfaces_of(metas))
    &&& forall|m: int|
        0 <= m < modules.len() ==> imports_matched(
            modules,
            surfaces_of(metas),
            m,
            modules[m].named_imports@.len(),
            (#[trigger] metas[m]).resolutions@,
            metas[m].namespaces@,
        )
    &&& earlier <= output.warnings@.len()
    &&& all_failures_reported(modules, modules.len(), output.warnings@.skip(earlier as int))
    &&& output.symbols.wf()
    &&& output.symbols.named()
    &&& registered(output.symbols, modules, modules.len())
    &&& output.symbols@ == linked(
        output.symbols,
        Seq::new(output.symbols@.len(), |h: int| h),
        modules,
        metas,
        modules.len(),
    )
}

/// Whether each surface lists the names in the order in which a walk of the
/// module and its wildcards meets them.
pub open spec fn surfaces_walked(
    modules: Seq<ModuleRecord>,
    surfaces: Seq<Seq<ResolvedExport>>,
) -> bool {
    &&& surfaces.len() == modules.len()
    &&& forall|t: int|
        0 <= t < modules.len() ==> #[trigger] surfaces[t] == walked(
            modules,
            seq![t as usize],
            Seq::empty(),
        )
}

/// The export surface of every module.
fn resolve_all_exports(modules: &Vec<ModuleRecord>) -> (metas: Vec<LinkingMetadata>)
    ensures
        surfaces_walked(modules@, surfaces_of(metas@)),
        surfaces_known(modules@, surfaces_of(metas@)),
        forall|m: int|
            0 <= m < metas@.len() ==> (#[trigger] metas@[m]).resolutions@.len() == 0
                && metas@[m].namespaces@.len() == 0,
{
    let mut metas: Vec<LinkingMetadata> = Vec::new();
    let mut m: usize = 0;
    while m < modules.len()
        invariant
            m <= modules@.len(),
            metas@.len() == m,
            forall|t: int|
                0 <= t < m ==> is_surface(
                    modules@,
                    t as usize,
                    (#[trigger] metas@[t]).resolved_exports@,
                ),
            forall|t: int|
                0 <= t < m ==> (#[trigger] metas@[t]).resolved_exports@ == walked(
                    modules@,
                    seq![t as usize],
                    Seq::empty(),
                ),
            forall|t: int|
                0 <= t < m ==> (#[trigger] metas@[t]).resolutions@.len() == 0
                    && metas@[t].namespaces@.len() == 0,
        decreases modules@.len() - m,
    {
        let surface = resolve_exports(modules, m);
        metas.push(
            LinkingMetadata {
                resolved_exports: surface,
                resolutions: Vec::new(),
                namespaces: Vec::new(),
            },
        );
        m = m + 1;
    }
    assert forall|t: int| 0 <= t < modules@.len() implies is_surface(
        modules@,
        t as usize,
        #[trigger] surfaces_of(metas@)[t],
    ) by {
        assert(surfaces_of(metas@)[t] == metas@[t].resolved_exports@);
    }
    assert forall|t: int| 0 <= t < modules@.len() implies #[trigger] surfaces_of(metas@)[t]
        == walked(modules@, seq![t as usize], Seq::empty()) by {
        assert(surfaces_of(metas@)[t] == metas@[t].resolved_exports@);
    }
    metas
}

/// Matches the imports of every module and keeps what was found in `metas`.
fn match_all_imports(modules: &Vec<ModuleRecord>, metas: &mut Vec<LinkingMetadata>) -> (warnings:
    Vec<BuildError>)
    requires
        surfaces_known(modules@, surfaces_of(old(metas)@)),
    ensures
        surfaces_of(final(metas)@) == surfaces_of(old(metas)@),
        forall|m: int|
            0 <= m < modules@.len() ==> imports_matched(
                modules@,
                surfaces_of(final(metas)@),
                m,
                modules@[m].named_imports@.len(),
                (#[trigger] final(metas)@[m]).resolutions@,
                final(metas)@[m].namespaces@,
            ),
        all_failures_reported(modules@, modules@.len(), warnings@),
{
    let ghost surfaces = surfaces_of(metas@);
    let mut warnings: Vec<BuildError> = Vec::new();
    let mut m: usize = 0;
    while m < modules.len()
        invariant
            m <= modules@.len(),
            surfaces_known(modules@, surfaces),
            surfaces_of(metas@) == surfaces,
            forall|t: int|
                0 <= t < m ==> imports_matched(
                    modules@,
                    surfaces,
                    t,
                    modules@[t].named_imports@.len(),
                    (#[trigger] metas@[t]).resolutions@,
                    metas@[t].namespaces@,
                ),
            all_failures_reported(modules@, m as nat, warnings@),
        decreases modules@.len() - m,
    {
        let ghost reported = warnings@;
        let ghost previous = metas@;
        let matches = match_imports(modules, metas, m);
        let ImportMatches { resolutions, namespaces, warnings: mut found } = matches;
        let ghost failures = found@;
        assert(metas@.len() == modules@.len());
        metas[m].resolutions = resolutions;
        metas[m].namespaces = namespaces;
        warnings.append(&mut found);
        proof {
            assert(surfaces_of(metas@) =~= surfaces) by {
                assert forall|t: int| 0 <= t < metas@.len() implies surfaces_of(metas@)[t]
                    == surfaces[t] by {
                    assert(surfaces[t] == previous[t].resolved_exports@);
                    if t != m {
                        assert(metas@[t] == previous[t]);
                    }
                }
            }
            assert forall|t: int| 0 <= t < m + 1 implies imports_matched(
                modules@,
                surfaces,
                t,
                modules@[t].named_imports@.len(),
                (#[trigger] metas@[t]).resolutions@,
                metas@[t].namespaces@,
            ) by {
                if t < m {
                    assert(metas@[t] == previous[t]);
                }
            }
            let sites = failure_sites(modules@, (m + 1) as nat);
            let failing = failing_imports(
                modules@,
                m as int,
                modules@[m as int].named_imports@.len(),
            );
            assert(warnings@ == reported + failures);
            assert forall|i: int| 0 <= i < warnings@.len() implies describes(
                #[trigger] warnings@[i],
                modules@,
                sites[i].0,
                sites[i].1,
            ) by {
                if i < reported.len() {
                    assert(warnings@[i] == reported[i]);
                    assert(sites[i] == failure_sites(modules@, m as nat)[i]);
                } else {
                    assert(warnings@[i] == failures[i - reported.len()]);
                    assert(sites[i] == (m as int, failing[i - reported.len()]));
                }
            }
        }
        m = m + 1;
    }
    warnings
}

/// Links the graph: finds the export surface of every module, matches every
/// import with what the module it names exposes, and merges the identity of
/// every import that was found with that of the declaration it stands for.
pub fn link_modules(modules: Vec<ModuleRecord>) -> (output: LinkOutput)
    ensures
        is_linked(modules@, output, 0),
{
    let mut metas = resolve_all_exports(&modules);
    let warnings = match_all_imports(&modules, &mut metas);
    let mut symbols = register_symbols(&modules);
    let ghost base = symbols;
    let mut m: usize = 0;
    while m < modules.len()
        invariant
            m <= modules@.len(),
            metas@.len() == modules@.len(),
            forall|t: int|
                0 <= t < modules@.len() ==> (#[trigger] metas@[t]).resolutions@.len()
                    == modules@[t].named_imports@.len(),
            symbols.wf(),
            base.wf(),
            same_handles(symbols, base),
            base@ == Seq::new(base@.len(), |h: int| h),
            symbols@ == linked(base, base@, modules@, metas@, m as nat),
        decreases modules@.len() - m,
    {
        let ghost before = symbols;
        bind_module(&mut symbols, &modules, &metas[m].resolutions, m);
        proof {
            lemma_linked_module_same(
                before,
                base,
                before@,
                modules@,
                metas@[m as int].resolutions@,
                m as int,
                metas@[m as int].resolutions@.len(),
            );
        }
        m = m + 1;
    }
    symbols.assign_final_names();
    proof {
        lemma_linked_same(base, symbols, base@, modules@, metas@, modules@.len());
        symbols.lemma_wf();
        base.lemma_wf();
        assert(symbols@.len() == base@.len());
        lemma_registered_same(base, symbols, modules@, modules@.len());
        assert(warnings@.skip(0) =~= warnings@);
    }
    LinkOutput { module_table: ModuleTable { modules, linking: metas }, symbols, warnings }
}

/// A registry that gives every symbol the same handle as one that holds the
/// symbols of the modules holds them too.
proof fn lemma_registered_same(
    first: Symbols,
    second: Symbols,
    modules: Seq<ModuleRecord>,
    count: nat,
)
    requires
        registered(first, modules, count),
        same_handles(second, first),
        second@.len() == first@.len(),
    ensures
        registered(second, modules, count),
{
    assert forall|m: int| 0 <= m < count implies #[trigger] second.offset(m + 1) == second.offset(m)
        + modules[m].symbols@.len() by {
        assert(first.offset(m + 1) == first.offset(m) + modules[m].symbols@.len());
    }
    assert forall|m: int, s: int|
        0 <= m < count && 0 <= s < modules[m].symbols@.len() implies #[trigger] symbol_registered(
        second,
        modules,
        m,
        s,
    ) by {
        assert(symbol_registered(first, modules, m, s));
    }
}

/// What imports make one depends on the handles of the symbols alone.
proof fn lemma_linked_module_same(
    first: Symbols,
    second: Symbols,
    canonical: Seq<int>,
    modules: Seq<ModuleRecord>,
    resolutions: Seq<MatchImportKind>,
    module: int,
    count: nat,
)
    requires
        same_handles(first, second),
    ensures
        linked_module(first, canonical, modules, resolutions, module, count) == linked_module(
            second,
            canonical,
            modules,
            resolutions,
            module,
            count,
        ),
    decreases count,
{
    if count > 0 {
        lemma_linked_module_same(
            first,
            second,
            canonical,
            modules,
            resolutions,
            module,
            (count - 1) as nat,
        );
    }
}

proof fn lemma_linked_same(
    first: Symbols,
    second: Symbols,
    canonical: Seq<int>,
    modules: Seq<ModuleRecord>,
    metas: Seq<LinkingMetadata>,
    upto: nat,
)
    requires
        same_handles(first, second),
    ensures
        linked(first, canonical, modules, metas, upto) == linked(
            second,
            canonical,
            modules,
            metas,
            upto,
        ),
    decreases upto,
{
    if upto > 0 {
        lemma_linked_same(first, second, canonical, modules, metas, (upto - 1) as nat);
        lemma_linked_module_same(
            first,
            second,
            linked(first, canonical, modules, metas, (upto - 1) as nat),
            modules,
            metas[upto - 1].resolutions@,
            upto - 1,
            metas[upto - 1].resolutions@.len(),
        );
    }
}

} // verus!
