//! What each import of a module is matched with: a declaration that the module
//! it names exposes, a namespace object, or nothing.

use crate::error::BuildError;
use crate::linker::exports::{exposes, is_surface};
use crate::types::linking_metadata::{LinkingMetadata, ResolvedExport};
use crate::types::match_import_kind::MatchImportKind;
use crate::types::module_id::ModuleId;
use crate::types::module_table::{record_target, target_of_record, ModuleRecord};
use crate::types::namespace_alias::{
    lemma_request_keeps, members_of, namespace_for, request, targets_of, NamespaceAlias,
};
use crate::types::symbols::SymbolRef;
use crate::types::syntax_tree::{ImportKind, Specifier};
use vstd::prelude::*;

verus! {

/// The module that named import `k` of `module` takes from.
pub open spec fn import_module(modules: Seq<ModuleRecord>, module: int, k: int) -> Option<usize> {
    record_target(modules, module, modules[module].named_imports@[k].record)
}

/// Whether named import `k` of `module` takes the whole module as one object: a
/// namespace import, and every binding of a `require()` or dynamic `import()`.
pub open spec fn takes_namespace(modules: Seq<ModuleRecord>, module: int, k: int) -> bool {
    let import = modules[module].named_imports@[k];
    ||| import.imported is Namespace
    ||| (import.record < modules[module].import_records@.len()
        && modules[module].import_records@[import.record as int].kind != ImportKind::Import)
}

/// The name that an import looks up among the exports of a module.
pub open spec fn imported_name(imported: Specifier) -> Seq<char> {
    match imported {
        Specifier::Named(name) => name@,
        _ => "default"@,
    }
}

/// The module whose namespace object named import `k` of `module` asks for.
pub open spec fn namespace_request(modules: Seq<ModuleRecord>, module: int, k: int) -> Option<
    usize,
> {
    match import_module(modules, module, k) {
        Some(target) => if !modules[target as int].is_external && takes_namespace(
            modules,
            module,
            k,
        ) {
            Some(target)
        } else {
            None
        },
        None => None,
    }
}

/// The module among whose exports named import `k` of `module` looks up a name.
pub open spec fn name_request(modules: Seq<ModuleRecord>, module: int, k: int) -> Option<usize> {
    match import_module(modules, module, k) {
        Some(target) => if !modules[target as int].is_external && !takes_namespace(
            modules,
            module,
            k,
        ) {
            Some(target)
        } else {
            None
        },
        None => None,
    }
}

/// The modules of which `module` has a namespace object after its first `count`
/// named imports, in the order in which the objects were first asked for.
pub open spec fn namespace_targets(modules: Seq<ModuleRecord>, module: int, count: nat) -> Seq<
    usize,
>
    decreases count,
{
    if count == 0 {
        Seq::empty()
    } else {
        let before = namespace_targets(modules, module, (count - 1) as nat);
        match namespace_request(modules, module, count - 1) {
            Some(target) => request(before, target).0,
            None => before,
        }
    }
}

/// The namespace objects of a module stay where they are as more imports are matched.
proof fn lemma_namespace_targets_grow(
    modules: Seq<ModuleRecord>,
    module: int,
    fewer: nat,
    more: nat,
)
    requires
        fewer <= more,
    ensures
        namespace_targets(modules, module, fewer).len() <= namespace_targets(
            modules,
            module,
            more,
        ).len(),
        forall|i: int|
            0 <= i < namespace_targets(modules, module, fewer).len() ==> namespace_targets(
                modules,
                module,
                more,
            )[i] == namespace_targets(modules, module, fewer)[i],
    decreases more,
{
    if fewer < more {
        lemma_namespace_targets_grow(modules, module, fewer, (more - 1) as nat);
        let before = namespace_targets(modules, module, (more - 1) as nat);
        match namespace_request(modules, module, more - 1) {
            Some(target) => {
                lemma_request_keeps(before, target);
            },
            None => {},
        }
    }
}

/// Two imports of one module that ask for the namespace object of the same
/// module get the same object.
pub proof fn lemma_namespace_shared(
    modules: Seq<ModuleRecord>,
    module: int,
    first: int,
    second: int,
    target: usize,
)
    requires
        0 <= first < second,
        namespace_request(modules, module, first) == Some(target),
        namespace_request(modules, module, second) == Some(target),
    ensures
        request(namespace_targets(modules, module, first as nat), target).1 == request(
            namespace_targets(modules, module, second as nat),
            target,
        ).1,
{
    let early = namespace_targets(modules, module, first as nat);
    let made = namespace_targets(modules, module, (first + 1) as nat);
    let late = namespace_targets(modules, module, second as nat);
    let object = request(early, target).1;
    lemma_request_keeps(early, target);
    early.index_of_first_ensures(target);
    assert(made == request(early, target).0);
    lemma_namespace_targets_grow(modules, module, (first + 1) as nat, second as nat);
    assert(late[object] == target);
    assert(late.contains(target));
    late.index_of_first_ensures(target);
    let found = late.index_of_first(target).unwrap();
    if found < object {
        assert(made[found] == late[found]);
        if early.index_of_first(target) is Some {
            assert(early[found] == made[found]);
        } else {
            assert(found < early.len());
            assert(early[found] == made[found]);
            assert(early.contains(target));
        }
    }
}

/// Whether `resolution` is what named import `k` of `module` is matched with.
///
/// An import by name is found where the module it names exposes exactly one
/// declaration under that name, ambiguous where it exposes several, and not
/// found where it exposes none.
pub open spec fn resolved_as(
    modules: Seq<ModuleRecord>,
    module: int,
    k: int,
    resolution: MatchImportKind,
) -> bool {
    match import_module(modules, module, k) {
        None => resolution is Unresolved,
        Some(target) => if modules[target as int].is_external {
            resolution is External
        } else if takes_namespace(modules, module, k) {
            resolution == MatchImportKind::Namespace(
                request(namespace_targets(modules, module, k as nat), target).1 as usize,
            )
        } else {
            let name = imported_name(modules[module].named_imports@[k].imported);
            match resolution {
                MatchImportKind::Found(origin) => exposes(modules, target, name, origin)
                    && forall|other: SymbolRef| #[trigger]
                    exposes(modules, target, name, other) ==> other == origin,
                MatchImportKind::NotFound => forall|other: SymbolRef|
                    !#[trigger] exposes(modules, target, name, other),
                MatchImportKind::Ambiguous => exists|first: SymbolRef, second: SymbolRef|
                    first != second && #[trigger] exposes(modules, target, name, first)
                        && #[trigger] exposes(modules, target, name, second),
                _ => false,
            }
        },
    }
}

/// An import of a name that stands for two declarations is ambiguous, whatever
/// else the module exposes.
pub proof fn lemma_two_origins_are_ambiguous(
    modules: Seq<ModuleRecord>,
    module: int,
    k: int,
    resolution: MatchImportKind,
    first: SymbolRef,
    second: SymbolRef,
)
    requires
        resolved_as(modules, module, k, resolution),
        name_request(modules, module, k) matches Some(target) && exposes(
            modules,
            target,
            imported_name(modules[module].named_imports@[k].imported),
            first,
        ) && exposes(
            modules,
            target,
            imported_name(modules[module].named_imports@[k].imported),
            second,
        ),
        first != second,
    ensures
        resolution is Ambiguous,
{
}

/// Whether named import `k` of `module` asks for a name that the module it names
/// does not expose, or exposes for more than one declaration.
pub open spec fn import_fails(modules: Seq<ModuleRecord>, module: int, k: int) -> bool {
    match name_request(modules, module, k) {
        Some(target) => {
            let name = imported_name(modules[module].named_imports@[k].imported);
            ||| forall|other: SymbolRef| !#[trigger] exposes(modules, target, name, other)
            ||| exists|first: SymbolRef, second: SymbolRef|
                first != second && #[trigger] exposes(modules, target, name, first)
                    && #[trigger] exposes(modules, target, name, second)
        },
        None => false,
    }
}

/// The named imports of `module` among its first `count` that fail, in order.
pub open spec fn failing_imports(modules: Seq<ModuleRecord>, module: int, count: nat) -> Seq<int>
    decreases count,
{
    if count == 0 {
        Seq::empty()
    } else {
        let before = failing_imports(modules, module, (count - 1) as nat);
        if import_fails(modules, module, count - 1) {
            before.push(count - 1)
        } else {
            before
        }
    }
}

/// The specifier that named import `k` of `module` was written with.
pub open spec fn import_specifier(modules: Seq<ModuleRecord>, module: int, k: int) -> Seq<char> {
    let record = modules[module].named_imports@[k].record;
    if record < modules[module].import_records@.len() {
        modules[module].import_records@[record as int].specifier@
    } else {
        Seq::empty()
    }
}

/// Whether `error` reports the failure of named import `k` of `module`.
pub open spec fn describes(
    error: BuildError,
    modules: Seq<ModuleRecord>,
    module: int,
    k: int,
) -> bool {
    let wanted = imported_name(modules[module].named_imports@[k].imported);
    match name_request(modules, module, k) {
        Some(target) => match error {
            BuildError::UnresolvedImport { importer, specifier, name } => {
                &&& forall|other: SymbolRef| !#[trigger] exposes(modules, target, wanted, other)
                &&& importer@ == modules[module].path@
                &&& specifier@ == import_specifier(modules, module, k)
                &&& name@ == wanted
            },
            BuildError::AmbiguousExport { importer, specifier, name } => {
                &&& exists|first: SymbolRef, second: SymbolRef|
                    first != second && #[trigger] exposes(modules, target, wanted, first)
                        && #[trigger] exposes(modules, target, wanted, second)
                &&& importer@ == modules[module].path@
                &&& specifier@ == import_specifier(modules, module, k)
                &&& name@ == wanted
            },
            _ => false,
        },
        None => false,
    }
}

/// The export surface of each module.
pub open spec fn surfaces_of(metas: Seq<LinkingMetadata>) -> Seq<Seq<ResolvedExport>> {
    Seq::new(metas.len(), |t: int| metas[t].resolved_exports@)
}

/// Whether `surfaces` holds the export surface of each module.
pub open spec fn surfaces_known(
    modules: Seq<ModuleRecord>,
    surfaces: Seq<Seq<ResolvedExport>>,
) -> bool {
    &&& surfaces.len() == modules.len()
    &&& forall|t: int|
        0 <= t < modules.len() ==> is_surface(modules, t as usize, #[trigger] surfaces[t])
}

/// The name that an import looks up among the exports of a module.
pub fn name_of(imported: &Specifier) -> (name: String)
    ensures
        name@ == imported_name(*imported),
{
    match imported {
        Specifier::Named(name) => name.clone(),
        _ => "default".to_owned(),
    }
}

fn find_export(surface: &Vec<ResolvedExport>, name: &String) -> (found: Option<usize>)
    ensures
        found matches Some(i) ==> i < surface@.len() && surface@[i as int].name@ == name@,
        found is None ==> forall|i: int|
            0 <= i < surface@.len() ==> (#[trigger] surface@[i]).name@ != name@,
{
    let mut i: usize = 0;
    while i < surface.len()
        invariant
            i <= surface@.len(),
            forall|j: int| 0 <= j < i ==> (#[trigger] surface@[j]).name@ != name@,
        decreases surface@.len() - i,
    {
        if surface[i].name == *name {
            return Some(i);
        }
        i = i + 1;
    }
    None
}

/// What the named imports of one module are matched with.
pub struct ImportMatches {
    /// One resolution for each named import, in order.
    pub resolutions: Vec<MatchImportKind>,
    /// The namespace objects that the imports asked for.
    pub namespaces: Vec<NamespaceAlias>,
    /// One error for each import that failed, in order.
    pub warnings: Vec<BuildError>,
}

/// Whether `resolutions` and `namespaces` are what the first `count` named
/// imports of `module` are matched with.
pub open spec fn imports_matched(
    modules: Seq<ModuleRecord>,
    surfaces: Seq<Seq<ResolvedExport>>,
    module: int,
    count: nat,
    resolutions: Seq<MatchImportKind>,
    namespaces: Seq<NamespaceAlias>,
) -> bool {
    &&& resolutions.len() == count
    &&& forall|k: int| 0 <= k < count ==> resolved_as(modules, module, k, #[trigger] resolutions[k])
    &&& targets_of(namespaces) == namespace_targets(modules, module, count)
    &&& targets_of(namespaces).no_duplicates()
    &&& forall|j: int|
        0 <= j < namespaces.len() ==> (#[trigger] namespaces[j]).target.raw < modules.len()
            && namespaces[j].members@ == members_of(surfaces[namespaces[j].target.raw as int])
}

/// Whether `warnings` reports the named imports of `module` among its first
/// `count` that fail, each once, in order.
pub open spec fn failures_reported(
    modules: Seq<ModuleRecord>,
    module: int,
    count: nat,
    warnings: Seq<BuildError>,
) -> bool {
    &&& warnings.len() == failing_imports(modules, module, count).len()
    &&& forall|i: int|
        0 <= i < warnings.len() ==> describes(
            #[trigger] warnings[i],
            modules,
            module,
            failing_imports(modules, module, count)[i],
        )
}

/// Whether `matches` is what the first `count` named imports of `module` are
/// matched with.
pub open spec fn is_matching(
    modules: Seq<ModuleRecord>,
    surfaces: Seq<Seq<ResolvedExport>>,
    module: int,
    count: nat,
    matches: ImportMatches,
) -> bool {
    &&& imports_matched(
        modules,
        surfaces,
        module,
        count,
        matches.resolutions@,
        matches.namespaces@,
    )
    &&& failures_reported(modules, module, count, matches.warnings@)
}

/// Matches every named import of `module` with what the module it names exports.
pub fn match_imports(
    modules: &Vec<ModuleRecord>,
    metas: &Vec<LinkingMetadata>,
    module: usize,
) -> (matches: ImportMatches)
    requires
        module < modules@.len(),
        surfaces_known(modules@, surfaces_of(metas@)),
    ensures
        is_matching(
            modules@,
            surfaces_of(metas@),
            module as int,
            modules@[module as int].named_imports@.len(),
            matches,
        ),
{
    let mut matches = ImportMatches {
        resolutions: Vec::new(),
        namespaces: Vec::new(),
        warnings: Vec::new(),
    };
    let record = &modules[module];
    let mut k: usize = 0;
    assert(targets_of(matches.namespaces@) =~= Seq::<usize>::empty());
    while k < record.named_imports.len()
        invariant
            module < modules@.len(),
            record == &modules@[module as int],
            surfaces_known(modules@, surfaces_of(metas@)),
            k <= record.named_imports@.len(),
            is_matching(modules@, surfaces_of(metas@), module as int, k as nat, matches),
        decreases record.named_imports@.len() - k,
    {
        let import = &record.named_imports[k];
        let ghost before = matches;
        let ghost failing = failing_imports(modules@, module as int, k as nat);
        let takes_all = match import.imported {
            Specifier::Namespace => true,
            _ => if import.record < record.import_records.len() {
                match record.import_records[import.record].kind {
                    ImportKind::Import => false,
                    _ => true,
                }
            } else {
                false
            },
        };
        assert(takes_all == takes_namespace(modules@, module as int, k as int));
        match target_of_record(modules, module, import.record) {
            None => {
                matches.resolutions.push(MatchImportKind::Unresolved);
            },
            Some(target) => {
                if modules[target].is_external {
                    matches.resolutions.push(MatchImportKind::External);
                } else if takes_all {
                    proof {
                        lemma_request_keeps(targets_of(matches.namespaces@), target);
                    }
                    let id = namespace_for(
                        &mut matches.namespaces,
                        ModuleId { raw: target },
                        &metas[target].resolved_exports,
                    );
                    matches.resolutions.push(MatchImportKind::Namespace(id));
                } else {
                    let name = name_of(&import.imported);
                    let surface = &metas[target].resolved_exports;
                    assert(surface@ == surfaces_of(metas@)[target as int]);
                    assert(is_surface(modules@, target, surface@));
                    let specifier = if import.record < record.import_records.len() {
                        record.import_records[import.record].specifier.clone()
                    } else {
                        String::new()
                    };
                    match find_export(surface, &name) {
                        None => {
                            matches.resolutions.push(MatchImportKind::NotFound);
                            matches.warnings.push(
                                BuildError::UnresolvedImport {
                                    importer: record.path.clone(),
                                    specifier,
                                    name,
                                },
                            );
                        },
                        Some(i) => {
                            if surface[i].ambiguous {
                                matches.resolutions.push(MatchImportKind::Ambiguous);
                                matches.warnings.push(
                                    BuildError::AmbiguousExport {
                                        importer: record.path.clone(),
                                        specifier,
                                        name,
                                    },
                                );
                                proof {
                                    let other = choose|other: SymbolRef|
                                        other != surface@[i as int].origin && #[trigger] exposes(
                                            modules@,
                                            target,
                                            surface@[i as int].name@,
                                            other,
                                        );
                                    assert(exposes(modules@, target, name@, other));
                                    assert(exposes(modules@, target, name@, surface@[i as int].origin));
                                }
                            } else {
                                matches.resolutions.push(MatchImportKind::Found(surface[i].origin));
                                proof {
                                    let origin = surface@[i as int].origin;
                                    assert(exposes(modules@, target, name@, origin));
                                    assert forall|other: SymbolRef| #[trigger]
                                        exposes(modules@, target, name@, other) implies other
                                        == origin by {
                                        if other != origin {
                                            assert(surface@[i as int].ambiguous);
                                        }
                                    }
                                }
                            }
                        },
                    }
                }
            },
        }
        proof {
            let n = (k + 1) as nat;
            assert(matches.resolutions@.len() == n);
            assert(resolved_as(modules@, module as int, k as int, matches.resolutions@[k as int]));
            assert forall|j: int| 0 <= j < n implies resolved_as(
                modules@,
                module as int,
                j,
                #[trigger] matches.resolutions@[j],
            ) by {
                if j < k {
                    assert(matches.resolutions@[j] == before.resolutions@[j]);
                }
            }
            assert forall|i: int| 0 <= i < matches.warnings@.len() implies describes(
                #[trigger] matches.warnings@[i],
                modules@,
                module as int,
                failing_imports(modules@, module as int, n)[i],
            ) by {
                if i < before.warnings@.len() {
                    assert(matches.warnings@[i] == before.warnings@[i]);
                    assert(failing_imports(modules@, module as int, n)[i] == failing[i]);
                }
            }
        }
        k = k + 1;
    }
    matches
}

} // verus!
