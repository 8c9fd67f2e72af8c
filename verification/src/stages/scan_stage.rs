use crate::ast_table::{ast_entries, AstTable};
use crate::error::{BatchedResult, BuildError};
use crate::link_graph::{is_linked, LinkOutput};
use crate::module_loader::module_loader::{
    seeded, ModuleLoader, ModuleLoaderOutput, UserEntry,
};
use crate::module_loader::plan::{announces, Plan};
use crate::module_loader::task::{Ask, Completion, Request};
use crate::options::{InputItem, InputOptions};
use crate::runtime::{is_brief, runtime_path, RuntimeModuleBrief};
use crate::types::entry_point::EntryPoint;
use crate::types::module_table::ModuleTable;
use crate::types::resolved_request_info::ResolvedRequestInfo;
use crate::types::symbols::Symbols;
use crate::types::syntax_tree::ImportKind;
use vstd::prelude::*;

verus! {

/// What resolving one entry specifier gave.
pub type EntryResolution = Result<ResolvedRequestInfo, BuildError>;

/// The error that one entry resolution contributes, if any: its own error, or
/// `EntryCannotBeExternal` where it resolved to an external module.
pub open spec fn entry_failure(resolution: EntryResolution) -> Option<BuildError> {
    match resolution {
        Ok(info) => if info.is_external {
            Some(BuildError::EntryCannotBeExternal { path: info.path })
        } else {
            None
        },
        Err(error) => Some(error),
    }
}

/// The errors of a list of entry resolutions, in the order of the list.
pub open spec fn entry_failures(resolutions: Seq<EntryResolution>) -> Seq<BuildError>
    decreases resolutions.len(),
{
    if resolutions.len() == 0 {
        Seq::empty()
    } else {
        let before = entry_failures(resolutions.drop_last());
        match entry_failure(resolutions.last()) {
            Some(error) => before.push(error),
            None => before,
        }
    }
}

/// What the scan stage hands over: the linked graph.
#[derive(Debug)]
pub struct ScanStageOutput {
    pub module_table: ModuleTable,
    pub ast_table: AstTable,
    pub entry_points: Vec<EntryPoint>,
    pub symbols: Symbols,
    pub runtime: RuntimeModuleBrief,
    pub warnings: Vec<BuildError>,
}

/// How far a scan has come.
#[derive(Clone, Copy, Debug, PartialEq, Eq, Structural)]
pub enum ScanPhase {
    /// Nothing has been asked for yet.
    Idle,
    /// The entry specifiers are being resolved.
    ResolvingEntries,
    /// The graph is being loaded.
    Loading,
    /// The scan has handed over its result or its errors.
    Done,
}

/// What happened outside the stage.
pub enum ScanEvent {
    /// The scan is to begin.
    Start,
    /// The entry specifiers have been resolved: one resolution for each entry,
    /// in the order of the input.
    EntriesResolved(Vec<EntryResolution>),
    /// The task with this ticket has been carried out.
    Completed { ticket: usize, completion: Completion },
}

/// What the stage asks for next.
pub enum ScanStep {
    /// Resolve every entry specifier, then report all resolutions at once.
    ResolveEntries(Vec<Request>),
    /// Carry out these tasks, in any order, and report each result. The list is
    /// empty where nothing new can be done until other results have come.
    Tasks(Vec<Request>),
    /// The scan is complete.
    Finished(ScanStageOutput),
    /// The scan has failed with these errors.
    Failed(Vec<BuildError>),
    /// The event does not fit the state of the scan. Nothing has changed.
    Rejected,
}

/// Whether `requests` asks for the resolution of every entry specifier, in the
/// order of the input.
pub open spec fn asks_for_entries(input: Seq<InputItem>, requests: Seq<Request>) -> bool {
    &&& requests.len() == input.len()
    &&& forall|i: int|
        0 <= i < input.len() ==> (#[trigger] requests[i]).ticket() == i && requests[i].ask()
            == (Ask::Resolve {
            specifier: input[i].import@,
            importer: None,
            is_entry: true,
            kind: ImportKind::Import,
        })
}

/// Whether `requests` hands out the tasks of `plan` from ticket `from` on.
pub open spec fn hands_out(requests: Seq<Request>, plan: Plan, from: nat) -> bool {
    &&& from + requests.len() == plan.tasks.len()
    &&& forall|i: int| 0 <= i < requests.len() ==> announces(#[trigger] requests[i], plan, from + i)
}

/// The entries with what their specifiers resolved to, where all resolved.
pub open spec fn user_entries(input: Seq<InputItem>, resolved: Seq<EntryResolution>) -> Seq<
    UserEntry,
> {
    Seq::new(input.len(), |i: int| (input[i].name, resolved[i]->Ok_0))
}

/// The plan with which loading begins: the runtime module is claimed first,
/// then the entries in the order of the input.
pub open spec fn opening(entries: Seq<UserEntry>) -> Plan {
    seeded(Plan::initial().claim(runtime_path(), false).0, entries, entries.len())
}

/// Whether `step` is how a scan ends whose loader has come to `loader`: with
/// the errors that ended it, or with the linked graph.
pub open spec fn concludes(loader: ModuleLoader, step: ScanStep) -> bool {
    match step {
        ScanStep::Failed(errors) => loader.plan().failed() && errors@ == loader.plan().errors,
        ScanStep::Finished(output) => {
            &&& !loader.plan().failed()
            &&& ast_entries(output.ast_table) == loader.plan().trees
            &&& output.entry_points@ == loader.entry_points()
            &&& loader.runtime() is Some
            &&& is_brief(
                output.runtime,
                loader.runtime().unwrap(),
                loader.modules()[loader.runtime().unwrap().raw as int].named_exports@,
            )
            &&& output.warnings@.len() >= loader.plan().warnings.len()
            &&& output.warnings@.take(loader.plan().warnings.len() as int)
                == loader.plan().warnings
            &&& is_linked(
                loader.modules(),
                LinkOutput {
                    module_table: output.module_table,
                    symbols: output.symbols,
                    warnings: output.warnings,
                },
                loader.plan().warnings.len(),
            )
        },
        _ => false,
    }
}

/// Whether `after` is `before` once the result of `ticket` has been delivered.
pub open spec fn delivered(
    before: ModuleLoader,
    ticket: usize,
    completion: Completion,
    after: ModuleLoader,
) -> bool {
    &&& after.wf()
    &&& after.plan() == before.plan().deliver(ticket as nat, completion)
    &&& after.entry_points() == before.entry_points()
    &&& after.runtime() == before.runtime()
}

/// The scan stage: from the entries of the input to the linked module graph.
///
/// The stage does no resolving, loading or parsing itself. It is driven with
/// events, and answers each with what is to be done next.
pub struct ScanStage {
    input_options: InputOptions,
    phase: ScanPhase,
    loader: Option<ModuleLoader>,
}

impl ScanStage {
    /// What the user asked to bundle.
    pub closed spec fn options(self) -> InputOptions {
        self.input_options
    }

    /// How far the scan has come.
    pub closed spec fn phase(self) -> ScanPhase {
        self.phase
    }

    /// The loader, while the graph is being loaded.
    pub closed spec fn loader(self) -> Option<ModuleLoader> {
        self.loader
    }

    /// Whether the stage is in order: it has a loader while the graph is being
    /// loaded and at no other time, and the loader has handed out all its tasks.
    pub closed spec fn wf(self) -> bool {
        match self.phase {
            ScanPhase::Loading => {
                &&& self.loader matches Some(loader)
                &&& loader.wf()
                &&& loader.runtime() is Some
                &&& !loader.plan().finished()
                &&& loader.issued() == loader.plan().tasks.len()
            },
            _ => self.loader is None,
        }
    }

    /// What well-formedness says of the public accessors.
    pub proof fn lemma_wf(self)
        requires
            self.wf(),
        ensures
            self.phase() == ScanPhase::Loading <==> self.loader() is Some,
            self.loader() matches Some(loader) ==> loader.wf() && loader.runtime() is Some
                && !loader.plan().finished() && loader.issued() == loader.plan().tasks.len(),
    {
    }

    /// A stage that has not begun.
    pub fn new(input_options: InputOptions) -> (stage: ScanStage)
        ensures
            stage.wf(),
            stage.options() == input_options,
            stage.phase() == ScanPhase::Idle,
            stage.loader() is None,
    {
        ScanStage { input_options, phase: ScanPhase::Idle, loader: None }
    }

    /// Pairs each entry with what its specifier resolved to, in the order of the
    /// input list, or fails with the errors of all entries that cannot be used.
    pub fn resolve_user_defined_entries(&self, resolved: Vec<EntryResolution>) -> (result:
        BatchedResult<Vec<(Option<String>, ResolvedRequestInfo)>>)
        requires
            resolved.len() == self.options().input.len(),
        ensures
            result is Ok <==> entry_failures(resolved@).len() == 0,
            result matches Ok(entries) ==> {
                &&& entries.len() == resolved.len()
                &&& forall|i: int|
                    0 <= i < entries.len() ==> {
                        &&& (#[trigger] entries[i]).0 == self.options().input[i].name
                        &&& resolved[i] == Ok::<ResolvedRequestInfo, BuildError>(entries[i].1)
                    }
            },
            result matches Err(errors) ==> errors@ == entry_failures(resolved@),
    {
        let mut entries: Vec<(Option<String>, ResolvedRequestInfo)> = Vec::new();
        let mut errors: Vec<BuildError> = Vec::new();
        let ghost all = resolved@;
        let mut i: usize = 0;
        for resolution in it: resolved
            invariant
                all.len() == self.options().input.len(),
                it.seq() == all,
                i == it.index(),
                errors@ == entry_failures(all.take(i as int)),
                errors.len() == 0 ==> entries.len() == i,
                errors.len() == 0 ==> forall|j: int|
                    0 <= j < i ==> {
                        &&& (#[trigger] entries[j]).0 == self.options().input[j].name
                        &&& all[j] == Ok::<ResolvedRequestInfo, BuildError>(entries[j].1)
                    },
        {
            assert(all.take(i + 1).drop_last() == all.take(i as int));
            match resolution {
                Ok(info) => {
                    if info.is_external {
                        errors.push(BuildError::EntryCannotBeExternal { path: info.path });
                    } else if errors.len() == 0 {
                        let name = match &self.input_options.input[i].name {
                            Some(name) => Some(name.clone()),
                            None => None,
                        };
                        entries.push((name, info));
                    }
                },
                Err(error) => {
                    errors.push(error);
                },
            }
            i = i + 1;
        }
        assert(all.take(i as int) == all);
        if errors.len() == 0 {
            Ok(entries)
        } else {
            Err(errors)
        }
    }

    /// The requests for the resolution of the entry specifiers.
    fn entry_requests(&self) -> (requests: Vec<Request>)
        ensures
            asks_for_entries(self.options().input@, requests@),
    {
        let mut requests: Vec<Request> = Vec::new();
        let mut i: usize = 0;
        while i < self.input_options.input.len()
            invariant
                i <= self.input_options.input@.len(),
                asks_for_entries(self.input_options.input@.take(i as int), requests@),
            decreases self.input_options.input@.len() - i,
        {
            requests.push(
                Request::Resolve {
                    ticket: i,
                    specifier: self.input_options.input[i].import.clone(),
                    importer: None,
                    is_entry: true,
                    kind: ImportKind::Import,
                },
            );
            i = i + 1;
        }
        assert(self.input_options.input@.take(i as int) == self.input_options.input@);
        requests
    }

    /// Takes the next step of the scan.
    ///
    /// A scan begins with `Start`, which asks for the resolution of the entry
    /// specifiers. If any of them fails or is external, the scan ends with the
    /// errors of all such entries, and no module has been claimed or loaded.
    /// Otherwise the runtime module and the entries are claimed, and the stage
    /// hands out tasks until every task has its result or a fatal error was met.
    /// An event that does not fit is rejected and changes nothing.
    pub fn scan(&mut self, event: ScanEvent) -> (step: ScanStep)
        requires
            old(self).wf(),
            old(self).options().input@.len() > 0,
        ensures
            final(self).wf(),
            final(self).options() == old(self).options(),
            step is Rejected ==> *final(self) == *old(self),
            match (old(self).phase(), event) {
                (ScanPhase::Idle, ScanEvent::Start) => {
                    &&& step matches ScanStep::ResolveEntries(requests)
                    &&& asks_for_entries(old(self).options().input@, requests@)
                    &&& final(self).phase() == ScanPhase::ResolvingEntries
                },
                (ScanPhase::ResolvingEntries, ScanEvent::EntriesResolved(resolved)) => {
                    if resolved@.len() != old(self).options().input@.len() {
                        step is Rejected
                    } else if entry_failures(resolved@).len() > 0 {
                        &&& step matches ScanStep::Failed(errors)
                        &&& errors@ == entry_failures(resolved@)
                        &&& final(self).phase() == ScanPhase::Done
                        &&& final(self).loader() is None
                    } else {
                        &&& step matches ScanStep::Tasks(requests)
                        &&& final(self).phase() == ScanPhase::Loading
                        &&& final(self).loader() matches Some(loader)
                        &&& loader.plan() == opening(
                            user_entries(old(self).options().input@, resolved@),
                        )
                        &&& hands_out(requests@, loader.plan(), 0)
                    }
                },
                (ScanPhase::Loading, ScanEvent::Completed { ticket, completion }) => {
                    let before = old(self).loader().unwrap();
                    if !before.plan().accepts(ticket as nat, completion) {
                        step is Rejected
                    } else if before.plan().deliver(ticket as nat, completion).finished() {
                        &&& final(self).phase() == ScanPhase::Done
                        &&& final(self).loader() is None
                        &&& exists|after: ModuleLoader| #[trigger]
                            delivered(before, ticket, completion, after) && concludes(after, step)
                    } else {
                        &&& step matches ScanStep::Tasks(requests)
                        &&& final(self).phase() == ScanPhase::Loading
                        &&& final(self).loader() matches Some(after)
                        &&& delivered(before, ticket, completion, after)
                        &&& hands_out(requests@, after.plan(), before.plan().tasks.len())
                    }
                },
                _ => step is Rejected,
            },
    {
        match event {
            ScanEvent::Start => {
                match self.phase {
                    ScanPhase::Idle => {
                        let requests = self.entry_requests();
                        self.phase = ScanPhase::ResolvingEntries;
                        ScanStep::ResolveEntries(requests)
                    },
                    _ => ScanStep::Rejected,
                }
            },
            ScanEvent::EntriesResolved(resolved) => {
                match self.phase {
                    ScanPhase::ResolvingEntries => {
                        if resolved.len() != self.input_options.input.len() {
                            return ScanStep::Rejected;
                        }
                        let ghost all = resolved@;
                        match self.resolve_user_defined_entries(resolved) {
                            Err(errors) => {
                                self.phase = ScanPhase::Done;
                                ScanStep::Failed(errors)
                            },
                            Ok(entries) => {
                                assert(entries@ =~= user_entries(self.input_options.input@, all));
                                let mut loader = ModuleLoader::new();
                                loader.try_spawn_runtime_module_task();
                                loader.add_entries(entries);
                                proof {
                                    lemma_opening_unfinished(
                                        user_entries(self.input_options.input@, all),
                                    );
                                }
                                let requests = issue_all(&mut loader);
                                proof {
                                    loader.lemma_wf();
                                }
                                self.loader = Some(loader);
                                self.phase = ScanPhase::Loading;
                                ScanStep::Tasks(requests)
                            },
                        }
                    },
                    _ => ScanStep::Rejected,
                }
            },
            ScanEvent::Completed { ticket, completion } => {
                match self.phase {
                    ScanPhase::Loading => {
                        let ghost start = *self;
                        match self.loader.take() {
                            Some(mut loader) => {
                                let ghost before = loader;
                                let accepted = loader.complete(ticket, completion);
                                if !accepted {
                                    self.loader = Some(loader);
                                    assert(*self == start);
                                    return ScanStep::Rejected;
                                }
                                if loader.is_finished() {
                                    self.phase = ScanPhase::Done;
                                    assert(delivered(before, ticket, completion, loader));
                                    match loader.finish() {
                                        Ok(output) => {
                                            let ModuleLoaderOutput {
                                                module_table,
                                                ast_table,
                                                entry_points,
                                                symbols,
                                                runtime,
                                                warnings,
                                            } = output;
                                            let step = ScanStep::Finished(
                                                ScanStageOutput {
                                                    module_table,
                                                    ast_table,
                                                    entry_points,
                                                    symbols,
                                                    runtime,
                                                    warnings,
                                                },
                                            );
                                            assert(concludes(loader, step));
                                            step
                                        },
                                        Err(errors) => {
                                            let step = ScanStep::Failed(errors);
                                            assert(concludes(loader, step));
                                            step
                                        },
                                    }
                                } else {
                                    let requests = issue_all(&mut loader);
                                    self.loader = Some(loader);
                                    ScanStep::Tasks(requests)
                                }
                            },
                            None => ScanStep::Rejected,
                        }
                    },
                    _ => ScanStep::Rejected,
                }
            },
        }
    }
}

/// Hands out every task that has not been handed out.
fn issue_all(loader: &mut ModuleLoader) -> (requests: Vec<Request>)
    requires
        old(loader).wf(),
        !old(loader).plan().failed(),
    ensures
        final(loader).wf(),
        final(loader).plan() == old(loader).plan(),
        final(loader).entry_points() == old(loader).entry_points(),
        final(loader).runtime() == old(loader).runtime(),
        final(loader).issued() == old(loader).plan().tasks.len(),
        hands_out(requests@, old(loader).plan(), old(loader).issued()),
{
    let mut requests: Vec<Request> = Vec::new();
    let ghost plan = loader.plan();
    let ghost from = loader.issued();
    proof {
        loader.lemma_wf();
    }
    loop
        invariant
            loader.wf(),
            loader.plan() == plan,
            plan == old(loader).plan(),
            from == old(loader).issued(),
            !plan.failed(),
            loader.entry_points() == old(loader).entry_points(),
            loader.runtime() == old(loader).runtime(),
            loader.issued() == from + requests@.len(),
            loader.issued() <= plan.tasks.len(),
            forall|i: int| 0 <= i < requests@.len() ==> announces(#[trigger] requests@[i], plan, from + i),
        ensures
            loader.wf(),
            loader.plan() == plan,
            loader.entry_points() == old(loader).entry_points(),
            loader.runtime() == old(loader).runtime(),
            loader.issued() == plan.tasks.len(),
            hands_out(requests@, plan, from),
        decreases plan.tasks.len() - loader.issued(),
    {
        let next = loader.next_task();
        match next {
            Some(request) => {
                requests.push(request);
                proof {
                    loader.lemma_wf();
                }
            },
            None => {
                break ;
            },
        }
    }
    requests
}

/// Loading never begins finished: the runtime module is still to be loaded.
proof fn lemma_opening_unfinished(entries: Seq<UserEntry>)
    ensures
        !opening(entries).finished(),
{
    let first = Plan::initial().claim(runtime_path(), false).0;
    Plan::initial().paths.index_of_first_ensures(runtime_path());
    assert(first.tasks.len() == 1);
    lemma_seeded_keeps(first, entries, entries.len());
}

/// Claiming entries uses up no ticket, meets no error and takes no task away.
proof fn lemma_seeded_keeps(plan: Plan, entries: Seq<UserEntry>, count: nat)
    ensures
        seeded(plan, entries, count).applied == plan.applied,
        seeded(plan, entries, count).errors == plan.errors,
        seeded(plan, entries, count).tasks.len() >= plan.tasks.len(),
    decreases count,
{
    if count > 0 {
        lemma_seeded_keeps(plan, entries, (count - 1) as nat);
    }
}

} // verus!
