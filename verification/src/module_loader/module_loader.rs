use crate::ast_scanner::scan_module;
use crate::ast_table::{ast_entries, table_new, table_push, table_set, AstTable};
use crate::error::{BatchedResult, BuildError};
use crate::link_graph::{is_linked, link_modules, LinkOutput};
use crate::module_loader::plan::{
    announces, lemma_advanced, lemma_apply, lemma_claim, lemma_store, lemma_tasks_kept,
    records_of, resolve_tasks, Plan,
};
use crate::module_loader::task::{is_compatible, Completion, Request, Task};
use crate::runtime::{is_brief, runtime_module_path, runtime_path, RuntimeModuleBrief};
use crate::types::entry_point::EntryPoint;
use crate::types::module_id::ModuleId;
use crate::types::module_table::{ModuleRecord, ModuleTable};
use crate::types::resolved_request_info::ResolvedRequestInfo;
use crate::types::symbols::Symbols;
use crate::types::syntax_tree::SyntaxTree;
use vstd::prelude::*;

verus! {

/// The path of each module.
pub open spec fn paths_of(modules: Seq<ModuleRecord>) -> Seq<Seq<char>> {
    Seq::new(modules.len(), |m: int| modules[m].path@)
}

/// Whether each module is external.
pub open spec fn external_of(modules: Seq<ModuleRecord>) -> Seq<bool> {
    Seq::new(modules.len(), |m: int| modules[m].is_external)
}

/// The module that each resolved import record leads to.
pub open spec fn edges_of(modules: Seq<ModuleRecord>) -> Map<(nat, nat), nat> {
    Map::new(
        |edge: (nat, nat)|
            edge.0 < modules.len() && edge.1 < modules[edge.0 as int].resolved@.len()
                && modules[edge.0 as int].resolved@[edge.1 as int] is Some,
        |edge: (nat, nat)| modules[edge.0 as int].resolved@[edge.1 as int].unwrap().raw as nat,
    )
}

/// Whether each record holds what scanning the syntax of its module gives, and
/// nothing where the module has no syntax.
pub open spec fn records_hold(modules: Seq<ModuleRecord>, trees: Seq<Option<SyntaxTree>>) -> bool {
    forall|m: int|
        0 <= m < modules.len() ==> match trees[m] {
            Some(tree) => (#[trigger] modules[m]).holds(tree.nodes@),
            None => modules[m].is_bare(),
        }
}

/// One entry of the input with what its specifier resolved to.
pub type UserEntry = (Option<String>, ResolvedRequestInfo);

/// The plan after the first `count` entries have claimed their paths.
pub open spec fn seeded(plan: Plan, entries: Seq<UserEntry>, count: nat) -> Plan
    decreases count,
{
    if count == 0 {
        plan
    } else {
        seeded(plan, entries, (count - 1) as nat).claim(
            entries[count - 1].1.path@,
            entries[count - 1].1.is_external,
        ).0
    }
}

/// The module that entry `k` is given.
pub open spec fn entry_module(plan: Plan, entries: Seq<UserEntry>, k: int) -> nat {
    seeded(plan, entries, k as nat).claim(entries[k].1.path@, entries[k].1.is_external).1
}

/// What the loader hands over when the graph is complete.
#[derive(Debug)]
pub struct ModuleLoaderOutput {
    pub module_table: ModuleTable,
    pub ast_table: AstTable,
    pub entry_points: Vec<EntryPoint>,
    pub symbols: Symbols,
    pub runtime: RuntimeModuleBrief,
    pub warnings: Vec<BuildError>,
}

/// The loader of the module graph.
///
/// The loader issues tasks, which the caller carries out, and takes their
/// results in any order. It applies the results in the order of the tickets,
/// so that what it builds does not depend on which task is completed first.
pub struct ModuleLoader {
    modules: Vec<ModuleRecord>,
    asts: AstTable,
    tasks: Vec<Task>,
    inbox: Vec<Option<Completion>>,
    applied: usize,
    issued: usize,
    warnings: Vec<BuildError>,
    errors: Vec<BuildError>,
    entry_points: Vec<EntryPoint>,
    runtime: Option<ModuleId>,
}

impl ModuleLoader {
    /// The state of the loader.
    pub closed spec fn plan(self) -> Plan {
        Plan {
            paths: paths_of(self.modules@),
            external: external_of(self.modules@),
            trees: ast_entries(self.asts),
            edges: edges_of(self.modules@),
            tasks: self.tasks@,
            inbox: self.inbox@,
            applied: self.applied as nat,
            warnings: self.warnings@,
            errors: self.errors@,
        }
    }

    /// The number of tasks that have been handed out.
    pub closed spec fn issued(self) -> nat {
        self.issued as nat
    }

    /// The modules of the graph, by handle.
    pub closed spec fn modules(self) -> Seq<ModuleRecord> {
        self.modules@
    }

    /// The entry points, in the order of the input.
    pub closed spec fn entry_points(self) -> Seq<EntryPoint> {
        self.entry_points@
    }

    /// The module of the bundler's own helpers, once it has been claimed.
    pub closed spec fn runtime(self) -> Option<ModuleId> {
        self.runtime
    }

    /// Whether the loader is in order: its plan is well-formed, and every record
    /// holds what scanning the syntax of its module gives.
    pub closed spec fn wf(self) -> bool {
        &&& self.plan().wf()
        &&& self.issued <= self.tasks@.len()
        &&& records_hold(self.modules@, ast_entries(self.asts))
        &&& forall|k: int|
            0 <= k < self.entry_points@.len() ==> (#[trigger] self.entry_points@[k]).id.raw
                < self.modules@.len()
        &&& self.runtime matches Some(id) ==> id.raw < self.modules@.len()
    }

    /// What well-formedness says of the public accessors.
    pub proof fn lemma_wf(self)
        requires
            self.wf(),
        ensures
            self.plan().wf(),
            self.issued() <= self.plan().tasks.len(),
            self.plan().paths == paths_of(self.modules()),
            self.plan().external == external_of(self.modules()),
            records_hold(self.modules(), self.plan().trees),
            self.plan().edges == edges_of(self.modules()),
            forall|k: int|
                0 <= k < self.entry_points().len() ==> (#[trigger] self.entry_points()[k]).id.raw
                    < self.modules().len(),
            self.runtime() matches Some(id) ==> id.raw < self.modules().len(),
    {
    }

    /// A loader that has claimed nothing and issued nothing.
    pub fn new() -> (loader: ModuleLoader)
        ensures
            loader.wf(),
            loader.plan() == Plan::initial(),
            loader.issued() == 0,
            loader.entry_points().len() == 0,
            loader.runtime() is None,
    {
        let loader = ModuleLoader {
            modules: Vec::new(),
            asts: table_new(),
            tasks: Vec::new(),
            inbox: Vec::new(),
            applied: 0,
            issued: 0,
            warnings: Vec::new(),
            errors: Vec::new(),
            entry_points: Vec::new(),
            runtime: None,
        };
        proof {
            assert(loader.plan().paths =~= Seq::empty());
            assert(loader.plan().external =~= Seq::empty());
            assert(loader.plan().edges =~= Map::empty());
            assert(loader.plan() =~= Plan::initial());
        }
        loader
    }

    /// Claims a path: the module that has it, or a new module after the others.
    fn claim(&mut self, path: String, external: bool) -> (id: ModuleId)
        requires
            old(self).wf(),
        ensures
            final(self).wf(),
            (final(self).plan(), id.raw as nat) == old(self).plan().claim(path@, external),
            id.raw < final(self).modules@.len(),
            final(self).issued == old(self).issued,
            final(self).entry_points == old(self).entry_points,
            final(self).runtime == old(self).runtime,
            final(self).modules@.len() >= old(self).modules@.len(),
            forall|j: int|
                0 <= j < old(self).modules@.len() ==> final(self).modules@[j] == old(
                    self,
                ).modules@[j],
    {
        let ghost before = self.plan();
        proof {
            before.paths.index_of_first_ensures(path@);
        }
        let mut m: usize = 0;
        while m < self.modules.len()
            invariant
                *self == *old(self),
                self.wf(),
                m <= self.modules@.len(),
                before == self.plan(),
                forall|j: int| 0 <= j < m ==> before.paths[j] != path@,
            decreases self.modules@.len() - m,
        {
            if self.modules[m].path == path {
                proof {
                    assert(before.paths[m as int] == path@);
                    assert(before.paths.contains(path@));
                    before.paths.index_of_first_ensures(path@);
                    let first = before.paths.index_of_first(path@).unwrap();
                    if first < m {
                        assert(before.paths[first] != path@);
                    }
                }
                return ModuleId { raw: m };
            }
            m = m + 1;
        }
        proof {
            if before.paths.contains(path@) {
                let j = choose|j: int| 0 <= j < before.paths.len() && before.paths[j] == path@;
                assert(before.paths[j] != path@);
            }
        }
        let ghost old_modules = self.modules@;
        self.modules.push(ModuleRecord::bare(path, external));
        table_push(&mut self.asts, None);
        if !external {
            self.tasks.push(Task::Load { module: m });
        }
        proof {
            assert(self.modules.len() == self.modules@.len());
            assert(before.paths.len() < usize::MAX);
            lemma_claim(before, path@, external);
            let after = before.claim(path@, external).0;
            assert(self.plan().paths =~= after.paths);
            assert(self.plan().external =~= after.external);
            assert(self.plan().edges =~= after.edges);
            assert(self.plan().tasks =~= after.tasks);
            assert(self.plan() =~= after);
            assert forall|j: int| 0 <= j < self.modules@.len() implies match ast_entries(
                self.asts,
            )[j] {
                Some(tree) => (#[trigger] self.modules@[j]).holds(tree.nodes@),
                None => self.modules@[j].is_bare(),
            } by {
                if j < old_modules.len() {
                    assert(self.modules@[j] == old_modules[j]);
                }
            }
        }
        ModuleId { raw: m }
    }

    /// Claims the module of the bundler's own helpers. Only the first call adds a
    /// module: every call gives the same one.
    pub fn try_spawn_runtime_module_task(&mut self) -> (id: ModuleId)
        requires
            old(self).wf(),
        ensures
            final(self).wf(),
            (final(self).plan(), id.raw as nat) == old(self).plan().claim(runtime_path(), false),
            final(self).runtime() == Some(id),
            final(self).issued() == old(self).issued(),
            final(self).entry_points() == old(self).entry_points(),
    {
        let id = self.claim(runtime_module_path(), false);
        self.runtime = Some(id);
        id
    }

    /// Claims the path of every entry, in the order of the input, and lists the
    /// entry points.
    pub fn add_entries(&mut self, user_entries: Vec<UserEntry>)
        requires
            old(self).wf(),
        ensures
            final(self).wf(),
            final(self).plan() == seeded(old(self).plan(), user_entries@, user_entries@.len()),
            final(self).issued() == old(self).issued(),
            final(self).runtime() == old(self).runtime(),
            final(self).entry_points().len() == old(self).entry_points().len()
                + user_entries@.len(),
            forall|k: int|
                0 <= k < old(self).entry_points().len() ==> final(self).entry_points()[k] == old(
                    self,
                ).entry_points()[k],
            forall|k: int|
                0 <= k < user_entries@.len() ==> {
                    let entry = #[trigger] final(self).entry_points()[
                        old(self).entry_points().len() + k
                    ];
                    &&& entry.name == user_entries@[k].0
                    &&& entry.id.raw == entry_module(old(self).plan(), user_entries@, k)
                },
    {
        let ghost start = self.plan();
        let ghost entries = user_entries@;
        let ghost listed = self.entry_points@;
        for entry in it: user_entries
            invariant
                it.seq() == entries,
                self.wf(),
                start == old(self).plan(),
                listed == old(self).entry_points@,
                self.plan() == seeded(start, entries, it.index() as nat),
                self.issued == old(self).issued,
                self.runtime == old(self).runtime,
                self.entry_points@.len() == listed.len() + it.index(),
                forall|j: int| 0 <= j < listed.len() ==> self.entry_points@[j] == listed[j],
                forall|j: int|
                    0 <= j < it.index() ==> {
                        let entry = #[trigger] self.entry_points@[listed.len() + j];
                        &&& entry.name == entries[j].0
                        &&& entry.id.raw == entry_module(start, entries, j)
                    },
        {
            let ghost k = it.index();
            let (name, info) = entry;
            let ghost previous = self.entry_points@;
            let id = self.claim(info.path, info.is_external);
            self.entry_points.push(EntryPoint { name, id });
            proof {
                assert forall|j: int| 0 <= j < k + 1 implies {
                    let entry = #[trigger] self.entry_points@[listed.len() + j];
                    &&& entry.name == entries[j].0
                    &&& entry.id.raw == entry_module(start, entries, j)
                } by {
                    if j < k {
                        assert(self.entry_points@[listed.len() + j] == previous[listed.len() + j]);
                    }
                }
            }
        }
    }

    /// Records an error: among the errors that end the scan, or among the warnings.
    fn record_error(&mut self, error: BuildError)
        requires
            old(self).wf(),
        ensures
            final(self).wf(),
            final(self).plan() == old(self).plan().fail(error),
            final(self).issued == old(self).issued,
            final(self).entry_points == old(self).entry_points,
            final(self).runtime == old(self).runtime,
            final(self).modules == old(self).modules,
            final(self).inbox == old(self).inbox,
    {
        let ghost before = self.plan();
        if error.is_always_fatal() {
            self.errors.push(error);
        } else {
            self.warnings.push(error);
        }
        proof {
            let after = self.plan();
            assert(after == before.fail(error));
            lemma_tasks_kept(before, after);
        }
    }

    /// Gives a loaded module its syntax and what scanning it gives, and issues
    /// one task for each of its import records.
    fn install(&mut self, module: usize, tree: SyntaxTree)
        requires
            old(self).wf(),
            module < old(self).modules@.len(),
            ast_entries(old(self).asts)[module as int] is None,
            (Plan {
                trees: old(self).plan().trees.update(module as int, Some(tree)),
                tasks: old(self).plan().tasks + resolve_tasks(module, records_of(tree).len()),
                ..old(self).plan()
            }).wf(),
        ensures
            final(self).wf(),
            final(self).plan() == (Plan {
                trees: old(self).plan().trees.update(module as int, Some(tree)),
                tasks: old(self).plan().tasks + resolve_tasks(module, records_of(tree).len()),
                ..old(self).plan()
            }),
            final(self).issued == old(self).issued,
            final(self).entry_points == old(self).entry_points,
            final(self).runtime == old(self).runtime,
            final(self).modules@.len() == old(self).modules@.len(),
            final(self).inbox == old(self).inbox,
    {
        let ghost before = self.plan();
        let ghost old_modules = self.modules@;
        let ghost old_tasks = self.tasks@;
        let ghost old_trees = ast_entries(self.asts);
        let analysis = scan_module(&tree);
        let count: usize = analysis.import_records.len();
        let mut resolved: Vec<Option<ModuleId>> = Vec::new();
        let mut r: usize = 0;
        while r < count
            invariant
                r <= count,
                resolved@.len() == r,
                forall|q: int| 0 <= q < r ==> resolved@[q] is None,
                self.tasks@ == old_tasks + resolve_tasks(module, r as nat),
                self.modules@ == old_modules,
                ast_entries(self.asts) == old_trees,
                self.inbox == old(self).inbox,
                self.applied == old(self).applied,
                self.issued == old(self).issued,
                self.warnings == old(self).warnings,
                self.errors == old(self).errors,
                self.entry_points == old(self).entry_points,
                self.runtime == old(self).runtime,
            decreases count - r,
        {
            resolved.push(None);
            self.tasks.push(Task::Resolve { importer: module, record: r });
            r = r + 1;
            assert(self.tasks@ =~= old_tasks + resolve_tasks(module, r as nat));
        }
        let record = ModuleRecord {
            path: self.modules[module].path.clone(),
            is_external: self.modules[module].is_external,
            scopes: analysis.scopes,
            symbols: analysis.symbols,
            references: analysis.references,
            bindings: analysis.bindings,
            import_records: analysis.import_records,
            resolved,
            named_imports: analysis.named_imports,
            named_exports: analysis.named_exports,
            star_exports: analysis.star_exports,
        };
        assert(record.holds(tree.nodes@));
        self.modules.set(module, record);
        table_set(&mut self.asts, ModuleId { raw: module }, Some(tree));
        proof {
            let after = Plan {
                trees: before.trees.update(module as int, Some(tree)),
                tasks: before.tasks + resolve_tasks(module, records_of(tree).len()),
                ..before
            };
            assert(old_modules[module as int].is_bare());
            assert(self.plan().paths =~= after.paths);
            assert(self.plan().external =~= after.external);
            assert(self.plan().edges =~= after.edges);
            assert(self.plan() =~= after);
            assert forall|j: int| 0 <= j < self.modules@.len() implies match ast_entries(
                self.asts,
            )[j] {
                Some(tree) => (#[trigger] self.modules@[j]).holds(tree.nodes@),
                None => self.modules@[j].is_bare(),
            } by {
                if j != module {
                    assert(self.modules@[j] == old_modules[j]);
                }
            }
        }
    }

    /// Records that an import record of a module leads to another module.
    fn connect(&mut self, importer: usize, record: usize, target: ModuleId)
        requires
            old(self).wf(),
            importer < old(self).modules@.len(),
            record < old(self).modules@[importer as int].resolved@.len(),
            target.raw < old(self).modules@.len(),
        ensures
            final(self).wf(),
            final(self).plan() == (Plan {
                edges: old(self).plan().edges.insert(
                    (importer as nat, record as nat),
                    target.raw as nat,
                ),
                ..old(self).plan()
            }),
            final(self).issued == old(self).issued,
            final(self).entry_points == old(self).entry_points,
            final(self).runtime == old(self).runtime,
            final(self).modules@.len() == old(self).modules@.len(),
            final(self).inbox == old(self).inbox,
    {
        let ghost before = self.plan();
        let ghost old_modules = self.modules@;
        self.modules[importer].resolved[record] = Some(target);
        proof {
            let after = Plan {
                edges: before.edges.insert((importer as nat, record as nat), target.raw as nat),
                ..before
            };
            assert forall|j: int| 0 <= j < self.modules@.len() && j != importer implies self.modules@[j]
                == old_modules[j] by {}
            assert(self.plan().paths =~= after.paths);
            assert(self.plan().external =~= after.external);
            assert(self.plan().edges =~= after.edges);
            assert(self.plan() =~= after);
            lemma_tasks_kept(before, after);
            assert forall|j: int| 0 <= j < self.modules@.len() implies match ast_entries(
                self.asts,
            )[j] {
                Some(tree) => (#[trigger] self.modules@[j]).holds(tree.nodes@),
                None => self.modules@[j].is_bare(),
            } by {
                assert(match ast_entries(self.asts)[j] {
                    Some(tree) => old_modules[j].holds(tree.nodes@),
                    None => old_modules[j].is_bare(),
                });
            }
        }
    }

    /// Applies the result of the next task in turn.
    fn apply_next(&mut self)
        requires
            old(self).wf(),
            old(self).plan().ready(),
        ensures
            final(self).wf(),
            final(self).plan() == old(self).plan().apply(
                old(self).plan().inbox[old(self).plan().applied as int].unwrap(),
            ),
            final(self).issued == old(self).issued,
            final(self).entry_points == old(self).entry_points,
            final(self).runtime == old(self).runtime,
            final(self).modules@.len() >= old(self).modules@.len(),
            final(self).inbox@.len() == old(self).inbox@.len(),
            final(self).applied == old(self).applied + 1,
    {
        let ghost before = self.plan();
        let ghost completion = before.inbox[before.applied as int].unwrap();
        let ghost old_modules = self.modules@;
        assert(self.applied < self.inbox.len());
        let taken = self.inbox[self.applied].take();
        let task = self.tasks[self.applied];
        self.applied = self.applied + 1;
        proof {
            lemma_advanced(before);
            assert(self.plan().inbox =~= before.advanced().inbox);
            assert(self.plan() =~= before.advanced());
            assert(before.task_wf(before.applied as int));
            if completion matches Completion::Loaded(Ok(_)) {
                lemma_apply(before, completion);
            }
        }
        match taken {
            Some(Completion::Resolved(Ok(info))) => {
                match task {
                    Task::Resolve { importer, record } => {
                        let id = self.claim(info.path, info.is_external);
                        assert(self.modules@[importer as int] == old_modules[importer as int]);
                        self.connect(importer, record, id);
                    },
                    Task::Load { .. } => {},
                }
            },
            Some(Completion::Loaded(Ok(tree))) => {
                match task {
                    Task::Load { module } => {
                        self.install(module, tree);
                    },
                    Task::Resolve { .. } => {},
                }
            },
            Some(Completion::Resolved(Err(error))) => {
                self.record_error(error);
            },
            Some(Completion::Loaded(Err(error))) => {
                self.record_error(error);
            },
            None => {},
        }
    }

    /// The next task that has not been handed out, if there is one and the scan
    /// has not failed. Tasks are handed out in the order of their tickets.
    pub fn next_task(&mut self) -> (request: Option<Request>)
        requires
            old(self).wf(),
        ensures
            final(self).wf(),
            final(self).plan() == old(self).plan(),
            final(self).entry_points() == old(self).entry_points(),
            final(self).runtime() == old(self).runtime(),
            request is Some <==> !old(self).plan().failed() && old(self).issued() < old(
                self,
            ).plan().tasks.len(),
            request matches Some(task) ==> final(self).issued() == old(self).issued() + 1
                && announces(task, old(self).plan(), old(self).issued() as int),
            request is None ==> final(self).issued() == old(self).issued(),
    {
        if self.errors.len() > 0 || self.issued >= self.tasks.len() {
            return None;
        }
        let ticket: usize = self.issued;
        proof {
            assert(self.plan().task_wf(ticket as int));
        }
        let request = match self.tasks[ticket] {
            Task::Resolve { importer, record } => {
                let from = &self.modules[importer];
                assert(from.holds(ast_entries(self.asts)[importer as int].unwrap().nodes@));
                Request::Resolve {
                    ticket,
                    specifier: from.import_records[record].specifier.clone(),
                    importer: Some(from.path.clone()),
                    is_entry: false,
                    kind: from.import_records[record].kind,
                }
            },
            Task::Load { module } => Request::Load {
                ticket,
                path: self.modules[module].path.clone(),
            },
        };
        self.issued = self.issued + 1;
        Some(request)
    }

    /// Takes the result of a task. Results may come in any order: each is kept
    /// until the results of all earlier tasks have been applied, and is applied
    /// then. A result is refused, and nothing changes, where the ticket names no
    /// task, where the task has a result already, and where the result is not of
    /// the kind that the task asks for.
    pub fn complete(&mut self, ticket: usize, completion: Completion) -> (accepted: bool)
        requires
            old(self).wf(),
        ensures
            final(self).wf(),
            accepted == old(self).plan().accepts(ticket as nat, completion),
            final(self).plan() == old(self).plan().deliver(ticket as nat, completion),
            final(self).issued() == old(self).issued(),
            final(self).entry_points() == old(self).entry_points(),
            final(self).runtime() == old(self).runtime(),
            !accepted ==> *final(self) == *old(self),
    {
        let ghost before = self.plan();
        if ticket < self.applied || ticket >= self.tasks.len() {
            return false;
        }
        if ticket < self.inbox.len() && self.inbox[ticket].is_some() {
            return false;
        }
        if !is_compatible(&self.tasks[ticket], &completion) {
            return false;
        }
        let ghost old_inbox = self.inbox@;
        while self.inbox.len() <= ticket
            invariant
                self.inbox@.len() >= old_inbox.len(),
                self.inbox@.len() > old_inbox.len() ==> self.inbox@.len() <= ticket + 1,
                forall|t: int| 0 <= t < old_inbox.len() ==> self.inbox@[t] == old_inbox[t],
                forall|t: int| old_inbox.len() <= t < self.inbox@.len() ==> self.inbox@[t] is None,
                self.modules == old(self).modules,
                self.asts == old(self).asts,
                self.tasks == old(self).tasks,
                self.applied == old(self).applied,
                self.issued == old(self).issued,
                self.warnings == old(self).warnings,
                self.errors == old(self).errors,
                self.entry_points == old(self).entry_points,
                self.runtime == old(self).runtime,
            decreases ticket + 1 - self.inbox@.len(),
        {
            self.inbox.push(None);
        }
        self.inbox[ticket] = Some(completion);
        proof {
            lemma_store(before, ticket as nat, completion);
            assert(self.plan().inbox =~= before.store(ticket as nat, completion).inbox);
            assert(self.plan() =~= before.store(ticket as nat, completion));
        }
        let ghost target = before.store(ticket as nat, completion).drain();
        while self.errors.len() == 0 && self.applied < self.inbox.len() && self.applied
            < self.tasks.len() && self.inbox[self.applied].is_some()
            invariant
                self.wf(),
                self.plan().drain() == target,
                self.issued == old(self).issued,
                self.entry_points == old(self).entry_points,
                self.runtime == old(self).runtime,
            decreases self.inbox@.len() - self.applied,
        {
            self.apply_next();
        }
        true
    }

    /// Hands over what was built. A scan that has failed gives its errors. Any
    /// other gives the linked graph: the module table, the syntax trees, the
    /// entry points in the order of the input, the registry of symbols, the
    /// runtime module, and the warnings of loading followed by those of linking.
    pub fn finish(self) -> (result: BatchedResult<ModuleLoaderOutput>)
        requires
            self.wf(),
            self.runtime() is Some,
        ensures
            result is Err <==> self.plan().failed(),
            result matches Err(errors) ==> errors@ == self.plan().errors,
            result matches Ok(output) ==> {
                &&& ast_entries(output.ast_table) == self.plan().trees
                &&& output.entry_points@ == self.entry_points()
                &&& is_brief(
                    output.runtime,
                    self.runtime().unwrap(),
                    self.modules()[self.runtime().unwrap().raw as int].named_exports@,
                )
                &&& output.warnings@.len() >= self.plan().warnings.len()
                &&& output.warnings@.take(self.plan().warnings.len() as int)
                    == self.plan().warnings
                &&& is_linked(
                    self.modules(),
                    LinkOutput {
                        module_table: output.module_table,
                        symbols: output.symbols,
                        warnings: output.warnings,
                    },
                    self.plan().warnings.len(),
                )
            },
    {
        if self.errors.len() > 0 {
            return Err(self.errors);
        }
        let ghost modules = self.modules@;
        let ghost found = self.warnings@;
        let id = self.runtime.unwrap();
        let runtime = RuntimeModuleBrief::new(id, &self.modules[id.raw].named_exports);
        let LinkOutput { module_table, symbols, warnings: mut linking } = link_modules(
            self.modules,
        );
        let ghost reported = linking@;
        let mut warnings = self.warnings;
        warnings.append(&mut linking);
        proof {
            assert(warnings@.take(found.len() as int) =~= found);
            assert(warnings@.skip(found.len() as int) =~= reported);
            assert(reported.skip(0) =~= reported);
        }
        Ok(
            ModuleLoaderOutput {
                module_table,
                ast_table: self.asts,
                entry_points: self.entry_points,
                symbols,
                runtime,
                warnings,
            },
        )
    }

    /// Whether nothing is left to do: every task has its result applied, or the
    /// scan has failed.
    pub fn is_finished(&self) -> (finished: bool)
        requires
            self.wf(),
        ensures
            finished == self.plan().finished(),
    {
        self.errors.len() > 0 || self.applied == self.tasks.len()
    }
}

} // verus!
