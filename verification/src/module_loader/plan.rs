//! The loader as a mathematical object, and what holds of it whatever the
//! order in which results arrive.

use crate::ast_scanner::{draft_after, lemma_draft_bounded, ImportRecord};
use crate::error::BuildError;
use crate::module_loader::task::{compatible, Ask, Completion, Request, Task};
use crate::types::syntax_tree::SyntaxTree;
use vstd::prelude::*;

verus! {

/// The import records of a module with this syntax.
pub open spec fn records_of(tree: SyntaxTree) -> Seq<ImportRecord> {
    draft_after(tree.nodes@, tree.nodes@.len()).records
}

/// The tasks that resolve the import records of a newly loaded module.
pub open spec fn resolve_tasks(module: usize, count: nat) -> Seq<Task> {
    Seq::new(count, |record: int| Task::Resolve { importer: module, record: record as usize })
}

/// The number of modules among the first `upto` that are not external.
pub open spec fn load_count(external: Seq<bool>, upto: nat) -> nat
    decreases upto,
{
    if upto == 0 {
        0
    } else {
        load_count(external, (upto - 1) as nat) + if external[upto - 1] {
            0nat
        } else {
            1nat
        }
    }
}

/// The number of import records of the modules among the first `upto` that
/// have been loaded.
pub open spec fn record_count(trees: Seq<Option<SyntaxTree>>, upto: nat) -> nat
    decreases upto,
{
    if upto == 0 {
        0
    } else {
        record_count(trees, (upto - 1) as nat) + match trees[upto - 1] {
            Some(tree) => records_of(tree).len(),
            None => 0nat,
        }
    }
}

/// The state of a loader.
#[verifier::ext_equal]
pub struct Plan {
    /// The claim table: the path of every module, in the order of the claims.
    /// The place of a path is the handle of its module.
    pub paths: Seq<Seq<char>>,
    /// Whether each module is external.
    pub external: Seq<bool>,
    /// The syntax of each module that has been loaded.
    pub trees: Seq<Option<SyntaxTree>>,
    /// The module that each resolved import record leads to, by importer and record.
    pub edges: Map<(nat, nat), nat>,
    /// The tasks issued so far, by ticket.
    pub tasks: Seq<Task>,
    /// The results that have arrived and wait for their turn, by ticket.
    pub inbox: Seq<Option<Completion>>,
    /// The number of tasks whose results have been applied.
    pub applied: nat,
    /// The errors that did not end the scan.
    pub warnings: Seq<BuildError>,
    /// The errors that ended the scan.
    pub errors: Seq<BuildError>,
}

impl Plan {
    /// The plan of a loader that has claimed nothing and issued nothing.
    pub open spec fn initial() -> Plan {
        Plan {
            paths: Seq::empty(),
            external: Seq::empty(),
            trees: Seq::empty(),
            edges: Map::empty(),
            tasks: Seq::empty(),
            inbox: Seq::empty(),
            applied: 0,
            warnings: Seq::empty(),
            errors: Seq::empty(),
        }
    }

    /// Claims `path`. The first claim of a path makes a module of it and, unless
    /// the module is external, issues the one task that loads it. Every later
    /// claim gives the same module and changes nothing.
    pub open spec fn claim(self, path: Seq<char>, external: bool) -> (Plan, nat) {
        match self.paths.index_of_first(path) {
            Some(module) => (self, module as nat),
            None => (
                Plan {
                    paths: self.paths.push(path),
                    external: self.external.push(external),
                    trees: self.trees.push(None),
                    tasks: if external {
                        self.tasks
                    } else {
                        self.tasks.push(Task::Load { module: self.paths.len() as usize })
                    },
                    ..self
                },
                self.paths.len(),
            ),
        }
    }

    /// Records an error: among the errors that end the scan, or among the warnings.
    pub open spec fn fail(self, error: BuildError) -> Plan {
        if error.always_fatal() {
            Plan { errors: self.errors.push(error), ..self }
        } else {
            Plan { warnings: self.warnings.push(error), ..self }
        }
    }

    /// The same plan with another inbox.
    pub open spec fn with_inbox(self, inbox: Seq<Option<Completion>>) -> Plan {
        Plan { inbox, ..self }
    }

    /// The plan in which the next ticket is used up and nothing else has happened.
    pub open spec fn advanced(self) -> Plan {
        Plan {
            applied: self.applied + 1,
            inbox: if self.applied < self.inbox.len() {
                self.inbox.update(self.applied as int, None)
            } else {
                self.inbox
            },
            ..self
        }
    }

    /// What the result of `task` adds to the graph.
    ///
    /// A resolved specifier claims its path and adds the edge. A loaded module
    /// gets its syntax, and one task for each of its import records. An error
    /// is recorded.
    pub open spec fn effect(self, task: Task, completion: Completion) -> Plan {
        match completion {
            Completion::Resolved(Ok(info)) => match task {
                Task::Resolve { importer, record } => {
                    let (claimed, target) = self.claim(info.path@, info.is_external);
                    Plan {
                        edges: claimed.edges.insert((importer as nat, record as nat), target),
                        ..claimed
                    }
                },
                _ => self,
            },
            Completion::Loaded(Ok(tree)) => match task {
                Task::Load { module } => Plan {
                    trees: self.trees.update(module as int, Some(tree)),
                    tasks: self.tasks + resolve_tasks(module, records_of(tree).len()),
                    ..self
                },
                _ => self,
            },
            Completion::Resolved(Err(error)) => self.fail(error),
            Completion::Loaded(Err(error)) => self.fail(error),
        }
    }

    /// Applies the result of the oldest task that has none applied yet.
    pub open spec fn apply(self, completion: Completion) -> Plan {
        self.advanced().effect(self.tasks[self.applied as int], completion)
    }

    /// Whether the scan has met an error that ends it.
    pub open spec fn failed(self) -> bool {
        self.errors.len() > 0
    }

    /// Whether the result of the next task in turn has arrived.
    pub open spec fn ready(self) -> bool {
        &&& !self.failed()
        &&& self.applied < self.inbox.len()
        &&& self.applied < self.tasks.len()
        &&& self.inbox[self.applied as int] is Some
    }

    /// Applies the results that have arrived, in the order of their tickets, up
    /// to the first task whose result is missing.
    pub open spec fn drain(self) -> Plan
        decreases self.inbox.len() - self.applied,
    {
        if self.ready() {
            self.apply(self.inbox[self.applied as int].unwrap()).drain()
        } else {
            self
        }
    }

    /// Whether a result for `ticket` is taken: the task exists, its result has
    /// neither been applied nor arrived, and the result is of the kind it asks for.
    pub open spec fn accepts(self, ticket: nat, completion: Completion) -> bool {
        &&& self.applied <= ticket < self.tasks.len()
        &&& (ticket < self.inbox.len() ==> self.inbox[ticket as int] is None)
        &&& compatible(self.tasks[ticket as int], completion)
    }

    /// Puts a result in the inbox.
    pub open spec fn store(self, ticket: nat, completion: Completion) -> Plan {
        let room = if ticket < self.inbox.len() {
            self.inbox
        } else {
            self.inbox + Seq::new((ticket + 1 - self.inbox.len()) as nat, |i: int| None)
        };
        Plan { inbox: room.update(ticket as int, Some(completion)), ..self }
    }

    /// Takes a result, and applies all results whose turn has come.
    pub open spec fn deliver(self, ticket: nat, completion: Completion) -> Plan {
        if self.accepts(ticket, completion) {
            self.store(ticket, completion).drain()
        } else {
            self
        }
    }

    /// Whether nothing is left to do.
    pub open spec fn finished(self) -> bool {
        self.failed() || self.applied == self.tasks.len()
    }

    /// Whether task `t` names a module that it can be about: a resolution names
    /// a loaded module and one of its import records, and a load names a module
    /// of the graph that is not external and, until the result is applied, has
    /// no syntax yet.
    pub open spec fn task_wf(self, t: int) -> bool {
        match self.tasks[t] {
            Task::Resolve { importer, record } => {
                &&& importer < self.paths.len()
                &&& self.trees[importer as int] is Some
                &&& record < records_of(self.trees[importer as int].unwrap()).len()
            },
            Task::Load { module } => {
                &&& module < self.paths.len()
                &&& !self.external[module as int]
                &&& t >= self.applied ==> self.trees[module as int] is None
            },
        }
    }

    /// Whether some task loads module `m`.
    pub open spec fn loaded_by(self, m: int) -> bool {
        exists|t: int|
            0 <= t < self.tasks.len() && #[trigger] self.tasks[t] == (Task::Load {
                module: m as usize,
            })
    }

    /// Whether task `s` and the later task `t`, where both load a module, load
    /// different modules in the order of their handles.
    pub open spec fn loads_ordered(self, s: int, t: int) -> bool {
        match (self.tasks[s], self.tasks[t]) {
            (Task::Load { module: first }, Task::Load { module: second }) => first < second,
            _ => true,
        }
    }

    /// Whether the tasks are in order: every task is about a module it can be
    /// about, and every module that is not external is loaded by one task and
    /// no other.
    pub open spec fn tasks_wf(self) -> bool {
        &&& forall|t: int| 0 <= t < self.tasks.len() ==> #[trigger] self.task_wf(t)
        &&& forall|s: int, t: int|
            0 <= s < t < self.tasks.len() ==> #[trigger] self.loads_ordered(s, t)
        &&& forall|m: int|
            0 <= m < self.paths.len() && !self.external[m] ==> #[trigger] self.loaded_by(m)
    }

    /// Whether the plan is in order: no path is claimed twice, an external module
    /// has no syntax, every task is about a module it can be about, no module is
    /// loaded by two tasks, only results that fit their tasks wait, and there is
    /// one task for each module that is not external and one for each import
    /// record of each loaded module.
    pub open spec fn wf(self) -> bool {
        &&& self.paths.no_duplicates()
        &&& self.external.len() == self.paths.len()
        &&& self.trees.len() == self.paths.len()
        &&& forall|m: int|
            0 <= m < self.paths.len() && #[trigger] self.external[m] ==> self.trees[m] is None
        &&& self.applied <= self.tasks.len()
        &&& self.inbox.len() <= self.tasks.len()
        &&& forall|t: int|
            0 <= t < self.inbox.len() && (#[trigger] self.inbox[t]) is Some ==> self.applied <= t
                && compatible(self.tasks[t], self.inbox[t].unwrap())
        &&& self.tasks_wf()
        &&& self.tasks.len() == load_count(self.external, self.external.len()) + record_count(
            self.trees,
            self.trees.len(),
        )
        &&& forall|edge: (nat, nat)| #[trigger]
            self.edges.dom().contains(edge) ==> edge.0 < self.paths.len() && self.edges[edge]
                < self.paths.len()
    }
}

/// The counts of a list do not change where the list gets longer.
proof fn lemma_counts_of_prefix(
    external: Seq<bool>,
    longer: Seq<bool>,
    trees: Seq<Option<SyntaxTree>>,
    more: Seq<Option<SyntaxTree>>,
    upto: nat,
)
    requires
        upto <= external.len() <= longer.len(),
        upto <= trees.len() <= more.len(),
        forall|m: int| 0 <= m < external.len() ==> longer[m] == external[m],
        forall|m: int| 0 <= m < trees.len() ==> more[m] == trees[m],
    ensures
        load_count(longer, upto) == load_count(external, upto),
        record_count(more, upto) == record_count(trees, upto),
    decreases upto,
{
    if upto > 0 {
        lemma_counts_of_prefix(external, longer, trees, more, (upto - 1) as nat);
    }
}

/// Loading a module adds its import records to the count.
proof fn lemma_record_count_loaded(
    trees: Seq<Option<SyntaxTree>>,
    module: int,
    tree: SyntaxTree,
    upto: nat,
)
    requires
        0 <= module < trees.len(),
        trees[module] is None,
        upto <= trees.len(),
    ensures
        record_count(trees.update(module, Some(tree)), upto) == record_count(trees, upto) + if module
            < upto {
            records_of(tree).len()
        } else {
            0nat
        },
    decreases upto,
{
    if upto > 0 {
        lemma_record_count_loaded(trees, module, tree, (upto - 1) as nat);
    }
}

/// Tasks that are in order stay so where the modules and the tasks stay as they
/// are and no ticket is given back.
pub proof fn lemma_tasks_kept(before: Plan, after: Plan)
    requires
        before.tasks_wf(),
        after.paths.len() == before.paths.len(),
        after.external == before.external,
        after.trees == before.trees,
        after.tasks == before.tasks,
        after.applied >= before.applied,
    ensures
        after.tasks_wf(),
{
    assert forall|t: int| 0 <= t < after.tasks.len() implies #[trigger] after.task_wf(t) by {
        assert(before.task_wf(t));
    }
    assert forall|s: int, t: int| 0 <= s < t < after.tasks.len() implies #[trigger]
        after.loads_ordered(s, t) by {
        assert(before.loads_ordered(s, t));
    }
    assert forall|m: int| 0 <= m < after.paths.len() && !after.external[m] implies #[trigger]
        after.loaded_by(m) by {
        assert(before.loaded_by(m));
    }
}

/// A module that is loaded by a task stays so where the tasks stay where they are.
proof fn lemma_loaded_by_kept(before: Plan, after: Plan, m: int)
    requires
        before.loaded_by(m),
        after.tasks.len() >= before.tasks.len(),
        forall|t: int| 0 <= t < before.tasks.len() ==> after.tasks[t] == before.tasks[t],
    ensures
        after.loaded_by(m),
{
    let t = choose|t: int|
        0 <= t < before.tasks.len() && #[trigger] before.tasks[t] == (Task::Load {
            module: m as usize,
        });
    assert(after.tasks[t] == before.tasks[t]);
}

/// Claiming keeps a plan well-formed, gives a module with the claimed path, and
/// leaves every module that exists where it is.
pub proof fn lemma_claim(plan: Plan, path: Seq<char>, external: bool)
    requires
        plan.wf(),
        plan.paths.len() < usize::MAX,
    ensures
        plan.claim(path, external).0.wf(),
        plan.claim(path, external).1 < plan.claim(path, external).0.paths.len(),
        plan.claim(path, external).0.paths[plan.claim(path, external).1 as int] == path,
        plan.claim(path, external).0.paths.len() >= plan.paths.len(),
        forall|m: int|
            0 <= m < plan.paths.len() ==> plan.claim(path, external).0.paths[m] == plan.paths[m],
        forall|m: int| 0 <= m < plan.paths.len() && plan.paths[m] == path ==> plan.claim(
            path,
            external,
        ).1 == m,
{
    plan.paths.index_of_first_ensures(path);
    let after = plan.claim(path, external).0;
    if plan.paths.index_of_first(path) is None {
        assert forall|t: int| 0 <= t < after.tasks.len() implies #[trigger] after.task_wf(t) by {
            if t < plan.tasks.len() {
                assert(plan.task_wf(t));
            }
        }
        assert forall|s: int, t: int| 0 <= s < t < after.tasks.len() implies #[trigger]
            after.loads_ordered(s, t) by {
            assert(plan.task_wf(s));
            if t < plan.tasks.len() {
                assert(plan.loads_ordered(s, t));
            }
        }
        assert forall|m: int| 0 <= m < after.paths.len() && !after.external[m] implies #[trigger]
            after.loaded_by(m) by {
            if m < plan.paths.len() {
                lemma_loaded_by_kept(plan, after, m);
            } else {
                assert(after.tasks[plan.tasks.len() as int] == (Task::Load { module: m as usize }));
            }
        }
        lemma_counts_of_prefix(
            plan.external,
            after.external,
            plan.trees,
            after.trees,
            plan.paths.len(),
        );
    }
}

/// Using up a ticket keeps a plan well-formed.
pub proof fn lemma_advanced(plan: Plan)
    requires
        plan.wf(),
        plan.applied < plan.tasks.len(),
    ensures
        plan.advanced().wf(),
{
    lemma_tasks_kept(plan, plan.advanced());
}

/// Whether `after` has every module and every task of `before` where it was.
pub open spec fn grows(before: Plan, after: Plan) -> bool {
    &&& after.paths.len() >= before.paths.len()
    &&& forall|m: int| 0 <= m < before.paths.len() ==> after.paths[m] == before.paths[m]
    &&& after.tasks.len() >= before.tasks.len()
    &&& forall|t: int| 0 <= t < before.tasks.len() ==> after.tasks[t] == before.tasks[t]
}

proof fn lemma_apply_loaded(plan: Plan, tree: SyntaxTree)
    requires
        plan.wf(),
        plan.applied < plan.tasks.len(),
        plan.tasks[plan.applied as int] is Load,
    ensures
        plan.apply(Completion::Loaded(Ok(tree))).wf(),
        grows(plan, plan.apply(Completion::Loaded(Ok(tree)))),
{
    let after = plan.apply(Completion::Loaded(Ok(tree)));
    let next = plan.advanced();
    lemma_advanced(plan);
    let module = plan.tasks[plan.applied as int]->module;
    let count = records_of(tree).len();
    lemma_draft_bounded(tree.nodes@, tree.nodes@.len());
    assert(plan.task_wf(plan.applied as int));
    assert(after.tasks == plan.tasks + resolve_tasks(module, count));
    assert(after.trees == plan.trees.update(module as int, Some(tree)));
    assert forall|t: int| 0 <= t < after.tasks.len() implies #[trigger] after.task_wf(t) by {
        if t < plan.tasks.len() {
            assert(after.tasks[t] == plan.tasks[t]);
            assert(plan.task_wf(t));
            if t > plan.applied {
                assert(plan.loads_ordered(plan.applied as int, t));
            }
        } else {
            assert(after.tasks[t] == resolve_tasks(module, count)[t - plan.tasks.len()]);
        }
    }
    assert forall|s: int, t: int| 0 <= s < t < after.tasks.len() implies #[trigger]
        after.loads_ordered(s, t) by {
        if t < plan.tasks.len() {
            assert(after.tasks[s] == plan.tasks[s]);
            assert(after.tasks[t] == plan.tasks[t]);
            assert(plan.loads_ordered(s, t));
        } else {
            assert(after.tasks[t] == resolve_tasks(module, count)[t - plan.tasks.len()]);
        }
    }
    assert forall|m: int| 0 <= m < after.paths.len() && !after.external[m] implies #[trigger]
        after.loaded_by(m) by {
        lemma_loaded_by_kept(plan, after, m);
    }
    lemma_record_count_loaded(plan.trees, module as int, tree, plan.trees.len());
}

proof fn lemma_apply_resolved(plan: Plan, completion: Completion)
    requires
        plan.wf(),
        plan.applied < plan.tasks.len(),
        plan.tasks[plan.applied as int] is Resolve,
        completion matches Completion::Resolved(Ok(_)),
        plan.paths.len() < usize::MAX,
    ensures
        plan.apply(completion).wf(),
        grows(plan, plan.apply(completion)),
{
    let info = completion->Resolved_0->Ok_0;
    lemma_advanced(plan);
    lemma_claim(plan.advanced(), info.path@, info.is_external);
    let claimed = plan.advanced().claim(info.path@, info.is_external).0;
    let after = plan.apply(completion);
    assert(plan.task_wf(plan.applied as int));
    assert(after.tasks == claimed.tasks);
    assert(after.paths == claimed.paths);
    assert(after.trees == claimed.trees);
    assert(after.external == claimed.external);
    assert(after.applied == claimed.applied);
    assert(after.inbox == claimed.inbox);
    lemma_tasks_kept(claimed, after);
    assert(grows(plan, after)) by {
        plan.paths.index_of_first_ensures(info.path@);
    }
}

proof fn lemma_apply_failed(plan: Plan, completion: Completion)
    requires
        plan.wf(),
        plan.applied < plan.tasks.len(),
        completion matches Completion::Resolved(Err(_)) || completion matches Completion::Loaded(
            Err(_),
        ),
    ensures
        plan.apply(completion).wf(),
        grows(plan, plan.apply(completion)),
{
    lemma_advanced(plan);
    let after = plan.apply(completion);
    assert(after.tasks == plan.tasks);
    assert(after.paths == plan.paths);
    assert(after.trees == plan.trees);
    lemma_tasks_kept(plan.advanced(), after);
}

/// Applying a result keeps a plan well-formed, uses up one ticket, and leaves
/// every module and every task that exists where it is.
pub proof fn lemma_apply(plan: Plan, completion: Completion)
    requires
        plan.wf(),
        plan.applied < plan.tasks.len(),
        compatible(plan.tasks[plan.applied as int], completion),
        completion matches Completion::Resolved(Ok(_)) ==> plan.paths.len() < usize::MAX,
    ensures
        plan.apply(completion).wf(),
        grows(plan, plan.apply(completion)),
{
    match completion {
        Completion::Resolved(Ok(info)) => {
            lemma_apply_resolved(plan, completion);
        },
        Completion::Loaded(Ok(tree)) => {
            lemma_apply_loaded(plan, tree);
        },
        Completion::Resolved(Err(error)) => {
            lemma_apply_failed(plan, completion);
        },
        Completion::Loaded(Err(error)) => {
            lemma_apply_failed(plan, completion);
        },
    }
}

/// What a result adds to the graph does not depend on the results that wait.
pub proof fn lemma_effect_inbox(
    plan: Plan,
    task: Task,
    completion: Completion,
    inbox: Seq<Option<Completion>>,
)
    ensures
        plan.with_inbox(inbox).effect(task, completion) == plan.effect(task, completion).with_inbox(
            inbox,
        ),
{
    match completion {
        Completion::Resolved(Ok(info)) => {
            match task {
                Task::Resolve { importer, record } => {
                    let left = plan.with_inbox(inbox).claim(info.path@, info.is_external);
                    let right = plan.claim(info.path@, info.is_external);
                    assert(left.1 == right.1);
                    assert(left.0 == right.0.with_inbox(inbox));
                },
                _ => {},
            }
        },
        Completion::Loaded(Ok(tree)) => {},
        Completion::Resolved(Err(error)) => {},
        Completion::Loaded(Err(error)) => {},
    }
}

/// A result that waits in the inbox does not change what another result does.
proof fn lemma_store_apply(plan: Plan, ticket: nat, waiting: Completion, completion: Completion)
    requires
        plan.applied < plan.inbox.len(),
        ticket != plan.applied,
    ensures
        plan.store(ticket, waiting).apply(completion) == plan.apply(completion).store(
            ticket,
            waiting,
        ),
{
    let task = plan.tasks[plan.applied as int];
    let stored = plan.store(ticket, waiting);
    let inbox = stored.advanced().inbox;
    assert(stored.advanced() == plan.advanced().with_inbox(inbox));
    lemma_effect_inbox(plan.advanced(), task, completion, inbox);
    let after = plan.apply(completion);
    assert(after.inbox == plan.advanced().inbox) by {
        lemma_effect_inbox(plan.advanced(), task, completion, plan.advanced().inbox);
        assert(plan.advanced().with_inbox(plan.advanced().inbox) == plan.advanced());
    }
    assert(after.store(ticket, waiting).inbox =~= inbox);
    assert(after.store(ticket, waiting) == after.with_inbox(inbox));
}

/// Applying a result leaves the results that wait, and the tasks they are for, alone.
pub proof fn lemma_apply_frame(plan: Plan, completion: Completion)
    ensures
        plan.apply(completion).applied == plan.applied + 1,
        plan.apply(completion).inbox.len() == plan.inbox.len(),
        forall|t: int|
            0 <= t < plan.inbox.len() && t != plan.applied ==> plan.apply(completion).inbox[t]
                == plan.inbox[t],
        plan.apply(completion).tasks.len() >= plan.tasks.len(),
        forall|t: int|
            0 <= t < plan.tasks.len() ==> plan.apply(completion).tasks[t] == plan.tasks[t],
{
    let task = plan.tasks[plan.applied as int];
    lemma_effect_inbox(plan.advanced(), task, completion, plan.advanced().inbox);
    assert(plan.advanced().with_inbox(plan.advanced().inbox) == plan.advanced());
}

/// A result that the plan accepts is still accepted after the plan has applied
/// what was ready.
proof fn lemma_drain_accepts(plan: Plan, ticket: nat, completion: Completion)
    requires
        plan.accepts(ticket, completion),
    ensures
        plan.drain().accepts(ticket, completion),
    decreases plan.inbox.len() - plan.applied,
{
    if plan.ready() {
        let first = plan.inbox[plan.applied as int].unwrap();
        lemma_apply_frame(plan, first);
        lemma_drain_accepts(plan.apply(first), ticket, completion);
    }
}

/// Whether a result arrives before or after the plan has applied what was
/// ready makes no difference.
pub proof fn lemma_drain_store(plan: Plan, ticket: nat, completion: Completion)
    requires
        plan.applied <= ticket,
        ticket < plan.inbox.len() ==> plan.inbox[ticket as int] is None,
    ensures
        plan.drain().store(ticket, completion).drain() == plan.store(ticket, completion).drain(),
    decreases plan.inbox.len() - plan.applied,
{
    if plan.ready() {
        let first = plan.inbox[plan.applied as int].unwrap();
        let stored = plan.store(ticket, completion);
        assert(stored.inbox[plan.applied as int] == Some(first));
        assert(stored.ready());
        lemma_store_apply(plan, ticket, completion, first);
        lemma_apply_frame(plan, first);
        lemma_drain_store(plan.apply(first), ticket, completion);
    }
}

/// Results may arrive in any order: two results that the plan accepts leave the
/// same plan whichever of them is delivered first. So the handles of the
/// modules, which are given out as results are applied, do not depend on
/// which task is completed first.
pub proof fn lemma_deliver_commutes(
    plan: Plan,
    first: nat,
    first_result: Completion,
    second: nat,
    second_result: Completion,
)
    requires
        first != second,
        plan.accepts(first, first_result),
        plan.accepts(second, second_result),
    ensures
        plan.deliver(first, first_result).accepts(second, second_result),
        plan.deliver(second, second_result).accepts(first, first_result),
        plan.deliver(first, first_result).deliver(second, second_result) == plan.deliver(
            second,
            second_result,
        ).deliver(first, first_result),
{
    let a = plan.store(first, first_result);
    let b = plan.store(second, second_result);
    assert(a.accepts(second, second_result));
    assert(b.accepts(first, first_result));
    lemma_drain_accepts(a, second, second_result);
    lemma_drain_accepts(b, first, first_result);
    lemma_drain_store(a, second, second_result);
    lemma_drain_store(b, first, first_result);
    assert(a.store(second, second_result).inbox =~= b.store(first, first_result).inbox);
    assert(a.store(second, second_result) =~= b.store(first, first_result));
}

/// No path is loaded twice: two tasks that load modules of the same path are the
/// same task.
pub proof fn lemma_one_load_per_path(plan: Plan, s: int, t: int)
    requires
        plan.wf(),
        0 <= s < plan.tasks.len(),
        0 <= t < plan.tasks.len(),
        plan.tasks[s] is Load,
        plan.tasks[t] is Load,
        plan.paths[plan.tasks[s]->module as int] == plan.paths[plan.tasks[t]->module as int],
    ensures
        s == t,
{
    assert(plan.task_wf(s));
    assert(plan.task_wf(t));
    if s < t {
        assert(plan.loads_ordered(s, t));
    }
    if t < s {
        assert(plan.loads_ordered(t, s));
    }
}

/// A scan comes to an end even where modules import each other in a circle:
/// there are never more tasks than modules and import records of loaded
/// modules together.
pub proof fn lemma_tasks_bounded(plan: Plan)
    requires
        plan.wf(),
    ensures
        plan.tasks.len() <= plan.paths.len() + record_count(plan.trees, plan.trees.len()),
{
    lemma_load_count_bounded(plan.external, plan.external.len());
}

proof fn lemma_load_count_bounded(external: Seq<bool>, upto: nat)
    ensures
        load_count(external, upto) <= upto,
    decreases upto,
{
    if upto > 0 {
        lemma_load_count_bounded(external, (upto - 1) as nat);
    }
}

/// Every module that is not external is loaded by exactly one task.
pub proof fn lemma_loaded_exactly_once(plan: Plan, module: int)
    requires
        plan.wf(),
        0 <= module < plan.paths.len(),
        !plan.external[module],
    ensures
        exists|t: int|
            0 <= t < plan.tasks.len() && #[trigger] plan.tasks[t] == (Task::Load {
                module: module as usize,
            }) && forall|s: int|
                0 <= s < plan.tasks.len() && #[trigger] plan.tasks[s] == plan.tasks[t] ==> s == t,
{
    assert(plan.loaded_by(module));
    let t = choose|t: int|
        0 <= t < plan.tasks.len() && #[trigger] plan.tasks[t] == (Task::Load {
            module: module as usize,
        });
    assert forall|s: int| 0 <= s < plan.tasks.len() && #[trigger] plan.tasks[s] == plan.tasks[t] implies s
        == t by {
        lemma_one_load_per_path(plan, s, t);
    }
}

/// Every import that resolves to a path leads to the one module of that path:
/// the edge that a resolution adds ends at a module whose path is the resolved one.
pub proof fn lemma_edge_follows_path(plan: Plan, completion: Completion)
    requires
        plan.wf(),
        plan.applied < plan.tasks.len(),
        plan.paths.len() < usize::MAX,
        plan.tasks[plan.applied as int] is Resolve,
        completion matches Completion::Resolved(Ok(_)),
    ensures
        ({
            let task = plan.tasks[plan.applied as int];
            let edge = (task->importer as nat, task->record as nat);
            let after = plan.apply(completion);
            let path = completion->Resolved_0->Ok_0.path@;
            &&& after.edges.dom().contains(edge)
            &&& after.edges[edge] < after.paths.len()
            &&& after.paths[after.edges[edge] as int] == path
            &&& forall|m: int| 0 <= m < plan.paths.len() && plan.paths[m] == path ==> after.edges[edge] == m
        }),
{
    let info = completion->Resolved_0->Ok_0;
    let next = plan.advanced();
    lemma_advanced(plan);
    lemma_claim(next, info.path@, info.is_external);
    assert(plan.task_wf(plan.applied as int));
}

/// Taking a result that the plan accepts keeps it well-formed.
pub proof fn lemma_store(plan: Plan, ticket: nat, completion: Completion)
    requires
        plan.wf(),
        plan.accepts(ticket, completion),
    ensures
        plan.store(ticket, completion).wf(),
{
    let after = plan.store(ticket, completion);
    lemma_tasks_kept(plan, after);
    assert forall|t: int| 0 <= t < after.inbox.len() && (#[trigger] after.inbox[t]) is Some implies after.applied
        <= t && compatible(after.tasks[t], after.inbox[t].unwrap()) by {
        if t != ticket {
            assert(t < plan.inbox.len());
            assert(after.inbox[t] == plan.inbox[t]);
        }
    }
}

/// What task `ticket` asks: the resolution of the specifier of an import record
/// as written in the module at the path of the importer, or the syntax of the
/// module at the path of the module to load.
pub open spec fn ask_of(plan: Plan, ticket: int) -> Ask {
    match plan.tasks[ticket] {
        Task::Resolve { importer, record } => {
            let wanted = records_of(plan.trees[importer as int].unwrap())[record as int];
            Ask::Resolve {
                specifier: wanted.specifier@,
                importer: Some(plan.paths[importer as int]),
                is_entry: false,
                kind: wanted.kind,
            }
        },
        Task::Load { module } => Ask::Load { path: plan.paths[module as int] },
    }
}

/// Whether `request` is task `ticket` as the caller is to carry it out.
pub open spec fn announces(request: Request, plan: Plan, ticket: int) -> bool {
    request.ticket() == ticket && request.ask() == ask_of(plan, ticket)
}

} // verus!
