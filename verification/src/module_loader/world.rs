//! A scan is determined by where it begins and by what the world outside
//! answers: two scans of the same entries in the same world build the same
//! graph, whichever tasks are completed first.

use crate::module_loader::plan::{
    ask_of, lemma_apply, lemma_apply_frame, lemma_effect_inbox, lemma_store, Plan,
};
use crate::module_loader::schedule::{all_accepted, deliver_all, Delivery};
use crate::module_loader::task::{Ask, Completion};
use vstd::prelude::*;

verus! {

/// The world outside the loader: what resolving and loading give. The answer
/// depends on what is asked and on nothing else.
pub type World = spec_fn(Ask) -> Completion;

/// The plan after the world has answered the next task in turn, and the plan
/// itself where nothing is left to do.
pub open spec fn step(plan: Plan, world: World) -> Plan {
    if plan.finished() {
        plan
    } else {
        plan.apply(world(ask_of(plan, plan.applied as int)))
    }
}

/// The plan after the world has answered the next `steps` tasks, one after the
/// other in the order of their tickets.
pub open spec fn run(plan: Plan, world: World, steps: nat) -> Plan
    decreases steps,
{
    if steps == 0 {
        plan
    } else {
        step(run(plan, world, (steps - 1) as nat), world)
    }
}

/// Whether every result that waits is the answer of the world to its task.
pub open spec fn answered_by(plan: Plan, world: World) -> bool {
    forall|t: int|
        0 <= t < plan.inbox.len() && (#[trigger] plan.inbox[t]) is Some ==> plan.inbox[t].unwrap()
            == world(ask_of(plan, t))
}

/// Whether every delivery is the answer of the world to its task, as the task
/// stands when the result is delivered.
pub open spec fn all_answered(plan: Plan, world: World, deliveries: Seq<Delivery>) -> bool {
    forall|k: int|
        0 <= k < deliveries.len() ==> deliveries[k].1 == world(
            ask_of(#[trigger] deliver_all(plan, deliveries.take(k)), deliveries[k].0 as int),
        )
}

/// Whether the graph that the world gives stays within what handles can count.
pub open spec fn fits(plan: Plan, world: World) -> bool {
    forall|steps: nat| (#[trigger] run(plan, world, steps)).paths.len() < usize::MAX
}

/// What a task asks does not change once the task is issued.
proof fn lemma_ask_stays(plan: Plan, completion: Completion, ticket: int)
    requires
        plan.wf(),
        plan.applied < plan.tasks.len(),
        0 <= ticket < plan.tasks.len(),
    ensures
        ask_of(plan.apply(completion), ticket) == ask_of(plan, ticket),
{
    let task = plan.tasks[plan.applied as int];
    let after = plan.apply(completion);
    lemma_apply_frame(plan, completion);
    assert(plan.task_wf(ticket));
    assert(plan.task_wf(plan.applied as int));
    match completion {
        Completion::Resolved(Ok(info)) => {
            plan.advanced().paths.index_of_first_ensures(info.path@);
        },
        Completion::Loaded(Ok(tree)) => {},
        Completion::Resolved(Err(error)) => {},
        Completion::Loaded(Err(error)) => {},
    }
}

/// What waits in the inbox does not change what a result adds to the graph.
proof fn lemma_apply_without_inbox(plan: Plan, completion: Completion, inbox: Seq<Option<Completion>>)
    requires
        inbox.len() == 0,
    ensures
        plan.with_inbox(inbox).apply(completion) == plan.apply(completion).with_inbox(inbox),
{
    let task = plan.tasks[plan.applied as int];
    assert(plan.with_inbox(inbox).advanced() == plan.advanced().with_inbox(inbox));
    lemma_effect_inbox(plan.advanced(), task, completion, inbox);
    lemma_effect_inbox(plan.advanced(), task, completion, plan.advanced().inbox);
    assert(plan.advanced().with_inbox(plan.advanced().inbox) == plan.advanced());
}

/// Applying the results that are ready takes the steps of the run.
proof fn lemma_drain_runs(plan: Plan, world: World, start: Plan, done: nat)
    requires
        plan.wf(),
        answered_by(plan, world),
        start.inbox.len() == 0,
        plan.with_inbox(start.inbox) == run(start, world, done),
        fits(start, world),
    ensures
        plan.drain().wf(),
        answered_by(plan.drain(), world),
        plan.drain().applied >= plan.applied,
        plan.drain().with_inbox(start.inbox) == run(
            start,
            world,
            (done + plan.drain().applied - plan.applied) as nat,
        ),
    decreases plan.inbox.len() - plan.applied,
{
    if plan.ready() {
        let completion = plan.inbox[plan.applied as int].unwrap();
        let core = run(start, world, done);
        let next = plan.apply(completion);
        assert(ask_of(core, plan.applied as int) == ask_of(plan, plan.applied as int));
        assert(completion == world(ask_of(plan, plan.applied as int)));
        assert(core.paths.len() < usize::MAX);
        lemma_apply(plan, completion);
        lemma_apply_frame(plan, completion);
        assert forall|t: int|
            0 <= t < next.inbox.len() && (#[trigger] next.inbox[t]) is Some implies next.inbox[t].unwrap()
            == world(ask_of(next, t)) by {
            assert(next.inbox[t] == plan.inbox[t]);
            lemma_ask_stays(plan, completion, t);
        }
        lemma_apply_without_inbox(plan, completion, start.inbox);
        assert(next.with_inbox(start.inbox) == core.apply(completion));
        assert(next.with_inbox(start.inbox) == run(start, world, done + 1));
        lemma_drain_runs(next, world, start, done + 1);
    }
}

/// However the results arrive, the loader has taken the steps of the run: its
/// state, but for the results that still wait, is what the world gives when
/// it answers the tasks one after the other.
pub proof fn lemma_deliveries_run(start: Plan, world: World, deliveries: Seq<Delivery>)
    requires
        start.wf(),
        start.inbox.len() == 0,
        all_accepted(start, deliveries),
        all_answered(start, world, deliveries),
        fits(start, world),
    ensures
        deliver_all(start, deliveries).wf(),
        answered_by(deliver_all(start, deliveries), world),
        deliver_all(start, deliveries).applied >= start.applied,
        deliver_all(start, deliveries).with_inbox(start.inbox) == run(
            start,
            world,
            (deliver_all(start, deliveries).applied - start.applied) as nat,
        ),
    decreases deliveries.len(),
{
    if deliveries.len() == 0 {
        assert(start.with_inbox(start.inbox) == start);
    } else {
        let earlier = deliveries.drop_last();
        let (ticket, completion) = deliveries.last();
        assert forall|k: int| 0 <= k < earlier.len() implies (#[trigger] deliver_all(
            start,
            earlier.take(k),
        )).accepts(earlier[k].0, earlier[k].1) by {
            assert(earlier.take(k) == deliveries.take(k));
        }
        assert forall|k: int| 0 <= k < earlier.len() implies earlier[k].1 == world(
            ask_of(#[trigger] deliver_all(start, earlier.take(k)), earlier[k].0 as int),
        ) by {
            assert(earlier.take(k) == deliveries.take(k));
        }
        lemma_deliveries_run(start, world, earlier);
        let before = deliver_all(start, earlier);
        assert(deliveries.take(deliveries.len() - 1) == earlier);
        assert(before.accepts(ticket, completion));
        assert(completion == world(ask_of(before, ticket as int)));
        let stored = before.store(ticket, completion);
        lemma_store(before, ticket, completion);
        assert forall|t: int|
            0 <= t < stored.inbox.len() && (#[trigger] stored.inbox[t]) is Some implies stored.inbox[t].unwrap()
            == world(ask_of(stored, t)) by {
            assert(ask_of(stored, t) == ask_of(before, t));
            if t != ticket {
                assert(t < before.inbox.len());
                assert(stored.inbox[t] == before.inbox[t]);
            }
        }
        assert(stored.with_inbox(start.inbox) == before.with_inbox(start.inbox));
        lemma_drain_runs(stored, world, start, (before.applied - start.applied) as nat);
    }
}

/// A run that has come to its end stays there.
proof fn lemma_run_ends(start: Plan, world: World, steps: nat, later: nat)
    requires
        run(start, world, steps).finished(),
        steps <= later,
    ensures
        run(start, world, later) == run(start, world, steps),
    decreases later,
{
    if steps < later {
        lemma_run_ends(start, world, steps, (later - 1) as nat);
    }
}

/// Two scans that begin alike in the same world end alike.
///
/// Where both scans have come to their end, with whatever tasks completed
/// first in each, they have built the same graph: the same modules under the
/// same handles, with the same syntax, edges, warnings and errors.
pub proof fn lemma_same_world_same_graph(
    start: Plan,
    world: World,
    first: Seq<Delivery>,
    second: Seq<Delivery>,
)
    requires
        start.wf(),
        start.inbox.len() == 0,
        fits(start, world),
        all_accepted(start, first),
        all_answered(start, world, first),
        deliver_all(start, first).finished(),
        all_accepted(start, second),
        all_answered(start, world, second),
        deliver_all(start, second).finished(),
    ensures
        deliver_all(start, first).with_inbox(start.inbox) == deliver_all(
            start,
            second,
        ).with_inbox(start.inbox),
{
    lemma_deliveries_run(start, world, first);
    lemma_deliveries_run(start, world, second);
    let one = (deliver_all(start, first).applied - start.applied) as nat;
    let two = (deliver_all(start, second).applied - start.applied) as nat;
    if one <= two {
        lemma_run_ends(start, world, one, two);
    } else {
        lemma_run_ends(start, world, two, one);
    }
}

} // verus!
