//! Results may arrive in any order: what the loader builds depends on which
//! results were delivered, not on when.

use crate::module_loader::plan::{lemma_apply_frame, lemma_drain_store, Plan};
use crate::module_loader::task::Completion;
use vstd::prelude::*;

verus! {

/// The result of a task, with the ticket of the task.
pub type Delivery = (nat, Completion);

/// The plan after the deliveries, each applied as soon as its turn has come.
pub open spec fn deliver_all(plan: Plan, deliveries: Seq<Delivery>) -> Plan
    decreases deliveries.len(),
{
    if deliveries.len() == 0 {
        plan
    } else {
        deliver_all(plan, deliveries.drop_last()).deliver(
            deliveries.last().0,
            deliveries.last().1,
        )
    }
}

/// The plan with the deliveries in its inbox and none of them applied.
pub open spec fn store_all(plan: Plan, deliveries: Seq<Delivery>) -> Plan
    decreases deliveries.len(),
{
    if deliveries.len() == 0 {
        plan
    } else {
        store_all(plan, deliveries.drop_last()).store(deliveries.last().0, deliveries.last().1)
    }
}

/// Whether every delivery is accepted when it comes.
pub open spec fn all_accepted(plan: Plan, deliveries: Seq<Delivery>) -> bool {
    forall|k: int|
        0 <= k < deliveries.len() ==> (#[trigger] deliver_all(plan, deliveries.take(k))).accepts(
            deliveries[k].0,
            deliveries[k].1,
        )
}

/// Whether no two deliveries are for the same ticket.
pub open spec fn distinct_tickets(deliveries: Seq<Delivery>) -> bool {
    forall|i: int, j: int|
        0 <= i < j < deliveries.len() ==> (#[trigger] deliveries[i]).0 != (#[trigger] deliveries[j]).0
}

/// Applying what is ready moves forward only, and leaves alone what waits
/// beyond the point it comes to.
proof fn lemma_drain_frame(plan: Plan)
    ensures
        plan.drain().applied >= plan.applied,
        plan.drain().inbox.len() == plan.inbox.len(),
        forall|t: int|
            plan.drain().applied <= t < plan.inbox.len() ==> plan.drain().inbox[t] == plan.inbox[t],
        !plan.drain().ready(),
    decreases plan.inbox.len() - plan.applied,
{
    if plan.ready() {
        let first = plan.inbox[plan.applied as int].unwrap();
        lemma_apply_frame(plan, first);
        lemma_drain_frame(plan.apply(first));
    }
}

/// Keeping results in the inbox changes the inbox alone.
proof fn lemma_store_all_frame(plan: Plan, deliveries: Seq<Delivery>)
    ensures
        store_all(plan, deliveries).with_inbox(plan.inbox) == plan,
    decreases deliveries.len(),
{
    if deliveries.len() > 0 {
        lemma_store_all_frame(plan, deliveries.drop_last());
    }
}

/// Delivering results one by one comes to the same as keeping them all and
/// applying them in the order of their tickets.
pub proof fn lemma_deliveries_settle(plan: Plan, deliveries: Seq<Delivery>)
    requires
        !plan.ready(),
        all_accepted(plan, deliveries),
    ensures
        deliver_all(plan, deliveries) == store_all(plan, deliveries).drain(),
    decreases deliveries.len(),
{
    if deliveries.len() > 0 {
        let earlier = deliveries.drop_last();
        let (ticket, completion) = deliveries.last();
        assert forall|k: int| 0 <= k < earlier.len() implies (#[trigger] deliver_all(
            plan,
            earlier.take(k),
        )).accepts(earlier[k].0, earlier[k].1) by {
            assert(earlier.take(k) == deliveries.take(k));
        }
        lemma_deliveries_settle(plan, earlier);
        let kept = store_all(plan, earlier);
        assert(deliveries.take(deliveries.len() - 1) == earlier);
        assert(deliver_all(plan, earlier).accepts(ticket, completion));
        lemma_drain_frame(kept);
        lemma_drain_store(kept, ticket, completion);
    }
}

/// What the inbox holds once the deliveries are kept in it.
proof fn lemma_store_all_inbox(plan: Plan, deliveries: Seq<Delivery>)
    requires
        distinct_tickets(deliveries),
    ensures
        store_all(plan, deliveries).inbox.len() >= plan.inbox.len(),
        forall|i: int|
            0 <= i < deliveries.len() ==> (#[trigger] deliveries[i]).0 < store_all(
                plan,
                deliveries,
            ).inbox.len() && store_all(plan, deliveries).inbox[deliveries[i].0 as int] == Some(
                deliveries[i].1,
            ),
        store_all(plan, deliveries).inbox.len() == plan.inbox.len() || exists|i: int|
            0 <= i < deliveries.len() && store_all(plan, deliveries).inbox.len() == (
            #[trigger] deliveries[i]).0 + 1,
        forall|t: int|
            0 <= t < store_all(plan, deliveries).inbox.len() && (forall|i: int|
                0 <= i < deliveries.len() ==> (#[trigger] deliveries[i]).0 != t) ==> store_all(
                plan,
                deliveries,
            ).inbox[t] == if t < plan.inbox.len() {
                plan.inbox[t]
            } else {
                None
            },
    decreases deliveries.len(),
{
    if deliveries.len() > 0 {
        let earlier = deliveries.drop_last();
        let last = deliveries.len() - 1;
        let (ticket, completion) = deliveries.last();
        assert(distinct_tickets(earlier)) by {
            assert forall|i: int, j: int| 0 <= i < j < earlier.len() implies (
            #[trigger] earlier[i]).0 != (#[trigger] earlier[j]).0 by {
                assert(earlier[i] == deliveries[i]);
                assert(earlier[j] == deliveries[j]);
            }
        }
        lemma_store_all_inbox(plan, earlier);
        let before = store_all(plan, earlier);
        let after = store_all(plan, deliveries);
        assert forall|i: int| 0 <= i < deliveries.len() implies (#[trigger] deliveries[i]).0
            < after.inbox.len() && after.inbox[deliveries[i].0 as int] == Some(
            deliveries[i].1,
        ) by {
            if i < last {
                assert(earlier[i] == deliveries[i]);
                assert(deliveries[i].0 != deliveries[last].0);
            }
        }
        if after.inbox.len() != plan.inbox.len() {
            if after.inbox.len() == before.inbox.len() {
                let i = choose|i: int|
                    0 <= i < earlier.len() && before.inbox.len() == (#[trigger] earlier[i]).0 + 1;
                assert(earlier[i] == deliveries[i]);
                assert(after.inbox.len() == deliveries[i].0 + 1);
            } else {
                assert(after.inbox.len() == deliveries[last].0 + 1);
            }
        }
        assert forall|t: int|
            0 <= t < after.inbox.len() && (forall|i: int|
                0 <= i < deliveries.len() ==> (#[trigger] deliveries[i]).0 != t) implies after.inbox[t]
            == if t < plan.inbox.len() {
            plan.inbox[t]
        } else {
            None
        } by {
            assert(deliveries[last].0 != t);
            assert forall|i: int| 0 <= i < earlier.len() implies (#[trigger] earlier[i]).0 != t by {
                assert(earlier[i] == deliveries[i]);
            }
        }
    }
}

/// Whether the result of `ticket` has arrived: it waits in the inbox or has been applied.
pub open spec fn arrived(plan: Plan, ticket: nat) -> bool {
    ticket < plan.applied || (ticket < plan.inbox.len() && plan.inbox[ticket as int] is Some)
}

/// A result that has arrived has arrived for good, and a result that is
/// accepted has arrived.
proof fn lemma_deliver_arrived(plan: Plan, ticket: nat, completion: Completion, earlier: nat)
    ensures
        arrived(plan, earlier) ==> arrived(plan.deliver(ticket, completion), earlier),
        plan.accepts(ticket, completion) ==> arrived(plan.deliver(ticket, completion), ticket),
{
    if plan.accepts(ticket, completion) {
        let stored = plan.store(ticket, completion);
        let after = stored.drain();
        lemma_drain_frame(stored);
        assert(stored.inbox[ticket as int] == Some(completion));
        if after.applied <= ticket {
            assert(after.inbox[ticket as int] == stored.inbox[ticket as int]);
        }
        if arrived(plan, earlier) && after.applied <= earlier {
            assert(earlier < plan.inbox.len());
            assert(stored.inbox[earlier as int] == plan.inbox[earlier as int]);
            assert(after.inbox[earlier as int] == stored.inbox[earlier as int]);
        }
    }
}

/// After a delivery has been accepted, its result has arrived whatever follows.
proof fn lemma_delivered_arrived(plan: Plan, deliveries: Seq<Delivery>, i: int, k: int)
    requires
        all_accepted(plan, deliveries),
        0 <= i < k <= deliveries.len(),
    ensures
        arrived(deliver_all(plan, deliveries.take(k)), deliveries[i].0),
    decreases k,
{
    let upto = deliveries.take(k);
    let before = deliveries.take(k - 1);
    assert(upto.drop_last() == before);
    assert(upto.last() == deliveries[k - 1]);
    let (ticket, completion) = deliveries[k - 1];
    if i < k - 1 {
        lemma_delivered_arrived(plan, deliveries, i, k - 1);
    }
    lemma_deliver_arrived(deliver_all(plan, before), ticket, completion, deliveries[i].0);
}

/// No ticket is accepted twice.
pub proof fn lemma_accepted_once(plan: Plan, deliveries: Seq<Delivery>)
    requires
        all_accepted(plan, deliveries),
    ensures
        distinct_tickets(deliveries),
{
    assert forall|i: int, j: int| 0 <= i < j < deliveries.len() implies (
    #[trigger] deliveries[i]).0 != (#[trigger] deliveries[j]).0 by {
        lemma_delivered_arrived(plan, deliveries, i, j);
        assert(deliver_all(plan, deliveries.take(j)).accepts(deliveries[j].0, deliveries[j].1));
    }
}

/// Whether every delivery of `first` is among those of `second`.
pub open spec fn all_among(first: Seq<Delivery>, second: Seq<Delivery>) -> bool {
    forall|i: int| 0 <= i < first.len() ==> second.contains(#[trigger] first[i])
}

/// An inbox that holds all deliveries of another is at least as long.
proof fn lemma_inbox_length(plan: Plan, first: Seq<Delivery>, second: Seq<Delivery>)
    requires
        distinct_tickets(first),
        distinct_tickets(second),
        all_among(first, second),
    ensures
        store_all(plan, first).inbox.len() <= store_all(plan, second).inbox.len(),
{
    lemma_store_all_inbox(plan, first);
    lemma_store_all_inbox(plan, second);
    let a = store_all(plan, first);
    let b = store_all(plan, second);
    if a.inbox.len() != plan.inbox.len() {
        let i = choose|i: int| 0 <= i < first.len() && a.inbox.len() == (#[trigger] first[i]).0 + 1;
        assert(second.contains(first[i]));
        let j = choose|j: int| 0 <= j < second.len() && second[j] == first[i];
        assert(second[j].0 < b.inbox.len());
    }
}

/// Inboxes that hold the same deliveries hold the same result under each ticket.
proof fn lemma_inbox_entry(plan: Plan, first: Seq<Delivery>, second: Seq<Delivery>, t: int)
    requires
        distinct_tickets(first),
        distinct_tickets(second),
        all_among(first, second),
        all_among(second, first),
        0 <= t < store_all(plan, first).inbox.len(),
        0 <= t < store_all(plan, second).inbox.len(),
    ensures
        store_all(plan, first).inbox[t] == store_all(plan, second).inbox[t],
{
    lemma_store_all_inbox(plan, first);
    lemma_store_all_inbox(plan, second);
    let a = store_all(plan, first);
    let b = store_all(plan, second);
    if exists|i: int| 0 <= i < first.len() && (#[trigger] first[i]).0 == t {
        let i = choose|i: int| 0 <= i < first.len() && (#[trigger] first[i]).0 == t;
        assert(second.contains(first[i]));
        let j = choose|j: int| 0 <= j < second.len() && second[j] == first[i];
        assert(b.inbox[second[j].0 as int] == Some(second[j].1));
        assert(a.inbox[first[i].0 as int] == Some(first[i].1));
    } else {
        assert forall|j: int| 0 <= j < second.len() implies (#[trigger] second[j]).0 != t by {
            assert(first.contains(second[j]));
            let i = choose|i: int| 0 <= i < first.len() && first[i] == second[j];
            assert(first[i].0 != t);
        }
    }
}

/// Keeping the same deliveries gives the same inbox, whatever their order.
proof fn lemma_store_all_same(plan: Plan, first: Seq<Delivery>, second: Seq<Delivery>)
    requires
        distinct_tickets(first),
        distinct_tickets(second),
        all_among(first, second),
        all_among(second, first),
    ensures
        store_all(plan, first) == store_all(plan, second),
{
    let a = store_all(plan, first);
    let b = store_all(plan, second);
    lemma_inbox_length(plan, first, second);
    lemma_inbox_length(plan, second, first);
    assert forall|t: int| 0 <= t < a.inbox.len() implies a.inbox[t] == b.inbox[t] by {
        lemma_inbox_entry(plan, first, second, t);
    }
    assert(a.inbox =~= b.inbox);
    lemma_store_all_frame(plan, first);
    lemma_store_all_frame(plan, second);
    assert(a == a.with_inbox(plan.inbox).with_inbox(a.inbox));
    assert(b == b.with_inbox(plan.inbox).with_inbox(b.inbox));
}

/// The order in which results arrive does not matter.
///
/// Where the same results are delivered in two orders, each accepted when it
/// comes, the loader comes to the same state: the same modules under the same
/// handles, the same tasks under the same tickets, the same edges, warnings
/// and errors.
pub proof fn lemma_order_does_not_matter(plan: Plan, first: Seq<Delivery>, second: Seq<Delivery>)
    requires
        !plan.ready(),
        all_accepted(plan, first),
        all_accepted(plan, second),
        all_among(first, second),
        all_among(second, first),
    ensures
        deliver_all(plan, first) == deliver_all(plan, second),
{
    lemma_accepted_once(plan, first);
    lemma_accepted_once(plan, second);
    lemma_deliveries_settle(plan, first);
    lemma_deliveries_settle(plan, second);
    lemma_store_all_same(plan, first, second);
}

} // verus!
