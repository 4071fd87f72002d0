//! The clock, the discipline that guards it, and the root of the
//! simulation, which moves forward tick by tick.

use std::collections::VecDeque;
use std::ops::ControlFlow;
use vstd::prelude::*;

use crate::machine::{
    backlog_too_long, delivered, deliveries, drained, same_output, AnyProducer, HandProducer,
    Priority, Producer, ProducerWithQueue, ScaleUp,
};
use crate::resources::{Resource, ResourceStore};
use crate::scheduler::{active_keys, WaiterQueue, WakeHandleId};

verus! {

/// The simulated clock: a counter of discrete steps that only moves forward.
#[derive(Debug)]
pub struct Tick {
    tick: u64,
}

impl Tick {
    /// The number of steps taken so far.
    pub closed spec fn view(&self) -> u64 {
        self.tick
    }

    /// A clock at its first step.
    pub fn start() -> (t: Tick)
        ensures
            t@ == 0,
    {
        Tick { tick: 0 }
    }

    /// Moves the clock forward by exactly one step.
    pub fn advance(&mut self)
        requires
            old(self)@ < u64::MAX,
        ensures
            final(self)@ == old(self)@ + 1,
    {
        self.tick = self.tick + 1;
    }

    /// The number of steps taken so far.
    pub fn cur(&self) -> (n: u64)
        ensures
            n == self@,
    {
        self.tick
    }
}

/// The permission to change what a `RestrictMut` guards. The scheduler makes
/// one per tick, from a single place, so that the clock cannot be advanced
/// from inside the code that checks waiters.
#[derive(Debug)]
pub struct RestrictMutToken(());

/// A guard that hands out its content freely for reading, and for writing
/// only against a `RestrictMutToken`.
pub struct RestrictMut<T>(T);

impl<T> RestrictMut<T> {
    /// The guarded content.
    pub closed spec fn view(&self) -> T {
        self.0
    }

    /// Puts `x` under guard.
    pub fn new(x: T) -> (r: Self)
        ensures
            r@ == x,
    {
        RestrictMut(x)
    }

    /// The guarded content, for reading.
    pub fn as_ref(&self) -> (r: &T)
        ensures
            *r == self@,
    {
        &self.0
    }

    /// The guarded content, for writing. Whatever is written through the
    /// reference is what the guard holds afterwards.
    pub fn as_mut(&mut self, _token: RestrictMutToken) -> (r: &mut T)
        ensures
            *r == old(self)@,
            final(self)@ == *final(r),
    {
        &mut self.0
    }
}

/// After how many ticks the loads are reported again.
pub const REPORT_EVERY: u64 = 50;

/// The place of a producer in the registry.
#[derive(Debug, Clone, Copy, PartialEq, Eq, Structural)]
pub struct ProducerId(pub usize);

/// What a tick was spent on. At most one thing that takes time happens per
/// tick.
#[derive(Debug)]
pub enum TickAction {
    /// This producer was run by hand, which took the tick.
    HandCrafted(ProducerId),
    /// The host is to run this job of its own, which takes the tick, with
    /// the permission to advance the clock; then it calls `check_waiters`.
    Job(u32, RestrictMutToken),
    /// Nothing took time; the clock was advanced by one.
    Advanced,
}

/// The order to give a producer one more producing entity.
#[derive(Debug, Clone, Copy, PartialEq, Eq, Structural)]
pub struct ScaleUpOrder {
    /// The producer that is to grow.
    pub producer: ProducerId,
    /// How urgent the construction is.
    pub priority: Priority,
    /// What it takes.
    pub plan: ScaleUp,
}

/// The priority one above `p`, as far as priorities go.
pub open spec fn bumped(p: Priority) -> Priority {
    if p.0 < u16::MAX {
        Priority((p.0 + 1) as u16)
    } else {
        p
    }
}

/// Whether `steps` are the tables that serving the queues of `producers`,
/// one after the other, leads through from the table `start`: one table to
/// start from, and one more after each producer.
pub open spec fn all_delivered(
    producers: Seq<ProducerWithQueue<AnyProducer>>,
    start: WaiterQueue,
    steps: Seq<WaiterQueue>,
) -> bool {
    &&& steps.len() == producers.len() + 1
    &&& steps[0] == start
    &&& forall|i: int|
        0 <= i < producers.len() ==> (#[trigger] steps[i]).wf() && delivered(
            &producers[i],
            &steps[i],
            &steps[i + 1],
        )
}

/// Whether `after` is what one check of the waiters makes of the producer
/// `before`: its queue is served, and where the queue is then still too
/// long for what it has and what is being built for it, one more entity
/// counts as under construction.
pub open spec fn checked_producer(
    before: &ProducerWithQueue<AnyProducer>,
    after: &ProducerWithQueue<AnyProducer>,
) -> bool {
    let k = deliveries(
        before.queue@.len(),
        before.producer.available(),
        before.producer.lasting(),
    );
    let rest = before.queue@.skip(k as int);
    &&& after.queue@ == rest
    &&& same_output(&before.producer, &after.producer)
    &&& after.producer.queued_inputs() == before.producer.queued_inputs()
    &&& after.producer.available() == if before.producer.lasting() {
        before.producer.available() as int
    } else {
        before.producer.available() - k
    }
    &&& after.scaling_up == before.scaling_up + if backlog_too_long(
        rest.len(),
        before.producer.parallelism(),
        before.scaling_up as nat,
    ) {
        1int
    } else {
        0int
    }
}

/// The order that goes out for the producer at `i`, which was `before` and
/// is `after`.
pub open spec fn order_for(
    before: &ProducerWithQueue<AnyProducer>,
    after: &ProducerWithQueue<AnyProducer>,
    i: int,
) -> ScaleUpOrder {
    ScaleUpOrder {
        producer: ProducerId(i as usize),
        priority: bumped(after.queue@[0].1),
        plan: before.producer.plan((before.scaling_up + 1) as u32),
    }
}

/// The orders that go out for the first `n` producers, in their order: one
/// for each producer for which one more entity counts as under
/// construction.
pub open spec fn orders_upto(
    before: Seq<ProducerWithQueue<AnyProducer>>,
    after: Seq<ProducerWithQueue<AnyProducer>>,
    n: int,
) -> Seq<ScaleUpOrder>
    decreases n,
{
    if n <= 0 || n > before.len() || n > after.len() {
        Seq::empty()
    } else if after[n - 1].scaling_up != before[n - 1].scaling_up {
        orders_upto(before, after, n - 1).push(order_for(&before[n - 1], &after[n - 1], n - 1))
    } else {
        orders_upto(before, after, n - 1)
    }
}

/// Whether no handle has two requests in the queues of `producers`.
pub open spec fn distinct_requests(producers: Seq<ProducerWithQueue<AnyProducer>>) -> bool {
    forall|i: int, a: int, j: int, b: int|
        0 <= i < producers.len() && 0 <= a < producers[i].queue@.len() && 0 <= j < producers.len()
            && 0 <= b < producers[j].queue@.len() && (i != j || a != b) ==> (
        #[trigger] producers[i].queue@[a]).0.id != (#[trigger] producers[j].queue@[b]).0.id
}

/// Queues that lose requests at their front, or none, hold no handle
/// twice if they held none twice before.
pub(crate) proof fn lemma_skipped_distinct(
    before: Seq<ProducerWithQueue<AnyProducer>>,
    after: Seq<ProducerWithQueue<AnyProducer>>,
    i: int,
    k: int,
)
    requires
        distinct_requests(before),
        after.len() == before.len(),
        0 <= i < before.len(),
        0 <= k <= before[i].queue@.len(),
        after[i].queue@ == before[i].queue@.skip(k),
        forall|j: int| 0 <= j < before.len() && j != i ==> (#[trigger] after[j]).queue@
            == before[j].queue@,
    ensures
        distinct_requests(after),
{
    assert forall|x: int, a: int, y: int, b: int|
        0 <= x < after.len() && 0 <= a < after[x].queue@.len() && 0 <= y < after.len() && 0 <= b
            < after[y].queue@.len() && (x != y || a != b) implies (
    #[trigger] after[x].queue@[a]).0.id != (#[trigger] after[y].queue@[b]).0.id by {
        let a0 = if x == i { a + k } else { a };
        let b0 = if y == i { b + k } else { b };
        assert(after[x].queue@ == if x == i { before[x].queue@.skip(k) } else { before[x].queue@ });
        assert(after[y].queue@ == if y == i { before[y].queue@.skip(k) } else { before[y].queue@ });
        assert(after[x].queue@[a] == before[x].queue@[a0]);
        assert(after[y].queue@[b] == before[y].queue@[b0]);
        assert(before[x].queue@[a0].0.id != before[y].queue@[b0].0.id);
    }
}

/// A request for a handle that has none in any queue leaves the queues
/// without a handle that has two.
pub(crate) proof fn lemma_inserted_distinct(
    before: Seq<ProducerWithQueue<AnyProducer>>,
    after: Seq<ProducerWithQueue<AnyProducer>>,
    i: int,
    at: int,
    request: (crate::scheduler::WakeHandle, Priority),
)
    requires
        distinct_requests(before),
        after.len() == before.len(),
        0 <= i < before.len(),
        0 <= at <= before[i].queue@.len(),
        after[i].queue@ == before[i].queue@.insert(at, request),
        forall|j: int| 0 <= j < before.len() && j != i ==> (#[trigger] after[j]).queue@
            == before[j].queue@,
        forall|j: int, b: int|
            0 <= j < before.len() && 0 <= b < before[j].queue@.len() ==> (
            #[trigger] before[j].queue@[b]).0.id != request.0.id,
    ensures
        distinct_requests(after),
{
    assert forall|x: int, a: int, y: int, b: int|
        0 <= x < after.len() && 0 <= a < after[x].queue@.len() && 0 <= y < after.len() && 0 <= b
            < after[y].queue@.len() && (x != y || a != b) implies (
    #[trigger] after[x].queue@[a]).0.id != (#[trigger] after[y].queue@[b]).0.id by {
        let new_a = x == i && a == at;
        let new_b = y == i && b == at;
        let a0 = if x == i && a > at { a - 1 } else { a };
        let b0 = if y == i && b > at { b - 1 } else { b };
        if x != i {
            assert(after[x].queue@ == before[x].queue@);
        }
        if y != i {
            assert(after[y].queue@ == before[y].queue@);
        }
        if !new_a {
            assert(after[x].queue@[a] == before[x].queue@[a0]);
            assert(before[x].queue@[a0].0.id != request.0.id);
        }
        if !new_b {
            assert(after[y].queue@[b] == before[y].queue@[b0]);
            assert(before[y].queue@[b0].0.id != request.0.id);
        }
        if !new_a && !new_b {
            assert(before[x].queue@[a0].0.id != before[y].queue@[b0].0.id);
        }
    }
}

/// The single root of the simulation: the clock, the stores, the
/// producers with their queues, and the waiter table.
pub struct GameState {
    /// The clock. It is advanced from one place only, once per tick.
    pub tick: RestrictMut<Tick>,
    /// The tick at which the loads were last reported.
    pub last_reported_tick: u64,
    /// Advancing time during the waiter updates risks skipping updates. So
    /// jobs of the host that take time are queued here instead.
    pub mut_tick_queue: VecDeque<u32>,
    /// What lies in store of each resource.
    pub resources: ResourceStore,
    /// The registry of producers.
    pub producers: Vec<ProducerWithQueue<AnyProducer>>,
    /// The waiter table.
    pub queue: WaiterQueue,
}

impl GameState {
    /// The jobs of the host that wait for a tick of their own, first come
    /// first.
    pub open spec fn jobs(&self) -> Seq<u32> {
        self.mut_tick_queue@
    }

    /// The tick at which the loads were last reported.
    pub open spec fn last_report(&self) -> u64 {
        self.last_reported_tick
    }

    /// The table and the stores are well formed, and so is every producer.
    /// Every request in a queue is for a handle of the table that can still
    /// be resolved, and no handle has two requests.
    pub open spec fn wf(&self) -> bool {
        &&& self.queue.wf()
        &&& self.resources.wf()
        &&& forall|i: int|
            0 <= i < self.producers@.len() ==> (#[trigger] self.producers@[i]).wf()
                && self.producers@[i].sinks_pending(&self.queue)
        &&& distinct_requests(self.producers@)
    }

    /// Whether every producer that would be run by hand now can be.
    pub open spec fn hands_free(&self) -> bool {
        forall|i: int|
            0 <= i < self.producers@.len() && !(#[trigger] self.producers@[i]).producer.automatic()
                && self.producers@[i].queue@.len() > 0
                ==> self.producers@[i].producer.runs_by_hand()
    }

    /// Whether the count of entities under construction can grow for
    /// every producer.
    pub open spec fn can_scale(&self) -> bool {
        forall|i: int|
            0 <= i < self.producers@.len() ==> (#[trigger] self.producers@[i]).scaling_up < u32::MAX
    }

    /// Whether the producer at `i` is one to run by hand now: somebody
    /// waits for it, it does not produce automatically, and it has what a
    /// run by hand takes.
    pub open spec fn crafts_by_hand(&self, i: int) -> bool {
        &&& 0 <= i < self.producers@.len()
        &&& !self.producers@[i].producer.automatic()
        &&& self.producers@[i].queue@.len() > 0
        &&& self.producers@[i].producer.has_work()
    }

    /// Whether the producer at `i` is the first one to run by hand now.
    pub open spec fn first_by_hand(&self, i: int) -> bool {
        &&& self.crafts_by_hand(i)
        &&& forall|j: int| 0 <= j < i ==> !self.crafts_by_hand(j)
    }

    /// Whether no producer is to be run by hand now.
    pub open spec fn none_by_hand(&self) -> bool {
        forall|j: int| 0 <= j < self.producers@.len() ==> !self.crafts_by_hand(j)
    }

    /// A state at the given point in time, with nothing in it.
    pub fn new(tick: Tick) -> (r: Self)
        ensures
            r.wf(),
            r.tick@ == tick,
            r.jobs().len() == 0,
            r.last_report() == 0,
            r.producers@.len() == 0,
            r.queue.entries().len() == 0,
            r.queue.updates().len() == 0,
            r.queue.next_id() == 0,
            r.resources.containers() == Map::<u32, Resource>::empty(),
    {
        GameState {
            tick: RestrictMut::new(tick),
            last_reported_tick: 0,
            mut_tick_queue: VecDeque::new(),
            resources: ResourceStore::new(),
            producers: Vec::new(),
            queue: WaiterQueue::new(),
        }
    }

    /// The clock, for reading.
    pub fn tick(&self) -> (t: &Tick)
        ensures
            *t == self.tick@,
    {
        self.tick.as_ref()
    }

    /// Queues a job of the host that takes time. It is handed out by
    /// `tick_fwd`, in place of plainly advancing the clock.
    pub fn with_mut_tick(&mut self, job: u32)
        ensures
            final(self).jobs() == old(self).jobs().push(job),
            final(self).tick == old(self).tick,
            final(self).last_report() == old(self).last_report(),
            final(self).resources == old(self).resources,
            final(self).producers == old(self).producers,
            final(self).queue == old(self).queue,
    {
        self.mut_tick_queue.push_back(job);
    }

    /// Puts `producer` into the registry, with nobody waiting for it, and
    /// returns its place.
    pub fn add_producer(&mut self, producer: AnyProducer) -> (id: ProducerId)
        requires
            old(self).wf(),
            producer.valid(),
        ensures
            final(self).wf(),
            id.0 == old(self).producers@.len(),
            final(self).producers@.len() == old(self).producers@.len() + 1,
            forall|i: int|
                0 <= i < old(self).producers@.len() ==> #[trigger] final(self).producers@[i] == old(
                    self,
                ).producers@[i],
            final(self).producers@[id.0 as int].producer == producer,
            final(self).producers@[id.0 as int].queue@.len() == 0,
            final(self).producers@[id.0 as int].scaling_up == 0,
            final(self).jobs() == old(self).jobs(),
            final(self).tick == old(self).tick,
            final(self).last_report() == old(self).last_report(),
            final(self).resources == old(self).resources,
            final(self).queue == old(self).queue,
    {
        let id = ProducerId(self.producers.len());
        self.producers.push(ProducerWithQueue::new(producer));
        id
    }

    /// Lets every producer serve its queue, counts one more entity under
    /// construction for each producer whose queue is still too long and
    /// returns the orders for those entities, and makes every active waiter
    /// due for a poll.
    pub fn check_waiters(&mut self) -> (orders: Vec<ScaleUpOrder>)
        requires
            old(self).wf(),
            old(self).can_scale(),
        ensures
            final(self).wf(),
            checked(old(self), final(self), orders@),
    {
        let n = self.producers.len();
        let mut i: usize = 0;
        let ghost mut steps: Seq<WaiterQueue> = seq![self.queue];
        while i < n
            invariant
                n == self.producers@.len(),
                n == old(self).producers@.len(),
                i <= n,
                self.wf(),
                self.tick == old(self).tick,
                self.jobs() == old(self).jobs(),
                self.last_report() == old(self).last_report(),
                self.resources == old(self).resources,
                forall|j: int|
                    0 <= j < i ==> drained(
                        &old(self).producers@[j],
                        #[trigger] &self.producers@[j],
                    ),
                forall|j: int| i <= j < n ==> #[trigger] self.producers@[j]
                    == old(self).producers@[j],
                steps.len() == i + 1,
                steps[0] == old(self).queue,
                steps.last() == self.queue,
                forall|j: int|
                    0 <= j < i ==> (#[trigger] steps[j]).wf() && delivered(
                        &old(self).producers@[j],
                        &steps[j],
                        &steps[j + 1],
                    ),
            decreases n - i,
        {
            let ghost before = *self;
            self.producers[i].update(&mut self.queue);
            proof {
                steps = steps.push(self.queue);
                assert(before.producers@[i as int] == old(self).producers@[i as int]);
                assert(delivered(&old(self).producers@[i as int], &before.queue, &self.queue));
                assert(before.queue.wf());
                assert forall|j: int| 0 <= j < n implies (#[trigger] self.producers@[j]).wf()
                    && self.producers@[j].sinks_pending(&self.queue) by {
                    if j != i {
                        assert(self.producers@[j] == before.producers@[j]);
                        let p = self.producers@[j];
                        assert forall|a: int| 0 <= a < p.queue@.len() implies self.queue.state(
                            (#[trigger] p.queue@[a]).0.id,
                        ) is Some by {
                            assert(before.queue.state(p.queue@[a].0.id) is Some);
                        }
                    }
                }
                assert forall|j: int| 0 <= j < i + 1 implies drained(
                    &old(self).producers@[j],
                    #[trigger] &self.producers@[j],
                ) by {
                    if j < i {
                        assert(self.producers@[j] == before.producers@[j]);
                    }
                }
            }
            i += 1;
        }
        let ghost served = *self;
        let mut orders: Vec<ScaleUpOrder> = Vec::new();
        let mut i: usize = 0;
        while i < n
            invariant
                n == self.producers@.len(),
                n == old(self).producers@.len(),
                n == served.producers@.len(),
                i <= n,
                self.wf(),
                old(self).can_scale(),
                self.tick == old(self).tick,
                self.jobs() == old(self).jobs(),
                self.last_report() == old(self).last_report(),
                self.resources == old(self).resources,
                self.queue == served.queue,
                forall|j: int|
                    0 <= j < n ==> drained(
                        &old(self).producers@[j],
                        #[trigger] &served.producers@[j],
                    ),
                forall|j: int|
                    0 <= j < i ==> checked_producer(
                        &old(self).producers@[j],
                        #[trigger] &self.producers@[j],
                    ),
                forall|j: int| i <= j < n ==> #[trigger] self.producers@[j] == served.producers@[j],
                orders@ == orders_upto(old(self).producers@, self.producers@, i as int),
            decreases n - i,
        {
            let ghost before = *self;
            let mut placed: Option<ScaleUpOrder> = None;
            if let Some(priority) = self.producers[i].scale_up_if_needed() {
                let plan = self.producers[i].trigger_scale_up();
                placed = Some(ScaleUpOrder { producer: ProducerId(i), priority, plan });
            }
            proof {
                assert(before.producers@[i as int] == served.producers@[i as int]);
                assert(drained(&old(self).producers@[i as int], &served.producers@[i as int]));
                assert forall|j: int| 0 <= j < n implies (#[trigger] self.producers@[j]).wf()
                    && self.producers@[j].sinks_pending(&self.queue) by {
                    if j != i {
                        assert(self.producers@[j] == before.producers@[j]);
                    } else {
                        assert(self.producers@[j].queue@ == before.producers@[j].queue@);
                        assert(before.producers@[j].sinks_pending(&before.queue));
                    }
                }
                assert forall|j: int| 0 <= j < i + 1 implies checked_producer(
                    &old(self).producers@[j],
                    #[trigger] &self.producers@[j],
                ) by {
                    if j < i {
                        assert(self.producers@[j] == before.producers@[j]);
                    }
                }
                assert(orders_upto(old(self).producers@, self.producers@, i as int) == orders_upto(
                    old(self).producers@,
                    before.producers@,
                    i as int,
                )) by {
                    lemma_orders_same(
                        old(self).producers@,
                        before.producers@,
                        self.producers@,
                        i as int,
                    );
                }
            }
            if let Some(order) = placed {
                orders.push(order);
            }
            i += 1;
        }
        self.queue.enqueue_waiters_for_update();
        proof {
            assert forall|j: int| 0 <= j < n implies (#[trigger] self.producers@[j]).wf()
                && self.producers@[j].sinks_pending(&self.queue) by {
                let p = self.producers@[j];
                assert forall|a: int| 0 <= a < p.queue@.len() implies self.queue.state(
                    (#[trigger] p.queue@[a]).0.id,
                ) is Some by {
                    assert(served.queue.state(p.queue@[a].0.id) is Some);
                }
            }
            assert(all_delivered(old(self).producers@, old(self).queue, steps));
        }
        orders
    }

    /// Whether every request in the queue of a producer is for a handle of
    /// the table that waits for a producer.
    pub fn sinks_in_table(&self) -> (r: bool)
        requires
            self.queue.wf(),
        ensures
            r == forall|i: int|
                0 <= i < self.producers@.len() ==> (#[trigger] self.producers@[i]).sinks_pending(
                    &self.queue,
                ),
    {
        let mut i: usize = 0;
        while i < self.producers.len()
            invariant
                self.queue.wf(),
                i <= self.producers@.len(),
                forall|j: int|
                    0 <= j < i ==> (#[trigger] self.producers@[j]).sinks_pending(&self.queue),
            decreases self.producers@.len() - i,
        {
            if !self.producers[i].sinks_in(&self.queue) {
                return false;
            }
            i += 1;
        }
        true
    }

    /// Whether the next tick can be taken: the clock can advance, every
    /// producer that would be run by hand can be, and the count of entities
    /// under construction can grow for every producer.
    pub fn ready_to_tick(&self) -> (r: bool)
        requires
            self.wf(),
        ensures
            r == (self.tick@@ < u64::MAX && self.hands_free() && self.can_scale()),
    {
        if self.tick.as_ref().cur() == u64::MAX {
            return false;
        }
        let mut i: usize = 0;
        while i < self.producers.len()
            invariant
                self.wf(),
                i <= self.producers@.len(),
                forall|j: int|
                    0 <= j < i ==> (#[trigger] self.producers@[j]).scaling_up < u32::MAX && (
                    !self.producers@[j].producer.automatic() && self.producers@[j].queue@.len() > 0
                        ==> self.producers@[j].producer.runs_by_hand()),
            decreases self.producers@.len() - i,
        {
            let p = &self.producers[i];
            if p.scaling_up == u32::MAX {
                return false;
            }
            if !p.producer.can_craft_automatically() && p.queue.len() > 0
                && !p.producer.can_craft_by_hand() {
                return false;
            }
            i += 1;
        }
        true
    }

    /// Moves the simulation forward by one tick. At most one thing that
    /// takes time happens: the first producer that somebody waits for and
    /// that cannot produce automatically is run by hand; or else the
    /// oldest job of the host is handed out; or else the clock is plainly
    /// advanced. Then the waiters are checked, but for a job, after which
    /// the host does that itself.
    pub fn tick_fwd(&mut self) -> (r: (TickAction, Vec<ScaleUpOrder>))
        requires
            old(self).wf(),
            old(self).can_scale(),
            old(self).hands_free(),
            old(self).tick@@ < u64::MAX,
        ensures
            final(self).wf(),
            ticked(old(self), final(self), r.0, r.1@),
    {
        let n = self.producers.len();
        let mut i: usize = 0;
        let mut crafted: Option<usize> = None;
        while i < n && crafted.is_none()
            invariant
                n == self.producers@.len(),
                n == old(self).producers@.len(),
                i <= n,
                self.wf(),
                self.can_scale(),
                old(self).wf(),
                old(self).hands_free(),
                old(self).tick@@ < u64::MAX,
                self.jobs() == old(self).jobs(),
                self.last_report() == old(self).last_report(),
                self.resources == old(self).resources,
                self.queue == old(self).queue,
                crafted is None ==> self.tick == old(self).tick && self.producers@ == old(
                    self,
                ).producers@ && forall|j: int| 0 <= j < i ==> !old(self).crafts_by_hand(j),
                crafted matches Some(c) ==> c + 1 == i && old(self).first_by_hand(c as int)
                    && hand_crafted(old(self), self, c as int),
            decreases n - i, if crafted is None { 1int } else { 0int },
        {
            let ghost before = *self;
            let token = RestrictMutToken(());
            let tick = self.tick.as_mut(token);
            let flow = self.producers[i].craft_by_hand_if_needed(tick);
            if let ControlFlow::Break(_) = flow {
                crafted = Some(i);
            }
            proof {
                assert(before.producers@[i as int] == old(self).producers@[i as int]);
                if crafted is None {
                    assert(self.producers@ =~= old(self).producers@);
                } else {
                    assert forall|j: int| 0 <= j < n && j != i implies #[trigger] self.producers@[j]
                        == old(self).producers@[j] by {
                        assert(self.producers@[j] == before.producers@[j]);
                    }
                }
                assert forall|j: int| 0 <= j < n implies (#[trigger] self.producers@[j]).wf()
                    && self.producers@[j].sinks_pending(&self.queue) by {
                    if j != i {
                        assert(self.producers@[j] == before.producers@[j]);
                    } else {
                        assert(self.producers@[j].queue@ == before.producers@[j].queue@);
                        assert(before.producers@[j].sinks_pending(&before.queue));
                    }
                }
                assert forall|j: int| 0 <= j < n implies (#[trigger] self.producers@[j]).scaling_up
                    < u32::MAX by {
                    assert(self.producers@[j].scaling_up == before.producers@[j].scaling_up);
                }
            }
            i += 1;
        }
        match crafted {
            Some(c) => {
                let ghost mid = *self;
                let orders = self.check_waiters();
                proof {
                    assert(hand_crafted(old(self), &mid, c as int) && checked(&mid, self, orders@));
                }
                (TickAction::HandCrafted(ProducerId(c)), orders)
            },
            None => {
                match self.mut_tick_queue.pop_front() {
                    Some(job) => (TickAction::Job(job, RestrictMutToken(())), Vec::new()),
                    None => {
                        let token = RestrictMutToken(());
                        let tick = self.tick.as_mut(token);
                        tick.advance();
                        let ghost mid = *self;
                        let orders = self.check_waiters();
                        proof {
                            assert(advanced(old(self), &mid) && checked(&mid, self, orders@));
                        }
                        (TickAction::Advanced, orders)
                    },
                }
            },
        }
    }

    /// Says how many requests wait at each producer, in the order of the
    /// registry: the first time it is asked, and then once in every span
    /// of `REPORT_EVERY` ticks.
    pub fn report_loads(&mut self) -> (r: Option<Vec<usize>>)
        ensures
            final(self).tick == old(self).tick,
            final(self).jobs() == old(self).jobs(),
            final(self).resources == old(self).resources,
            final(self).producers == old(self).producers,
            final(self).queue == old(self).queue,
            match r {
                None => old(self).tick@@ / REPORT_EVERY == old(self).last_report() / REPORT_EVERY
                    && final(self).last_report() == old(self).last_report(),
                Some(loads) => old(self).tick@@ / REPORT_EVERY != old(self).last_report()
                    / REPORT_EVERY && final(self).last_report() == old(self).tick@@ && loads@.len()
                    == old(self).producers@.len() && forall|i: int|
                    0 <= i < loads@.len() ==> #[trigger] loads@[i] == old(
                        self,
                    ).producers@[i].queue@.len(),
            },
    {
        let now = self.tick.as_ref().cur();
        if now / REPORT_EVERY == self.last_reported_tick / REPORT_EVERY {
            return None;
        }
        self.last_reported_tick = now;
        let mut loads: Vec<usize> = Vec::new();
        let mut i: usize = 0;
        while i < self.producers.len()
            invariant
                i <= self.producers@.len(),
                loads@.len() == i,
                forall|j: int| 0 <= j < i ==> #[trigger] loads@[j]
                    == self.producers@[j].queue@.len(),
            decreases self.producers@.len() - i,
        {
            loads.push(self.producers[i].queue.len());
            i += 1;
        }
        Some(loads)
    }
}

/// The orders for the first `n` producers depend on those producers only.
proof fn lemma_orders_same(
    before: Seq<ProducerWithQueue<AnyProducer>>,
    a: Seq<ProducerWithQueue<AnyProducer>>,
    b: Seq<ProducerWithQueue<AnyProducer>>,
    n: int,
)
    requires
        a.len() == b.len(),
        forall|j: int| 0 <= j < n && j < a.len() ==> #[trigger] a[j] == b[j],
    ensures
        orders_upto(before, a, n) == orders_upto(before, b, n),
    decreases n,
{
    if n > 0 && n <= before.len() && n <= a.len() {
        lemma_orders_same(before, a, b, n - 1);
        assert(a[n - 1] == b[n - 1]);
    }
}

/// Whether `after` is the table `before` with every active waiter made
/// due for a poll, in the order of registration.
pub open spec fn swept(before: WaiterQueue, after: WaiterQueue) -> bool {
    &&& after.entries() == before.entries()
    &&& after.next_id() == before.next_id()
    &&& after.updates() == before.updates() + active_keys(
        before.entries(),
        before.entries().len() as int,
    )
}

/// Whether `after` and `orders` are what one check of the waiters makes of
/// `before`: every producer has served its queue, in the order of the
/// registry, and has one more entity under construction if its queue is
/// still too long; `orders` holds an order for each such entity; and every
/// waiter that is then active is due for a poll.
pub open spec fn checked(before: &GameState, after: &GameState, orders: Seq<ScaleUpOrder>) -> bool {
    let n = before.producers@.len() as int;
    &&& after.tick == before.tick
    &&& after.jobs() == before.jobs()
    &&& after.last_report() == before.last_report()
    &&& after.resources == before.resources
    &&& after.producers@.len() == n
    &&& forall|j: int|
        0 <= j < n ==> checked_producer(&before.producers@[j], #[trigger] &after.producers@[j])
    &&& orders == orders_upto(before.producers@, after.producers@, n)
    &&& exists|steps: Seq<WaiterQueue>| #[trigger]
        all_delivered(before.producers@, before.queue, steps) && swept(steps.last(), after.queue)
}

/// Whether `after` is `before` with the producer at `i` run by hand once,
/// which took one tick and made one output of what it had waiting.
pub open spec fn hand_crafted(before: &GameState, after: &GameState, i: int) -> bool {
    &&& after.tick@@ == before.tick@@ + 1
    &&& after.jobs() == before.jobs()
    &&& after.last_report() == before.last_report()
    &&& after.resources == before.resources
    &&& after.queue == before.queue
    &&& after.producers@.len() == before.producers@.len()
    &&& forall|j: int|
        0 <= j < before.producers@.len() && j != i ==> #[trigger] after.producers@[j]
            == before.producers@[j]
    &&& 0 <= i < before.producers@.len()
    &&& after.producers@[i].queue@ == before.producers@[i].queue@
    &&& after.producers@[i].scaling_up == before.producers@[i].scaling_up
    &&& same_output(&before.producers@[i].producer, &after.producers@[i].producer)
    &&& after.producers@[i].producer.available() == before.producers@[i].producer.available() + 1
    &&& after.producers@[i].producer.queued_inputs() + before.producers@[i].producer.intake()
        == before.producers@[i].producer.queued_inputs()
}

/// Whether `after` is `before` one tick later, with nothing else changed.
pub open spec fn advanced(before: &GameState, after: &GameState) -> bool {
    &&& after.tick@@ == before.tick@@ + 1
    &&& after.jobs() == before.jobs()
    &&& after.last_report() == before.last_report()
    &&& after.resources == before.resources
    &&& after.queue == before.queue
    &&& after.producers@ == before.producers@
}

/// Whether `after`, `action` and `orders` are what one tick makes of
/// `before`.
pub open spec fn ticked(
    before: &GameState,
    after: &GameState,
    action: TickAction,
    orders: Seq<ScaleUpOrder>,
) -> bool {
    if !before.none_by_hand() {
        &&& action matches TickAction::HandCrafted(id)
        &&& before.first_by_hand(id.0 as int)
        &&& exists|mid: GameState| #[trigger]
            hand_crafted(before, &mid, id.0 as int) && checked(&mid, after, orders)
    } else if before.jobs().len() > 0 {
        &&& action matches TickAction::Job(job, _)
        &&& job == before.jobs()[0]
        &&& after.jobs() == before.jobs().skip(1)
        &&& after.tick == before.tick
        &&& after.last_report() == before.last_report()
        &&& after.resources == before.resources
        &&& after.queue == before.queue
        &&& after.producers@ == before.producers@
        &&& orders.len() == 0
    } else {
        &&& action is Advanced
        &&& exists|mid: GameState| #[trigger] advanced(before, &mid) && checked(&mid, after, orders)
    }
}

} // verus!
