use std::ops::ControlFlow;

use factory_scheduler::machine::{
    HandCrafter, HandProducer, Machine, MachineId, MachineStorage, MultiMachine, OnceMaker,
    Priority, Producer, ProducerWithQueue, ScaleUp, Territory, TerritoryFullError,
    BACKLOG_FACTOR, SCALE_UP_WEIGHT,
};
use factory_scheduler::runtime::Tick;
use factory_scheduler::scheduler::{Waiter, WaiterQueue, WakeHandle};
use factory_scheduler::value::{Bundle, Value};

const ORE: u32 = 1;
const PLATE: Bundle = Bundle { resource: 2, amount: 1 };

fn request(
    pwq: &mut ProducerWithQueue<Territory>,
    q: &mut WaiterQueue,
    priority: u16,
) -> WakeHandle {
    let h = q.enqueue_waiter(Waiter::Resource);
    pwq.enqueue(q, h, Priority(priority));
    h
}

#[test]
fn requests_are_served_by_priority() {
    let mut pwq = ProducerWithQueue::new(Territory::new(ORE, 4));
    let mut q = WaiterQueue::new();
    let three = request(&mut pwq, &mut q, 3);
    let one = request(&mut pwq, &mut q, 1);
    let two = request(&mut pwq, &mut q, 2);
    let order: Vec<u16> = pwq.queue.iter().map(|(_, p)| p.0).collect();
    assert_eq!(order, vec![3, 2, 1]);

    let mut served = Vec::new();
    for _ in 0..3 {
        pwq.producer.deposit(1);
        pwq.update(&mut q);
        for (h, p) in [(three, 3), (one, 1), (two, 2)] {
            if q.is_ready(h.id) {
                assert_eq!(q.get(h), Some(Value::Bundle(Bundle { resource: ORE, amount: 1 })));
                served.push(p);
            }
        }
    }
    assert_eq!(served, vec![3, 2, 1]);
    assert!(pwq.queue.is_empty());
}

#[test]
fn equal_priorities_are_served_in_the_order_of_arrival() {
    let mut pwq = ProducerWithQueue::new(Territory::new(ORE, 4));
    let mut q = WaiterQueue::new();
    let a = request(&mut pwq, &mut q, 2);
    let b = request(&mut pwq, &mut q, 5);
    let c = request(&mut pwq, &mut q, 2);
    let d = request(&mut pwq, &mut q, 5);
    let e = request(&mut pwq, &mut q, 2);
    let order: Vec<WakeHandle> = pwq.queue.iter().map(|(h, _)| *h).collect();
    assert_eq!(order, vec![b, d, a, c, e]);
}

#[test]
fn an_idle_producer_with_output_serves_a_request_at_once() {
    let mut pwq = ProducerWithQueue::new(Territory::new(ORE, 4));
    let mut q = WaiterQueue::new();
    pwq.producer.deposit(2);
    let h = request(&mut pwq, &mut q, 1);
    assert!(pwq.queue.is_empty());
    assert_eq!(q.get(h), Some(Value::Bundle(Bundle { resource: ORE, amount: 1 })));
    // One unit of ore is left.
    assert_eq!(Producer::poll(&mut pwq.producer), Some(Value::Bundle(Bundle { resource: ORE, amount: 1 })));
    assert_eq!(Producer::poll(&mut pwq.producer), None);
}

#[test]
fn a_request_behind_others_waits_even_if_output_is_there() {
    let mut pwq = ProducerWithQueue::new(Territory::new(ORE, 4));
    let mut q = WaiterQueue::new();
    let first = request(&mut pwq, &mut q, 1);
    pwq.producer.deposit(1);
    let second = request(&mut pwq, &mut q, 9);
    assert_eq!(pwq.queue.len(), 2);
    assert!(!q.is_ready(first.id) && !q.is_ready(second.id));
    pwq.update(&mut q);
    // The more urgent request gets the one output.
    assert!(q.is_ready(second.id));
    assert!(!q.is_ready(first.id));
    assert_eq!(pwq.queue.len(), 1);
}

#[test]
fn update_leaves_no_request_waiting_while_output_is_there() {
    let mut pwq = ProducerWithQueue::new(Territory::new(ORE, 4));
    let mut q = WaiterQueue::new();
    let a = request(&mut pwq, &mut q, 1);
    let b = request(&mut pwq, &mut q, 1);
    let c = request(&mut pwq, &mut q, 1);
    pwq.producer.deposit(2);
    pwq.update(&mut q);
    assert!(q.is_ready(a.id) && q.is_ready(b.id) && !q.is_ready(c.id));
    assert_eq!(pwq.queue.len(), 1);
    assert_eq!(Producer::poll(&mut pwq.producer), None);

    pwq.producer.deposit(5);
    pwq.update(&mut q);
    assert!(q.is_ready(c.id));
    assert!(pwq.queue.is_empty());
    // Four units are left for later requests.
    for _ in 0..4 {
        assert!(Producer::poll(&mut pwq.producer).is_some());
    }
    assert_eq!(Producer::poll(&mut pwq.producer), None);
}

#[test]
fn update_wakes_who_waits_for_a_served_request() {
    let mut pwq = ProducerWithQueue::new(Territory::new(ORE, 4));
    let mut q = WaiterQueue::new();
    let h = request(&mut pwq, &mut q, 1);
    let user = q.enqueue_waiter(Waiter::ThenSecond { next: h.id });
    assert!(q.check_waiter(user.id).is_none());
    pwq.producer.deposit(1);
    pwq.update(&mut q);
    assert_eq!(q.next_waiter_to_update(), Some(user.id));
}

#[test]
fn feeding_gives_inputs_and_queues_the_request() {
    let mut pwq = ProducerWithQueue::new(HandCrafter::new(PLATE));
    let mut q = WaiterQueue::new();
    let h = q.enqueue_waiter(Waiter::Resource);
    pwq.feed(&mut q, Priority(1), h);
    assert_eq!(pwq.queue.len(), 1);
    let mut tick = Tick::start();
    assert!(matches!(pwq.craft_by_hand_if_needed(&mut tick), ControlFlow::Break(_)));
    assert_eq!(tick.cur(), 1);
    pwq.update(&mut q);
    assert_eq!(q.get(h), Some(Value::Bundle(PLATE)));
    // Nothing is left to craft, and nobody waits.
    assert!(matches!(pwq.craft_by_hand_if_needed(&mut tick), ControlFlow::Continue(())));
    assert_eq!(tick.cur(), 1);
}

#[test]
fn nothing_is_crafted_by_hand_for_nobody() {
    let mut pwq = ProducerWithQueue::new(HandCrafter::new(PLATE));
    Producer::add_inputs(&mut pwq.producer);
    let mut tick = Tick::start();
    assert!(matches!(pwq.craft_by_hand_if_needed(&mut tick), ControlFlow::Continue(())));
    assert_eq!(tick.cur(), 0);
}

#[test]
fn a_territory_with_miners_is_not_mined_by_hand() {
    let mut pwq = ProducerWithQueue::new(Territory::new(ORE, 2));
    let mut q = WaiterQueue::new();
    let h = request(&mut pwq, &mut q, 1);
    let mut tick = Tick::start();
    // Without miners, somebody mines by hand, which takes exactly one tick.
    assert!(matches!(pwq.craft_by_hand_if_needed(&mut tick), ControlFlow::Break(_)));
    assert_eq!(tick.cur(), 1);
    pwq.update(&mut q);
    assert!(q.is_ready(h.id));

    let _again = request(&mut pwq, &mut q, 1);
    assert_eq!(pwq.producer.add_miner(), Ok(()));
    assert!(matches!(pwq.craft_by_hand_if_needed(&mut tick), ControlFlow::Continue(())));
    assert_eq!(tick.cur(), 1);
}

#[test]
fn a_territory_takes_no_more_miners_than_it_has_room_for() {
    let mut t = Territory::new(ORE, 2);
    assert_eq!(t.max_miners(), 2);
    assert_eq!(t.num_miners(), 0);
    assert_eq!(t.add_miner(), Ok(()));
    assert_eq!(t.add_miner(), Ok(()));
    assert_eq!(t.add_miner(), Err(TerritoryFullError { max_miners: 2 }));
    assert_eq!(t.num_miners(), 2);
    assert_eq!(t.available_parallelism(), 2);
}

#[test]
fn a_territory_plans_to_build_while_it_has_room() {
    let mut t = Territory::new(ORE, 2);
    assert_eq!(t.scale_up(1), ScaleUp::Build);
    assert_eq!(t.scale_up(2), ScaleUp::Build);
    assert_eq!(t.scale_up(3), ScaleUp::Never);
    assert_eq!(t.add_miner(), Ok(()));
    assert_eq!(t.scale_up(1), ScaleUp::Build);
    assert_eq!(t.scale_up(2), ScaleUp::Never);
}

#[test]
fn the_backlog_calls_for_scale_up_above_the_threshold_only() {
    assert_eq!(SCALE_UP_WEIGHT, 12);
    assert_eq!(BACKLOG_FACTOR, 4);
    let mut pwq = ProducerWithQueue::new(Territory::new(ORE, 4));
    assert_eq!(pwq.producer.add_miner(), Ok(()));
    let mut q = WaiterQueue::new();
    for _ in 0..4 {
        request(&mut pwq, &mut q, 7);
    }
    // 4 requests for 1 miner: not above 1 * 4.
    assert_eq!(pwq.scale_up_if_needed(), None);
    request(&mut pwq, &mut q, 2);
    // 5 requests: above. The order is one more urgent than the front request.
    assert_eq!(pwq.scale_up_if_needed(), Some(Priority(8)));
}

#[test]
fn a_scale_up_in_flight_answers_the_same_backlog() {
    let mut pwq = ProducerWithQueue::new(Territory::new(ORE, 4));
    assert_eq!(pwq.producer.add_miner(), Ok(()));
    let mut q = WaiterQueue::new();
    for _ in 0..5 {
        request(&mut pwq, &mut q, 1);
    }
    assert!(pwq.scale_up_if_needed().is_some());
    assert_eq!(pwq.trigger_scale_up(), ScaleUp::Build);
    assert_eq!(pwq.scaling_up, 1);
    // The same backlog asks for nothing more.
    assert_eq!(pwq.scale_up_if_needed(), None);
    assert_eq!(pwq.scale_up_if_needed(), None);
    assert_eq!(pwq.scaling_up, 1);
    // Up to (1 + 12) * 4 = 52 requests are covered by the one in flight.
    for _ in 5..52 {
        request(&mut pwq, &mut q, 1);
    }
    assert_eq!(pwq.scale_up_if_needed(), None);
    request(&mut pwq, &mut q, 1);
    assert_eq!(pwq.scale_up_if_needed(), Some(Priority(2)));
    // When the miner is there, the count goes down again.
    assert_eq!(pwq.producer.add_miner(), Ok(()));
    pwq.scale_up_done();
    assert_eq!(pwq.scaling_up, 0);
}

#[test]
fn the_priority_of_a_scale_up_stops_at_the_top() {
    let mut pwq = ProducerWithQueue::new(Territory::new(ORE, 4));
    let mut q = WaiterQueue::new();
    request(&mut pwq, &mut q, u16::MAX);
    assert_eq!(pwq.scale_up_if_needed(), Some(Priority(u16::MAX)));
}

#[test]
fn what_is_made_once_is_built_once_and_shared() {
    let mut pwq = ProducerWithQueue::new(OnceMaker::new());
    let mut q = WaiterQueue::new();
    let mut builds = 0;
    let mut waiters = Vec::new();
    for _ in 0..5 {
        if pwq.producer.ensure_made() {
            builds += 1;
        }
        let h = q.enqueue_waiter(Waiter::Resource);
        pwq.enqueue(&mut q, h, Priority(1));
        waiters.push(h);
    }
    assert_eq!(builds, 1);
    assert_eq!(pwq.queue.len(), 5);
    assert_eq!(pwq.producer.available_parallelism(), 0);
    pwq.update(&mut q);
    assert_eq!(pwq.queue.len(), 5);

    pwq.producer.set_made(77);
    pwq.update(&mut q);
    assert!(pwq.queue.is_empty());
    for h in waiters {
        assert_eq!(q.get(h), Some(Value::Token(77)));
    }
    // Later requests get the same, at once, and nothing is built again.
    assert!(!pwq.producer.ensure_made());
    assert_eq!(pwq.producer.scale_up(1), ScaleUp::Ready);
    let late = q.enqueue_waiter(Waiter::Resource);
    pwq.enqueue(&mut q, late, Priority(1));
    assert_eq!(q.get(late), Some(Value::Token(77)));
    assert_eq!(pwq.producer.available_parallelism(), 1);
}

#[test]
fn the_first_scale_up_of_a_once_maker_builds() {
    let mut maker = OnceMaker::new();
    assert_eq!(maker.scale_up(1), ScaleUp::Build);
    assert_eq!(maker.scale_up(1), ScaleUp::Ready);
    assert_eq!(Producer::poll(&mut maker), None);
}

#[test]
fn a_machine_counts_bundles_in_and_out() {
    let mut m = Machine::holding(2, 0);
    assert_eq!(m.input_load(), 2);
    m.add_inputs();
    assert_eq!(m.input_load(), 3);
    m.complete_cycles(2);
    assert_eq!((m.input_load(), m.output_stock()), (1, 2));
    assert!(m.pop_outputs());
    assert!(m.pop_inputs());
    assert!(!m.pop_inputs());
    m.add_outputs();
    assert_eq!((m.input_load(), m.output_stock()), (0, 2));
    assert!(m.pop_outputs());
    assert!(m.pop_outputs());
    assert!(!m.pop_outputs());
}

#[test]
fn the_least_loaded_machine_is_requested_the_first_on_ties() {
    let mut store: MachineStorage<Machine> = MachineStorage::NoMachine;
    assert_eq!(store.request(), None);
    assert_eq!(store.max_load(), None);
    assert!(!store.is_present());
    store.add(Machine::holding(3, 0));
    store.add(Machine::holding(1, 0));
    store.add(Machine::holding(4, 0));
    store.add(Machine::holding(1, 0));
    assert!(store.is_present());
    assert_eq!(store.request(), Some(MachineId(1)));
    assert_eq!(store.max_load(), Some(4));
    store.get(MachineId(1)).add_inputs();
    assert_eq!(store.request(), Some(MachineId(3)));
    let loads: Vec<u32> = store.iter().iter().map(|m| m.input_load()).collect();
    assert_eq!(loads, vec![3, 2, 4, 1]);
}

#[test]
fn taking_the_machines_away_leaves_the_store_removed() {
    let mut store: MachineStorage<Machine> = MachineStorage::NoMachine;
    store.add(Machine::holding(3, 1));
    store.add(Machine::holding(5, 0));
    let mapped = store.take_map(|m| m.input_load() * 10);
    assert!(matches!(store, MachineStorage::Removed));
    assert!(matches!(mapped, MachineStorage::Present(ref v) if v == &vec![30, 50]));
    let again = store.take_map(|m| m.input_load());
    assert!(matches!(again, MachineStorage::Removed));
    let mut none: MachineStorage<Machine> = MachineStorage::NoMachine;
    assert!(matches!(none.take_map(|m| m), MachineStorage::NoMachine));
}

#[test]
fn a_second_machine_takes_half_of_the_load() {
    for load in [0u32, 1, 2, 7, 8, 101] {
        let mut store = MultiMachine::new(PLATE);
        store.add(Machine::holding(load, 0));
        assert_eq!(store.loads(), vec![load]);
        store.add(Machine::holding(0, 0));
        let loads = store.loads();
        assert_eq!(loads, vec![load / 2, load - load / 2]);
        assert!(loads[1] - loads[0] <= 1);
    }
}

#[test]
fn a_new_machine_takes_what_is_above_the_new_average() {
    let mut store = MultiMachine::new(PLATE);
    store.add(Machine::holding(9, 0));
    store.add(Machine::holding(0, 0));
    assert_eq!(store.loads(), vec![4, 5]);
    for _ in 0..6 {
        store.add_inputs();
    }
    // 4 -> 5, then in turn: the first of the least loaded gets each bundle.
    assert_eq!(store.loads(), vec![8, 7]);
    store.add(Machine::holding(1, 2));
    // The average is 15 / 3 = 5: the first gives 3, the second 2.
    assert_eq!(store.loads(), vec![5, 5, 6]);
    assert_eq!(store.count(), 3);
    assert!(store.is_present());
}

#[test]
fn inputs_go_to_the_least_loaded_machine() {
    let mut store = MultiMachine::new(PLATE);
    store.add(Machine::holding(2, 0));
    store.add(Machine::holding(0, 0));
    assert_eq!(store.loads(), vec![1, 1]);
    store.add_inputs();
    assert_eq!(store.loads(), vec![2, 1]);
    store.add_inputs();
    assert_eq!(store.loads(), vec![2, 2]);
    store.add_inputs();
    assert_eq!(store.loads(), vec![3, 2]);
}

#[test]
fn a_store_without_machines_buffers_until_the_first_machine() {
    let mut store = MultiMachine::new(PLATE);
    assert!(!store.is_present());
    assert_eq!(store.count(), 0);
    store.add_inputs();
    store.add_inputs();
    store.add_inputs();
    assert_eq!(store.poll(), None);
    let mut tick = Tick::start();
    assert!(matches!(store.craft_by_hand(&mut tick), ControlFlow::Break(_)));
    assert_eq!(tick.cur(), 1);
    // Two inputs and one output are buffered; the first machine gets them.
    store.add(Machine::holding(1, 0));
    assert_eq!(store.loads(), vec![3]);
    assert_eq!(store.poll(), Some(Value::Bundle(PLATE)));
    assert_eq!(store.poll(), None);
}

#[test]
fn crafting_by_hand_without_inputs_takes_no_time() {
    let mut store = MultiMachine::new(PLATE);
    let mut tick = Tick::start();
    assert!(matches!(store.craft_by_hand(&mut tick), ControlFlow::Continue(())));
    assert_eq!(tick.cur(), 0);
    assert!(!store.can_craft_automatically());
}

#[test]
fn output_is_taken_from_the_first_machine_that_has_some() {
    let mut store = MultiMachine::new(PLATE);
    store.add(Machine::holding(0, 0));
    store.add(Machine::holding(0, 0));
    store.add_inputs();
    store.add_inputs();
    store.add_inputs();
    assert_eq!(store.loads(), vec![2, 1]);
    assert_eq!(store.poll(), None);
    store.complete_cycles(MachineId(1), 1);
    store.complete_cycles(MachineId(0), 2);
    assert_eq!(store.loads(), vec![0, 0]);
    for _ in 0..3 {
        assert_eq!(store.poll(), Some(Value::Bundle(PLATE)));
    }
    assert_eq!(store.poll(), None);
    assert!(store.can_craft_automatically());
}

#[test]
fn mapping_the_machines_away_removes_the_store() {
    let mut store = MultiMachine::new(PLATE);
    store.add(Machine::holding(0, 0));
    store.add_inputs();
    let next = Bundle { resource: 9, amount: 3 };
    let mut mapped = store.take_map(next, |m| Machine::holding(0, m.input_load()));
    assert_eq!(store.count(), 0);
    assert!(!store.is_present());
    assert_eq!(store.poll(), None);
    assert_eq!(mapped.loads(), vec![0]);
    assert_eq!(mapped.poll(), Some(Value::Bundle(next)));
    assert_eq!(mapped.poll(), None);
}

#[test]
fn what_was_buffered_goes_over_to_the_mapped_store() {
    let mut store = MultiMachine::new(PLATE);
    store.add_inputs();
    store.add_inputs();
    let mut tick = Tick::start();
    let _ = store.craft_by_hand(&mut tick);
    let next = Bundle { resource: 9, amount: 3 };
    let mut mapped = store.take_map(next, |m| m);
    assert_eq!(mapped.poll(), Some(Value::Bundle(next)));
    assert_eq!(mapped.poll(), None);
    mapped.add(Machine::holding(0, 0));
    assert_eq!(mapped.loads(), vec![1]);
}

#[test]
fn a_hand_crafter_is_one_pair_of_hands() {
    let mut crafter = HandCrafter::new(PLATE);
    assert_eq!(crafter.available_parallelism(), 1);
    assert!(!crafter.can_craft_automatically());
    assert_eq!(crafter.scale_up(1), ScaleUp::Never);
    assert_eq!(crafter.poll(), None);
    crafter.add_inputs();
    crafter.add_inputs();
    let mut tick = Tick::start();
    assert!(matches!(crafter.craft_by_hand(&mut tick), ControlFlow::Break(_)));
    assert_eq!(tick.cur(), 1);
    assert_eq!(crafter.poll(), Some(Value::Bundle(PLATE)));
    assert_eq!(crafter.poll(), None);
    assert!(matches!(crafter.craft_by_hand(&mut tick), ControlFlow::Break(_)));
    assert!(matches!(crafter.craft_by_hand(&mut tick), ControlFlow::Continue(())));
    assert_eq!(tick.cur(), 2);
}
