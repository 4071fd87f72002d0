use factory_scheduler::machine::{
    AnyProducer, HandCrafter, Machine, MachineId, MultiMachine, OnceMaker, Priority, ScaleUp,
    Territory, TerritoryFullError,
};
use factory_scheduler::runtime::{GameState, ProducerId, ScaleUpOrder, TickAction, Tick, REPORT_EVERY};
use factory_scheduler::scheduler::{Poll, Request, Suspended, WakeHandle};
use factory_scheduler::value::{Bundle, Value};

const PLATE: Bundle = Bundle { resource: 2, amount: 1 };
const CYCLE: u64 = 10;

/// Carries out one request. The host's functions are: 1, which feeds the
/// producer at 0 and waits for its output; and 2, which doubles a token.
fn serve(state: &mut GameState, asked: Option<(Suspended, Request)>) {
    match asked {
        Some((t, Request::Chain { f: 1, .. })) => {
            let h = state.feed(ProducerId(0), Priority(1));
            state.chain(t, h);
        }
        Some((t, Request::Apply { f: 2, input: Value::Token(n) })) => {
            state.finish(t, Poll::Ready(Value::Token(2 * n)));
        }
        Some((t, _)) => state.finish(t, Poll::Pending),
        None => {}
    }
}

/// Runs the polls that are due.
fn drain(state: &mut GameState) {
    while let Some(asked) = state.next_request() {
        serve(state, Some(asked));
    }
}

fn one_machine() -> GameState {
    let mut state = GameState::new(Tick::start());
    let mut store = MultiMachine::new(PLATE);
    store.add(Machine::holding(0, 0));
    let id = state.add_producer(AnyProducer::Machines(store));
    assert_eq!(id, ProducerId(0));
    state
}

fn store(state: &mut GameState) -> &mut MultiMachine {
    match &mut state.producers[0].producer {
        AnyProducer::Machines(store) => store,
        _ => unreachable!(),
    }
}

/// Runs the simulation until `h` resolves, with a machine that takes
/// `CYCLE` ticks for each bundle, one after the other. Returns the tick at
/// which `h` resolved.
fn run_until(state: &mut GameState, h: WakeHandle, limit: u64) -> Option<u64> {
    let mut busy_since: Option<u64> = None;
    drain(state);
    loop {
        if state.queue.is_ready(h.id) {
            return Some(state.tick().cur());
        }
        let now = state.tick().cur();
        if now >= limit {
            return None;
        }
        // What the engine does by the next tick.
        if busy_since.is_none() && store(state).loads()[0] > 0 {
            busy_since = Some(now);
        }
        if let Some(start) = busy_since {
            if now + 1 == start + CYCLE {
                store(state).complete_cycles(MachineId(0), 1);
                busy_since = None;
            }
        }
        assert!(state.sinks_in_table());
        assert!(state.ready_to_tick());
        let (action, orders) = state.tick_fwd();
        assert!(matches!(action, TickAction::Advanced));
        assert!(orders.is_empty());
        drain(state);
    }
}

#[test]
fn three_outputs_in_a_row_take_three_cycles() {
    let mut state = one_machine();
    let first = state.feed(ProducerId(0), Priority(1));
    let (second, asked) = state.and_then(first, 1);
    assert!(asked.is_none());
    let (third, asked) = state.and_then(second, 1);
    assert!(asked.is_none());
    assert_eq!(run_until(&mut state, third, 1000), Some(3 * CYCLE));
    assert_eq!(state.queue.get(third), Some(Value::Bundle(PLATE)));
    assert!(state.queue.is_all_done());
}

#[test]
fn one_output_takes_one_cycle() {
    let mut state = one_machine();
    let first = state.feed(ProducerId(0), Priority(1));
    assert_eq!(run_until(&mut state, first, 1000), Some(CYCLE));
}

#[test]
fn a_handle_that_nothing_resolves_blocks_for_good() {
    let mut state = one_machine();
    let h = state.wait_for_producer_output(ProducerId(0), Priority(1));
    assert_eq!(run_until(&mut state, h, 200), None);
    assert!(!state.queue.is_all_done());
}

#[test]
fn a_map_runs_the_hosts_function_on_the_value() {
    let mut state = GameState::new(Tick::start());
    let source = state.nowait(Value::Token(21));
    // The value is there: the function is asked for at once.
    let (doubled, asked) = state.map(source, 2);
    assert!(matches!(asked, Some((_, Request::Apply { f: 2, input: Value::Token(21) }))));
    assert!(!state.queue.contains(source.id));
    serve(&mut state, asked);
    assert_eq!(state.queue.get(doubled), Some(Value::Token(42)));
    assert_eq!(state.queue.next_waiter_to_update(), None);
}

#[test]
fn joins_resolve_to_the_values_of_their_parts() {
    let mut state = GameState::new(Tick::start());
    let a = state.nowait(Value::Token(1));
    let b = state.nowait(Value::Token(2));
    let c = state.nowait(Value::Token(3));
    let d = state.nowait(Value::Token(4));
    let e = state.nowait(Value::Token(5));
    let both = state.pair(a, b);
    let three = state.triple(c, d, e);
    // Both joins were ready at their first poll: they are finished on return.
    assert!(state.queue.is_ready(both.id) && state.queue.is_ready(three.id));
    assert!(!state.queue.contains(a.id) && !state.queue.contains(e.id));
    assert_eq!(
        state.queue.get(both),
        Some(Value::Pair(Box::new(Value::Token(1)), Box::new(Value::Token(2))))
    );
    assert_eq!(
        state.queue.get(three),
        Some(Value::List(vec![Value::Token(3), Value::Token(4), Value::Token(5)]))
    );
}

#[test]
fn collect_joins_any_number_of_handles() {
    let mut state = GameState::new(Tick::start());
    let handles: Vec<WakeHandle> = (0..4).map(|i| state.nowait(Value::Token(i))).collect();
    let all = state.collect(handles);
    assert!(state.queue.is_ready(all.id));
    assert_eq!(
        state.queue.get(all),
        Some(Value::List(vec![
            Value::Token(0),
            Value::Token(1),
            Value::Token(2),
            Value::Token(3)
        ]))
    );
}

#[test]
fn a_join_that_is_not_ready_waits_for_its_parts() {
    let mut state = GameState::new(Tick::start());
    let a = state.nowait(Value::Token(1));
    let (b, asked) = state.wait_for(9);
    serve(&mut state, asked);
    let both = state.pair(a, b);
    assert!(!state.queue.is_ready(both.id));
    // Nothing was taken out before both are there.
    assert!(state.queue.is_ready(a.id));
    let empty = state.collect(vec![]);
    assert_eq!(state.queue.get(empty), Some(Value::List(vec![])));
}

#[test]
fn a_host_waiter_is_polled_at_once_and_then_every_tick_until_it_is_ready() {
    let mut state = GameState::new(Tick::start());
    let (h, asked) = state.wait_for(9);
    let mut polls = 0;
    let (t, req) = asked.unwrap();
    assert_eq!(req, Request::Poll { tag: 9 });
    polls += 1;
    state.finish(t, Poll::Pending);
    for _ in 0..3 {
        let _ = state.tick_fwd();
        while let Some((t, req)) = state.next_request() {
            assert_eq!(req, Request::Poll { tag: 9 });
            polls += 1;
            state.finish(t, Poll::Pending);
        }
    }
    assert_eq!(polls, 4);
    let _ = state.tick_fwd();
    let (t, _) = state.next_request().unwrap();
    state.finish(t, Poll::Ready(Value::Unit));
    assert_eq!(state.queue.get(h), Some(Value::Unit));
}

#[test]
fn a_tick_is_spent_on_one_thing() {
    let mut state = GameState::new(Tick::start());
    let hands = state.add_producer(AnyProducer::Hand(HandCrafter::new(PLATE)));
    let ore = state.add_producer(AnyProducer::Territory(Territory::new(1, 2)));
    state.with_mut_tick(5);
    state.with_mut_tick(6);

    // Nobody waits: the oldest job of the host gets the tick.
    let (action, orders) = state.tick_fwd();
    assert!(matches!(action, TickAction::Job(5, _)));
    assert!(orders.is_empty());
    assert_eq!(state.tick().cur(), 0);

    // Somebody waits for ore: it is mined by hand, before the next job.
    let mined = state.wait_for_producer_output(ore, Priority(1));
    let made = state.feed(hands, Priority(1));
    let (action, _) = state.tick_fwd();
    assert!(matches!(action, TickAction::HandCrafted(ProducerId(0))));
    assert_eq!(state.tick().cur(), 1);
    assert_eq!(state.queue.get(made), Some(Value::Bundle(PLATE)));
    assert_eq!(state.queue.get(mined), None);

    let (action, _) = state.tick_fwd();
    assert!(matches!(action, TickAction::HandCrafted(ProducerId(1))));
    assert_eq!(state.tick().cur(), 2);
    assert_eq!(state.queue.get(mined), Some(Value::Bundle(Bundle { resource: 1, amount: 1 })));

    let (action, _) = state.tick_fwd();
    assert!(matches!(action, TickAction::Job(6, _)));
    assert_eq!(state.tick().cur(), 2);

    let (action, _) = state.tick_fwd();
    assert!(matches!(action, TickAction::Advanced));
    assert_eq!(state.tick().cur(), 3);
}

#[test]
fn a_job_advances_the_clock_with_the_token_it_is_given() {
    let mut state = GameState::new(Tick::start());
    state.with_mut_tick(1);
    let (action, _) = state.tick_fwd();
    match action {
        TickAction::Job(1, token) => {
            let tick = state.tick.as_mut(token);
            tick.advance();
            tick.advance();
        }
        _ => unreachable!(),
    }
    assert_eq!(state.tick().cur(), 2);
    assert_eq!(state.tick.as_ref().cur(), 2);
    let orders = state.check_waiters();
    assert!(orders.is_empty());
}

#[test]
fn checking_the_waiters_orders_one_scale_up_per_backlog() {
    let mut state = GameState::new(Tick::start());
    let mut territory = Territory::new(1, 3);
    assert_eq!(territory.add_miner(), Ok(()));
    let ore = state.add_producer(AnyProducer::Territory(territory));
    let quiet = state.add_producer(AnyProducer::Once(OnceMaker::new()));
    for _ in 0..5 {
        state.wait_for_producer_output(ore, Priority(4));
    }
    let _ = quiet;
    let orders = state.check_waiters();
    assert_eq!(
        orders,
        vec![ScaleUpOrder { producer: ore, priority: Priority(5), plan: ScaleUp::Build }]
    );
    assert_eq!(state.producers[0].scaling_up, 1);
    // The same backlog, checked again, orders nothing more.
    assert!(state.check_waiters().is_empty());
    assert!(state.check_waiters().is_empty());
    assert_eq!(state.producers[0].scaling_up, 1);

    assert_eq!(state.add_miner(ore), Ok(()));
    state.scale_up_done(ore);
    assert_eq!(state.producers[0].scaling_up, 0);
    assert_eq!(state.add_miner(ore), Ok(()));
    assert_eq!(state.add_miner(ore), Err(TerritoryFullError { max_miners: 3 }));
}

#[test]
fn a_scale_up_can_be_started_by_hand() {
    let mut state = one_machine();
    assert_eq!(state.scale_up(ProducerId(0)), ScaleUp::Build);
    assert_eq!(state.producers[0].scaling_up, 1);
    store(&mut state).add_inputs();
    store(&mut state).add_inputs();
    store(&mut state).add_inputs();
    state.add_machine(ProducerId(0), Machine::holding(0, 0));
    state.scale_up_done(ProducerId(0));
    assert_eq!(store(&mut state).loads(), vec![1, 2]);
    assert_eq!(state.producers[0].scaling_up, 0);
}

#[test]
fn checking_the_waiters_serves_every_queue() {
    let mut state = GameState::new(Tick::start());
    let a = state.add_producer(AnyProducer::Territory(Territory::new(1, 1)));
    let b = state.add_producer(AnyProducer::Territory(Territory::new(7, 1)));
    let ha = state.wait_for_producer_output(a, Priority(1));
    let hb = state.wait_for_producer_output(b, Priority(1));
    let (user, asked) = state.and_then(hb, 3);
    assert!(asked.is_none());
    drain(&mut state);
    for id in [a, b] {
        match &mut state.producers[id.0].producer {
            AnyProducer::Territory(t) => t.deposit(1),
            _ => unreachable!(),
        }
    }
    let orders = state.check_waiters();
    assert!(orders.is_empty());
    assert_eq!(state.queue.get(ha), Some(Value::Bundle(Bundle { resource: 1, amount: 1 })));
    assert!(state.queue.is_ready(hb.id));
    // Who waited for a served request is due, before the sweep's waiters.
    assert_eq!(state.queue.next_waiter_to_update(), Some(user.id));
    assert_eq!(state.queue.next_waiter_to_update(), None);
}

#[test]
fn loads_are_reported_once_in_a_span_of_ticks() {
    assert_eq!(REPORT_EVERY, 50);
    let mut state = GameState::new(Tick::start());
    let ore = state.add_producer(AnyProducer::Territory(Territory::new(1, 1)));
    state.add_producer(AnyProducer::Once(OnceMaker::new()));
    assert_eq!(state.add_miner(ore), Ok(()));
    state.wait_for_producer_output(ore, Priority(1));
    state.wait_for_producer_output(ore, Priority(1));
    assert_eq!(state.report_loads(), None);
    for _ in 0..49 {
        let _ = state.tick_fwd();
        assert_eq!(state.report_loads(), None);
    }
    let _ = state.tick_fwd();
    assert_eq!(state.tick().cur(), 50);
    assert_eq!(state.report_loads(), Some(vec![2, 0]));
    assert_eq!(state.report_loads(), None);
    for _ in 0..49 {
        let _ = state.tick_fwd();
    }
    assert_eq!(state.report_loads(), None);
    let _ = state.tick_fwd();
    assert_eq!(state.report_loads(), Some(vec![2, 0]));
}

#[test]
fn producers_are_registered_in_order() {
    let mut state = GameState::new(Tick::start());
    assert_eq!(state.add_producer(AnyProducer::Hand(HandCrafter::new(PLATE))), ProducerId(0));
    assert_eq!(state.add_producer(AnyProducer::Once(OnceMaker::new())), ProducerId(1));
    assert_eq!(state.producers.len(), 2);
    assert!(state.producers[1].queue.is_empty());
}

#[test]
fn a_request_for_a_handle_that_is_gone_is_told() {
    let mut state = GameState::new(Tick::start());
    let ore = state.add_producer(AnyProducer::Territory(Territory::new(1, 1)));
    let h = state.wait_for_producer_output(ore, Priority(1));
    assert!(state.sinks_in_table());
    // Resolving and reading the handle behind the producer's back leaves
    // a request in its queue that nobody can answer.
    state.queue.set_output(h, Value::Unit);
    assert_eq!(state.queue.get(h), Some(Value::Unit));
    assert!(!state.sinks_in_table());
}

#[test]
fn a_tick_cannot_be_taken_when_the_count_of_constructions_is_full() {
    let mut state = GameState::new(Tick::start());
    state.add_producer(AnyProducer::Once(OnceMaker::new()));
    assert!(state.ready_to_tick());
    state.producers[0].scaling_up = u32::MAX;
    assert!(!state.ready_to_tick());
}

#[test]
fn a_store_whose_machines_were_mapped_away_cannot_be_run_by_hand() {
    let mut state = one_machine();
    let h = state.wait_for_producer_output(ProducerId(0), Priority(1));
    assert!(state.ready_to_tick());
    let _ = store(&mut state).take_map(PLATE, |m| m);
    // Somebody waits, nothing produces, and nothing can be crafted by hand.
    assert!(!state.ready_to_tick());
    assert!(state.queue.contains(h.id));
}

#[test]
fn a_construction_resolves_its_handle_when_it_is_done() {
    let mut state = GameState::new(Tick::start());
    let mut territory = Territory::new(1, 3);
    assert_eq!(territory.add_miner(), Ok(()));
    let ore = state.add_producer(AnyProducer::Territory(territory));
    for _ in 0..5 {
        state.wait_for_producer_output(ore, Priority(1));
    }
    let orders = state.check_waiters();
    assert_eq!(orders.len(), 1);
    let construction = state.begin_construction(orders[0]);
    assert!(state.queue.is_pending(construction.id));
    assert_eq!(state.producers[0].scaling_up, 1);
    // Somebody waits for the new miner.
    let (user, asked) = state.map(construction, 2);
    assert!(asked.is_none());
    // Left waiting by its first poll, it is polled by the next sweep, and
    // then waits for the construction.
    assert!(state.check_waiters().is_empty());
    drain(&mut state);
    assert!(state.queue.is_pending(user.id));
    assert!(state.check_waiters().is_empty());
    assert_eq!(state.queue.next_waiter_to_update(), None);

    assert_eq!(state.add_miner(ore), Ok(()));
    state.finish_construction(ore, construction);
    assert_eq!(state.producers[0].scaling_up, 0);
    assert!(state.queue.is_ready(construction.id));
    assert_eq!(state.queue.next_waiter_to_update(), Some(user.id));
}

#[test]
fn a_plan_with_nothing_to_build_is_done_at_once_and_one_that_cannot_grow_never() {
    let mut state = GameState::new(Tick::start());
    let once = state.add_producer(AnyProducer::Once(OnceMaker::new()));
    let hands = state.add_producer(AnyProducer::Hand(HandCrafter::new(PLATE)));
    // The first scale-up of what is made once builds it; the second finds
    // the making under way, and has nothing to build.
    assert_eq!(state.scale_up(once), ScaleUp::Build);
    assert_eq!(state.scale_up(once), ScaleUp::Ready);
    assert_eq!(state.producers[0].scaling_up, 2);
    let order = ScaleUpOrder { producer: once, priority: Priority(1), plan: ScaleUp::Ready };
    let done = state.begin_construction(order);
    assert_eq!(state.queue.get(done), Some(Value::Unit));
    assert_eq!(state.producers[0].scaling_up, 1);

    assert_eq!(state.scale_up(hands), ScaleUp::Never);
    let order = ScaleUpOrder { producer: hands, priority: Priority(1), plan: ScaleUp::Never };
    let never = state.begin_construction(order);
    for _ in 0..20 {
        let _ = state.tick_fwd();
        drain(&mut state);
    }
    assert!(state.queue.is_pending(never.id));
    assert!(!state.queue.is_all_done());
    assert_eq!(state.producers[1].scaling_up, 1);
}
