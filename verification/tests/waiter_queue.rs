use factory_scheduler::scheduler::{
    all_distinct, Poll, Request, Waiter, WaiterQueue, WakeHandle, WakeHandleId,
};
use factory_scheduler::value::{Bundle, Value};

fn run_all(q: &mut WaiterQueue) -> Vec<Request> {
    let mut asked = Vec::new();
    while let Some(id) = q.next_waiter_to_update() {
        if let Some((t, req)) = q.check_waiter(id) {
            q.finish(t, Poll::Pending);
            asked.push(req);
        }
    }
    asked
}

#[test]
fn a_resolved_handle_is_read_once() {
    let mut q = WaiterQueue::new();
    let h = q.set_already_resolved_handle(Value::Token(7));
    assert!(q.is_ready(h.id));
    assert_eq!(q.get_ref(h), Some(&Value::Token(7)));
    assert_eq!(q.get(h), Some(Value::Token(7)));
    // The handle has left the table: there is nothing to read a second time.
    assert_eq!(q.get_ref(h), None);
    assert!(!q.is_ready(h.id));
    assert!(!q.contains(h.id));
}

#[test]
fn a_read_handle_stays_gone_when_others_are_registered() {
    let mut q = WaiterQueue::new();
    let h = q.set_already_resolved_handle(Value::Unit);
    assert_eq!(q.get(h), Some(Value::Unit));
    let other = q.set_already_resolved_handle(Value::Token(1));
    assert_ne!(other.id, h.id);
    assert!(!q.contains(h.id));
    assert_eq!(q.get(other), Some(Value::Token(1)));
    assert!(!q.contains(h.id) && !q.contains(other.id));
}

#[test]
fn a_waiting_handle_has_no_value_until_its_output_is_set() {
    let mut q = WaiterQueue::new();
    let h = q.enqueue_waiter(Waiter::Resource);
    assert_eq!(q.get(h), None);
    assert!(q.contains(h.id));
    assert!(!q.is_all_done());
    q.set_output(h, Value::Unit);
    assert!(q.is_all_done());
    assert_eq!(q.get(h), Some(Value::Unit));
    assert!(q.is_all_done());
}

#[test]
fn handles_are_numbered_in_the_order_of_registration() {
    let mut q = WaiterQueue::new();
    let a = q.enqueue_waiter(Waiter::Resource);
    let b = q.set_already_resolved_handle(Value::Unit);
    let c = q.enqueue_waiter_with(|id| Waiter::ThenSecond { next: id });
    assert_eq!(a.id, WakeHandleId(0));
    assert_eq!(b.id, WakeHandleId(1));
    assert_eq!(c.id, WakeHandleId(2));
}

#[test]
fn the_sweep_takes_the_active_waiters_in_order_and_skips_the_rest() {
    let mut q = WaiterQueue::new();
    let a = q.enqueue_waiter(Waiter::Host(1));
    let _done = q.set_already_resolved_handle(Value::Unit);
    let b = q.enqueue_waiter(Waiter::Resource);
    let c = q.enqueue_waiter(Waiter::Host(2));
    // Polling the resource waiter makes it dormant.
    assert!(q.check_waiter(b.id).is_none());
    q.enqueue_waiters_for_update();
    assert_eq!(q.next_waiter_to_update(), Some(a.id));
    assert_eq!(q.next_waiter_to_update(), Some(c.id));
    assert_eq!(q.next_waiter_to_update(), None);
}

#[test]
fn reading_a_value_keeps_the_order_of_the_others() {
    let mut q = WaiterQueue::new();
    let a = q.enqueue_waiter(Waiter::Host(1));
    let gone = q.set_already_resolved_handle(Value::Unit);
    let b = q.enqueue_waiter(Waiter::Host(2));
    let c = q.enqueue_waiter(Waiter::Host(3));
    assert_eq!(q.get(gone), Some(Value::Unit));
    q.enqueue_waiters_for_update();
    assert_eq!(q.next_waiter_to_update(), Some(a.id));
    assert_eq!(q.next_waiter_to_update(), Some(b.id));
    assert_eq!(q.next_waiter_to_update(), Some(c.id));
    assert_eq!(q.next_waiter_to_update(), None);
}

#[test]
fn a_host_waiter_is_handed_to_the_host_and_settled_by_its_answer() {
    let mut q = WaiterQueue::new();
    let h = q.enqueue_waiter(Waiter::Host(42));
    let (t, req) = q.check_waiter(h.id).unwrap();
    assert_eq!(req, Request::Poll { tag: 42 });
    assert_eq!(t.id(), h.id);
    // While the host is at it, the waiter is not polled again.
    assert!(q.check_waiter(h.id).is_none());
    assert!(q.contains(h.id));
    q.finish(t, Poll::Pending);
    let (t, _) = q.check_waiter(h.id).unwrap();
    q.finish(t, Poll::Ready(Value::Token(3)));
    assert_eq!(q.get(h), Some(Value::Token(3)));
}

#[test]
fn a_done_waiter_is_never_polled_again() {
    let mut q = WaiterQueue::new();
    let h = q.enqueue_waiter(Waiter::Host(1));
    let (t, _) = q.check_waiter(h.id).unwrap();
    q.finish(t, Poll::Ready(Value::Unit));
    assert!(q.check_waiter(h.id).is_none());
    q.enqueue_waiters_for_update();
    assert_eq!(q.next_waiter_to_update(), None);
    assert_eq!(q.get(h), Some(Value::Unit));
}

#[test]
fn waiting_for_another_waiter_makes_dormant_until_that_one_is_done() {
    let mut q = WaiterQueue::new();
    let source = q.enqueue_waiter(Waiter::Resource);
    let user = q.enqueue_waiter(Waiter::ThenSecond { next: source.id });
    assert!(q.check_waiter(user.id).is_none());
    assert!(q.check_waiter(source.id).is_none());
    // Both are dormant now: the sweep takes neither.
    q.enqueue_waiters_for_update();
    assert_eq!(q.next_waiter_to_update(), None);
    // Resolving the source wakes its dependent, and only that.
    q.set_output(source, Value::Token(9));
    assert_eq!(q.next_waiter_to_update(), Some(user.id));
    assert_eq!(q.next_waiter_to_update(), None);
    assert!(q.check_waiter(user.id).is_none());
    assert_eq!(q.get(user), Some(Value::Token(9)));
    assert!(!q.contains(source.id));
}

#[test]
fn a_pending_waiter_becomes_active_again() {
    let mut q = WaiterQueue::new();
    let source = q.enqueue_waiter(Waiter::Resource);
    let h = q.enqueue_waiter(Waiter::Host(5));
    let (t, _) = q.check_waiter(h.id).unwrap();
    q.finish(t, Poll::WaitingFor(source.id));
    q.enqueue_waiters_for_update();
    assert_eq!(q.next_waiter_to_update(), Some(source.id));
    assert_eq!(q.next_waiter_to_update(), None);
    let (t, _) = q.check_waiter(h.id).unwrap();
    q.finish(t, Poll::Pending);
    q.enqueue_waiters_for_update();
    assert_eq!(q.next_waiter_to_update(), Some(source.id));
    assert_eq!(q.next_waiter_to_update(), Some(h.id));
}

#[test]
fn waiting_for_a_resource_makes_dormant() {
    let mut q = WaiterQueue::new();
    let h = q.enqueue_waiter(Waiter::Host(5));
    let (t, _) = q.check_waiter(h.id).unwrap();
    q.finish(t, Poll::WaitingForResource);
    q.enqueue_waiters_for_update();
    assert_eq!(q.next_waiter_to_update(), None);
    assert!(!q.is_all_done());
}

#[test]
fn waiting_for_a_handle_that_is_not_waiting_leaves_the_waiter_active() {
    let mut q = WaiterQueue::new();
    let h = q.enqueue_waiter(Waiter::Host(5));
    let (t, _) = q.check_waiter(h.id).unwrap();
    q.finish(t, Poll::WaitingFor(WakeHandleId(77)));
    q.enqueue_waiters_for_update();
    assert_eq!(q.next_waiter_to_update(), Some(h.id));
}

#[test]
fn a_transform_asks_the_host_once_its_source_is_done() {
    let mut q = WaiterQueue::new();
    let source = q.enqueue_waiter(Waiter::Resource);
    let h = q.enqueue_waiter(Waiter::Transform { source: source.id, f: 4 });
    assert!(q.check_waiter(h.id).is_none());
    q.set_output(source, Value::Token(1));
    assert_eq!(q.next_waiter_to_update(), Some(h.id));
    let (t, req) = q.check_waiter(h.id).unwrap();
    assert_eq!(req, Request::Apply { f: 4, input: Value::Token(1) });
    assert!(!q.contains(source.id));
    q.finish(t, Poll::Ready(Value::Token(2)));
    assert_eq!(q.get(h), Some(Value::Token(2)));
}

#[test]
fn a_chain_goes_on_with_the_handle_that_the_host_answers() {
    let mut q = WaiterQueue::new();
    let first = q.set_already_resolved_handle(Value::Token(1));
    let h = q.enqueue_waiter(Waiter::ThenFirst { source: first.id, f: 8 });
    let (t, req) = q.check_waiter(h.id).unwrap();
    assert_eq!(req, Request::Chain { f: 8, input: Value::Token(1) });
    let second = q.enqueue_waiter(Waiter::Resource);
    q.chain(t, second);
    assert_eq!(q.get(h), None);
    q.set_output(second, Value::Token(2));
    assert_eq!(q.next_waiter_to_update(), Some(h.id));
    assert!(q.check_waiter(h.id).is_none());
    assert_eq!(q.get(h), Some(Value::Token(2)));
}

#[test]
fn a_chain_to_a_finished_computation_is_finished_at_once() {
    let mut q = WaiterQueue::new();
    let first = q.set_already_resolved_handle(Value::Unit);
    let h = q.enqueue_waiter(Waiter::ThenFirst { source: first.id, f: 8 });
    let (t, _) = q.check_waiter(h.id).unwrap();
    let second = q.set_already_resolved_handle(Value::Token(5));
    q.chain(t, second);
    assert_eq!(q.get(h), Some(Value::Token(5)));
    assert!(!q.contains(second.id));
}

#[test]
fn a_pair_waits_for_the_last_unfinished_and_then_takes_both() {
    let mut q = WaiterQueue::new();
    let x = q.enqueue_waiter(Waiter::Resource);
    let y = q.enqueue_waiter(Waiter::Resource);
    let both = q.enqueue_waiter(Waiter::Pair { x: x.id, y: y.id });
    assert!(q.check_waiter(both.id).is_none());
    // It waits for `y`, the last of the two that is not finished.
    q.set_output(x, Value::Token(1));
    assert_eq!(q.next_waiter_to_update(), None);
    q.set_output(y, Value::Token(2));
    assert_eq!(q.next_waiter_to_update(), Some(both.id));
    assert!(q.check_waiter(both.id).is_none());
    assert_eq!(
        q.get(both),
        Some(Value::Pair(Box::new(Value::Token(1)), Box::new(Value::Token(2))))
    );
    assert!(!q.contains(x.id));
    assert!(!q.contains(y.id));
}

#[test]
fn a_pair_rechecks_both_before_it_is_ready() {
    let mut q = WaiterQueue::new();
    let x = q.enqueue_waiter(Waiter::Resource);
    let y = q.enqueue_waiter(Waiter::Resource);
    let both = q.enqueue_waiter(Waiter::Pair { x: x.id, y: y.id });
    assert!(q.check_waiter(both.id).is_none());
    q.set_output(y, Value::Token(2));
    assert_eq!(q.next_waiter_to_update(), Some(both.id));
    assert!(q.check_waiter(both.id).is_none());
    assert_eq!(q.get(both), None);
    // The value of `y` is still there, unread.
    assert!(q.is_ready(y.id));
    q.set_output(x, Value::Token(1));
    assert_eq!(q.next_waiter_to_update(), Some(both.id));
    assert!(q.check_waiter(both.id).is_none());
    assert!(q.is_ready(both.id));
}

#[test]
fn a_join_names_each_handle_once() {
    let x = WakeHandleId(1);
    let y = WakeHandleId(2);
    assert!(Waiter::Pair { x, y }.names_each_once());
    assert!(!Waiter::Pair { x, y: x }.names_each_once());
    assert!(Waiter::Collect { handles: vec![x, y] }.names_each_once());
    assert!(Waiter::Collect { handles: vec![] }.names_each_once());
    assert!(!Waiter::Collect { handles: vec![x, y, x] }.names_each_once());
    assert!(Waiter::Transform { source: x, f: 1 }.names_each_once());
    assert!(Waiter::Resource.names_each_once());
}

#[test]
fn a_collect_takes_all_values_in_order() {
    let mut q = WaiterQueue::new();
    let a = q.set_already_resolved_handle(Value::Token(1));
    let b = q.enqueue_waiter(Waiter::Resource);
    let c = q.set_already_resolved_handle(Value::Token(3));
    let all = q.enqueue_waiter(Waiter::Collect { handles: vec![c.id, a.id, b.id] });
    assert!(q.check_waiter(all.id).is_none());
    assert_eq!(q.get(all), None);
    q.set_output(b, Value::Token(2));
    assert_eq!(q.next_waiter_to_update(), Some(all.id));
    assert!(q.check_waiter(all.id).is_none());
    assert_eq!(
        q.get(all),
        Some(Value::List(vec![Value::Token(3), Value::Token(1), Value::Token(2)]))
    );
    assert!(!q.contains(a.id) && !q.contains(b.id) && !q.contains(c.id));
}

#[test]
fn a_collect_of_nothing_is_ready_at_once() {
    let mut q = WaiterQueue::new();
    let all = q.enqueue_waiter(Waiter::Collect { handles: vec![] });
    assert!(q.check_waiter(all.id).is_none());
    assert_eq!(q.get(all), Some(Value::List(vec![])));
}

#[test]
fn a_woken_waiter_that_names_a_finished_handle_stays_active() {
    let mut q = WaiterQueue::new();
    let source = q.enqueue_waiter(Waiter::Resource);
    let h = q.enqueue_waiter(Waiter::Host(5));
    let (t, _) = q.check_waiter(h.id).unwrap();
    q.finish(t, Poll::WaitingFor(source.id));
    // Dormant now, until the source wakes it.
    q.set_output(source, Value::Unit);
    assert_eq!(q.next_waiter_to_update(), Some(h.id));
    let (t, _) = q.check_waiter(h.id).unwrap();
    // The host names the finished handle once more: no edge is made, and
    // the waiter must be polled again.
    q.finish(t, Poll::WaitingFor(source.id));
    q.enqueue_waiters_for_update();
    assert_eq!(q.next_waiter_to_update(), Some(h.id));
}

#[test]
fn the_first_poll_is_due_when_the_sources_are_finished() {
    let mut q = WaiterQueue::new();
    let a = q.set_already_resolved_handle(Value::Unit);
    let b = q.enqueue_waiter(Waiter::Resource);
    assert!(q.first_poll_is_due(&Waiter::Host(1)));
    assert!(q.first_poll_is_due(&Waiter::Transform { source: a.id, f: 1 }));
    assert!(!q.first_poll_is_due(&Waiter::Transform { source: b.id, f: 1 }));
    assert!(q.first_poll_is_due(&Waiter::ThenSecond { next: a.id }));
    assert!(!q.first_poll_is_due(&Waiter::Pair { x: a.id, y: b.id }));
    assert!(q.first_poll_is_due(&Waiter::Collect { handles: vec![] }));
    assert!(q.first_poll_is_due(&Waiter::Collect { handles: vec![a.id] }));
    assert!(!q.first_poll_is_due(&Waiter::Collect { handles: vec![a.id, b.id] }));
    assert!(!q.first_poll_is_due(&Waiter::Resource));
}

#[test]
fn finishing_a_waiter_wakes_its_dependents_in_the_same_sweep() {
    let mut q = WaiterQueue::new();
    let leaf = q.enqueue_waiter(Waiter::Host(1));
    let mid = q.enqueue_waiter(Waiter::ThenSecond { next: leaf.id });
    let top = q.enqueue_waiter(Waiter::ThenSecond { next: mid.id });
    assert!(q.check_waiter(mid.id).is_none());
    assert!(q.check_waiter(top.id).is_none());
    q.enqueue_waiters_for_update();
    // Only the leaf is active.
    let id = q.next_waiter_to_update().unwrap();
    assert_eq!(id, leaf.id);
    let (t, _) = q.check_waiter(id).unwrap();
    q.finish(t, Poll::Ready(Value::Bundle(Bundle { resource: 2, amount: 5 })));
    // The chain resolves without another sweep.
    assert!(run_all(&mut q).is_empty());
    assert_eq!(q.get(top), Some(Value::Bundle(Bundle { resource: 2, amount: 5 })));
    assert!(q.is_all_done());
}

#[test]
fn setting_the_output_of_a_waiter_wakes_its_dependents_in_their_order() {
    let mut q = WaiterQueue::new();
    let source = q.enqueue_waiter(Waiter::Resource);
    let a = q.enqueue_waiter(Waiter::Transform { source: source.id, f: 1 });
    let b = q.enqueue_waiter(Waiter::ThenFirst { source: source.id, f: 2 });
    assert!(q.check_waiter(b.id).is_none());
    assert!(q.check_waiter(a.id).is_none());
    q.set_output(source, Value::Unit);
    assert_eq!(q.next_waiter_to_update(), Some(b.id));
    assert_eq!(q.next_waiter_to_update(), Some(a.id));
    assert_eq!(q.next_waiter_to_update(), None);
}

#[test]
fn all_distinct_tells_repeated_handles() {
    assert!(all_distinct(&vec![]));
    assert!(all_distinct(&vec![WakeHandleId(1), WakeHandleId(2), WakeHandleId(3)]));
    assert!(!all_distinct(&vec![WakeHandleId(1), WakeHandleId(2), WakeHandleId(1)]));
}

#[test]
fn checking_a_handle_that_is_not_in_the_table_does_nothing() {
    let mut q = WaiterQueue::new();
    assert!(q.check_waiter(WakeHandleId(3)).is_none());
    assert!(q.is_all_done());
    assert!(!q.contains(WakeHandleId(3)));
    assert_eq!(q.get_ref(WakeHandle { id: WakeHandleId(3) }), None);
}

#[test]
fn a_run_goes_on_until_the_host_is_asked() {
    let mut q = WaiterQueue::new();
    let a = q.enqueue_waiter(Waiter::Resource);
    let b = q.enqueue_waiter(Waiter::Host(3));
    let c = q.enqueue_waiter(Waiter::Host(4));
    q.enqueue_waiters_for_update();
    let (t, req) = q.next_request().unwrap();
    assert_eq!((t.id(), req), (b.id, Request::Poll { tag: 3 }));
    q.finish(t, Poll::Pending);
    let (t, req) = q.next_request().unwrap();
    assert_eq!((t.id(), req), (c.id, Request::Poll { tag: 4 }));
    q.finish(t, Poll::Ready(Value::Unit));
    assert!(q.next_request().is_none());
    assert_eq!(q.next_waiter_to_update(), None);
    // The resource waiter was polled on the way, and is dormant now.
    q.enqueue_waiters_for_update();
    assert_eq!(q.next_waiter_to_update(), Some(b.id));
    assert_eq!(q.next_waiter_to_update(), None);
    assert!(q.contains(a.id));
}

#[test]
fn a_run_follows_the_wake_ups_to_the_end() {
    let mut q = WaiterQueue::new();
    let leaf = q.enqueue_waiter(Waiter::Resource);
    let mut top = leaf;
    for _ in 0..50 {
        top = q.enqueue_waiter(Waiter::ThenSecond { next: top.id });
    }
    q.enqueue_waiters_for_update();
    assert!(q.next_request().is_none());
    q.set_output(leaf, Value::Token(8));
    assert!(q.next_request().is_none());
    assert_eq!(q.get(top), Some(Value::Token(8)));
    assert!(q.is_all_done());
}

#[test]
fn a_run_with_nothing_due_asks_nothing() {
    let mut q = WaiterQueue::new();
    let h = q.enqueue_waiter(Waiter::Host(1));
    assert!(q.next_request().is_none());
    assert!(q.contains(h.id));
    assert!(q.can_register());
}

#[test]
fn a_handle_is_pending_until_it_is_resolved() {
    let mut q = WaiterQueue::new();
    let h = q.enqueue_waiter(Waiter::Host(1));
    assert!(q.is_pending(h.id));
    let (t, _) = q.check_waiter(h.id).unwrap();
    // Taken out for the host, it can still be resolved.
    assert!(q.is_pending(h.id));
    q.finish(t, Poll::Ready(Value::Unit));
    assert!(!q.is_pending(h.id));
    assert!(q.is_ready(h.id));
    assert!(!q.is_pending(WakeHandleId(9)));
}

#[test]
fn a_resource_waiter_is_told_from_the_others() {
    let mut q = WaiterQueue::new();
    let a = q.enqueue_waiter(Waiter::Resource);
    let b = q.enqueue_waiter(Waiter::Host(1));
    assert!(q.is_awaiting_resource(a.id));
    assert!(!q.is_awaiting_resource(b.id));
    assert!(q.next_request().is_none());
    // Polled and dormant, it still waits for its resource.
    assert!(q.is_awaiting_resource(a.id));
    q.set_output(a, Value::Unit);
    assert!(!q.is_awaiting_resource(a.id));
    assert!(!q.is_awaiting_resource(WakeHandleId(9)));
}
