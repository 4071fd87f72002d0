//! Handles, poll results and the waiter table.

use indexmap::IndexMap;
use std::collections::hash_map::RandomState;
use std::collections::VecDeque;
use vstd::prelude::*;

use crate::machine::{same_output, slot, Priority, Producer, ScaleUp};
use crate::runtime::{GameState, ProducerId, ScaleUpOrder};
use crate::table::{
    entries, has_key, table_get, table_get_index, table_insert, table_len, table_new,
    table_shift_remove,
};
use crate::value::Value;

verus! {

/// Identifies one scheduled computation.
#[derive(Debug, Clone, Copy, PartialEq, Eq, Hash, Structural)]
pub struct WakeHandleId(pub u32);

/// The right to read the result of one scheduled computation.
#[derive(Debug, Clone, Copy, PartialEq, Eq, Structural)]
pub struct WakeHandle {
    /// The computation that the handle refers to.
    pub id: WakeHandleId,
}

/// The outcome of polling a waiter once.
#[derive(Debug, PartialEq, Eq)]
pub enum Poll<T> {
    /// Not ready, for a reason that is not given. Poll again next tick.
    Pending,
    /// Not ready until the named computation is done. Do not poll before.
    WaitingFor(WakeHandleId),
    /// Not ready until a producer hands over a resource. The producer
    /// resolves the handle itself; do not poll.
    WaitingForResource,
    /// Done, with this result.
    Ready(T),
}

/// A suspended computation, as data.
#[derive(Debug, PartialEq, Eq)]
pub enum Waiter {
    /// A computation of the host's, which the host polls; the number tells
    /// the host which one.
    Host(u32),
    /// Waits for `source`, then hands its value to the host's function `f`
    /// and resolves to what that returns.
    Transform { source: WakeHandleId, f: u32 },
    /// Waits for `source`, then hands its value to the host's function `f`,
    /// which starts a second computation; goes on as `ThenSecond`.
    ThenFirst { source: WakeHandleId, f: u32 },
    /// Waits for `next` and resolves to its value.
    ThenSecond { next: WakeHandleId },
    /// Waits for both and resolves to the pair of their values.
    Pair { x: WakeHandleId, y: WakeHandleId },
    /// Waits for all and resolves to the list of their values, in order.
    Collect { handles: Vec<WakeHandleId> },
    /// Waits for a producer to hand over its output.
    Resource,
}

/// What the table records of one computation.
#[derive(Debug)]
pub enum WaiterState {
    /// Not finished.
    Waiting {
        /// The computation.
        waiter: Waiter,
        /// The waiters to wake when this one is done.
        dependent: Vec<WakeHandleId>,
        /// Whether the waiter is excluded from the per-tick sweep, because
        /// it waits on another waiter or on a producer.
        dormant: bool,
    },
    /// Finished with this value, which has not been read yet.
    Done(Value),
    /// Taken out of the table while it is being polled.
    BeingChecked,
}

impl Waiter {
    /// Whether the waiter names each handle once at most. A value is read
    /// once, so a join that named a handle twice could never be finished.
    pub open spec fn names_once(&self) -> bool {
        match self {
            Waiter::Pair { x, y } => x != y,
            Waiter::Collect { handles } => handles@.no_duplicates(),
            _ => true,
        }
    }

    /// Whether the waiter names each handle once at most.
    pub fn names_each_once(&self) -> (r: bool)
        ensures
            r == self.names_once(),
    {
        match self {
            Waiter::Pair { x, y } => x.0 != y.0,
            Waiter::Collect { handles } => all_distinct(handles),
            _ => true,
        }
    }
}

impl WaiterState {
    /// Whether the sweep polls a waiter in this state.
    pub open spec fn is_active(&self) -> bool {
        self is Waiting && !self->dormant
    }

    /// Whether the waiter in this state, if it holds one, names each handle
    /// once at most.
    pub open spec fn names_once(&self) -> bool {
        self is Waiting ==> self->waiter.names_once()
    }
}

/// Whether every waiter among `entries` names each handle once at most.
pub open spec fn all_name_once(entries: Seq<(u32, WaiterState)>) -> bool {
    forall|i: int| 0 <= i < entries.len() ==> (#[trigger] entries[i]).1.names_once()
}

/// Whether no key occurs twice among `entries`.
pub open spec fn distinct_keys(entries: Seq<(u32, WaiterState)>) -> bool {
    forall|i: int, j: int|
        0 <= i < entries.len() && 0 <= j < entries.len() && i != j ==> (#[trigger] entries[i]).0
            != (#[trigger] entries[j]).0
}

/// Whether the keys of `entries` grow strictly from each entry to the next.
pub open spec fn increasing_keys(entries: Seq<(u32, WaiterState)>) -> bool {
    forall|i: int, j: int|
        0 <= i < j < entries.len() ==> (#[trigger] entries[i]).0 < (#[trigger] entries[j]).0
}

/// The position of `key` among `entries`, where it has one.
pub open spec fn index_of(entries: Seq<(u32, WaiterState)>, key: u32) -> int {
    choose|i: int| 0 <= i < entries.len() && (#[trigger] entries[i]).0 == key
}

/// The state stored under `key` among `entries`, if the key is present.
pub open spec fn lookup(entries: Seq<(u32, WaiterState)>, key: u32) -> Option<WaiterState> {
    if has_key(entries, key) {
        Some(entries[index_of(entries, key)].1)
    } else {
        None
    }
}

/// The keys of `entries`, in order.
pub open spec fn keys_of(entries: Seq<(u32, WaiterState)>) -> Seq<u32> {
    Seq::new(entries.len(), |i: int| entries[i].0)
}

/// Keys that grow strictly are distinct.
proof fn lemma_increasing_distinct(entries: Seq<(u32, WaiterState)>)
    requires
        increasing_keys(entries),
    ensures
        distinct_keys(entries),
{
    assert forall|i: int, j: int|
        0 <= i < entries.len() && 0 <= j < entries.len() && i != j implies (#[trigger] entries[i]).0
        != (#[trigger] entries[j]).0 by {
        if i < j {
            assert(entries[i].0 < entries[j].0);
        } else {
            assert(entries[j].0 < entries[i].0);
        }
    }
}

/// Among distinct keys, a key is found where it stands.
proof fn lemma_lookup_at(entries: Seq<(u32, WaiterState)>, i: int)
    requires
        distinct_keys(entries),
        0 <= i < entries.len(),
    ensures
        has_key(entries, entries[i].0),
        index_of(entries, entries[i].0) == i,
        lookup(entries, entries[i].0) == Some(entries[i].1),
{
    assert(entries[i].0 == entries[i].0);
    let j = index_of(entries, entries[i].0);
    assert(0 <= j < entries.len() && entries[j].0 == entries[i].0);
}

/// Appending a new key changes the lookup of that key only.
proof fn lemma_lookup_push(entries: Seq<(u32, WaiterState)>, key: u32, state: WaiterState)
    requires
        distinct_keys(entries),
        !has_key(entries, key),
    ensures
        distinct_keys(entries.push((key, state))),
        keys_of(entries.push((key, state))) == keys_of(entries).push(key),
        forall|k: u32|
            #[trigger] lookup(entries.push((key, state)), k) == if k == key {
                Some(state)
            } else {
                lookup(entries, k)
            },
{
    let e2 = entries.push((key, state));
    assert forall|i: int, j: int| 0 <= i < e2.len() && 0 <= j < e2.len() && i != j implies (
    #[trigger] e2[i]).0 != (#[trigger] e2[j]).0 by {
        if i < entries.len() {
            assert(entries[i].0 == e2[i].0);
        }
        if j < entries.len() {
            assert(entries[j].0 == e2[j].0);
        }
    }
    assert(keys_of(e2) =~= keys_of(entries).push(key));
    assert forall|k: u32| #[trigger] lookup(e2, k) == if k == key {
        Some(state)
    } else {
        lookup(entries, k)
    } by {
        if k == key {
            lemma_lookup_at(e2, entries.len() as int);
        } else if has_key(entries, k) {
            let i = index_of(entries, k);
            assert(e2[i] == entries[i]);
            lemma_lookup_at(e2, i);
        } else if has_key(e2, k) {
            let i = index_of(e2, k);
            assert(i < entries.len());
            assert(entries[i].0 == k);
        }
    }
}

/// Replacing the state at a key's position changes the lookup of that key
/// only, and no key moves.
proof fn lemma_lookup_update(
    entries: Seq<(u32, WaiterState)>,
    i: int,
    state: WaiterState,
)
    requires
        distinct_keys(entries),
        0 <= i < entries.len(),
    ensures
        distinct_keys(entries.update(i, (entries[i].0, state))),
        keys_of(entries.update(i, (entries[i].0, state))) == keys_of(entries),
        forall|k: u32|
            #[trigger] lookup(entries.update(i, (entries[i].0, state)), k) == if k == entries[i].0 {
                Some(state)
            } else {
                lookup(entries, k)
            },
{
    let key = entries[i].0;
    let e2 = entries.update(i, (key, state));
    assert forall|a: int, b: int| 0 <= a < e2.len() && 0 <= b < e2.len() && a != b implies (
    #[trigger] e2[a]).0 != (#[trigger] e2[b]).0 by {
        assert(entries[a].0 == e2[a].0);
        assert(entries[b].0 == e2[b].0);
    }
    assert(keys_of(e2) =~= keys_of(entries));
    assert forall|k: u32| #[trigger] lookup(e2, k) == if k == key {
        Some(state)
    } else {
        lookup(entries, k)
    } by {
        if k == key {
            lemma_lookup_at(e2, i);
        } else if has_key(entries, k) {
            let j = index_of(entries, k);
            assert(e2[j] == entries[j]);
            lemma_lookup_at(e2, j);
        } else if has_key(e2, k) {
            let j = index_of(e2, k);
            assert(entries[j].0 == k);
        }
    }
}

/// Removing the pair at a key's position removes that key from the lookup
/// and leaves the other keys in their order.
proof fn lemma_lookup_remove(entries: Seq<(u32, WaiterState)>, i: int)
    requires
        distinct_keys(entries),
        0 <= i < entries.len(),
    ensures
        distinct_keys(entries.remove(i)),
        keys_of(entries.remove(i)) == keys_of(entries).remove(i),
        forall|k: u32|
            #[trigger] lookup(entries.remove(i), k) == if k == entries[i].0 {
                None
            } else {
                lookup(entries, k)
            },
{
    let key = entries[i].0;
    let e2 = entries.remove(i);
    assert forall|a: int| 0 <= a < e2.len() implies #[trigger] e2[a] == entries[if a < i {
        a
    } else {
        a + 1
    }] by {}
    assert forall|a: int, b: int| 0 <= a < e2.len() && 0 <= b < e2.len() && a != b implies (
    #[trigger] e2[a]).0 != (#[trigger] e2[b]).0 by {
        let a1 = if a < i { a } else { a + 1 };
        let b1 = if b < i { b } else { b + 1 };
        assert(e2[a] == entries[a1]);
        assert(e2[b] == entries[b1]);
    }
    assert(keys_of(e2) =~= keys_of(entries).remove(i));
    assert forall|k: u32| #[trigger] lookup(e2, k) == if k == key {
        None
    } else {
        lookup(entries, k)
    } by {
        if has_key(e2, k) {
            let j = index_of(e2, k);
            let j1 = if j < i { j } else { j + 1 };
            assert(e2[j] == entries[j1]);
            assert(entries[j1].0 == k);
            lemma_lookup_at(entries, j1);
            lemma_lookup_at(e2, j);
        } else if k != key && has_key(entries, k) {
            let j = index_of(entries, k);
            let j2 = if j < i { j } else { j - 1 };
            assert(e2[j2] == entries[j]);
            assert(e2[j2].0 == k);
        }
    }
}

/// One for a state that is waiting, none for any other.
pub open spec fn one_if_waiting(state: WaiterState) -> nat {
    if state is Waiting {
        1
    } else {
        0
    }
}

/// How many of `entries` are waiting.
pub open spec fn waiting_count(entries: Seq<(u32, WaiterState)>) -> nat
    decreases entries.len(),
{
    if entries.len() == 0 {
        0
    } else {
        waiting_count(entries.drop_last()) + one_if_waiting(entries.last().1)
    }
}

/// A new state for one entry changes the count of the waiting by what the
/// two states count.
proof fn lemma_waiting_update(entries: Seq<(u32, WaiterState)>, i: int, e: (u32, WaiterState))
    requires
        0 <= i < entries.len(),
    ensures
        waiting_count(entries.update(i, e)) + one_if_waiting(entries[i].1) == waiting_count(entries)
            + one_if_waiting(e.1),
    decreases entries.len(),
{
    let n = entries.len() - 1;
    if i == n {
        assert(entries.update(i, e).drop_last() =~= entries.drop_last());
    } else {
        lemma_waiting_update(entries.drop_last(), i, e);
        assert(entries.update(i, e).drop_last() =~= entries.drop_last().update(i, e));
    }
}

/// An entry that leaves takes what it counts off the count of the waiting.
proof fn lemma_waiting_remove(entries: Seq<(u32, WaiterState)>, i: int)
    requires
        0 <= i < entries.len(),
    ensures
        waiting_count(entries.remove(i)) + one_if_waiting(entries[i].1) == waiting_count(entries),
    decreases entries.len(),
{
    let n = entries.len() - 1;
    if i == n {
        assert(entries.remove(i) =~= entries.drop_last());
    } else {
        lemma_waiting_remove(entries.drop_last(), i);
        assert(entries.remove(i).drop_last() =~= entries.drop_last().remove(i));
        assert(entries.remove(i).last() == entries.last());
    }
}

/// The keys of the first `n` of `entries` whose waiter is active, in order.
pub open spec fn active_keys(entries: Seq<(u32, WaiterState)>, n: int) -> Seq<WakeHandleId>
    decreases n,
{
    if n <= 0 || n > entries.len() {
        Seq::empty()
    } else if entries[n - 1].1.is_active() {
        active_keys(entries, n - 1).push(WakeHandleId(entries[n - 1].0))
    } else {
        active_keys(entries, n - 1)
    }
}

/// Whether `state` is that of the waiter `waiter` just after registration:
/// active, with nobody depending on it yet.
pub open spec fn registered(state: WaiterState, waiter: Waiter) -> bool {
    state is Waiting && state->waiter == waiter && state->dependent@.len() == 0 && !state->dormant
}

/// Reading the value stored under `key`: a finished entry gives up its value
/// and leaves the table; anything else is left as it is.
pub open spec fn take_spec(entries: Seq<(u32, WaiterState)>, key: u32) -> (
    Option<Value>,
    Seq<(u32, WaiterState)>,
) {
    match lookup(entries, key) {
        Some(WaiterState::Done(v)) => (Some(v), entries.remove(index_of(entries, key))),
        _ => (None, entries),
    }
}

/// The waiters that a change of `state` to finished wakes.
pub open spec fn woken_by(state: Option<WaiterState>) -> Seq<WakeHandleId> {
    match state {
        Some(WaiterState::Waiting { dependent, .. }) => dependent@,
        _ => Seq::empty(),
    }
}

/// A waiter that was taken out of the table for a poll which the host
/// carries out. Whoever holds it hands it back with the poll's outcome.
#[derive(Debug)]
pub struct Suspended {
    handle: WakeHandleId,
    waiter: Waiter,
    dependent: Vec<WakeHandleId>,
    dormant: bool,
}

impl Suspended {
    /// The waiter that is suspended.
    pub closed spec fn handle(&self) -> WakeHandleId {
        self.handle
    }

    /// The state in which the waiter was when it was taken out.
    pub closed spec fn taken(&self) -> WaiterState {
        WaiterState::Waiting {
            waiter: self.waiter,
            dependent: self.dependent,
            dormant: self.dormant,
        }
    }

    /// The waiter that is suspended.
    pub fn id(&self) -> (id: WakeHandleId)
        ensures
            id == self.handle(),
    {
        self.handle
    }
}

/// What the host is asked to do for a suspended waiter.
#[derive(Debug, PartialEq, Eq)]
pub enum Request {
    /// Poll the host's computation `tag`, and answer with the outcome.
    Poll { tag: u32 },
    /// Apply the host's function `f` to `input`, and answer with the result.
    Apply { f: u32, input: Value },
    /// Apply the host's function `f` to `input`, which starts a computation,
    /// and answer with the handle of that computation.
    Chain { f: u32, input: Value },
}

/// The state in which a waiter that was taken out in the state `taken` goes
/// back into the table after a poll with the outcome `poll`. `edge` says
/// whether the poll made it a dependent of the waiter it names: if so it
/// goes dormant until that one wakes it, and if not it stays active, so
/// that it is polled again.
pub open spec fn settled(taken: WaiterState, poll: Poll<Value>, edge: bool) -> WaiterState
    recommends
        taken is Waiting,
{
    match poll {
        Poll::Ready(v) => WaiterState::Done(v),
        Poll::Pending => WaiterState::Waiting {
            waiter: taken->waiter,
            dependent: taken->dependent,
            dormant: false,
        },
        Poll::WaitingFor(_) => WaiterState::Waiting {
            waiter: taken->waiter,
            dependent: taken->dependent,
            dormant: edge,
        },
        Poll::WaitingForResource => WaiterState::Waiting {
            waiter: taken->waiter,
            dependent: taken->dependent,
            dormant: true,
        },
    }
}

/// The state `taken` of a waiter, with its second stage, which waits for
/// `next`, in the place of the computation.
pub open spec fn second_stage(taken: WaiterState, next: WakeHandleId) -> WaiterState
    recommends
        taken is Waiting,
{
    WaiterState::Waiting {
        waiter: Waiter::ThenSecond { next },
        dependent: taken->dependent,
        dormant: taken->dormant,
    }
}

/// Whether `after` is `before` with `h` as one more dependent, last in line.
pub open spec fn gained_dependent(before: WaiterState, after: WaiterState, h: WakeHandleId) -> bool {
    &&& before is Waiting
    &&& after is Waiting
    &&& after->waiter == before->waiter
    &&& after->dormant == before->dormant
    &&& after->dependent@ == before->dependent@.push(h)
}

/// Whether `v` is the list of `items`.
pub open spec fn is_list_of(v: Value, items: Seq<Value>) -> bool {
    v matches Value::List(l) && l@ == items
}

/// Whether no handle occurs twice among `handles`.
pub fn all_distinct(handles: &Vec<WakeHandleId>) -> (r: bool)
    ensures
        r == handles@.no_duplicates(),
{
    let n = handles.len();
    let mut i: usize = 0;
    while i < n
        invariant
            n == handles.len(),
            i <= n,
            forall|a: int, b: int| 0 <= a < i && a < b < n ==> handles@[a] != handles@[b],
        decreases n - i,
    {
        let mut j: usize = i + 1;
        while j < n
            invariant
                n == handles.len(),
                i < n,
                i < j <= n,
                forall|a: int, b: int| 0 <= a < i && a < b < n ==> handles@[a] != handles@[b],
                forall|b: int| i < b < j ==> handles@[i as int] != handles@[b],
            decreases n - j,
        {
            if handles[i] == handles[j] {
                return false;
            }
            j += 1;
        }
        i += 1;
    }
    assert forall|a: int, b: int|
        0 <= a < handles@.len() && 0 <= b < handles@.len() && a != b implies handles@[a]
        != handles@[b] by {
        if a < b {
        } else {
            assert(handles@[b] != handles@[a]);
        }
    }
    true
}

/// The table of scheduled computations, with the queue of those that are due
/// for a poll.
pub struct WaiterQueue {
    next_handle: WakeHandleId,
    waiters: IndexMap<u32, WaiterState, RandomState>,
    needs_update: VecDeque<WakeHandleId>,
}

impl WaiterQueue {
    /// The table's entries, each an identifier with its state, in the order
    /// in which the computations were registered.
    pub closed spec fn entries(&self) -> Seq<(u32, WaiterState)> {
        entries(&self.waiters)
    }

    /// The waiters that are due for a poll, first due first.
    pub closed spec fn updates(&self) -> Seq<WakeHandleId> {
        self.needs_update@
    }

    /// The identifier that the next registration gets.
    pub closed spec fn next_id(&self) -> u32 {
        self.next_handle.0
    }

    /// The entries stand in the order of their identifiers, which is the
    /// order of registration, every registered identifier has been handed
    /// out, and no waiter names a handle twice.
    pub open spec fn wf(&self) -> bool {
        &&& increasing_keys(self.entries())
        &&& all_name_once(self.entries())
        &&& forall|i: int|
            0 <= i < self.entries().len() ==> (#[trigger] self.entries()[i]).0 < self.next_id()
    }

    /// How many computations in the table are waiting: neither finished nor
    /// taken out.
    pub closed spec fn waiting(&self) -> nat {
        waiting_count(entries(&self.waiters))
    }

    /// The registered identifiers, in the order of registration.
    pub open spec fn keys(&self) -> Seq<u32> {
        keys_of(self.entries())
    }

    /// The state recorded for `id`, if `id` is in the table.
    pub open spec fn state(&self, id: WakeHandleId) -> Option<WaiterState> {
        lookup(self.entries(), id.0)
    }

    /// Whether `id` is finished and its value has not been read.
    pub open spec fn is_done(&self, id: WakeHandleId) -> bool {
        self.state(id) matches Some(s) && s is Done
    }

    /// Whether `id` is in the table and not finished: whether it can still
    /// be resolved.
    pub open spec fn pending(&self, id: WakeHandleId) -> bool {
        self.state(id) matches Some(s) && !(s is Done)
    }

    /// Whether `id` waits for a producer to hand over its output.
    pub open spec fn awaits_resource(&self, id: WakeHandleId) -> bool {
        self.state(id) matches Some(s) && s is Waiting && s->waiter is Resource
    }

    /// The value that `id` is finished with, where it is finished.
    pub open spec fn value_of(&self, id: WakeHandleId) -> Value
        recommends
            self.is_done(id),
    {
        self.state(id)->0->0
    }

    /// The values that `handles` are finished with, in order.
    pub open spec fn values_of(&self, handles: Seq<WakeHandleId>) -> Seq<Value> {
        Seq::new(handles.len(), |i: int| self.value_of(handles[i]))
    }

    /// The last of `handles` that is not finished, if there is one.
    pub open spec fn last_unready(&self, handles: Seq<WakeHandleId>) -> Option<WakeHandleId>
        decreases handles.len(),
    {
        if handles.len() == 0 {
            None
        } else if !self.is_done(handles.last()) {
            Some(handles.last())
        } else {
            self.last_unready(handles.drop_last())
        }
    }

    /// The waiter of which a poll outcome `poll` of the waiter `handle`
    /// makes `handle` a dependent: the one that the outcome names, if it is
    /// another waiter and still waiting.
    pub open spec fn edge_to(&self, handle: WakeHandleId, poll: Poll<Value>) -> Option<
        WakeHandleId,
    > {
        match poll {
            Poll::WaitingFor(t) => if t != handle && (self.state(t) matches Some(s)
                && s is Waiting) {
                Some(t)
            } else {
                None
            },
            _ => None,
        }
    }

    /// Whether `after` is this table once the waiter `handle`, taken out in
    /// the state `taken`, has been put back after a poll with the outcome
    /// `poll`, for which it read, and so removed, the entries `consumed`.
    ///
    /// A finished waiter wakes its dependents. A waiter that waits for
    /// another becomes that one's dependent and goes dormant. A waiter that
    /// waits for a resource goes dormant. A pending waiter becomes active.
    pub open spec fn settles_to(
        &self,
        after: &WaiterQueue,
        handle: WakeHandleId,
        taken: WaiterState,
        poll: Poll<Value>,
        consumed: Set<WakeHandleId>,
    ) -> bool {
        let edge = self.edge_to(handle, poll);
        &&& after.next_id() == self.next_id()
        &&& after.updates() == self.updates() + (if poll is Ready {
            taken->dependent@
        } else {
            Seq::empty()
        })
        &&& after.state(handle) == Some(settled(taken, poll, edge is Some))
        &&& forall|k: WakeHandleId|
            k != handle && consumed.contains(k) ==> #[trigger] after.state(k) is None
        &&& edge matches Some(t) ==> (after.state(t) matches Some(s2) && gained_dependent(
            self.state(t)->0,
            s2,
            handle,
        ))
        &&& forall|k: WakeHandleId|
            k != handle && !consumed.contains(k) && edge != Some(k) ==> #[trigger] after.state(k)
                == self.state(k)
    }

    /// Whether `after` is this table once the waiter `handle` has been taken
    /// out for a poll by the host, for which the entry `consumed` was read,
    /// and `r` holds the waiter and the `request` to the host.
    pub open spec fn asks(
        &self,
        after: &WaiterQueue,
        handle: WakeHandleId,
        consumed: Option<WakeHandleId>,
        r: Option<(Suspended, Request)>,
        request: Request,
    ) -> bool {
        &&& r matches Some((t, q)) && q == request && t.handle() == handle && Some(t.taken())
            == self.state(handle)
        &&& after.next_id() == self.next_id()
        &&& after.updates() == self.updates()
        &&& after.state(handle) == Some(WaiterState::BeingChecked)
        &&& consumed matches Some(c) ==> after.state(c) is None
        &&& forall|k: WakeHandleId|
            k != handle && consumed != Some(k) ==> #[trigger] after.state(k) == self.state(k)
    }

    /// Whether `after` and `r` are what polling the waiter `handle` once
    /// makes of this table.
    ///
    /// Only a waiting entry is polled. A waiter of the host's, and one whose
    /// source has finished and whose next step is a function of the host's,
    /// is taken out and handed to the host with a request. Every other
    /// waiter is polled on the spot and put back: it is finished if what it
    /// waits for is finished, and else waits for the last unfinished
    /// computation among those it names.
    pub open spec fn polled(
        &self,
        after: &WaiterQueue,
        handle: WakeHandleId,
        r: Option<(Suspended, Request)>,
    ) -> bool {
        match self.state(handle) {
            Some(WaiterState::Waiting { waiter, dependent, dormant }) => {
                let taken = self.state(handle)->0;
                let none = Set::<WakeHandleId>::empty();
                match waiter {
                    Waiter::Host(tag) => self.asks(after, handle, None, r, Request::Poll { tag }),
                    Waiter::Transform { source, f } => if self.is_done(source) {
                        self.asks(
                            after,
                            handle,
                            Some(source),
                            r,
                            Request::Apply { f, input: self.value_of(source) },
                        )
                    } else {
                        r is None && self.settles_to(
                            after,
                            handle,
                            taken,
                            Poll::WaitingFor(source),
                            none,
                        )
                    },
                    Waiter::ThenFirst { source, f } => if self.is_done(source) {
                        self.asks(
                            after,
                            handle,
                            Some(source),
                            r,
                            Request::Chain { f, input: self.value_of(source) },
                        )
                    } else {
                        r is None && self.settles_to(
                            after,
                            handle,
                            taken,
                            Poll::WaitingFor(source),
                            none,
                        )
                    },
                    Waiter::ThenSecond { next } => r is None && if self.is_done(next) {
                        self.settles_to(
                            after,
                            handle,
                            taken,
                            Poll::Ready(self.value_of(next)),
                            set![next],
                        )
                    } else {
                        self.settles_to(after, handle, taken, Poll::WaitingFor(next), none)
                    },
                    Waiter::Pair { x, y } => r is None && match self.last_unready(seq![x, y]) {
                        Some(u) => self.settles_to(after, handle, taken, Poll::WaitingFor(u), none),
                        None => self.settles_to(
                            after,
                            handle,
                            taken,
                            Poll::Ready(
                                Value::Pair(Box::new(self.value_of(x)), Box::new(self.value_of(y))),
                            ),
                            set![x, y],
                        ),
                    },
                    Waiter::Collect { handles } => r is None && match self.last_unready(handles@) {
                        Some(u) => self.settles_to(after, handle, taken, Poll::WaitingFor(u), none),
                        None => after.state(handle) matches Some(WaiterState::Done(v))
                            && is_list_of(v, self.values_of(handles@)) && self.settles_to(
                            after,
                            handle,
                            taken,
                            Poll::Ready(v),
                            handles@.to_set(),
                        ),
                    },
                    Waiter::Resource => r is None && self.settles_to(
                        after,
                        handle,
                        taken,
                        Poll::WaitingForResource,
                        none,
                    ),
                }
            },
            _ => r is None && after.entries() == self.entries() && after.updates() == self.updates()
                && after.next_id() == self.next_id(),
        }
    }

    /// Whether `after` and `r` are what it makes of this table to take the
    /// waiter that is due first and poll it once.
    pub open spec fn steps_to(&self, after: &WaiterQueue, r: Option<(Suspended, Request)>) -> bool {
        &&& self.updates().len() > 0
        &&& exists|taken: WaiterQueue| #[trigger]
            taken.polled(after, self.updates()[0], r) && taken.wf() && taken.entries()
                == self.entries() && taken.next_id() == self.next_id() && taken.updates()
                == self.updates().skip(1)
    }

    /// Whether the tables `steps` lead from this table to `after` and `r`,
    /// each by polling the waiter that is due first: through polls that ask
    /// nothing of the host, either up to one that does, or until no waiter is
    /// due any more.
    pub open spec fn runs_to(
        &self,
        after: &WaiterQueue,
        r: Option<(Suspended, Request)>,
        steps: Seq<WaiterQueue>,
    ) -> bool {
        &&& steps.len() > 0
        &&& steps[0] == *self
        &&& forall|i: int|
            0 <= i < steps.len() - 1 ==> (#[trigger] steps[i]).steps_to(&steps[i + 1], None)
        &&& match r {
            None => steps.last().updates().len() == 0 && after.entries() == steps.last().entries()
                && after.updates() == steps.last().updates() && after.next_id()
                == steps.last().next_id(),
            Some(_) => steps.last().steps_to(after, r),
        }
    }

    /// Whether the first poll of the waiter `w` comes to something at once:
    /// whether it is the host's, or what the waiter waits for is finished.
    pub open spec fn polls_at_once(&self, w: Waiter) -> bool {
        match w {
            Waiter::Host(_) => true,
            Waiter::Transform { source, .. } => self.is_done(source),
            Waiter::ThenFirst { source, .. } => self.is_done(source),
            Waiter::ThenSecond { next } => self.is_done(next),
            Waiter::Pair { x, y } => self.is_done(x) && self.is_done(y),
            Waiter::Collect { handles } => self.last_unready(handles@) is None,
            Waiter::Resource => false,
        }
    }

    /// An empty table.
    pub fn new() -> (q: Self)
        ensures
            q.wf(),
            q.entries().len() == 0,
            q.updates().len() == 0,
            q.next_id() == 0,
    {
        WaiterQueue {
            next_handle: WakeHandleId(0),
            waiters: table_new(),
            needs_update: VecDeque::new(),
        }
    }

    /// Whether every computation in the table is finished.
    pub fn is_all_done(&self) -> (r: bool)
        ensures
            r == forall|i: int|
                0 <= i < self.entries().len() ==> (#[trigger] self.entries()[i]).1 is Done,
    {
        let n = table_len(&self.waiters);
        let mut i: usize = 0;
        while i < n
            invariant
                n == self.entries().len(),
                i <= n,
                forall|j: int| 0 <= j < i ==> (#[trigger] self.entries()[j]).1 is Done,
            decreases n - i,
        {
            match table_get_index(&self.waiters, i) {
                Some((_, WaiterState::Done(_))) => {},
                _ => {
                    return false;
                },
            }
            i += 1;
        }
        true
    }

    fn next_handle_id(&mut self) -> (h: WakeHandleId)
        requires
            old(self).next_id() < u32::MAX,
        ensures
            h.0 == old(self).next_id(),
            final(self).next_id() == old(self).next_id() + 1,
            final(self).entries() == old(self).entries(),
            final(self).updates() == old(self).updates(),
    {
        let h = self.next_handle;
        self.next_handle = WakeHandleId(h.0 + 1);
        h
    }

    /// Registers `w` and returns a handle to wait for it.
    pub fn enqueue_waiter(&mut self, w: Waiter) -> (h: WakeHandle)
        requires
            old(self).wf(),
            old(self).next_id() < u32::MAX,
            w.names_once(),
        ensures
            final(self).wf(),
            h.id.0 == old(self).next_id(),
            final(self).next_id() == old(self).next_id() + 1,
            final(self).updates() == old(self).updates(),
            final(self).keys() == old(self).keys().push(h.id.0),
            old(self).state(h.id) is None,
            final(self).state(h.id) matches Some(s) && registered(s, w),
            forall|k: WakeHandleId| k != h.id ==> #[trigger] final(self).state(k)
                == old(self).state(k),
    {
        let id = self.next_handle_id();
        self.insert_new(
            id,
            WaiterState::Waiting { waiter: w, dependent: Vec::new(), dormant: false },
        );
        WakeHandle { id }
    }

    /// Registers the waiter that `f` builds from the identifier it is going
    /// to have, and returns a handle to wait for it.
    pub fn enqueue_waiter_with<F: FnOnce(WakeHandleId) -> Waiter>(&mut self, f: F) -> (h: WakeHandle)
        requires
            old(self).wf(),
            old(self).next_id() < u32::MAX,
            f.requires((WakeHandleId(old(self).next_id()),)),
            forall|w: Waiter|
                f.ensures((WakeHandleId(old(self).next_id()),), w) ==> #[trigger] w.names_once(),
        ensures
            final(self).wf(),
            h.id.0 == old(self).next_id(),
            final(self).next_id() == old(self).next_id() + 1,
            final(self).updates() == old(self).updates(),
            final(self).keys() == old(self).keys().push(h.id.0),
            old(self).state(h.id) is None,
            final(self).state(h.id) matches Some(s) && s is Waiting && f.ensures(
                (h.id,),
                s->waiter,
            ) && registered(s, s->waiter),
            forall|k: WakeHandleId| k != h.id ==> #[trigger] final(self).state(k)
                == old(self).state(k),
    {
        let id = self.next_handle_id();
        let w = f(id);
        self.insert_new(
            id,
            WaiterState::Waiting { waiter: w, dependent: Vec::new(), dormant: false },
        );
        WakeHandle { id }
    }

    /// Registers a computation that is already finished with the value `x`.
    pub fn set_already_resolved_handle(&mut self, x: Value) -> (h: WakeHandle)
        requires
            old(self).wf(),
            old(self).next_id() < u32::MAX,
        ensures
            final(self).wf(),
            h.id.0 == old(self).next_id(),
            final(self).next_id() == old(self).next_id() + 1,
            final(self).updates() == old(self).updates(),
            final(self).keys() == old(self).keys().push(h.id.0),
            old(self).state(h.id) is None,
            final(self).state(h.id) == Some(WaiterState::Done(x)),
            forall|k: WakeHandleId| k != h.id ==> #[trigger] final(self).state(k)
                == old(self).state(k),
    {
        let id = self.next_handle_id();
        self.insert_new(id, WaiterState::Done(x));
        WakeHandle { id }
    }

    /// Appends the entry for an identifier that was just handed out.
    fn insert_new(&mut self, id: WakeHandleId, state: WaiterState)
        requires
            increasing_keys(old(self).entries()),
            all_name_once(old(self).entries()),
            state.names_once(),
            id.0 + 1 == old(self).next_id(),
            forall|i: int|
                0 <= i < old(self).entries().len() ==> (#[trigger] old(self).entries()[i]).0 < id.0,
        ensures
            final(self).wf(),
            final(self).next_id() == old(self).next_id(),
            final(self).updates() == old(self).updates(),
            final(self).entries() == old(self).entries().push((id.0, state)),
            final(self).keys() == old(self).keys().push(id.0),
            old(self).state(id) is None,
            final(self).state(id) == Some(state),
            forall|k: WakeHandleId| k != id ==> #[trigger] final(self).state(k)
                == old(self).state(k),
    {
        proof {
            lemma_increasing_distinct(self.entries());
            lemma_lookup_push(self.entries(), id.0, state);
        }
        let prev = table_insert(&mut self.waiters, id.0, state);
        assert(prev is None);
        assert forall|i: int| 0 <= i < self.entries().len() implies (
        #[trigger] self.entries()[i]).1.names_once() by {
            if i < old(self).entries().len() {
                assert(self.entries()[i] == old(self).entries()[i]);
            }
        }
        assert forall|i: int, j: int| 0 <= i < j < self.entries().len() implies (
        #[trigger] self.entries()[i]).0 < (#[trigger] self.entries()[j]).0 by {
            assert(self.entries()[i] == old(self).entries()[i]);
            if j < old(self).entries().len() {
                assert(self.entries()[j] == old(self).entries()[j]);
            }
        }
        assert forall|k: WakeHandleId| k != id implies #[trigger] self.state(k) == old(self).state(
            k,
        ) by {
            assert(lookup(self.entries(), k.0) == lookup(old(self).entries(), k.0));
        }
    }

    /// Sets the output of the waiter behind `h`, whose own code will no
    /// longer run. The waiters that depend on it become due for a poll. A
    /// handle is resolved once: `h` must not be finished already.
    pub fn set_output(&mut self, h: WakeHandle, x: Value)
        requires
            old(self).wf(),
            old(self).pending(h.id),
        ensures
            final(self).wf(),
            final(self).next_id() == old(self).next_id(),
            final(self).keys() == old(self).keys(),
            final(self).state(h.id) == Some(WaiterState::Done(x)),
            forall|k: WakeHandleId| k != h.id ==> #[trigger] final(self).state(k)
                == old(self).state(k),
            final(self).updates() == old(self).updates() + woken_by(old(self).state(h.id)),
    {
        let prev = self.replace(h.id, WaiterState::Done(x));
        match prev {
            WaiterState::Waiting { dependent, .. } => {
                let ghost before = *self;
                self.wake(&dependent);
                assert forall|k: WakeHandleId| k != h.id implies #[trigger] self.state(k)
                    == old(self).state(k) by {
                    assert(before.state(k) == old(self).state(k));
                }
            },
            _ => {
                assert(self.updates() =~= old(self).updates() + woken_by(old(self).state(h.id)));
            },
        }
    }

    /// Puts `state` in the place of the state recorded for `id` and returns
    /// the state that was there.
    fn replace(&mut self, id: WakeHandleId, state: WaiterState) -> (prev: WaiterState)
        requires
            old(self).wf(),
            old(self).state(id) is Some,
            state.names_once(),
        ensures
            final(self).wf(),
            prev.names_once(),
            final(self).next_id() == old(self).next_id(),
            final(self).updates() == old(self).updates(),
            final(self).keys() == old(self).keys(),
            old(self).state(id) == Some(prev),
            final(self).state(id) == Some(state),
            forall|k: WakeHandleId| k != id ==> #[trigger] final(self).state(k)
                == old(self).state(k),
            final(self).entries() == old(self).entries().update(
                index_of(old(self).entries(), id.0),
                (id.0, state),
            ),
            final(self).waiting() + one_if_waiting(prev) == old(self).waiting() + one_if_waiting(
                state,
            ),
    {
        let ghost i0 = index_of(self.entries(), id.0);
        proof {
            lemma_increasing_distinct(self.entries());
            lemma_lookup_update(self.entries(), i0, state);
            lemma_lookup_at(self.entries(), i0);
            lemma_waiting_update(self.entries(), i0, (id.0, state));
        }
        let prev = table_insert(&mut self.waiters, id.0, state);
        match prev {
            Some(p) => {
                proof {
                    let i = choose|i: int|
                        0 <= i < old(self).entries().len() && #[trigger] old(self).entries()[i] == (
                            id.0,
                            p,
                        ) && self.entries() == old(self).entries().update(i, (id.0, state));
                    lemma_lookup_at(old(self).entries(), i);
                    assert(i == i0);
                    assert forall|k: WakeHandleId| k != id implies #[trigger] self.state(k)
                        == old(self).state(k) by {
                        assert(lookup(self.entries(), k.0) == lookup(old(self).entries(), k.0));
                    }
                    assert forall|j: int| 0 <= j < self.entries().len() implies (
                    #[trigger] self.entries()[j]).0 < self.next_id() by {
                        assert(self.entries()[j].0 == old(self).entries()[j].0);
                    }
                    assert forall|a: int, b: int| 0 <= a < b < self.entries().len() implies (
                    #[trigger] self.entries()[a]).0 < (#[trigger] self.entries()[b]).0 by {
                        assert(self.entries()[a].0 == old(self).entries()[a].0);
                        assert(self.entries()[b].0 == old(self).entries()[b].0);
                    }
                    assert(old(self).entries()[i0].1.names_once());
                    assert forall|a: int| 0 <= a < self.entries().len() implies (
                    #[trigger] self.entries()[a]).1.names_once() by {
                        if a != i0 {
                            assert(self.entries()[a] == old(self).entries()[a]);
                        }
                    }
                }
                p
            },
            None => {
                proof {
                    assert(false);
                }
                WaiterState::BeingChecked
            },
        }
    }

    /// Makes the waiters in `woken` due for a poll, in their order.
    fn wake(&mut self, woken: &Vec<WakeHandleId>)
        ensures
            final(self).entries() == old(self).entries(),
            final(self).next_id() == old(self).next_id(),
            final(self).updates() == old(self).updates() + woken@,
            final(self).waiting() == old(self).waiting(),
    {
        let mut i: usize = 0;
        while i < woken.len()
            invariant
                i <= woken.len(),
                self.entries() == old(self).entries(),
                self.next_id() == old(self).next_id(),
                self.waiting() == old(self).waiting(),
                self.updates() == old(self).updates() + woken@.subrange(0, i as int),
            decreases woken.len() - i,
        {
            self.needs_update.push_back(woken[i]);
            i += 1;
            assert(self.updates() =~= old(self).updates() + woken@.subrange(0, i as int));
        }
        assert(woken@.subrange(0, i as int) =~= woken@);
    }

    /// Reads the value of the computation behind `h`, if it is finished.
    /// This moves the value out, and the handle leaves the table: a value
    /// is read once, so `h` must be in the table still, and not taken out
    /// for a poll.
    pub fn get(&mut self, h: WakeHandle) -> (r: Option<Value>)
        requires
            old(self).wf(),
            old(self).state(h.id) matches Some(s) && !(s is BeingChecked),
        ensures
            final(self).wf(),
            final(self).next_id() == old(self).next_id(),
            final(self).updates() == old(self).updates(),
            (r, final(self).entries()) == take_spec(old(self).entries(), h.id.0),
            r is Some <==> old(self).is_done(h.id),
            r matches Some(v) ==> old(self).state(h.id) == Some(WaiterState::Done(v)),
            r is Some ==> final(self).state(h.id) is None,
            forall|k: WakeHandleId| k != h.id ==> #[trigger] final(self).state(k)
                == old(self).state(k),
            final(self).waiting() == old(self).waiting(),
    {
        self.take(h)
    }

    /// Takes the value of the computation behind `h` out of the table, if
    /// `h` is there and finished; else the table stays as it is.
    fn take(&mut self, h: WakeHandle) -> (r: Option<Value>)
        requires
            old(self).wf(),
        ensures
            final(self).wf(),
            final(self).next_id() == old(self).next_id(),
            final(self).updates() == old(self).updates(),
            (r, final(self).entries()) == take_spec(old(self).entries(), h.id.0),
            r is Some <==> old(self).is_done(h.id),
            r matches Some(v) ==> old(self).state(h.id) == Some(WaiterState::Done(v)),
            r is Some ==> final(self).state(h.id) is None,
            forall|k: WakeHandleId| k != h.id ==> #[trigger] final(self).state(k)
                == old(self).state(k),
            final(self).waiting() == old(self).waiting(),
    {
        let found = table_get(&self.waiters, h.id.0);
        let ready = match found {
            Some(WaiterState::Done(_)) => true,
            _ => false,
        };
        proof {
            lemma_increasing_distinct(self.entries());
            if let Some(v) = found {
                let i = choose|i: int|
                    0 <= i < self.entries().len() && #[trigger] self.entries()[i] == (h.id.0, *v);
                lemma_lookup_at(self.entries(), i);
            }
        }
        if ready {
            let ghost i0 = index_of(self.entries(), h.id.0);
            proof {
                lemma_lookup_remove(self.entries(), i0);
                lemma_lookup_at(self.entries(), i0);
                lemma_waiting_remove(self.entries(), i0);
            }
            let removed = table_shift_remove(&mut self.waiters, h.id.0);
            proof {
                if removed is Some {
                    let p = removed->0;
                    let i = choose|i: int|
                        0 <= i < old(self).entries().len() && #[trigger] old(self).entries()[i] == (
                            h.id.0,
                            p,
                        ) && self.entries() == old(self).entries().remove(i);
                    lemma_lookup_at(old(self).entries(), i);
                    assert(i == i0);
                    assert forall|j: int| 0 <= j < self.entries().len() implies (
                    #[trigger] self.entries()[j]).0 < self.next_id() by {
                        let j1 = if j < i0 { j } else { j + 1 };
                        assert(self.entries()[j] == old(self).entries()[j1]);
                    }
                    assert forall|a: int, b: int| 0 <= a < b < self.entries().len() implies (
                    #[trigger] self.entries()[a]).0 < (#[trigger] self.entries()[b]).0 by {
                        let a1 = if a < i0 { a } else { a + 1 };
                        let b1 = if b < i0 { b } else { b + 1 };
                        assert(self.entries()[a] == old(self).entries()[a1]);
                        assert(self.entries()[b] == old(self).entries()[b1]);
                    }
                    assert forall|a: int| 0 <= a < self.entries().len() implies (
                    #[trigger] self.entries()[a]).1.names_once() by {
                        let a1 = if a < i0 { a } else { a + 1 };
                        assert(self.entries()[a] == old(self).entries()[a1]);
                    }
                    assert forall|k: WakeHandleId| k != h.id implies #[trigger] self.state(k)
                        == old(self).state(k) by {
                        assert(lookup(self.entries(), k.0) == lookup(old(self).entries(), k.0));
                    }
                    assert(lookup(self.entries(), h.id.0) is None);
                }
            }
            match removed {
                Some(WaiterState::Done(v)) => Some(v),
                _ => {
                    proof {
                        assert(false);
                    }
                    None
                },
            }
        } else {
            None
        }
    }

    /// Looks at the value of the computation behind `h`, if it is finished,
    /// without moving it out.
    pub fn get_ref(&self, h: WakeHandle) -> (r: Option<&Value>)
        requires
            self.wf(),
        ensures
            match r {
                Some(v) => self.state(h.id) == Some(WaiterState::Done(*v)),
                None => !self.is_done(h.id),
            },
    {
        let found = table_get(&self.waiters, h.id.0);
        proof {
            lemma_increasing_distinct(self.entries());
            if let Some(v) = found {
                let i = choose|i: int|
                    0 <= i < self.entries().len() && #[trigger] self.entries()[i] == (h.id.0, *v);
                lemma_lookup_at(self.entries(), i);
            }
        }
        match found {
            Some(WaiterState::Done(x)) => Some(x),
            _ => None,
        }
    }

    /// Whether the computation `id` is finished and its value still unread.
    pub fn is_ready(&self, id: WakeHandleId) -> (r: bool)
        requires
            self.wf(),
        ensures
            r == self.is_done(id),
    {
        self.get_ref(WakeHandle { id }).is_some()
    }

    /// Makes every active waiter due for a poll, in the order of
    /// registration. Take them one by one with `next_waiter_to_update`.
    pub fn enqueue_waiters_for_update(&mut self)
        ensures
            final(self).entries() == old(self).entries(),
            final(self).next_id() == old(self).next_id(),
            final(self).updates() == old(self).updates() + active_keys(
                old(self).entries(),
                old(self).entries().len() as int,
            ),
    {
        let n = table_len(&self.waiters);
        let mut i: usize = 0;
        assert(self.updates() =~= old(self).updates() + active_keys(old(self).entries(), 0));
        while i < n
            invariant
                n == self.entries().len(),
                i <= n,
                self.entries() == old(self).entries(),
                self.next_id() == old(self).next_id(),
                self.updates() == old(self).updates() + active_keys(old(self).entries(), i as int),
            decreases n - i,
        {
            let mut due: Option<WakeHandleId> = None;
            match table_get_index(&self.waiters, i) {
                Some((k, WaiterState::Waiting { dormant, .. })) => {
                    if !*dormant {
                        due = Some(WakeHandleId(k));
                    }
                },
                _ => {},
            }
            if let Some(h) = due {
                self.needs_update.push_back(h);
            }
            i += 1;
            assert(self.updates() =~= old(self).updates() + active_keys(
                old(self).entries(),
                i as int,
            ));
        }
    }

    /// Takes the next waiter that is due for a poll.
    pub fn next_waiter_to_update(&mut self) -> (r: Option<WakeHandleId>)
        ensures
            final(self).entries() == old(self).entries(),
            final(self).next_id() == old(self).next_id(),
            match r {
                Some(h) => old(self).updates().len() > 0 && h == old(self).updates()[0]
                    && final(self).updates() == old(self).updates().subrange(
                    1,
                    old(self).updates().len() as int,
                ),
                None => old(self).updates().len() == 0 && final(self).updates()
                    == old(self).updates(),
            },
    {
        self.needs_update.pop_front()
    }

    /// Whether `id` is in the table and not finished nor taken out.
    fn is_waiting(&self, id: WakeHandleId) -> (r: bool)
        requires
            self.wf(),
        ensures
            r == (self.state(id) matches Some(s) && s is Waiting),
    {
        let found = table_get(&self.waiters, id.0);
        proof {
            lemma_increasing_distinct(self.entries());
            if let Some(v) = found {
                let i = choose|i: int|
                    0 <= i < self.entries().len() && #[trigger] self.entries()[i] == (id.0, *v);
                lemma_lookup_at(self.entries(), i);
            }
        }
        match found {
            Some(WaiterState::Waiting { .. }) => true,
            _ => false,
        }
    }

    /// Puts a waiter that was taken out back into the table, according to
    /// the outcome `poll` of its poll.
    pub fn finish(&mut self, t: Suspended, poll: Poll<Value>)
        requires
            old(self).wf(),
            old(self).pending(t.handle()),
            t.taken().names_once(),
        ensures
            final(self).wf(),
            old(self).settles_to(final(self), t.handle(), t.taken(), poll, Set::empty()),
            final(self).waiting() + one_if_waiting(old(self).state(t.handle())->0) == old(
                self,
            ).waiting() + if poll is Ready {
                0nat
            } else {
                1nat
            },
            forall|k: WakeHandleId|
                k != t.handle() && old(self).awaits_resource(k)
                    ==> #[trigger] final(self).awaits_resource(k),
    {
        let Suspended { handle, waiter, dependent, dormant } = t;
        match poll {
            Poll::Ready(v) => {
                let ghost before = *self;
                self.wake(&dependent);
                proof {
                    assert forall|k: WakeHandleId| #[trigger] self.state(k) == before.state(k) by {}
                }
                let _ = self.replace(handle, WaiterState::Done(v));
            },
            Poll::Pending => {
                let _ = self.replace(
                    handle,
                    WaiterState::Waiting { waiter, dependent, dormant: false },
                );
                assert(self.updates() =~= old(self).updates() + Seq::<WakeHandleId>::empty());
            },
            Poll::WaitingFor(target) => {
                let edge = target != handle && self.is_waiting(target);
                if edge {
                    let prev = self.replace(target, WaiterState::BeingChecked);
                    let next = match prev {
                        WaiterState::Waiting { waiter: w, dependent: mut d, dormant: z } => {
                            d.push(handle);
                            WaiterState::Waiting { waiter: w, dependent: d, dormant: z }
                        },
                        other => other,
                    };
                    let ghost mid = *self;
                    let _ = self.replace(target, next);
                    let ghost mid2 = *self;
                    let _ = self.replace(
                        handle,
                        WaiterState::Waiting { waiter, dependent, dormant: true },
                    );
                    proof {
                        assert forall|k: WakeHandleId|
                            k != handle && k != target implies #[trigger] self.state(k)
                                == old(self).state(k) by {
                            assert(mid2.state(k) == mid.state(k));
                            assert(mid.state(k) == old(self).state(k));
                        }
                        assert(self.state(target) == mid2.state(target));
                    }
                } else {
                    let _ = self.replace(
                        handle,
                        WaiterState::Waiting { waiter, dependent, dormant: false },
                    );
                }
                assert(self.updates() =~= old(self).updates() + Seq::<WakeHandleId>::empty());
            },
            Poll::WaitingForResource => {
                let _ = self.replace(
                    handle,
                    WaiterState::Waiting { waiter, dependent, dormant: true },
                );
                assert(self.updates() =~= old(self).updates() + Seq::<WakeHandleId>::empty());
            },
        }
    }

    /// Polls a join of two: it waits for the last of the two that is not
    /// finished, and takes both values once both are there.
    fn poll_pair(&mut self, x: WakeHandleId, y: WakeHandleId) -> (poll: Poll<Value>)
        requires
            old(self).wf(),
            x != y,
        ensures
            final(self).wf(),
            final(self).next_id() == old(self).next_id(),
            final(self).updates() == old(self).updates(),
            final(self).waiting() == old(self).waiting(),
            match old(self).last_unready(seq![x, y]) {
                Some(u) => poll == Poll::<Value>::WaitingFor(u) && final(self).entries()
                    == old(self).entries(),
                None => {
                    &&& poll == Poll::Ready(
                        Value::Pair(
                            Box::new(old(self).value_of(x)),
                            Box::new(old(self).value_of(y)),
                        ),
                    )
                    &&& final(self).state(x) is None
                    &&& final(self).state(y) is None
                    &&& forall|k: WakeHandleId|
                        k != x && k != y ==> #[trigger] final(self).state(k) == old(self).state(k)
                },
            },
    {
        proof {
            reveal_with_fuel(WaiterQueue::last_unready, 3);
            assert(seq![x, y].last() == y);
            assert(seq![x, y].drop_last() =~= seq![x]);
            assert(seq![x].last() == x);
            assert(seq![x].drop_last() =~= Seq::<WakeHandleId>::empty());
        }
        if !self.is_ready(y) {
            Poll::WaitingFor(y)
        } else if !self.is_ready(x) {
            Poll::WaitingFor(x)
        } else {
            let vx = self.take(WakeHandle { id: x });
            let ghost mid = *self;
            let vy = self.take(WakeHandle { id: y });
            proof {
                assert forall|k: WakeHandleId| k != x && k != y implies #[trigger] self.state(k)
                    == old(self).state(k) by {
                    assert(mid.state(k) == old(self).state(k));
                }
                assert(self.state(x) == mid.state(x));
            }
            match (vx, vy) {
                (Some(a), Some(b)) => Poll::Ready(Value::Pair(Box::new(a), Box::new(b))),
                _ => Poll::Pending,
            }
        }
    }

    /// Polls a join of many: it waits for the last of them that is not
    /// finished, and takes all values, in order, once all are there.
    fn poll_collect(&mut self, handles: &Vec<WakeHandleId>) -> (poll: Poll<Value>)
        requires
            old(self).wf(),
            handles@.no_duplicates(),
        ensures
            final(self).wf(),
            final(self).next_id() == old(self).next_id(),
            final(self).updates() == old(self).updates(),
            final(self).waiting() == old(self).waiting(),
            match old(self).last_unready(handles@) {
                Some(u) => poll == Poll::<Value>::WaitingFor(u) && final(self).entries()
                    == old(self).entries(),
                None => {
                    &&& poll matches Poll::Ready(v) && is_list_of(v, old(self).values_of(handles@))
                    &&& forall|k: WakeHandleId|
                        handles@.contains(k) ==> #[trigger] final(self).state(k) is None
                    &&& forall|k: WakeHandleId|
                        !handles@.contains(k) ==> #[trigger] final(self).state(k)
                            == old(self).state(k)
                },
            },
    {
        let n = handles.len();
        let mut last: Option<WakeHandleId> = None;
        let mut i: usize = 0;
        while i < n
            invariant
                n == handles.len(),
                i <= n,
                self.wf(),
                *self == *old(self),
                last == self.last_unready(handles@.subrange(0, i as int)),
            decreases n - i,
        {
            proof {
                let s1 = handles@.subrange(0, i as int + 1);
                assert(s1.last() == handles@[i as int]);
                assert(s1.drop_last() =~= handles@.subrange(0, i as int));
            }
            if !self.is_ready(handles[i]) {
                last = Some(handles[i]);
            }
            i += 1;
        }
        assert(handles@.subrange(0, n as int) =~= handles@);
        if let Some(u) = last {
            return Poll::WaitingFor(u);
        }
        proof {
            self.lemma_all_ready(handles@);
        }
        let mut out: Vec<Value> = Vec::new();
        let mut j: usize = 0;
        while j < n
            invariant
                n == handles.len(),
                j <= n,
                handles@.no_duplicates(),
                self.wf(),
                self.next_id() == old(self).next_id(),
                self.updates() == old(self).updates(),
                self.waiting() == old(self).waiting(),
                forall|a: int| 0 <= a < n ==> old(self).is_done(#[trigger] handles@[a]),
                out@ == old(self).values_of(handles@.subrange(0, j as int)),
                forall|k: WakeHandleId|
                    handles@.subrange(0, j as int).contains(k) ==> #[trigger] self.state(k) is None,
                forall|k: WakeHandleId|
                    !handles@.subrange(0, j as int).contains(k) ==> #[trigger] self.state(k)
                        == old(self).state(k),
            decreases n - j,
        {
            let h = handles[j];
            let ghost before = *self;
            proof {
                let done = handles@.subrange(0, j as int);
                if done.contains(h) {
                    let a = choose|a: int| 0 <= a < done.len() && done[a] == h;
                    assert(handles@[a] == handles@[j as int]);
                }
                assert(self.state(h) == old(self).state(h));
            }
            let v = self.take(WakeHandle { id: h });
            proof {
                let done = handles@.subrange(0, j as int);
                let done1 = handles@.subrange(0, j as int + 1);
                assert(done1 =~= done.push(h));
                assert forall|k: WakeHandleId| done1.contains(k) implies #[trigger] self.state(
                    k,
                ) is None by {
                    if k != h {
                        let a = choose|a: int| 0 <= a < done1.len() && done1[a] == k;
                        assert(done[a] == k);
                        assert(before.state(k) is None);
                    }
                }
                assert forall|k: WakeHandleId| !done1.contains(k) implies #[trigger] self.state(k)
                    == old(self).state(k) by {
                    assert(done1[j as int] == h);
                    assert(k != h);
                    if done.contains(k) {
                        let a = choose|a: int| 0 <= a < done.len() && done[a] == k;
                        assert(done1[a] == k);
                    }
                    assert(before.state(k) == old(self).state(k));
                }
            }
            match v {
                Some(x) => {
                    out.push(x);
                },
                None => {
                    proof {
                        assert(false);
                    }
                },
            }
            j += 1;
            assert(out@ =~= old(self).values_of(handles@.subrange(0, j as int)));
        }
        assert(handles@.subrange(0, n as int) =~= handles@);
        Poll::Ready(Value::List(out))
    }

    /// Where none of `handles` is the last unfinished one, all are finished.
    proof fn lemma_all_ready(&self, handles: Seq<WakeHandleId>)
        requires
            self.last_unready(handles) is None,
        ensures
            forall|a: int| 0 <= a < handles.len() ==> self.is_done(#[trigger] handles[a]),
        decreases handles.len(),
    {
        if handles.len() > 0 {
            self.lemma_all_ready(handles.drop_last());
            assert forall|a: int| 0 <= a < handles.len() implies self.is_done(
                #[trigger] handles[a],
            ) by {
                if a < handles.len() - 1 {
                    assert(handles.drop_last()[a] == handles[a]);
                }
            }
        }
    }

    /// Polls the waiter `handle` once, if it is waiting. A poll that only
    /// the host can carry out is handed back as a request, with the waiter
    /// taken out of the table until the host calls `finish` or `chain`.
    #[verifier::rlimit(80)]
    pub fn check_waiter(&mut self, handle: WakeHandleId) -> (r: Option<(Suspended, Request)>)
        requires
            old(self).wf(),
        ensures
            final(self).wf(),
            old(self).polled(final(self), handle, r),
            final(self).waiting() <= old(self).waiting(),
            r is Some || final(self).updates() != old(self).updates() ==> final(self).waiting()
                < old(self).waiting(),
            forall|k: WakeHandleId|
                old(self).awaits_resource(k) ==> #[trigger] final(self).awaits_resource(k),
            r matches Some((t, _)) ==> t.taken().names_once(),
    {
        if !self.is_waiting(handle) {
            return None;
        }
        let taken = self.replace(handle, WaiterState::BeingChecked);
        let ghost mid = *self;
        proof {
            assert forall|k: WakeHandleId| k != handle implies (#[trigger] mid.is_done(k))
                == old(self).is_done(k) by {
                assert(mid.state(k) == old(self).state(k));
            }
            assert(!mid.is_done(handle) && !old(self).is_done(handle));
            assert forall|k: WakeHandleId| mid.is_done(k) implies #[trigger] mid.value_of(k)
                == old(self).value_of(k) by {
                assert(mid.state(k) == old(self).state(k));
            }
        }
        match taken {
            WaiterState::Waiting { waiter, dependent, dormant } => {
                match waiter {
                    Waiter::Host(tag) => {
                        let t = Suspended { handle, waiter: Waiter::Host(tag), dependent, dormant };
                        Some((t, Request::Poll { tag }))
                    },
                    Waiter::Transform { source, f } => {
                        let t = Suspended {
                            handle,
                            waiter: Waiter::Transform { source, f },
                            dependent,
                            dormant,
                        };
                        match self.take(WakeHandle { id: source }) {
                            Some(input) => {
                                proof {
                                    assert forall|k: WakeHandleId|
                                        k != handle && k != source implies #[trigger] self.state(k)
                                        == old(self).state(k) by {
                                        assert(mid.state(k) == old(self).state(k));
                                    }
                                }
                                Some((t, Request::Apply { f, input }))
                            },
                            None => {
                                self.finish(t, Poll::WaitingFor(source));
                                proof {
                                    old(self).lemma_settles_after_take(
                                        &mid,
                                        self,
                                        handle,
                                        taken,
                                        Poll::WaitingFor(source),
                                    );
                                }
                                None
                            },
                        }
                    },
                    Waiter::ThenFirst { source, f } => {
                        let t = Suspended {
                            handle,
                            waiter: Waiter::ThenFirst { source, f },
                            dependent,
                            dormant,
                        };
                        match self.take(WakeHandle { id: source }) {
                            Some(input) => {
                                proof {
                                    assert forall|k: WakeHandleId|
                                        k != handle && k != source implies #[trigger] self.state(k)
                                        == old(self).state(k) by {
                                        assert(mid.state(k) == old(self).state(k));
                                    }
                                }
                                Some((t, Request::Chain { f, input }))
                            },
                            None => {
                                self.finish(t, Poll::WaitingFor(source));
                                proof {
                                    old(self).lemma_settles_after_take(
                                        &mid,
                                        self,
                                        handle,
                                        taken,
                                        Poll::WaitingFor(source),
                                    );
                                }
                                None
                            },
                        }
                    },
                    Waiter::ThenSecond { next } => {
                        let t = Suspended {
                            handle,
                            waiter: Waiter::ThenSecond { next },
                            dependent,
                            dormant,
                        };
                        self.resume_second(t, next, Ghost(*old(self)), Ghost(taken));
                        None
                    },
                    Waiter::Pair { x, y } => {
                        proof {
                            reveal_with_fuel(WaiterQueue::last_unready, 3);
                            assert(seq![x, y].last() == y);
                            assert(seq![x, y].drop_last() =~= seq![x]);
                            assert(seq![x].last() == x);
                            assert(seq![x].drop_last() =~= Seq::<WakeHandleId>::empty());
                        }
                        let poll = self.poll_pair(x, y);
                        let ghost mid2 = *self;
                        let t = Suspended { handle, waiter: Waiter::Pair { x, y }, dependent, dormant };
                        self.finish(t, poll);
                        proof {
                            if old(self).last_unready(seq![x, y]) is None {
                                old(self).lemma_settles_after_read(
                                    &mid,
                                    &mid2,
                                    self,
                                    handle,
                                    taken,
                                    poll,
                                    set![x, y],
                                );
                            } else {
                                old(self).lemma_settles_after_take(&mid, self, handle, taken, poll);
                            }
                        }
                        None
                    },
                    Waiter::Collect { handles } => {
                        proof {
                            old(self).lemma_last_unready_same(&mid, handles@);
                            if mid.last_unready(handles@) is None {
                                mid.lemma_all_ready(handles@);
                                assert(mid.values_of(handles@) =~= old(self).values_of(handles@));
                            }
                        }
                        let poll = self.poll_collect(&handles);
                        let ghost mid2 = *self;
                        let t = Suspended {
                            handle,
                            waiter: Waiter::Collect { handles },
                            dependent,
                            dormant,
                        };
                        self.finish(t, poll);
                        proof {
                            if old(self).last_unready(handles@) is None {
                                assert forall|k: WakeHandleId|
                                    handles@.to_set().contains(k) implies mid2.state(k) is None by {
                                    assert(handles@.contains(k));
                                }
                                assert forall|k: WakeHandleId|
                                    !handles@.to_set().contains(k) implies #[trigger] mid2.state(k)
                                    == mid.state(k) by {
                                    assert(!handles@.contains(k));
                                }
                                old(self).lemma_settles_after_read(
                                    &mid,
                                    &mid2,
                                    self,
                                    handle,
                                    taken,
                                    poll,
                                    handles@.to_set(),
                                );
                            } else {
                                old(self).lemma_settles_after_take(&mid, self, handle, taken, poll);
                            }
                        }
                        None
                    },
                    Waiter::Resource => {
                        let t = Suspended { handle, waiter: Waiter::Resource, dependent, dormant };
                        self.finish(t, Poll::WaitingForResource);
                        proof {
                            old(self).lemma_settles_after_take(
                                &mid,
                                self,
                                handle,
                                taken,
                                Poll::WaitingForResource,
                            );
                        }
                        None
                    },
                }
            },
            other => {
                let _ = self.replace(handle, other);
                None
            },
        }
    }

    /// Polls a waiter in its second stage: it takes the value of `next` if
    /// that is finished, and waits for it if not.
    fn resume_second(
        &mut self,
        t: Suspended,
        next: WakeHandleId,
        Ghost(start): Ghost<WaiterQueue>,
        Ghost(taken): Ghost<WaiterState>,
    )
        requires
            old(self).wf(),
            start.wf(),
            start.state(t.handle()) is Some,
            old(self).state(t.handle()) is Some,
            !old(self).is_done(t.handle()),
            old(self).next_id() == start.next_id(),
            old(self).updates() == start.updates(),
            forall|k: WakeHandleId|
                k != t.handle() ==> #[trigger] old(self).state(k) == start.state(k),
            !start.is_done(t.handle()),
            t.taken() == taken,
            taken is Waiting,
            taken.names_once(),
        ensures
            final(self).wf(),
            final(self).waiting() + one_if_waiting(old(self).state(t.handle())->0) <= old(
                self,
            ).waiting() + 1,
            final(self).updates() != old(self).updates() ==> final(self).waiting()
                + one_if_waiting(old(self).state(t.handle())->0) <= old(self).waiting(),
            if start.is_done(next) {
                start.settles_to(
                    final(self),
                    t.handle(),
                    taken,
                    Poll::Ready(start.value_of(next)),
                    set![next],
                )
            } else {
                start.settles_to(
                    final(self),
                    t.handle(),
                    taken,
                    Poll::WaitingFor(next),
                    Set::empty(),
                )
            },
    {
        let ghost handle = t.handle();
        let ghost mid = *self;
        proof {
            if next != handle {
                assert(mid.state(next) == start.state(next));
            }
        }
        match self.take(WakeHandle { id: next }) {
            Some(v) => {
                let ghost mid2 = *self;
                self.finish(t, Poll::Ready(v));
                proof {
                    assert forall|k: WakeHandleId| set![next].contains(k) implies mid2.state(
                        k,
                    ) is None by {}
                    start.lemma_settles_after_read(
                        &mid,
                        &mid2,
                        self,
                        handle,
                        taken,
                        Poll::Ready(v),
                        set![next],
                    );
                }
            },
            None => {
                self.finish(t, Poll::WaitingFor(next));
                proof {
                    start.lemma_settles_after_take(
                        &mid,
                        self,
                        handle,
                        taken,
                        Poll::WaitingFor(next),
                    );
                }
            },
        }
    }

    /// An entry that is not finished is not finished either when another
    /// entry has been taken out.
    proof fn lemma_last_unready_same(&self, mid: &WaiterQueue, handles: Seq<WakeHandleId>)
        requires
            forall|k: WakeHandleId| #[trigger] mid.is_done(k) == self.is_done(k),
        ensures
            mid.last_unready(handles) == self.last_unready(handles),
        decreases handles.len(),
    {
        if handles.len() > 0 {
            self.lemma_last_unready_same(mid, handles.drop_last());
        }
    }

    /// Settling a waiter in the table from which only it was taken out is
    /// settling it in the table as it was before.
    proof fn lemma_settles_after_take(
        &self,
        mid: &WaiterQueue,
        after: &WaiterQueue,
        handle: WakeHandleId,
        taken: WaiterState,
        poll: Poll<Value>,
    )
        requires
            mid.next_id() == self.next_id(),
            mid.updates() == self.updates(),
            forall|k: WakeHandleId| k != handle ==> #[trigger] mid.state(k) == self.state(k),
            mid.settles_to(after, handle, taken, poll, Set::empty()),
        ensures
            self.settles_to(after, handle, taken, poll, Set::empty()),
    {
        let edge = self.edge_to(handle, poll);
        if let Poll::WaitingFor(t) = poll {
            if t != handle {
                assert(mid.state(t) == self.state(t));
            }
        }
        assert(edge == mid.edge_to(handle, poll));
        assert forall|k: WakeHandleId|
            k != handle && !Set::<WakeHandleId>::empty().contains(k) && edge != Some(
                k,
            ) implies #[trigger] after.state(k) == self.state(k) by {
            assert(mid.state(k) == self.state(k));
        }
    }

    /// Settling a finished waiter after it read the entries `consumed`.
    proof fn lemma_settles_after_read(
        &self,
        mid: &WaiterQueue,
        mid2: &WaiterQueue,
        after: &WaiterQueue,
        handle: WakeHandleId,
        taken: WaiterState,
        poll: Poll<Value>,
        consumed: Set<WakeHandleId>,
    )
        requires
            poll is Ready,
            mid.next_id() == self.next_id(),
            mid.updates() == self.updates(),
            mid2.next_id() == self.next_id(),
            mid2.updates() == self.updates(),
            forall|k: WakeHandleId| k != handle ==> #[trigger] mid.state(k) == self.state(k),
            forall|k: WakeHandleId| consumed.contains(k) ==> #[trigger] mid2.state(k) is None,
            forall|k: WakeHandleId| !consumed.contains(k) ==> #[trigger] mid2.state(k)
                == mid.state(k),
            mid2.settles_to(after, handle, taken, poll, Set::empty()),
        ensures
            self.settles_to(after, handle, taken, poll, consumed),
    {
        assert forall|k: WakeHandleId| k != handle && consumed.contains(k)
            implies #[trigger] after.state(
            k,
        ) is None by {
            assert(mid2.state(k) is None);
        }
        assert forall|k: WakeHandleId|
            k != handle && !consumed.contains(k) && self.edge_to(handle, poll) != Some(
                k,
            ) implies #[trigger] after.state(k) == self.state(k) by {
            assert(mid2.state(k) == mid.state(k));
            assert(mid.state(k) == self.state(k));
        }
    }

    /// Hands back a waiter whose first stage the host has carried out, with
    /// the handle `next` of the computation that the host started. The
    /// waiter goes on in its second stage, which is polled at once.
    pub fn chain(&mut self, t: Suspended, next: WakeHandle)
        requires
            old(self).wf(),
            old(self).pending(t.handle()),
        ensures
            final(self).wf(),
            if old(self).is_done(next.id) {
                old(self).settles_to(
                    final(self),
                    t.handle(),
                    second_stage(t.taken(), next.id),
                    Poll::Ready(old(self).value_of(next.id)),
                    set![next.id],
                )
            } else {
                old(self).settles_to(
                    final(self),
                    t.handle(),
                    second_stage(t.taken(), next.id),
                    Poll::WaitingFor(next.id),
                    Set::empty(),
                )
            },
            forall|k: WakeHandleId|
                k != t.handle() && old(self).awaits_resource(k)
                    ==> #[trigger] final(self).awaits_resource(k),
    {
        let Suspended { handle, waiter: _, dependent, dormant } = t;
        let t2 = Suspended {
            handle,
            waiter: Waiter::ThenSecond { next: next.id },
            dependent,
            dormant,
        };
        self.resume_second(t2, next.id, Ghost(*old(self)), Ghost(t2.taken()));
    }

    /// Whether the first poll of the waiter `w` comes to something at once.
    pub fn first_poll_is_due(&self, w: &Waiter) -> (r: bool)
        requires
            self.wf(),
        ensures
            r == self.polls_at_once(*w),
    {
        match w {
            Waiter::Host(_) => true,
            Waiter::Transform { source, .. } => self.is_ready(*source),
            Waiter::ThenFirst { source, .. } => self.is_ready(*source),
            Waiter::ThenSecond { next } => self.is_ready(*next),
            Waiter::Pair { x, y } => self.is_ready(*x) && self.is_ready(*y),
            Waiter::Collect { handles } => {
                let mut all = true;
                let mut i: usize = 0;
                while i < handles.len()
                    invariant
                        self.wf(),
                        i <= handles@.len(),
                        all == (self.last_unready(handles@.subrange(0, i as int)) is None),
                    decreases handles@.len() - i,
                {
                    proof {
                        let s1 = handles@.subrange(0, i as int + 1);
                        assert(s1.last() == handles@[i as int]);
                        assert(s1.drop_last() =~= handles@.subrange(0, i as int));
                    }
                    if !self.is_ready(handles[i]) {
                        all = false;
                    }
                    i += 1;
                }
                assert(handles@.subrange(0, handles@.len() as int) =~= handles@);
                all
            },
            Waiter::Resource => false,
        }
    }

    /// Where all of `handles` are finished, none of them is the last
    /// unfinished one.
    pub proof fn lemma_none_unready(&self, handles: Seq<WakeHandleId>)
        requires
            forall|a: int| 0 <= a < handles.len() ==> self.is_done(#[trigger] handles[a]),
        ensures
            self.last_unready(handles) is None,
        decreases handles.len(),
    {
        if handles.len() > 0 {
            assert(self.is_done(handles[handles.len() - 1]));
            assert forall|a: int| 0 <= a < handles.drop_last().len() implies self.is_done(
                #[trigger] handles.drop_last()[a],
            ) by {
                assert(handles.drop_last()[a] == handles[a]);
            }
            self.lemma_none_unready(handles.drop_last());
        }
    }

    /// Polling a waiter that was just registered, in `mid`, is polling it
    /// for the first time in the table as it was before.
    pub(crate) proof fn lemma_first_polled(
        &self,
        mid: &WaiterQueue,
        after: &WaiterQueue,
        w: Waiter,
        h: WakeHandle,
        r: Option<(Suspended, Request)>,
    )
        requires
            h.id.0 == self.next_id(),
            self.state(h.id) is None,
            mid.next_id() == self.next_id() + 1,
            mid.updates() == self.updates(),
            mid.state(h.id) matches Some(s) && registered(s, w),
            forall|k: WakeHandleId| k != h.id ==> #[trigger] mid.state(k) == self.state(k),
            self.polls_at_once(w),
            mid.polled(after, h.id, r),
        ensures
            first_polled(self, after, w, h, r),
    {
        assert forall|k: WakeHandleId| #[trigger] mid.is_done(k) == self.is_done(k) by {
            if k != h.id {
                assert(mid.state(k) == self.state(k));
            }
        }
        assert forall|k: WakeHandleId| mid.is_done(k) implies #[trigger] mid.value_of(k)
            == self.value_of(k) by {
            assert(mid.state(k) == self.state(k));
        }
        let taken = mid.state(h.id)->0;
        assert(taken->dependent@ =~= Seq::<WakeHandleId>::empty());
        assert(self.updates() + Seq::<WakeHandleId>::empty() =~= self.updates());
        match w {
            Waiter::Pair { x, y } => {
                reveal_with_fuel(WaiterQueue::last_unready, 3);
                assert(seq![x, y].last() == y);
                assert(seq![x, y].drop_last() =~= seq![x]);
                assert(seq![x].last() == x);
                assert(seq![x].drop_last() =~= Seq::<WakeHandleId>::empty());
                assert(mid.last_unready(seq![x, y]) is None);
            },
            Waiter::Collect { handles } => {
                self.lemma_last_unready_same(mid, handles@);
                mid.lemma_all_ready(handles@);
                assert(mid.values_of(handles@) =~= self.values_of(handles@));
            },
            _ => {},
        }
    }

    /// What a first poll makes of a join of many, said of the handles that
    /// it names.
    pub(crate) proof fn lemma_joined(&self, after: &WaiterQueue, w: Waiter, h: WakeHandle)
        requires
            w is Collect,
            first_polled(self, after, w, h, None),
        ensures
            joined(self, after, w->handles@, h),
    {
        let ids = w->handles@;
        if forall|i: int| 0 <= i < ids.len() ==> self.is_done(#[trigger] ids[i]) {
            self.lemma_none_unready(ids);
        } else {
            if self.last_unready(ids) is None {
                self.lemma_all_ready(ids);
            }
        }
    }

    /// Whether `id` is in the table.
    pub fn contains(&self, id: WakeHandleId) -> (r: bool)
        requires
            self.wf(),
        ensures
            r == self.state(id) is Some,
    {
        let found = table_get(&self.waiters, id.0);
        proof {
            lemma_increasing_distinct(self.entries());
            if let Some(v) = found {
                let i = choose|i: int|
                    0 <= i < self.entries().len() && #[trigger] self.entries()[i] == (id.0, *v);
                lemma_lookup_at(self.entries(), i);
            }
        }
        found.is_some()
    }

    /// Whether `id` waits for a producer to hand over its output.
    pub fn is_awaiting_resource(&self, id: WakeHandleId) -> (r: bool)
        requires
            self.wf(),
        ensures
            r == self.awaits_resource(id),
    {
        let found = table_get(&self.waiters, id.0);
        proof {
            lemma_increasing_distinct(self.entries());
            if let Some(v) = found {
                let i = choose|i: int|
                    0 <= i < self.entries().len() && #[trigger] self.entries()[i] == (id.0, *v);
                lemma_lookup_at(self.entries(), i);
            }
        }
        match found {
            Some(WaiterState::Waiting { waiter: Waiter::Resource, .. }) => true,
            _ => false,
        }
    }

    /// Whether `id` is in the table and not finished.
    pub fn is_pending(&self, id: WakeHandleId) -> (r: bool)
        requires
            self.wf(),
        ensures
            r == self.pending(id),
    {
        self.contains(id) && !self.is_ready(id)
    }

    /// Whether the table can register one more computation: whether an
    /// identifier is left to hand out.
    pub fn can_register(&self) -> (r: bool)
        ensures
            r == (self.next_id() < u32::MAX),
    {
        self.next_handle.0 < u32::MAX
    }

    /// Polls the waiters that are due, one after the other, until a poll
    /// asks something of the host, which is handed back, or no waiter is due
    /// any more. A waiter that finishes wakes its dependents, which are
    /// polled in the same run; the run ends all the same, since every
    /// waiter finishes once.
    pub fn next_request(&mut self) -> (r: Option<(Suspended, Request)>)
        requires
            old(self).wf(),
        ensures
            final(self).wf(),
            final(self).waiting() <= old(self).waiting(),
            exists|steps: Seq<WaiterQueue>| #[trigger] old(self).runs_to(final(self), r, steps),
            forall|k: WakeHandleId|
                old(self).awaits_resource(k) ==> #[trigger] final(self).awaits_resource(k),
    {
        let ghost mut steps: Seq<WaiterQueue> = seq![*self];
        loop
            invariant
                self.wf(),
                self.waiting() <= old(self).waiting(),
                forall|k: WakeHandleId|
                    old(self).awaits_resource(k) ==> #[trigger] self.awaits_resource(k),
                steps.len() > 0,
                steps[0] == *old(self),
                steps.last() == *self,
                forall|i: int|
                    0 <= i < steps.len() - 1 ==> (#[trigger] steps[i]).steps_to(
                        &steps[i + 1],
                        None,
                    ),
            decreases self.waiting(), self.updates().len(),
        {
            let ghost before = *self;
            match self.next_waiter_to_update() {
                None => {
                    proof {
                        assert(old(self).runs_to(self, None, steps));
                        assert forall|k: WakeHandleId|
                            old(self).awaits_resource(k) implies #[trigger] self.awaits_resource(
                            k,
                        ) by {
                            assert(before.awaits_resource(k));
                            assert(self.state(k) == before.state(k));
                        }
                    }
                    return None;
                },
                Some(h) => {
                    let ghost taken = *self;
                    let r = self.check_waiter(h);
                    proof {
                        assert(taken.polled(self, before.updates()[0], r));
                        assert(before.steps_to(self, r));
                        assert forall|k: WakeHandleId|
                            old(self).awaits_resource(k) implies #[trigger] self.awaits_resource(
                            k,
                        ) by {
                            assert(before.awaits_resource(k));
                            assert(taken.state(k) == before.state(k));
                            assert(taken.awaits_resource(k));
                        }
                    }
                    match r {
                        Some(request) => {
                            proof {
                                assert(old(self).runs_to(self, Some(request), steps));
                            }
                            return Some(request);
                        },
                        None => {
                            proof {
                                let longer = steps.push(*self);
                                assert forall|i: int| 0 <= i < longer.len() - 1 implies (
                                #[trigger] longer[i]).steps_to(&longer[i + 1], None) by {
                                    if i < steps.len() - 1 {
                                        assert(steps[i].steps_to(&steps[i + 1], None));
                                    }
                                }
                                steps = longer;
                            }
                        },
                    }
                },
            }
        }
    }
}

/// No link of a chain lags a tick behind: a waiter in its second stage
/// whose computation is finished is finished by its next poll, with that
/// value, and whoever waits for it is due for a poll in the same run.
pub proof fn lemma_chain_resolves_in_the_same_run(
    before: &WaiterQueue,
    after: &WaiterQueue,
    h: WakeHandleId,
    next: WakeHandleId,
    r: Option<(Suspended, Request)>,
)
    requires
        before.state(h) matches Some(s) && s is Waiting && s->waiter == (Waiter::ThenSecond {
            next,
        }),
        before.is_done(next),
        before.polled(after, h, r),
    ensures
        r is None,
        after.state(h) == Some(WaiterState::Done(before.value_of(next))),
        after.updates() == before.updates() + before.state(h)->0->dependent@,
{
}

/// A value is read at most once: whatever the table holds, a handle that
/// has just been read has nothing more to give, and the read has left every
/// other entry as it was.
pub proof fn lemma_read_at_most_once(entries: Seq<(u32, WaiterState)>, key: u32)
    requires
        increasing_keys(entries),
    ensures
        take_spec(entries, key).0 is Some ==> take_spec(take_spec(entries, key).1, key).0 is None,
        take_spec(entries, key).0 is Some ==> lookup(take_spec(entries, key).1, key) is None,
        take_spec(entries, key).0 is None ==> take_spec(entries, key).1 == entries,
        forall|k: u32| k != key ==> #[trigger] lookup(take_spec(entries, key).1, k)
            == lookup(entries, k),
{
    lemma_increasing_distinct(entries);
    if take_spec(entries, key).0 is Some {
        let i = index_of(entries, key);
        lemma_lookup_remove(entries, i);
        lemma_lookup_at(entries, i);
    }
}

/// A handle that is not in the table never comes back: the identifiers
/// that are handed out grow, and every identifier in the table has been
/// handed out.
pub proof fn lemma_read_handle_stays_gone(before: WaiterQueue, after: WaiterQueue, h: WakeHandle)
    requires
        before.wf(),
        after.wf(),
        before.state(h.id) is None,
        h.id.0 < before.next_id(),
        after.next_id() >= before.next_id(),
        forall|k: WakeHandleId|
            k.0 < before.next_id() && before.state(k) is None ==> #[trigger] after.state(k) is None,
    ensures
        take_spec(after.entries(), h.id.0).0 is None,
{
    assert(after.state(h.id) is None);
}

impl GameState {
    /// Registers the waiter `w` and polls it once. A waiter that is ready
    /// at once is finished on return. A first poll that takes a function of
    /// the host is handed back as a request. Any other waiter is left
    /// waiting, active, for the sweep of the next tick.
    pub fn enqueue_waiter(&mut self, w: Waiter) -> (r: (WakeHandle, Option<(Suspended, Request)>))
        requires
            old(self).wf(),
            old(self).queue.next_id() < u32::MAX,
            w.names_once(),
        ensures
            final(self).wf(),
            same_but_queue(old(self), final(self)),
            first_polled(&old(self).queue, &final(self).queue, w, r.0, r.1),
            r.1 matches Some((t, _)) ==> t.taken().names_once() && final(self).queue.pending(
                t.handle(),
            ) && !final(self).queue.awaits_resource(t.handle()),
    {
        let due = self.queue.first_poll_is_due(&w);
        let h = self.queue.enqueue_waiter(w);
        let ghost mid = self.queue;
        proof {
            assert forall|k: WakeHandleId| #[trigger] mid.is_done(k) == old(self).queue.is_done(
                k,
            ) by {
                if k != h.id {
                    assert(mid.state(k) == old(self).queue.state(k));
                }
            }
            assert forall|k: WakeHandleId| mid.is_done(k) implies #[trigger] mid.value_of(k) == old(
                self,
            ).queue.value_of(k) by {
                assert(mid.state(k) == old(self).queue.state(k));
            }
        }
        let r = if due {
            let r = self.queue.check_waiter(h.id);
            proof {
                old(self).queue.lemma_first_polled(&mid, &self.queue, w, h, r);
            }
            r
        } else {
            None
        };
        proof {
            assert forall|k: WakeHandleId|
                old(self).queue.awaits_resource(k) implies #[trigger] self.queue.awaits_resource(
                k,
            ) by {
                assert(mid.state(k) == old(self).queue.state(k));
                assert(mid.awaits_resource(k));
            }
            self.lemma_still_registered(old(self));
        }
        (h, r)
    }

    /// A state in whose table every handle can still be resolved that could
    /// before, and whose producers are the same, is well formed if the table
    /// is.
    pub(crate) proof fn lemma_still_registered(&self, before: &GameState)
        requires
            before.wf(),
            self.queue.wf(),
            self.resources == before.resources,
            self.producers@ == before.producers@,
            forall|k: WakeHandleId|
                before.queue.awaits_resource(k) ==> #[trigger] self.queue.awaits_resource(k),
        ensures
            self.wf(),
    {
        assert forall|i: int| 0 <= i < self.producers@.len()
            implies (#[trigger] self.producers@[i]).wf()
            && self.producers@[i].sinks_pending(&self.queue) by {
            let p = before.producers@[i];
            assert(p.wf() && p.sinks_pending(&before.queue));
            assert forall|a: int| 0 <= a < p.queue@.len() implies self.queue.awaits_resource(
                (#[trigger] p.queue@[a]).0.id,
            ) by {
                assert(before.queue.awaits_resource(p.queue@[a].0.id));
            }
        }
    }

    /// Returns a handle that is resolved already, with the value `x`.
    pub fn nowait(&mut self, x: Value) -> (h: WakeHandle)
        requires
            old(self).wf(),
            old(self).queue.next_id() < u32::MAX,
        ensures
            final(self).wf(),
            h.id.0 == old(self).queue.next_id(),
            final(self).queue.next_id() == old(self).queue.next_id() + 1,
            final(self).queue.updates() == old(self).queue.updates(),
            old(self).queue.state(h.id) is None,
            final(self).queue.state(h.id) == Some(WaiterState::Done(x)),
            forall|k: WakeHandleId|
                k != h.id ==> #[trigger] final(self).queue.state(k) == old(self).queue.state(k),
            same_but_queue(old(self), final(self)),
    {
        let h = self.queue.set_already_resolved_handle(x);
        proof {
            assert forall|k: WakeHandleId|
                old(self).queue.awaits_resource(k) implies #[trigger] self.queue.awaits_resource(
                k,
            ) by {
                assert(self.queue.state(k) == old(self).queue.state(k));
            }
            self.lemma_still_registered(old(self));
        }
        h
    }

    /// Schedules the host's function `f` to run on the value of `h` once
    /// that is there, and returns a handle to what `f` returns. Where the
    /// value is there already, the request to run `f` is handed back at
    /// once.
    pub fn map(&mut self, h: WakeHandle, f: u32) -> (r: (WakeHandle, Option<(Suspended, Request)>))
        requires
            old(self).wf(),
            old(self).queue.next_id() < u32::MAX,
        ensures
            final(self).wf(),
            same_but_queue(old(self), final(self)),
            first_polled(
                &old(self).queue,
                &final(self).queue,
                Waiter::Transform { source: h.id, f },
                r.0,
                r.1,
            ),
            r.1 matches Some((t, _)) ==> t.taken().names_once() && final(self).queue.pending(
                t.handle(),
            ) && !final(self).queue.awaits_resource(t.handle()),
    {
        self.enqueue_waiter(Waiter::Transform { source: h.id, f })
    }

    /// Schedules the host's function `f` to run on the value of `h` once
    /// that is there, and returns a handle to the result of the computation
    /// that `f` starts. Where the value is there already, the request to
    /// run `f` is handed back at once.
    pub fn and_then(&mut self, h: WakeHandle, f: u32) -> (r: (
        WakeHandle,
        Option<(Suspended, Request)>,
    ))
        requires
            old(self).wf(),
            old(self).queue.next_id() < u32::MAX,
        ensures
            final(self).wf(),
            same_but_queue(old(self), final(self)),
            first_polled(
                &old(self).queue,
                &final(self).queue,
                Waiter::ThenFirst { source: h.id, f },
                r.0,
                r.1,
            ),
            r.1 matches Some((t, _)) ==> t.taken().names_once() && final(self).queue.pending(
                t.handle(),
            ) && !final(self).queue.awaits_resource(t.handle()),
    {
        self.enqueue_waiter(Waiter::ThenFirst { source: h.id, f })
    }

    /// Joins the results of two handles together. Where both are there
    /// already, the join is finished on return.
    pub fn pair(&mut self, x: WakeHandle, y: WakeHandle) -> (r: WakeHandle)
        requires
            old(self).wf(),
            old(self).queue.next_id() < u32::MAX,
            x.id != y.id,
        ensures
            final(self).wf(),
            same_but_queue(old(self), final(self)),
            first_polled(
                &old(self).queue,
                &final(self).queue,
                Waiter::Pair { x: x.id, y: y.id },
                r,
                None,
            ),
    {
        let (h, _) = self.enqueue_waiter(Waiter::Pair { x: x.id, y: y.id });
        h
    }

    /// Joins the results of three handles together, as a list of three.
    /// Where all three are there already, the join is finished on return.
    pub fn triple(&mut self, x: WakeHandle, y: WakeHandle, z: WakeHandle) -> (r: WakeHandle)
        requires
            old(self).wf(),
            old(self).queue.next_id() < u32::MAX,
            x.id != y.id,
            x.id != z.id,
            y.id != z.id,
        ensures
            final(self).wf(),
            same_but_queue(old(self), final(self)),
            joined(&old(self).queue, &final(self).queue, seq![x.id, y.id, z.id], r),
    {
        let mut handles: Vec<WakeHandleId> = Vec::new();
        handles.push(x.id);
        handles.push(y.id);
        handles.push(z.id);
        assert(handles@ =~= seq![x.id, y.id, z.id]);
        let w = Waiter::Collect { handles };
        let ghost named = w;
        let (h, _) = self.enqueue_waiter(w);
        proof {
            old(self).queue.lemma_joined(&self.queue, named, h);
        }
        h
    }

    /// Joins the results of all of `handles` together, as a list in their
    /// order. Where all are there already, and so where there is none, the
    /// join is finished on return.
    pub fn collect(&mut self, handles: Vec<WakeHandle>) -> (r: WakeHandle)
        requires
            old(self).wf(),
            old(self).queue.next_id() < u32::MAX,
            Seq::new(handles@.len(), |i: int| handles@[i].id).no_duplicates(),
        ensures
            final(self).wf(),
            same_but_queue(old(self), final(self)),
            joined(
                &old(self).queue,
                &final(self).queue,
                Seq::new(handles@.len(), |i: int| handles@[i].id),
                r,
            ),
    {
        let mut ids: Vec<WakeHandleId> = Vec::new();
        let mut i: usize = 0;
        while i < handles.len()
            invariant
                i <= handles@.len(),
                ids@ == Seq::new(i as nat, |j: int| handles@[j].id),
            decreases handles@.len() - i,
        {
            ids.push(handles[i].id);
            i += 1;
            assert(ids@ =~= Seq::new(i as nat, |j: int| handles@[j].id));
        }
        let w = Waiter::Collect { handles: ids };
        let ghost named = w;
        let (h, _) = self.enqueue_waiter(w);
        proof {
            old(self).queue.lemma_joined(&self.queue, named, h);
        }
        h
    }

    /// Waits until the host's computation `tag` is ready, and yields its
    /// result. The request for its first poll is handed back at once.
    pub fn wait_for(&mut self, tag: u32) -> (r: (WakeHandle, Option<(Suspended, Request)>))
        requires
            old(self).wf(),
            old(self).queue.next_id() < u32::MAX,
        ensures
            final(self).wf(),
            same_but_queue(old(self), final(self)),
            first_polled(&old(self).queue, &final(self).queue, Waiter::Host(tag), r.0, r.1),
            r.1 matches Some((t, _)) ==> t.taken().names_once() && final(self).queue.pending(
                t.handle(),
            ) && !final(self).queue.awaits_resource(t.handle()),
    {
        self.enqueue_waiter(Waiter::Host(tag))
    }

    /// Waits for the producer at `producer` to produce a single output.
    /// This is the main wait point of the system.
    pub fn wait_for_producer_output(&mut self, producer: ProducerId, p: Priority) -> (h: WakeHandle)
        requires
            old(self).wf(),
            old(self).queue.next_id() < u32::MAX,
            producer.0 < old(self).producers@.len(),
        ensures
            final(self).wf(),
            requested(old(self), final(self), producer.0 as int, p, h, false),
    {
        let h = self.queue.enqueue_waiter(Waiter::Resource);
        let ghost mid = *self;
        proof {
            old(self).lemma_fresh_not_queued(h.id);
        }
        self.producers[producer.0].enqueue(&mut self.queue, h, p);
        proof {
            self.lemma_requested(old(self), &mid, producer.0 as int, p, h);
        }
        h
    }

    /// Gives the producer at `producer` the inputs for one output, and
    /// waits for that output.
    pub fn feed(&mut self, producer: ProducerId, p: Priority) -> (h: WakeHandle)
        requires
            old(self).wf(),
            old(self).queue.next_id() < u32::MAX,
            producer.0 < old(self).producers@.len(),
            old(self).producers@[producer.0 as int].producer.can_take_inputs(),
        ensures
            final(self).wf(),
            requested(old(self), final(self), producer.0 as int, p, h, true),
    {
        let h = self.queue.enqueue_waiter(Waiter::Resource);
        let ghost mid = *self;
        proof {
            old(self).lemma_fresh_not_queued(h.id);
        }
        self.producers[producer.0].feed(&mut self.queue, p, h);
        proof {
            self.lemma_requested(old(self), &mid, producer.0 as int, p, h);
        }
        h
    }

    /// What holds after a request was registered, in `mid`, and then put to
    /// the producer at `i`.
    proof fn lemma_requested(
        &self,
        before: &GameState,
        mid: &GameState,
        i: int,
        p: Priority,
        h: WakeHandle,
    )
        requires
            before.wf(),
            0 <= i < before.producers@.len(),
            mid.producers@ == before.producers@,
            mid.queue.wf(),
            h.id.0 == before.queue.next_id(),
            mid.queue.next_id() == before.queue.next_id() + 1,
            mid.queue.updates() == before.queue.updates(),
            before.queue.state(h.id) is None,
            mid.queue.state(h.id) matches Some(s) && registered(s, Waiter::Resource),
            forall|k: WakeHandleId|
                k != h.id ==> #[trigger] mid.queue.state(k) == before.queue.state(k),
            self.tick == before.tick,
            self.jobs() == before.jobs(),
            self.last_report() == before.last_report(),
            self.resources == before.resources,
            self.producers@.len() == before.producers@.len(),
            forall|j: int|
                0 <= j < before.producers@.len() && j != i ==> #[trigger] self.producers@[j]
                    == before.producers@[j],
            self.producers@[i].wf(),
            self.queue.wf(),
            self.producers@[i].scaling_up == before.producers@[i].scaling_up,
            same_output(&before.producers@[i].producer, &self.producers@[i].producer),
            self.queue.next_id() == mid.queue.next_id(),
            if before.producers@[i].queue@.len() == 0 && before.producers@[i].producer.available()
                > 0 {
                &&& self.producers@[i].queue@ == before.producers@[i].queue@
                &&& self.producers@[i].producer.available()
                    == if before.producers@[i].producer.lasting() {
                    before.producers@[i].producer.available() as int
                } else {
                    before.producers@[i].producer.available() - 1
                }
                &&& self.queue.state(h.id) == Some(
                    WaiterState::Done(before.producers@[i].producer.output()),
                )
                &&& forall|k: WakeHandleId|
                    k != h.id ==> #[trigger] self.queue.state(k) == mid.queue.state(k)
                &&& self.queue.updates() == mid.queue.updates() + woken_by(mid.queue.state(h.id))
            } else {
                &&& self.producers@[i].queue@ == before.producers@[i].queue@.insert(
                    slot(before.producers@[i].queue@, p),
                    (h, p),
                )
                &&& self.producers@[i].producer.available()
                    == before.producers@[i].producer.available()
                &&& self.queue.entries() == mid.queue.entries()
                &&& self.queue.updates() == mid.queue.updates()
            },
        ensures
            self.wf(),
            forall|k: WakeHandleId|
                k != h.id ==> #[trigger] self.queue.state(k) == before.queue.state(k),
            self.queue.updates() == before.queue.updates(),
            self.queue.state(h.id) is Some,
            !(before.producers@[i].queue@.len() == 0 && before.producers@[i].producer.available()
                > 0) ==> (self.queue.state(h.id) matches Some(s)
                    && registered(s, Waiter::Resource)),
    {
        let immediate = before.producers@[i].queue@.len() == 0
            && before.producers@[i].producer.available() > 0;
        if immediate {
            assert(woken_by(mid.queue.state(h.id)) =~= Seq::<WakeHandleId>::empty());
            assert(self.queue.updates() =~= before.queue.updates());
        } else {
            assert(self.queue.state(h.id) == mid.queue.state(h.id));
        }
        assert forall|k: WakeHandleId| k != h.id implies #[trigger] self.queue.state(k)
            == before.queue.state(k) by {
            assert(mid.queue.state(k) == before.queue.state(k));
            assert(self.queue.state(k) == mid.queue.state(k));
        }
        before.lemma_fresh_not_queued(h.id);
        assert forall|j: int| 0 <= j < self.producers@.len()
            implies (#[trigger] self.producers@[j]).wf()
            && self.producers@[j].sinks_pending(&self.queue) by {
            let q = self.producers@[j].queue@;
            let q0 = before.producers@[j].queue@;
            assert(before.producers@[j].wf() && before.producers@[j].sinks_pending(
                &before.queue,
            ));
            assert forall|a: int| 0 <= a < q.len() implies self.queue.awaits_resource(
                (#[trigger] q[a]).0.id,
            ) by {
                if j != i || immediate {
                    assert(q[a] == q0[a]);
                    assert(before.queue.awaits_resource(q0[a].0.id));
                } else {
                    let at = slot(q0, p);
                    crate::machine::lemma_insert_keeps_order(q0, h, p);
                    if a == at {
                    } else if a < at {
                        assert(q[a] == q0[a]);
                        assert(before.queue.awaits_resource(q0[a].0.id));
                    } else {
                        assert(q[a] == q0[a - 1]);
                        assert(before.queue.awaits_resource(q0[a - 1].0.id));
                    }
                }
            }
        }
        if immediate {
            assert(self.producers@[i].queue@ =~= before.producers@[i].queue@.skip(0));
            crate::runtime::lemma_skipped_distinct(before.producers@, self.producers@, i, 0);
        } else {
            crate::machine::lemma_insert_keeps_order(before.producers@[i].queue@, h, p);
            crate::runtime::lemma_inserted_distinct(
                before.producers@,
                self.producers@,
                i,
                slot(before.producers@[i].queue@, p),
                (h, p),
            );
        }
    }

    /// A handle that is not in the table has no request in any queue.
    pub(crate) proof fn lemma_fresh_not_queued(&self, id: WakeHandleId)
        requires
            self.wf(),
            self.queue.state(id) is None,
        ensures
            forall|j: int, b: int|
                0 <= j < self.producers@.len() && 0 <= b < self.producers@[j].queue@.len() ==> (
                #[trigger] self.producers@[j].queue@[b]).0.id != id,
            forall|j: int| 0 <= j < self.producers@.len()
                ==> !(#[trigger] self.producers@[j]).queued(id),
    {
        assert forall|j: int, b: int|
            0 <= j < self.producers@.len() && 0 <= b < self.producers@[j].queue@.len() implies (
        #[trigger] self.producers@[j].queue@[b]).0.id != id by {
            assert(self.producers@[j].sinks_pending(&self.queue));
            assert(self.queue.awaits_resource(self.producers@[j].queue@[b].0.id));
        }
    }

    /// Starts a scale-up of the producer at `producer`: counts one more
    /// entity as under construction, and says what it takes to build it.
    pub fn scale_up(&mut self, producer: ProducerId) -> (plan: ScaleUp)
        requires
            old(self).wf(),
            producer.0 < old(self).producers@.len(),
            old(self).producers@[producer.0 as int].scaling_up < u32::MAX,
        ensures
            final(self).wf(),
            same_but_producer(old(self), final(self), producer.0 as int),
            final(self).producers@[producer.0 as int].scaling_up == old(
                self,
            ).producers@[producer.0 as int].scaling_up + 1,
            final(self).producers@[producer.0 as int].queue@ == old(
                self,
            ).producers@[producer.0 as int].queue@,
            plan == old(self).producers@[producer.0 as int].producer.plan(
                (old(self).producers@[producer.0 as int].scaling_up + 1) as u32,
            ),
            old(self).producers@[producer.0 as int].producer.decided(
                &final(self).producers@[producer.0 as int].producer,
            ),
            same_output(
                &old(self).producers@[producer.0 as int].producer,
                &final(self).producers@[producer.0 as int].producer,
            ),
            final(self).producers@[producer.0 as int].producer.available() == old(
                self,
            ).producers@[producer.0 as int].producer.available(),
            final(self).producers@[producer.0 as int].producer.queued_inputs() == old(
                self,
            ).producers@[producer.0 as int].producer.queued_inputs(),
    {
        let plan = self.producers[producer.0].trigger_scale_up();
        proof {
            self.lemma_producer_changed(old(self), producer.0 as int);
        }
        plan
    }

    /// A change to one producer that leaves its queue as it is leaves the
    /// state well formed, if the producer is.
    pub(crate) proof fn lemma_producer_changed(&self, before: &GameState, i: int)
        requires
            before.wf(),
            0 <= i < before.producers@.len(),
            self.queue == before.queue,
            self.resources == before.resources,
            self.producers@.len() == before.producers@.len(),
            forall|j: int|
                0 <= j < before.producers@.len() && j != i ==> #[trigger] self.producers@[j]
                    == before.producers@[j],
            self.producers@[i].producer.valid(),
            self.producers@[i].queue@ == before.producers@[i].queue@,
        ensures
            self.wf(),
    {
        assert forall|j: int| 0 <= j < self.producers@.len()
            implies (#[trigger] self.producers@[j]).wf()
            && self.producers@[j].sinks_pending(&self.queue) by {
            assert(before.producers@[j].wf() && before.producers@[j].sinks_pending(
                &before.queue,
            ));
        }
        assert(self.producers@[i].queue@ =~= before.producers@[i].queue@.skip(0));
        crate::runtime::lemma_skipped_distinct(before.producers@, self.producers@, i, 0);
    }

    /// Polls the waiters that are due, one after the other, until a poll
    /// asks something of the host, which is handed back, or no waiter is due
    /// any more. No request that waits at a producer is touched.
    pub fn next_request(&mut self) -> (r: Option<(Suspended, Request)>)
        requires
            old(self).wf(),
        ensures
            final(self).wf(),
            same_but_queue(old(self), final(self)),
            exists|steps: Seq<WaiterQueue>| #[trigger]
                old(self).queue.runs_to(&final(self).queue, r, steps),
    {
        let r = self.queue.next_request();
        proof {
            self.lemma_still_registered(old(self));
        }
        r
    }

    /// Hands back a waiter that was taken out for a poll by the host, with
    /// the outcome `poll` of that poll.
    pub fn finish(&mut self, t: Suspended, poll: Poll<Value>)
        requires
            old(self).wf(),
            old(self).queue.pending(t.handle()),
            !old(self).queue.awaits_resource(t.handle()),
            t.taken().names_once(),
        ensures
            final(self).wf(),
            same_but_queue(old(self), final(self)),
            old(self).queue.settles_to(
                &final(self).queue,
                t.handle(),
                t.taken(),
                poll,
                Set::empty(),
            ),
    {
        self.queue.finish(t, poll);
        proof {
            self.lemma_still_registered(old(self));
        }
    }

    /// Hands back a waiter whose first stage the host has carried out, with
    /// the handle `next` of the computation that the host started.
    pub fn chain(&mut self, t: Suspended, next: WakeHandle)
        requires
            old(self).wf(),
            old(self).queue.pending(t.handle()),
            !old(self).queue.awaits_resource(t.handle()),
        ensures
            final(self).wf(),
            same_but_queue(old(self), final(self)),
            if old(self).queue.is_done(next.id) {
                old(self).queue.settles_to(
                    &final(self).queue,
                    t.handle(),
                    second_stage(t.taken(), next.id),
                    Poll::Ready(old(self).queue.value_of(next.id)),
                    set![next.id],
                )
            } else {
                old(self).queue.settles_to(
                    &final(self).queue,
                    t.handle(),
                    second_stage(t.taken(), next.id),
                    Poll::WaitingFor(next.id),
                    Set::empty(),
                )
            },
    {
        self.queue.chain(t, next);
        proof {
            self.lemma_still_registered(old(self));
        }
    }

    /// Hands out the handle that resolves when the construction that
    /// `order` asks for is done. For a plan that has nothing to build, the
    /// handle is resolved already, and the entity counts as under
    /// construction no more. Else the handle waits: the host resolves it
    /// with `finish_construction` when the entity is ready, and never if
    /// the plan is that the producer cannot grow.
    pub fn begin_construction(&mut self, order: ScaleUpOrder) -> (h: WakeHandle)
        requires
            old(self).wf(),
            old(self).queue.next_id() < u32::MAX,
            order.producer.0 < old(self).producers@.len(),
            order.plan is Ready ==> old(self).producers@[order.producer.0 as int].scaling_up > 0,
        ensures
            final(self).wf(),
            h.id.0 == old(self).queue.next_id(),
            final(self).queue.next_id() == old(self).queue.next_id() + 1,
            final(self).queue.updates() == old(self).queue.updates(),
            old(self).queue.state(h.id) is None,
            forall|k: WakeHandleId|
                k != h.id ==> #[trigger] final(self).queue.state(k) == old(self).queue.state(k),
            match order.plan {
                ScaleUp::Ready => final(self).queue.state(h.id) == Some(
                    WaiterState::Done(Value::Unit),
                ),
                _ => final(self).queue.state(h.id) matches Some(s) && registered(
                    s,
                    Waiter::Resource,
                ),
            },
            final(self).tick == old(self).tick,
            final(self).jobs() == old(self).jobs(),
            final(self).last_report() == old(self).last_report(),
            final(self).resources == old(self).resources,
            final(self).producers@.len() == old(self).producers@.len(),
            forall|j: int|
                0 <= j < old(self).producers@.len() && j != order.producer.0
                    ==> #[trigger] final(self).producers@[j] == old(self).producers@[j],
            final(self).producers@[order.producer.0 as int].queue@ == old(
                self,
            ).producers@[order.producer.0 as int].queue@,
            final(self).producers@[order.producer.0 as int].producer == old(
                self,
            ).producers@[order.producer.0 as int].producer,
            final(self).producers@[order.producer.0 as int].scaling_up + (if order.plan is Ready {
                1int
            } else {
                0int
            }) == old(self).producers@[order.producer.0 as int].scaling_up,
    {
        let ready = match order.plan {
            ScaleUp::Ready => true,
            _ => false,
        };
        let h = if ready {
            self.queue.set_already_resolved_handle(Value::Unit)
        } else {
            self.queue.enqueue_waiter(Waiter::Resource)
        };
        proof {
            assert forall|k: WakeHandleId|
                old(self).queue.awaits_resource(k) implies #[trigger] self.queue.awaits_resource(
                k,
            ) by {
                assert(self.queue.state(k) == old(self).queue.state(k));
            }
            self.lemma_still_registered(old(self));
        }
        if ready {
            let ghost mid = *self;
            self.producers[order.producer.0].scale_up_done();
            proof {
                self.lemma_producer_changed(&mid, order.producer.0 as int);
            }
        }
        h
    }

    /// Records that the entity that was under construction for the producer
    /// at `producer` is ready: resolves the handle `h` of the construction,
    /// and counts one entity less as under construction.
    pub fn finish_construction(&mut self, producer: ProducerId, h: WakeHandle)
        requires
            old(self).wf(),
            producer.0 < old(self).producers@.len(),
            old(self).producers@[producer.0 as int].scaling_up > 0,
            old(self).queue.pending(h.id),
            forall|j: int|
                0 <= j < old(self).producers@.len()
                    ==> !(#[trigger] old(self).producers@[j]).queued(
                    h.id,
                ),
        ensures
            final(self).wf(),
            final(self).queue.next_id() == old(self).queue.next_id(),
            final(self).queue.state(h.id) == Some(WaiterState::Done(Value::Unit)),
            forall|k: WakeHandleId|
                k != h.id ==> #[trigger] final(self).queue.state(k) == old(self).queue.state(k),
            final(self).queue.updates() == old(self).queue.updates() + woken_by(
                old(self).queue.state(h.id),
            ),
            final(self).tick == old(self).tick,
            final(self).jobs() == old(self).jobs(),
            final(self).last_report() == old(self).last_report(),
            final(self).resources == old(self).resources,
            final(self).producers@.len() == old(self).producers@.len(),
            forall|j: int|
                0 <= j < old(self).producers@.len() && j != producer.0
                    ==> #[trigger] final(self).producers@[j] == old(self).producers@[j],
            final(self).producers@[producer.0 as int].scaling_up == old(
                self,
            ).producers@[producer.0 as int].scaling_up - 1,
            final(self).producers@[producer.0 as int].queue@ == old(
                self,
            ).producers@[producer.0 as int].queue@,
            final(self).producers@[producer.0 as int].producer == old(
                self,
            ).producers@[producer.0 as int].producer,
    {
        self.queue.set_output(h, Value::Unit);
        self.producers[producer.0].scale_up_done();
        proof {
            let i = producer.0 as int;
            assert forall|j: int| 0 <= j < self.producers@.len()
                implies (#[trigger] self.producers@[j]).wf()
                && self.producers@[j].sinks_pending(&self.queue) by {
                let q = old(self).producers@[j];
                assert(q.wf() && q.sinks_pending(&old(self).queue));
                assert(self.producers@[j].queue@ == q.queue@);
                assert forall|a: int| 0 <= a < q.queue@.len() implies self.queue.awaits_resource(
                    (#[trigger] q.queue@[a]).0.id,
                ) by {
                    assert(!q.queued(h.id));
                    assert(q.queue@[a].0.id != h.id);
                    assert(old(self).queue.awaits_resource(q.queue@[a].0.id));
                }
            }
            assert(self.producers@[i].queue@ =~= old(self).producers@[i].queue@.skip(0));
            crate::runtime::lemma_skipped_distinct(old(self).producers@, self.producers@, i, 0);
        }
    }

    /// Counts one entity less as under construction for the producer at
    /// `producer`: for a construction that had nothing to build.
    pub fn scale_up_done(&mut self, producer: ProducerId)
        requires
            old(self).wf(),
            producer.0 < old(self).producers@.len(),
            old(self).producers@[producer.0 as int].scaling_up > 0,
        ensures
            final(self).wf(),
            same_but_producer(old(self), final(self), producer.0 as int),
            final(self).producers@[producer.0 as int].scaling_up == old(
                self,
            ).producers@[producer.0 as int].scaling_up - 1,
            final(self).producers@[producer.0 as int].queue@ == old(
                self,
            ).producers@[producer.0 as int].queue@,
            final(self).producers@[producer.0 as int].producer == old(
                self,
            ).producers@[producer.0 as int].producer,
    {
        self.producers[producer.0].scale_up_done();
        proof {
            self.lemma_producer_changed(old(self), producer.0 as int);
        }
    }
}

/// Whether `after` is `before` but for the waiter table.
pub open spec fn same_but_queue(before: &GameState, after: &GameState) -> bool {
    &&& after.tick == before.tick
    &&& after.jobs() == before.jobs()
    &&& after.last_report() == before.last_report()
    &&& after.resources == before.resources
    &&& after.producers@ == before.producers@
}

/// Whether `after` is `before` but for the producer at `i`.
pub open spec fn same_but_producer(before: &GameState, after: &GameState, i: int) -> bool {
    &&& after.tick == before.tick
    &&& after.jobs() == before.jobs()
    &&& after.last_report() == before.last_report()
    &&& after.resources == before.resources
    &&& after.queue == before.queue
    &&& after.producers@.len() == before.producers@.len()
    &&& forall|j: int|
        0 <= j < before.producers@.len() && j != i ==> #[trigger] after.producers@[j]
            == before.producers@[j]
}

/// Whether `after` and `r` are what it makes of the table `before` to hand
/// the new waiter `h` to the host with the request `request`, after
/// reading the entry `consumed` for it.
pub open spec fn first_asked(
    before: &WaiterQueue,
    after: &WaiterQueue,
    w: Waiter,
    h: WakeHandle,
    consumed: Option<WakeHandleId>,
    r: Option<(Suspended, Request)>,
    request: Request,
) -> bool {
    &&& r matches Some((t, q)) && q == request && t.handle() == h.id && registered(t.taken(), w)
    &&& after.state(h.id) == Some(WaiterState::BeingChecked)
    &&& consumed matches Some(c) ==> after.state(c) is None
    &&& forall|k: WakeHandleId|
        k != h.id && consumed != Some(k) ==> #[trigger] after.state(k) == before.state(k)
}

/// Whether `after` is the table `before` with the new waiter `h` finished
/// with the value `v`, for which it read, and so removed, the entries
/// `consumed`.
pub open spec fn first_finished(
    before: &WaiterQueue,
    after: &WaiterQueue,
    h: WakeHandle,
    v: Value,
    consumed: Set<WakeHandleId>,
) -> bool {
    &&& after.state(h.id) == Some(WaiterState::Done(v))
    &&& forall|k: WakeHandleId|
        k != h.id && consumed.contains(k) ==> #[trigger] after.state(k) is None
    &&& forall|k: WakeHandleId|
        k != h.id && !consumed.contains(k) ==> #[trigger] after.state(k) == before.state(k)
}

/// Whether `after` is the table `before` with the new waiter `h` left
/// waiting: active, with nobody depending on it.
pub open spec fn first_waits(
    before: &WaiterQueue,
    after: &WaiterQueue,
    w: Waiter,
    h: WakeHandle,
) -> bool {
    &&& after.state(h.id) matches Some(s) && registered(s, w)
    &&& forall|k: WakeHandleId| k != h.id ==> #[trigger] after.state(k) == before.state(k)
}

/// Whether `after` and `r` are what registering the waiter `w` under the
/// new handle `h`, and polling it once, makes of the table `before`.
///
/// A waiter whose sources are finished is finished on return, with their
/// values, which leave the table. A waiter of the host's, and one whose
/// source is finished and whose next step is a function of the host's, is
/// handed to the host with a request. Any other waiter is left waiting.
pub open spec fn first_polled(
    before: &WaiterQueue,
    after: &WaiterQueue,
    w: Waiter,
    h: WakeHandle,
    r: Option<(Suspended, Request)>,
) -> bool {
    &&& h.id.0 == before.next_id()
    &&& after.next_id() == before.next_id() + 1
    &&& after.updates() == before.updates()
    &&& before.state(h.id) is None
    &&& match w {
        Waiter::Host(tag) => first_asked(before, after, w, h, None, r, Request::Poll { tag }),
        Waiter::Transform { source, f } => if before.is_done(source) {
            first_asked(
                before,
                after,
                w,
                h,
                Some(source),
                r,
                Request::Apply { f, input: before.value_of(source) },
            )
        } else {
            r is None && first_waits(before, after, w, h)
        },
        Waiter::ThenFirst { source, f } => if before.is_done(source) {
            first_asked(
                before,
                after,
                w,
                h,
                Some(source),
                r,
                Request::Chain { f, input: before.value_of(source) },
            )
        } else {
            r is None && first_waits(before, after, w, h)
        },
        Waiter::ThenSecond { next } => r is None && if before.is_done(next) {
            first_finished(before, after, h, before.value_of(next), set![next])
        } else {
            first_waits(before, after, w, h)
        },
        Waiter::Pair { x, y } => r is None && if before.is_done(x) && before.is_done(y) {
            first_finished(
                before,
                after,
                h,
                Value::Pair(Box::new(before.value_of(x)), Box::new(before.value_of(y))),
                set![x, y],
            )
        } else {
            first_waits(before, after, w, h)
        },
        Waiter::Collect { handles } => r is None && if before.last_unready(handles@) is None {
            after.state(h.id) matches Some(WaiterState::Done(v)) && is_list_of(
                v,
                before.values_of(handles@),
            ) && first_finished(before, after, h, v, handles@.to_set())
        } else {
            first_waits(before, after, w, h)
        },
        Waiter::Resource => r is None && first_waits(before, after, w, h),
    }
}

/// Whether `after` is what registering a join of `ids` under the new
/// handle `h`, and polling it once, makes of the table `before`: where all
/// of `ids` are finished, `h` is finished with the list of their values,
/// which leave the table; else `h` is left waiting for them.
pub open spec fn joined(
    before: &WaiterQueue,
    after: &WaiterQueue,
    ids: Seq<WakeHandleId>,
    h: WakeHandle,
) -> bool {
    &&& h.id.0 == before.next_id()
    &&& after.next_id() == before.next_id() + 1
    &&& after.updates() == before.updates()
    &&& before.state(h.id) is None
    &&& if forall|i: int| 0 <= i < ids.len() ==> before.is_done(#[trigger] ids[i]) {
        after.state(h.id) matches Some(WaiterState::Done(v)) && is_list_of(
            v,
            before.values_of(ids),
        ) && first_finished(before, after, h, v, ids.to_set())
    } else {
        &&& after.state(h.id) matches Some(s) && s is Waiting && s->waiter is Collect
            && s->waiter->handles@ == ids && s->dependent@.len() == 0 && !s->dormant
        &&& forall|k: WakeHandleId| k != h.id ==> #[trigger] after.state(k) == before.state(k)
    }
}

/// Whether `after` is `before` with a request of priority `p` put to the
/// producer at `i`, for the new handle `h`, after giving it inputs if `fed`
/// says so. A producer for which nobody waits and that has an output hands
/// it over at once: `h` is resolved with it. Else the request queues up, in
/// its place by priority, and `h` waits for the producer.
pub open spec fn requested(
    before: &GameState,
    after: &GameState,
    i: int,
    p: Priority,
    h: WakeHandle,
    fed: bool,
) -> bool {
    let was = before.producers@[i];
    let is = after.producers@[i];
    &&& h.id.0 == before.queue.next_id()
    &&& after.queue.next_id() == before.queue.next_id() + 1
    &&& after.queue.updates() == before.queue.updates()
    &&& before.queue.state(h.id) is None
    &&& forall|k: WakeHandleId|
        k != h.id ==> #[trigger] after.queue.state(k) == before.queue.state(k)
    &&& after.tick == before.tick
    &&& after.jobs() == before.jobs()
    &&& after.last_report() == before.last_report()
    &&& after.resources == before.resources
    &&& after.producers@.len() == before.producers@.len()
    &&& forall|j: int|
        0 <= j < before.producers@.len() && j != i ==> #[trigger] after.producers@[j]
            == before.producers@[j]
    &&& is.scaling_up == was.scaling_up
    &&& same_output(&was.producer, &is.producer)
    &&& is.producer.queued_inputs() == was.producer.queued_inputs() + if fed {
        was.producer.intake()
    } else {
        0
    }
    &&& if was.queue@.len() == 0 && was.producer.available() > 0 {
        &&& is.queue@ == was.queue@
        &&& is.producer.available() == if was.producer.lasting() {
            was.producer.available() as int
        } else {
            was.producer.available() - 1
        }
        &&& after.queue.state(h.id) == Some(WaiterState::Done(was.producer.output()))
    } else {
        &&& is.queue@ == was.queue@.insert(slot(was.queue@, p), (h, p))
        &&& is.producer.available() == was.producer.available()
        &&& after.queue.state(h.id) matches Some(s) && registered(s, Waiter::Resource)
    }
}

} // verus!
