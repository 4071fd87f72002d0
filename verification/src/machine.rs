//! Producers: machines, the stores that balance load across them, and the
//! queues of requests in front of them.

use std::collections::VecDeque;
use std::ops::ControlFlow;
use vstd::pervasive::unreached;
use vstd::prelude::*;

use crate::runtime::{GameState, ProducerId, Tick};
use crate::scheduler::{woken_by, WaiterQueue, WaiterState, WakeHandle, WakeHandleId};
use crate::value::{Bundle, Value};

verus! {

/// How urgent a request is. Larger is more urgent.
#[derive(Debug, Clone, Copy, PartialEq, Eq, PartialOrd, Ord, Structural)]
pub struct Priority(pub u16);

/// Token indicating that an operation caused the tick to advance.
#[derive(Debug)]
pub struct AdvancedTick;

/// The position of a machine in its store.
#[derive(Debug, Clone, Copy, PartialEq, Eq, Structural)]
pub struct MachineId(pub usize);

/// One machine, as far as the scheduler looks into it: how many bundles of
/// input wait in it, and how many bundles of output lie ready in it. The
/// engine turns the one into the other in its own time.
#[derive(Debug)]
pub struct Machine {
    inputs: u32,
    outputs: u32,
}

impl Machine {
    /// The number of input bundles that wait in the machine.
    pub closed spec fn load(&self) -> nat {
        self.inputs as nat
    }

    /// The number of output bundles that lie ready in the machine.
    pub closed spec fn stock(&self) -> nat {
        self.outputs as nat
    }

    /// A machine that holds `inputs` bundles of input and `outputs` bundles
    /// of output.
    pub fn holding(inputs: u32, outputs: u32) -> (m: Machine)
        ensures
            m.load() == inputs,
            m.stock() == outputs,
    {
        Machine { inputs, outputs }
    }

    /// The number of input bundles currently in the machine.
    pub fn input_load(&self) -> (n: u32)
        ensures
            n == self.load(),
    {
        self.inputs
    }

    /// The number of output bundles currently in the machine.
    pub fn output_stock(&self) -> (n: u32)
        ensures
            n == self.stock(),
    {
        self.outputs
    }

    /// Puts one bundle of input into the machine.
    pub fn add_inputs(&mut self)
        requires
            old(self).load() < u32::MAX,
        ensures
            final(self).load() == old(self).load() + 1,
            final(self).stock() == old(self).stock(),
    {
        self.inputs = self.inputs + 1;
    }

    /// Takes one bundle of input back out of the machine, if it has one.
    /// Used to balance the load across machines of one kind.
    pub fn pop_inputs(&mut self) -> (taken: bool)
        ensures
            taken == (old(self).load() > 0),
            final(self).load() == if taken {
                old(self).load() - 1
            } else {
                old(self).load() as int
            },
            final(self).stock() == old(self).stock(),
    {
        if self.inputs > 0 {
            self.inputs = self.inputs - 1;
            true
        } else {
            false
        }
    }

    /// Puts one bundle of output into the machine; used for what was
    /// crafted by hand, to have somewhere to store it.
    pub fn add_outputs(&mut self)
        requires
            old(self).stock() < u32::MAX,
        ensures
            final(self).stock() == old(self).stock() + 1,
            final(self).load() == old(self).load(),
    {
        self.outputs = self.outputs + 1;
    }

    /// Takes one bundle of output out of the machine, if it has one.
    pub fn pop_outputs(&mut self) -> (taken: bool)
        ensures
            taken == (old(self).stock() > 0),
            final(self).stock() == if taken {
                old(self).stock() - 1
            } else {
                old(self).stock() as int
            },
            final(self).load() == old(self).load(),
    {
        if self.outputs > 0 {
            self.outputs = self.outputs - 1;
            true
        } else {
            false
        }
    }

    /// Records that the engine has run `cycles` cycles of the recipe in
    /// this machine: so many bundles of input have become bundles of output.
    pub fn complete_cycles(&mut self, cycles: u32)
        requires
            cycles <= old(self).load(),
            old(self).stock() + cycles <= u32::MAX,
        ensures
            final(self).load() == old(self).load() - cycles,
            final(self).stock() == old(self).stock() + cycles,
    {
        self.inputs = self.inputs - cycles;
        self.outputs = self.outputs + cycles;
    }
}

/// The input bundles in all of `machines` together.
pub open spec fn total_load(machines: Seq<Machine>) -> nat
    decreases machines.len(),
{
    if machines.len() == 0 {
        0
    } else {
        total_load(machines.drop_last()) + machines.last().load()
    }
}

/// The output bundles in all of `machines` together.
pub open spec fn total_stock(machines: Seq<Machine>) -> nat
    decreases machines.len(),
{
    if machines.len() == 0 {
        0
    } else {
        total_stock(machines.drop_last()) + machines.last().stock()
    }
}

/// The input bundles that `machines` hold above `level` each, together.
pub open spec fn excess_load(machines: Seq<Machine>, level: nat) -> nat
    decreases machines.len(),
{
    if machines.len() == 0 {
        0
    } else {
        let last = machines.last().load();
        excess_load(machines.drop_last(), level) + if last > level {
            (last - level) as nat
        } else {
            0
        }
    }
}

/// Whether the machine at `i` is the least loaded of `machines`, and the
/// first of those that are.
pub open spec fn least_loaded(machines: Seq<Machine>, i: int) -> bool {
    &&& 0 <= i < machines.len()
    &&& forall|j: int| 0 <= j < machines.len()
        ==> machines[i].load() <= (#[trigger] machines[j]).load()
    &&& forall|j: int| 0 <= j < i ==> machines[i].load() < (#[trigger] machines[j]).load()
}

/// Whether the machine at `i` is the first of `machines` that has output.
pub open spec fn first_stocked(machines: Seq<Machine>, i: int) -> bool {
    &&& 0 <= i < machines.len()
    &&& machines[i].stock() > 0
    &&& forall|j: int| 0 <= j < i ==> (#[trigger] machines[j]).stock() == 0
}

/// The load above `level` is part of the whole load.
proof fn lemma_excess_le_total(machines: Seq<Machine>, level: nat)
    ensures
        excess_load(machines, level) <= total_load(machines),
    decreases machines.len(),
{
    if machines.len() > 0 {
        lemma_excess_le_total(machines.drop_last(), level);
    }
}

/// The load of the first `i` machines is part of the whole load.
proof fn lemma_total_load_prefix(machines: Seq<Machine>, i: int)
    requires
        0 <= i <= machines.len(),
    ensures
        total_load(machines.take(i)) <= total_load(machines),
        i < machines.len() ==> total_load(machines.take(i)) + machines[i].load() <= total_load(
            machines,
        ),
    decreases machines.len() - i,
{
    if i < machines.len() {
        lemma_total_load_prefix(machines, i + 1);
        assert(machines.take(i + 1).drop_last() =~= machines.take(i));
        assert(machines.take(i + 1).last() == machines[i]);
    } else {
        assert(machines.take(i) =~= machines);
    }
}

/// The machines of one kind, if there are any yet.
pub enum MachineStorage<M> {
    /// No machine was built yet.
    NoMachine,
    /// These machines stand.
    Present(Vec<M>),
    /// The machines were taken away; to ask for one is an error.
    Removed,
}

impl<M> MachineStorage<M> {
    /// The machines that stand, in the order in which they were added.
    pub open spec fn machines(&self) -> Seq<M> {
        match self {
            MachineStorage::Present(v) => v@,
            _ => Seq::empty(),
        }
    }

    /// Whether machines were added and not taken away.
    pub fn is_present(&self) -> (r: bool)
        ensures
            r == (self is Present),
    {
        match self {
            MachineStorage::Present(_) => true,
            _ => false,
        }
    }

    /// Adds the machine `m`, after the ones that stand.
    pub fn add(&mut self, m: M)
        ensures
            *final(self) is Present,
            final(self).machines() == old(self).machines().push(m),
    {
        let mut taken = MachineStorage::Removed;
        std::mem::swap(self, &mut taken);
        let mut machines = match taken {
            MachineStorage::Present(v) => v,
            _ => Vec::new(),
        };
        machines.push(m);
        *self = MachineStorage::Present(machines);
    }

    /// The machines that stand, to go through one after the other.
    pub fn iter(&self) -> (all: &[M])
        ensures
            all@ == self.machines(),
    {
        match self {
            MachineStorage::Present(v) => v.as_slice(),
            _ => {
                let none: &[M] = &[];
                none
            },
        }
    }

    /// The machine at `id`, for use and change.
    pub fn get(&mut self, id: MachineId) -> (m: &mut M)
        requires
            *old(self) is Present,
            id.0 < old(self).machines().len(),
        ensures
            *m == old(self).machines()[id.0 as int],
            *final(self) is Present,
            final(self).machines() == old(self).machines().update(id.0 as int, *final(m)),
    {
        match self {
            MachineStorage::Present(v) => &mut v[id.0],
            _ => unreached(),
        }
    }

    /// Takes the machines away, leaving the store `Removed`, and returns the
    /// store of what `f` makes of each of them, in order.
    pub fn take_map<N, F: Fn(M) -> N>(&mut self, f: F) -> (r: MachineStorage<N>)
        requires
            forall|i: int|
                0 <= i < old(self).machines().len() ==> f.requires(
                    (#[trigger] old(self).machines()[i],),
                ),
        ensures
            *final(self) is Removed,
            *old(self) is NoMachine ==> r is NoMachine,
            *old(self) is Removed ==> r is Removed,
            *old(self) is Present ==> r is Present,
            r.machines().len() == old(self).machines().len(),
            forall|i: int|
                0 <= i < r.machines().len() ==> f.ensures(
                    (old(self).machines()[i],),
                    #[trigger] r.machines()[i],
                ),
    {
        let mut taken = MachineStorage::Removed;
        std::mem::swap(self, &mut taken);
        match taken {
            MachineStorage::NoMachine => MachineStorage::NoMachine,
            MachineStorage::Removed => MachineStorage::Removed,
            MachineStorage::Present(mut v) => {
                let ghost all = v@;
                assert(all == old(self).machines());
                assert forall|i: int| 0 <= i < all.len()
                    implies f.requires((#[trigger] all[i],)) by {
                    assert(f.requires((old(self).machines()[i],)));
                }
                let n = v.len();
                let mut back: Vec<N> = Vec::new();
                while v.len() > 0
                    invariant
                        n == all.len(),
                        v@.len() + back@.len() == n,
                        v@ == all.take(v@.len() as int),
                        forall|i: int| 0 <= i < all.len() ==> f.requires((#[trigger] all[i],)),
                        forall|j: int|
                            0 <= j < back@.len() ==> f.ensures(
                                (all[n - 1 - j],),
                                #[trigger] back@[j],
                            ),
                    decreases v.len(),
                {
                    let m = v.pop().unwrap();
                    assert(m == all[v@.len() as int]);
                    let made = f(m);
                    back.push(made);
                    assert(v@ =~= all.take(v@.len() as int));
                }
                let mut out: Vec<N> = Vec::new();
                let ghost made_back = back@;
                while back.len() > 0
                    invariant
                        n == all.len(),
                        made_back.len() == n,
                        back@.len() + out@.len() == n,
                        back@ == made_back.take(back@.len() as int),
                        forall|j: int|
                            0 <= j < made_back.len() ==> f.ensures(
                                (all[n - 1 - j],),
                                #[trigger] made_back[j],
                            ),
                        forall|i: int|
                            0 <= i < out@.len() ==> f.ensures((all[i],), #[trigger] out@[i]),
                    decreases back.len(),
                {
                    let x = back.pop().unwrap();
                    assert(x == made_back[back@.len() as int]);
                    out.push(x);
                    assert(back@ =~= made_back.take(back@.len() as int));
                }
                MachineStorage::Present(out)
            },
        }
    }
}

impl MachineStorage<Machine> {
    /// The least loaded machine to give the next input to: the first of
    /// those with the smallest load. There is none where no machine stands.
    pub fn request(&self) -> (r: Option<MachineId>)
        requires
            !(self is Removed),
        ensures
            match r {
                Some(id) => least_loaded(self.machines(), id.0 as int),
                None => self.machines().len() == 0,
            },
    {
        match self {
            MachineStorage::Present(v) => {
                if v.len() == 0 {
                    return None;
                }
                let mut best: usize = 0;
                let mut i: usize = 1;
                while i < v.len()
                    invariant
                        0 <= best < i <= v.len(),
                        least_loaded(v@.take(i as int), best as int),
                    decreases v.len() - i,
                {
                    if v[i].input_load() < v[best].input_load() {
                        best = i;
                    }
                    i += 1;
                    assert forall|j: int| 0 <= j < i implies v@.take(i as int)[best as int].load()
                        <= (#[trigger] v@.take(i as int)[j]).load() by {
                        if j < i - 1 {
                            assert(v@.take(i - 1)[j] == v@[j]);
                        }
                    }
                    assert forall|j: int| 0 <= j < best
                        implies v@.take(i as int)[best as int].load()
                        < (#[trigger] v@.take(i as int)[j]).load() by {
                        assert(v@.take(i - 1)[j] == v@[j]);
                    }
                }
                assert(v@.take(i as int) =~= v@);
                Some(MachineId(best))
            },
            _ => None,
        }
    }

    /// The largest load of any machine that stands.
    pub fn max_load(&self) -> (r: Option<u32>)
        ensures
            match r {
                Some(l) => (exists|i: int|
                    0 <= i < self.machines().len() && (#[trigger] self.machines()[i]).load() == l)
                    && forall|j: int|
                    0 <= j < self.machines().len() ==> (#[trigger] self.machines()[j]).load() <= l,
                None => self.machines().len() == 0,
            },
    {
        match self {
            MachineStorage::Present(v) => {
                if v.len() == 0 {
                    return None;
                }
                let mut best: u32 = v[0].input_load();
                let ghost mut at: int = 0;
                let mut i: usize = 1;
                while i < v.len()
                    invariant
                        1 <= i <= v.len(),
                        0 <= at < i,
                        v@[at].load() == best,
                        forall|j: int| 0 <= j < i ==> (#[trigger] v@[j]).load() <= best,
                    decreases v.len() - i,
                {
                    if v[i].input_load() > best {
                        best = v[i].input_load();
                        proof {
                            at = i as int;
                        }
                    }
                    i += 1;
                }
                assert(self.machines()[at].load() == best);
                Some(best)
            },
            _ => None,
        }
    }
}

/// The load above `level` of the first `i` machines is part of that of all.
proof fn lemma_excess_load_prefix(machines: Seq<Machine>, level: nat, i: int)
    requires
        0 <= i <= machines.len(),
    ensures
        excess_load(machines.take(i), level) <= excess_load(machines, level),
        i < machines.len() ==> excess_load(machines.take(i + 1), level) == excess_load(
            machines.take(i),
            level,
        ) + if machines[i].load() > level {
            (machines[i].load() - level) as nat
        } else {
            0
        },
    decreases machines.len() - i,
{
    if i < machines.len() {
        lemma_excess_load_prefix(machines, level, i + 1);
        assert(machines.take(i + 1).drop_last() =~= machines.take(i));
        assert(machines.take(i + 1).last() == machines[i]);
    } else {
        assert(machines.take(i) =~= machines);
    }
}

/// Machines with stock between them hold it somewhere: the first such
/// machine exists exactly when the whole stock is not zero.
proof fn lemma_total_stock_zero(machines: Seq<Machine>)
    ensures
        total_stock(machines) == 0 <==> forall|j: int|
            0 <= j < machines.len() ==> (#[trigger] machines[j]).stock() == 0,
    decreases machines.len(),
{
    if machines.len() > 0 {
        lemma_total_stock_zero(machines.drop_last());
        let front = machines.drop_last();
        if total_stock(machines) == 0 {
            assert forall|j: int| 0 <= j < machines.len() implies (#[trigger] machines[j]).stock()
                == 0 by {
                if j < front.len() {
                    assert(front[j] == machines[j]);
                }
            }
        }
        if forall|j: int| 0 <= j < machines.len() ==> (#[trigger] machines[j]).stock() == 0 {
            assert forall|j: int| 0 <= j < front.len() implies (#[trigger] front[j]).stock()
                == 0 by {
                assert(front[j] == machines[j]);
            }
            assert(machines.last() == machines[machines.len() - 1]);
        }
    }
}

/// Taking one bundle of output out of one machine takes one off the whole
/// stock.
proof fn lemma_total_stock_step(before: Seq<Machine>, after: Seq<Machine>, i: int)
    requires
        before.len() == after.len(),
        0 <= i < before.len(),
        before[i].stock() > 0,
        after[i].stock() == before[i].stock() - 1,
        forall|j: int| 0 <= j < before.len() && j != i ==> (#[trigger] after[j]).stock()
            == before[j].stock(),
    ensures
        total_stock(after) == total_stock(before) - 1,
    decreases before.len(),
{
    let n = before.len() - 1;
    if i == n {
        lemma_total_stock_same(before.drop_last(), after.drop_last());
    } else {
        assert(after[n].stock() == before[n].stock());
        assert forall|j: int| 0 <= j < n && j != i implies (#[trigger] after.drop_last()[j]).stock()
            == before.drop_last()[j].stock() by {
            assert(after[j].stock() == before[j].stock());
        }
        lemma_total_stock_step(before.drop_last(), after.drop_last(), i);
    }
}

/// Machines with the same stocks have the same stock together.
proof fn lemma_total_stock_same(before: Seq<Machine>, after: Seq<Machine>)
    requires
        before.len() == after.len(),
        forall|j: int| 0 <= j < before.len() ==> (#[trigger] after[j]).stock() == before[j].stock(),
    ensures
        total_stock(after) == total_stock(before),
    decreases before.len(),
{
    if before.len() > 0 {
        let n = before.len() - 1;
        assert(after[n].stock() == before[n].stock());
        assert forall|j: int| 0 <= j < n implies (#[trigger] after.drop_last()[j]).stock()
            == before.drop_last()[j].stock() by {
            assert(after[j].stock() == before[j].stock());
        }
        lemma_total_stock_same(before.drop_last(), after.drop_last());
    }
}

/// Machines with the same loads have the same load together.
proof fn lemma_total_load_same(before: Seq<Machine>, after: Seq<Machine>)
    requires
        before.len() == after.len(),
        forall|j: int| 0 <= j < before.len() ==> (#[trigger] after[j]).load() == before[j].load(),
    ensures
        total_load(after) == total_load(before),
    decreases before.len(),
{
    if before.len() > 0 {
        let n = before.len() - 1;
        assert(after[n].load() == before[n].load());
        assert forall|j: int| 0 <= j < n implies (#[trigger] after.drop_last()[j]).load()
            == before.drop_last()[j].load() by {
            assert(after[j].load() == before[j].load());
        }
        lemma_total_load_same(before.drop_last(), after.drop_last());
    }
}

/// Putting one bundle of input into one machine puts one on the whole
/// load.
proof fn lemma_total_load_step(before: Seq<Machine>, after: Seq<Machine>, i: int)
    requires
        before.len() == after.len(),
        0 <= i < before.len(),
        after[i].load() == before[i].load() + 1,
        forall|j: int| 0 <= j < before.len() && j != i ==> (#[trigger] after[j]).load()
            == before[j].load(),
    ensures
        total_load(after) == total_load(before) + 1,
    decreases before.len(),
{
    let n = before.len() - 1;
    if i == n {
        assert forall|j: int| 0 <= j < n implies (#[trigger] after.drop_last()[j]).load()
            == before.drop_last()[j].load() by {
            assert(after[j].load() == before[j].load());
        }
        lemma_total_load_same(before.drop_last(), after.drop_last());
    } else {
        assert(after[n].load() == before[n].load());
        assert forall|j: int| 0 <= j < n && j != i implies (#[trigger] after.drop_last()[j]).load()
            == before.drop_last()[j].load() by {
            assert(after[j].load() == before[j].load());
        }
        lemma_total_load_step(before.drop_last(), after.drop_last(), i);
    }
}

/// A store of machines of one kind that spreads the work over them. While
/// no machine stands, it buffers the inputs, and the outputs that were
/// crafted by hand, and hands both to the first machine that is added.
pub struct MultiMachine {
    machines: MachineStorage<Machine>,
    product: Bundle,
    inputs: u32,
    outputs: u32,
}

impl MultiMachine {
    /// Whether machines stand, none stands yet, or they were removed.
    pub closed spec fn storage(&self) -> MachineStorage<Machine> {
        self.machines
    }

    /// The machines that stand, in the order in which they were added.
    pub open spec fn machines(&self) -> Seq<Machine> {
        self.storage().machines()
    }

    /// What one bundle of output of these machines is.
    pub closed spec fn product(&self) -> Bundle {
        self.product
    }

    /// The input bundles gathered while no machine stands.
    pub closed spec fn buffered_inputs(&self) -> nat {
        self.inputs as nat
    }

    /// The output bundles crafted by hand while no machine stands.
    pub closed spec fn buffered_outputs(&self) -> nat {
        self.outputs as nat
    }

    /// Only a store without machines buffers anything, and the machines can
    /// be counted.
    pub open spec fn wf(&self) -> bool {
        &&& !(self.storage() is NoMachine) ==> self.buffered_inputs() == 0
            && self.buffered_outputs() == 0
        &&& self.buffered_inputs() + self.buffered_outputs() <= u32::MAX
        &&& self.machines().len() <= u32::MAX
    }

    /// The output bundles that can be taken now.
    pub open spec fn supply(&self) -> nat {
        match self.storage() {
            MachineStorage::NoMachine => self.buffered_outputs(),
            MachineStorage::Present(_) => total_stock(self.machines()),
            MachineStorage::Removed => 0,
        }
    }

    /// The input bundles that wait to be worked on.
    pub open spec fn backlog(&self) -> nat {
        match self.storage() {
            MachineStorage::NoMachine => self.buffered_inputs(),
            MachineStorage::Present(_) => total_load(self.machines()),
            MachineStorage::Removed => 0,
        }
    }

    /// A store without machines, for machines that make `product`.
    pub fn new(product: Bundle) -> (r: Self)
        ensures
            r.wf(),
            r.storage() is NoMachine,
            r.product() == product,
            r.buffered_inputs() == 0,
            r.buffered_outputs() == 0,
    {
        MultiMachine { machines: MachineStorage::NoMachine, product, inputs: 0, outputs: 0 }
    }

    /// Whether at least one machine stands.
    pub fn is_present(&self) -> (r: bool)
        ensures
            r == (self.storage() is Present && self.machines().len() > 0),
    {
        match &self.machines {
            MachineStorage::Present(v) => v.len() > 0,
            _ => false,
        }
    }

    /// Whether the machines were taken away.
    pub fn is_removed(&self) -> (r: bool)
        ensures
            r == (self.storage() is Removed),
    {
        match &self.machines {
            MachineStorage::Removed => true,
            _ => false,
        }
    }

    /// The number of machines that stand.
    pub fn count(&self) -> (n: u32)
        requires
            self.wf(),
        ensures
            n == self.machines().len(),
    {
        match &self.machines {
            MachineStorage::Present(v) => v.len() as u32,
            _ => 0,
        }
    }

    /// The load of each machine that stands, in order.
    pub fn loads(&self) -> (r: Vec<u32>)
        ensures
            r@.len() == self.machines().len(),
            forall|i: int| 0 <= i < r@.len() ==> #[trigger] r@[i] == self.machines()[i].load(),
    {
        let all = self.machines.iter();
        let mut out: Vec<u32> = Vec::new();
        let mut i: usize = 0;
        while i < all.len()
            invariant
                i <= all.len(),
                all@ == self.machines(),
                out@.len() == i,
                forall|j: int| 0 <= j < i ==> #[trigger] out@[j] == self.machines()[j].load(),
            decreases all.len() - i,
        {
            out.push(all[i].input_load());
            i += 1;
        }
        out
    }

    /// The stock of output of each machine that stands, in order.
    pub fn stocks(&self) -> (r: Vec<u32>)
        ensures
            r@.len() == self.machines().len(),
            forall|i: int| 0 <= i < r@.len() ==> #[trigger] r@[i] == self.machines()[i].stock(),
    {
        let all = self.machines.iter();
        let mut out: Vec<u32> = Vec::new();
        let mut i: usize = 0;
        while i < all.len()
            invariant
                i <= all.len(),
                all@ == self.machines(),
                out@.len() == i,
                forall|j: int| 0 <= j < i ==> #[trigger] out@[j] == self.machines()[j].stock(),
            decreases all.len() - i,
        {
            out.push(all[i].output_stock());
            i += 1;
        }
        out
    }

    /// Adds the machine `m`.
    ///
    /// The first machine takes over what was buffered. A later machine
    /// takes from each machine that stands what that one holds above the
    /// new average load, which is the whole load of the machines that stand
    /// divided by their number with the new one.
    pub fn add(&mut self, m: Machine)
        requires
            old(self).wf(),
            !(old(self).storage() is Removed),
            old(self).machines().len() < u32::MAX,
            m.load() + old(self).backlog() <= u32::MAX,
            m.stock() + old(self).buffered_outputs() <= u32::MAX,
        ensures
            final(self).wf(),
            added(old(self), final(self), m),
    {
        let ghost m0 = m;
        let mut m = m;
        let mut taken = MachineStorage::Removed;
        std::mem::swap(&mut self.machines, &mut taken);
        match taken {
            MachineStorage::Present(mut items) => {
                let ghost before = items@;
                let n = items.len();
                let mut total: u32 = 0;
                let mut k: usize = 0;
                while k < n
                    invariant
                        n == items.len(),
                        items@ == before,
                        k <= n,
                        total == total_load(before.take(k as int)),
                        total_load(before) <= u32::MAX,
                    decreases n - k,
                {
                    proof {
                        lemma_total_load_prefix(before, k as int);
                        assert(before.take(k + 1).drop_last() =~= before.take(k as int));
                        assert(before.take(k + 1).last() == before[k as int]);
                    }
                    total = total + items[k].input_load();
                    k += 1;
                }
                assert(before.take(n as int) =~= before);
                let average: u32 = total / (n as u32 + 1);
                let ghost level = average as nat;
                let mut i: usize = 0;
                assert(excess_load(before.take(0), level) == 0);
                while i < n
                    invariant
                        n == items.len(),
                        n == before.len(),
                        i <= n,
                        level == average,
                        m0.load() + total_load(before) <= u32::MAX,
                        forall|j: int|
                            0 <= j < i ==> (#[trigger] items@[j]).load() == if before[j].load()
                                > level {
                                level
                            } else {
                                before[j].load()
                            } && items@[j].stock() == before[j].stock(),
                        forall|j: int| i <= j < n ==> #[trigger] items@[j] == before[j],
                        m.load() == m0.load() + excess_load(before.take(i as int), level),
                        m.stock() == m0.stock(),
                    decreases n - i,
                {
                    proof {
                        lemma_excess_load_prefix(before, level, i as int);
                        lemma_excess_load_prefix(before, level, i as int + 1);
                        lemma_excess_le_total(before, level);
                    }
                    while items[i].input_load() > average
                        invariant
                            n == items.len(),
                            n == before.len(),
                            i < n,
                            level == average,
                            m0.load() + excess_load(before.take(i as int + 1), level) <= u32::MAX,
                            excess_load(before.take(i as int + 1), level) == excess_load(
                                before.take(i as int),
                                level,
                            ) + if before[i as int].load() > level {
                                (before[i as int].load() - level) as nat
                            } else {
                                0
                            },
                            forall|j: int|
                                0 <= j < i ==> (#[trigger] items@[j]).load() == if before[j].load()
                                    > level {
                                    level
                                } else {
                                    before[j].load()
                                } && items@[j].stock() == before[j].stock(),
                            forall|j: int| i < j < n ==> #[trigger] items@[j] == before[j],
                            items@[i as int].stock() == before[i as int].stock(),
                            items@[i as int].load() <= before[i as int].load(),
                            items@[i as int].load() >= level || items@[i as int].load()
                                == before[i as int].load(),
                            m.load() == m0.load() + excess_load(before.take(i as int), level) + (
                            before[i as int].load() - items@[i as int].load()),
                            m.stock() == m0.stock(),
                        decreases items@[i as int].load(),
                    {
                        let _ = items[i].pop_inputs();
                        m.add_inputs();
                    }
                    i += 1;
                }
                assert(before.take(n as int) =~= before);
                items.push(m);
                self.machines = MachineStorage::Present(items);
            },
            _ => {
                while self.inputs > 0
                    invariant
                        self.outputs == old(self).outputs,
                        self.product == old(self).product,
                        m.load() + self.inputs == m0.load() + old(self).inputs,
                        m0.load() + old(self).inputs <= u32::MAX,
                        m.stock() == m0.stock(),
                    decreases self.inputs,
                {
                    self.inputs = self.inputs - 1;
                    m.add_inputs();
                }
                while self.outputs > 0
                    invariant
                        self.inputs == 0,
                        self.product == old(self).product,
                        m.stock() + self.outputs == m0.stock() + old(self).outputs,
                        m0.stock() + old(self).outputs <= u32::MAX,
                        m.load() == m0.load() + old(self).inputs,
                    decreases self.outputs,
                {
                    self.outputs = self.outputs - 1;
                    m.add_outputs();
                }
                let mut items: Vec<Machine> = Vec::new();
                items.push(m);
                self.machines = MachineStorage::Present(items);
            },
        }
    }

    /// Gives one bundle of input to the store: to the buffer while no
    /// machine stands, and else to the least loaded machine, the first of
    /// them where several are.
    pub fn add_inputs(&mut self)
        requires
            old(self).wf(),
            old(self).accepts(),
        ensures
            final(self).wf(),
            final(self).product() == old(self).product(),
            final(self).buffered_outputs() == old(self).buffered_outputs(),
            final(self).backlog() == old(self).backlog() + 1,
            final(self).supply() == old(self).supply(),
            old(self).storage() is NoMachine ==> final(self).storage() is NoMachine
                && final(self).buffered_inputs() == old(self).buffered_inputs() + 1,
            old(self).storage() is Present ==> final(self).storage() is Present
                && final(self).machines().len() == old(self).machines().len() && forall|j: int|
                0 <= j < old(self).machines().len()
                    ==> (#[trigger] final(self).machines()[j]).stock()
                    == old(self).machines()[j].stock() && final(self).machines()[j].load()
                        == old(self).machines()[j].load()
                        + if least_loaded(old(self).machines(), j) {
                    1int
                } else {
                    0int
                },
    {
        match self.machines.request() {
            None => {
                self.inputs = self.inputs + 1;
            },
            Some(id) => {
                let ghost before = self.machines();
                assert(least_loaded(before, id.0 as int));
                let slot = self.machines.get(id);
                slot.add_inputs();
                proof {
                    lemma_total_load_step(before, self.machines(), id.0 as int);
                    lemma_total_stock_same(before, self.machines());
                }
                assert forall|j: int| 0 <= j < before.len() implies (least_loaded(before, j) <==> j
                    == id.0) by {
                    if least_loaded(before, j) && j != id.0 {
                        if j < id.0 {
                            assert(before[id.0 as int].load() < before[j].load());
                        } else {
                            assert(before[j].load() < before[id.0 as int].load());
                        }
                    }
                }
            },
        }
    }

    /// Whether the store can take a bundle of input: it was not removed, it
    /// is not a store whose machines were all mapped away, and the count of
    /// bundles at the place that takes the next one can still grow.
    pub open spec fn accepts(&self) -> bool {
        match self.storage() {
            MachineStorage::NoMachine => self.buffered_inputs() + self.buffered_outputs()
                < u32::MAX,
            MachineStorage::Present(_) => self.machines().len() > 0 && forall|i: int|
                least_loaded(self.machines(), i) ==> (#[trigger] self.machines()[i]).load()
                    < u32::MAX,
            MachineStorage::Removed => false,
        }
    }

    /// Takes one bundle of output, if there is one: from the buffer while
    /// no machine stands, and else from the first machine that has one.
    pub fn poll(&mut self) -> (r: Option<Value>)
        requires
            old(self).wf(),
        ensures
            final(self).wf(),
            final(self).product() == old(self).product(),
            final(self).buffered_inputs() == old(self).buffered_inputs(),
            final(self).machines().len() == old(self).machines().len(),
            (final(self).storage() is NoMachine) == (old(self).storage() is NoMachine),
            (final(self).storage() is Present) == (old(self).storage() is Present),
            r is Some <==> old(self).supply() > 0,
            r is Some ==> r == Some(Value::Bundle(old(self).product())),
            final(self).supply() == if r is Some {
                old(self).supply() - 1
            } else {
                old(self).supply() as int
            },
            final(self).backlog() == old(self).backlog(),
            forall|j: int|
                0 <= j < old(self).machines().len()
                    ==> (#[trigger] final(self).machines()[j]).load()
                    == old(self).machines()[j].load() && final(self).machines()[j].stock()
                        == old(self).machines()[j].stock()
                        - if first_stocked(old(self).machines(), j) {
                    1int
                } else {
                    0int
                },
    {
        let mut taken = MachineStorage::Removed;
        std::mem::swap(&mut self.machines, &mut taken);
        match taken {
            MachineStorage::NoMachine => {
                self.machines = MachineStorage::NoMachine;
                if self.outputs > 0 {
                    self.outputs = self.outputs - 1;
                    Some(Value::Bundle(self.product))
                } else {
                    None
                }
            },
            MachineStorage::Removed => None,
            MachineStorage::Present(mut items) => {
                let ghost before = items@;
                let n = items.len();
                let mut i: usize = 0;
                let mut found = false;
                while i < n && !found
                    invariant
                        n == items.len(),
                        n == before.len(),
                        i <= n,
                        !found ==> items@ == before,
                        !found ==> forall|j: int| 0 <= j < i ==> (#[trigger] before[j]).stock()
                            == 0,
                        found ==> 0 < i && first_stocked(before, i - 1) && items@[i - 1].stock()
                            == before[i - 1].stock() - 1 && items@[i - 1].load() == before[i
                            - 1].load() && forall|j: int|
                            0 <= j < n && j != i - 1 ==> #[trigger] items@[j] == before[j],
                    decreases n - i, if found { 0int } else { 1int },
                {
                    found = items[i].pop_outputs();
                    i += 1;
                }
                proof {
                    lemma_total_stock_zero(before);
                    if found {
                        lemma_total_stock_step(before, items@, i - 1);
                        lemma_total_load_same(before, items@);
                        assert forall|j: int| 0 <= j < n implies (first_stocked(before, j) <==> j
                            == i - 1) by {
                            if first_stocked(before, j) && j != i - 1 {
                                if j < i - 1 {
                                    assert(before[j].stock() == 0);
                                } else {
                                    assert(before[i - 1].stock() == 0);
                                }
                            }
                        }
                    } else {
                        assert forall|j: int| 0 <= j < n implies !first_stocked(before, j) by {
                            assert(before[j].stock() == 0);
                        }
                    }
                }
                self.machines = MachineStorage::Present(items);
                if found {
                    Some(Value::Bundle(self.product))
                } else {
                    None
                }
            },
        }
    }

    /// Records that the engine has run `cycles` cycles of the recipe in
    /// the machine at `id`.
    pub fn complete_cycles(&mut self, id: MachineId, cycles: u32)
        requires
            old(self).wf(),
            id.0 < old(self).machines().len(),
            cycles <= old(self).machines()[id.0 as int].load(),
            old(self).machines()[id.0 as int].stock() + cycles <= u32::MAX,
        ensures
            final(self).wf(),
            final(self).storage() is Present,
            final(self).product() == old(self).product(),
            final(self).machines().len() == old(self).machines().len(),
            final(self).machines()[id.0 as int].load() == old(self).machines()[id.0 as int].load()
                - cycles,
            final(self).machines()[id.0 as int].stock() == old(self).machines()[id.0 as int].stock()
                + cycles,
            forall|j: int|
                0 <= j < old(self).machines().len() && j != id.0
                    ==> #[trigger] final(self).machines()[j] == old(self).machines()[j],
    {
        let slot = self.machines.get(id);
        slot.complete_cycles(cycles);
    }

    /// Takes the machines away for good, and returns the store of what `f`
    /// makes of each of them, which makes `product`. What was buffered goes
    /// over to the new store.
    pub fn take_map<F: Fn(Machine) -> Machine>(&mut self, product: Bundle, f: F) -> (r: MultiMachine)
        requires
            old(self).wf(),
            forall|i: int|
                0 <= i < old(self).machines().len() ==> f.requires(
                    (#[trigger] old(self).machines()[i],),
                ),
        ensures
            final(self).wf(),
            final(self).storage() is Removed,
            final(self).product() == old(self).product(),
            r.wf(),
            r.product() == product,
            r.buffered_inputs() == old(self).buffered_inputs(),
            r.buffered_outputs() == old(self).buffered_outputs(),
            old(self).storage() is NoMachine ==> r.storage() is NoMachine,
            old(self).storage() is Removed ==> r.storage() is Removed,
            old(self).storage() is Present ==> r.storage() is Present,
            r.machines().len() == old(self).machines().len(),
            forall|i: int|
                0 <= i < r.machines().len() ==> f.ensures(
                    (old(self).machines()[i],),
                    #[trigger] r.machines()[i],
                ),
    {
        let machines = self.machines.take_map(f);
        let r = MultiMachine { machines, product, inputs: self.inputs, outputs: self.outputs };
        self.inputs = 0;
        self.outputs = 0;
        r
    }

    /// Crafts one bundle of output by hand from one buffered bundle of
    /// input, if there is one; that takes one tick. Only a store without
    /// machines crafts by hand.
    pub fn craft_by_hand(&mut self, tick: &mut Tick) -> (r: ControlFlow<AdvancedTick>)
        requires
            old(self).wf(),
            old(self).storage() is NoMachine,
            old(tick)@ < u64::MAX,
        ensures
            final(self).wf(),
            final(self).storage() is NoMachine,
            final(self).product() == old(self).product(),
            r is Break <==> old(self).buffered_inputs() > 0,
            r is Break ==> final(self).buffered_inputs() == old(self).buffered_inputs() - 1
                && final(self).buffered_outputs() == old(self).buffered_outputs() + 1
                    && final(tick)@ == old(tick)@ + 1,
            r is Continue ==> *final(self) == *old(self) && *final(tick) == *old(tick),
    {
        if self.inputs > 0 {
            self.inputs = self.inputs - 1;
            tick.advance();
            self.outputs = self.outputs + 1;
            ControlFlow::Break(AdvancedTick)
        } else {
            ControlFlow::Continue(())
        }
    }
}

/// Whether `after` is the store `before` with the machine `m` added: the
/// first machine has taken over what was buffered, and a later one its
/// share of the load of the others.
pub open spec fn added(before: &MultiMachine, after: &MultiMachine, m: Machine) -> bool {
    &&& after.storage() is Present
    &&& after.product() == before.product()
    &&& after.machines().len() == before.machines().len() + 1
    &&& before.storage() is NoMachine ==> after.machines()[0].load() == m.load()
        + before.buffered_inputs() && after.machines()[0].stock() == m.stock()
        + before.buffered_outputs()
    &&& before.storage() is Present ==> rebalanced(before.machines(), after.machines(), m)
}

/// Whether `after` is `before` with the machine `m` added and the load
/// balanced: each machine that stood keeps what it held up to the new
/// average load, and the new machine holds, with what it brought, all that
/// the others held above it.
pub open spec fn rebalanced(before: Seq<Machine>, after: Seq<Machine>, m: Machine) -> bool {
    let level = total_load(before) / (before.len() + 1) as nat;
    &&& after.len() == before.len() + 1
    &&& forall|j: int|
        0 <= j < before.len() ==> (#[trigger] after[j]).load() == if before[j].load() > level {
            level
        } else {
            before[j].load()
        } && after[j].stock() == before[j].stock()
    &&& after[before.len() as int].load() == m.load() + excess_load(before, level)
    &&& after[before.len() as int].stock() == m.stock()
}

/// What it takes to give a producer one more producing entity.
#[derive(Debug, Clone, Copy, PartialEq, Eq, Structural)]
pub enum ScaleUp {
    /// One more entity is to be built, and added when it is ready.
    Build,
    /// The producer cannot grow: the request never resolves.
    Never,
    /// There is nothing to build: the request resolves at once.
    Ready,
}

/// An entity that produces outputs.
pub trait Producer: Sized {
    /// Whether the producer is well formed.
    spec fn valid(&self) -> bool;

    /// How many outputs the producer can hand over now.
    spec fn available(&self) -> nat;

    /// Whether an output stays available when it is handed over.
    spec fn lasting(&self) -> bool;

    /// What the producer hands over as one output.
    spec fn output(&self) -> Value;

    /// How many producing entities (miners, machines, ..) the producer has.
    spec fn parallelism(&self) -> nat;

    /// How many bundles of input wait in the producer.
    spec fn queued_inputs(&self) -> nat;

    /// By how many bundles the waiting input grows when the producer is
    /// given inputs: by one, or by none where it needs no input.
    spec fn intake(&self) -> nat;

    /// Whether the producer can be given inputs.
    spec fn can_take_inputs(&self) -> bool;

    /// What it takes to give the producer one more producing entity, while
    /// `in_flight` entities are being built for it, this one counted.
    spec fn plan(&self, in_flight: u32) -> ScaleUp;

    /// Whether `after` is this producer once a decision on a scale-up was
    /// taken: the same in all but the note that the decision was taken.
    spec fn decided(&self, after: &Self) -> bool;

    /// Counts the producing entities (miners, machines, ..) available.
    fn available_parallelism(&self) -> (n: u32)
        requires
            self.valid(),
        ensures
            n == self.parallelism(),
    ;

    /// Gives the producer the inputs for one output.
    fn add_inputs(&mut self)
        requires
            old(self).valid(),
            old(self).can_take_inputs(),
        ensures
            final(self).valid(),
            final(self).queued_inputs() == old(self).queued_inputs() + old(self).intake(),
            forall|n: u32| #[trigger] final(self).plan(n) == old(self).plan(n),
            final(self).output() == old(self).output(),
            final(self).lasting() == old(self).lasting(),
            final(self).parallelism() == old(self).parallelism(),
            final(self).intake() == old(self).intake(),
            final(self).available() == old(self).available(),
    ;

    /// Yields an output if one is ready.
    fn poll(&mut self) -> (r: Option<Value>)
        requires
            old(self).valid(),
        ensures
            final(self).valid(),
            r is Some <==> old(self).available() > 0,
            r is Some ==> r == Some(old(self).output()),
            forall|n: u32| #[trigger] final(self).plan(n) == old(self).plan(n),
            final(self).output() == old(self).output(),
            final(self).lasting() == old(self).lasting(),
            final(self).parallelism() == old(self).parallelism(),
            final(self).intake() == old(self).intake(),
            final(self).queued_inputs() == old(self).queued_inputs(),
            final(self).available() == if r is Some && !old(self).lasting() {
                old(self).available() - 1
            } else {
                old(self).available() as int
            },
    ;

    /// Decides what it takes to add a producing entity, while `in_flight`
    /// are being built, this one counted. This is called when the load
    /// becomes too high for the available parallelism.
    fn scale_up(&mut self, in_flight: u32) -> (plan: ScaleUp)
        requires
            old(self).valid(),
        ensures
            final(self).valid(),
            plan == old(self).plan(in_flight),
            old(self).decided(final(self)),
            final(self).output() == old(self).output(),
            final(self).lasting() == old(self).lasting(),
            final(self).parallelism() == old(self).parallelism(),
            final(self).intake() == old(self).intake(),
            final(self).queued_inputs() == old(self).queued_inputs(),
            final(self).available() == old(self).available(),
    ;
}

/// Whether `b` hands over the same as `a`, from as many entities.
pub open spec fn same_output<P: Producer>(a: &P, b: &P) -> bool {
    &&& b.output() == a.output()
    &&& b.lasting() == a.lasting()
    &&& b.parallelism() == a.parallelism()
    &&& b.intake() == a.intake()
}

/// A producer that can be run by hand if needed.
pub trait HandProducer: Producer {
    /// Whether the producer has what it takes to produce automatically.
    spec fn automatic(&self) -> bool;

    /// Whether the producer can be run by hand at all.
    spec fn runs_by_hand(&self) -> bool;

    /// Whether a run by hand would produce something now.
    spec fn has_work(&self) -> bool;

    /// Whether the producer has the right machines to produce output
    /// automatically.
    fn can_craft_automatically(&self) -> (r: bool)
        requires
            self.valid(),
        ensures
            r == self.automatic(),
    ;

    /// Whether the producer can be run by hand at all.
    fn can_craft_by_hand(&self) -> (r: bool)
        requires
            self.valid(),
        ensures
            r == self.runs_by_hand(),
    ;

    /// Runs the producer by hand once. Says whether that advanced the
    /// tick, which it does, by exactly one, whenever something is
    /// produced.
    fn craft_by_hand(&mut self, tick: &mut Tick) -> (r: ControlFlow<AdvancedTick>)
        requires
            old(self).valid(),
            old(self).runs_by_hand(),
            old(tick)@ < u64::MAX,
        ensures
            final(self).valid(),
            final(self).output() == old(self).output(),
            final(self).lasting() == old(self).lasting(),
            final(self).parallelism() == old(self).parallelism(),
            final(self).intake() == old(self).intake(),
            final(self).automatic() == old(self).automatic(),
            forall|n: u32| #[trigger] final(self).plan(n) == old(self).plan(n),
            r is Break <==> old(self).has_work(),
            r is Break ==> final(tick)@ == old(tick)@ + 1 && final(self).available() == old(
                self,
            ).available() + 1 && final(self).queued_inputs() + old(self).intake() == old(
                self,
            ).queued_inputs(),
            r is Continue ==> *final(self) == *old(self) && *final(tick) == *old(tick),
    ;
}

impl Producer for MultiMachine {
    open spec fn valid(&self) -> bool {
        self.wf()
    }

    open spec fn available(&self) -> nat {
        self.supply()
    }

    open spec fn lasting(&self) -> bool {
        false
    }

    open spec fn output(&self) -> Value {
        Value::Bundle(self.product())
    }

    open spec fn parallelism(&self) -> nat {
        self.machines().len()
    }

    open spec fn queued_inputs(&self) -> nat {
        self.backlog()
    }

    open spec fn intake(&self) -> nat {
        1
    }

    open spec fn can_take_inputs(&self) -> bool {
        self.accepts()
    }

    open spec fn plan(&self, in_flight: u32) -> ScaleUp {
        ScaleUp::Build
    }

    open spec fn decided(&self, after: &Self) -> bool {
        *after == *self
    }

    fn available_parallelism(&self) -> (n: u32) {
        self.count()
    }

    fn add_inputs(&mut self) {
        MultiMachine::add_inputs(self)
    }

    fn poll(&mut self) -> (r: Option<Value>) {
        MultiMachine::poll(self)
    }

    fn scale_up(&mut self, in_flight: u32) -> (plan: ScaleUp) {
        ScaleUp::Build
    }
}

impl HandProducer for MultiMachine {
    open spec fn automatic(&self) -> bool {
        self.storage() is Present && self.machines().len() > 0
    }

    open spec fn runs_by_hand(&self) -> bool {
        self.storage() is NoMachine
    }

    open spec fn has_work(&self) -> bool {
        self.buffered_inputs() > 0
    }

    fn can_craft_automatically(&self) -> (r: bool) {
        self.is_present()
    }

    fn can_craft_by_hand(&self) -> (r: bool) {
        !self.machines.is_present() && !self.is_removed()
    }

    fn craft_by_hand(&mut self, tick: &mut Tick) -> (r: ControlFlow<AdvancedTick>) {
        MultiMachine::craft_by_hand(self, tick)
    }
}

/// Producer that represents handcrafting: it holds the inputs it was
/// given until somebody crafts them by hand, and the outputs until they are
/// asked for.
pub struct HandCrafter {
    product: Bundle,
    inputs: u32,
    outputs: u32,
}

impl HandCrafter {
    /// What one bundle of output is.
    pub closed spec fn product(&self) -> Bundle {
        self.product
    }

    /// The bundles of input that wait to be crafted.
    pub closed spec fn waiting(&self) -> nat {
        self.inputs as nat
    }

    /// The bundles of output that were crafted and not asked for yet.
    pub closed spec fn crafted(&self) -> nat {
        self.outputs as nat
    }

    /// The bundles it holds can be counted together.
    pub open spec fn wf(&self) -> bool {
        self.waiting() + self.crafted() <= u32::MAX
    }

    /// A hand crafter that holds nothing, for the recipe that makes
    /// `product`.
    pub fn new(product: Bundle) -> (r: Self)
        ensures
            r.wf(),
            r.product() == product,
            r.waiting() == 0,
            r.crafted() == 0,
    {
        HandCrafter { product, inputs: 0, outputs: 0 }
    }
}

impl Producer for HandCrafter {
    open spec fn valid(&self) -> bool {
        self.wf()
    }

    open spec fn available(&self) -> nat {
        self.crafted()
    }

    open spec fn lasting(&self) -> bool {
        false
    }

    open spec fn output(&self) -> Value {
        Value::Bundle(self.product())
    }

    open spec fn parallelism(&self) -> nat {
        1
    }

    open spec fn queued_inputs(&self) -> nat {
        self.waiting()
    }

    open spec fn intake(&self) -> nat {
        1
    }

    open spec fn can_take_inputs(&self) -> bool {
        self.waiting() + self.crafted() < u32::MAX
    }

    open spec fn plan(&self, in_flight: u32) -> ScaleUp {
        ScaleUp::Never
    }

    open spec fn decided(&self, after: &Self) -> bool {
        *after == *self
    }

    fn available_parallelism(&self) -> (n: u32) {
        1
    }

    fn add_inputs(&mut self) {
        self.inputs = self.inputs + 1;
    }

    fn poll(&mut self) -> (r: Option<Value>) {
        if self.outputs > 0 {
            self.outputs = self.outputs - 1;
            Some(Value::Bundle(self.product))
        } else {
            None
        }
    }

    fn scale_up(&mut self, in_flight: u32) -> (plan: ScaleUp) {
        ScaleUp::Never
    }
}

impl HandProducer for HandCrafter {
    open spec fn automatic(&self) -> bool {
        false
    }

    open spec fn runs_by_hand(&self) -> bool {
        true
    }

    open spec fn has_work(&self) -> bool {
        self.waiting() > 0
    }

    fn can_craft_automatically(&self) -> (r: bool) {
        false
    }

    fn can_craft_by_hand(&self) -> (r: bool) {
        true
    }

    fn craft_by_hand(&mut self, tick: &mut Tick) -> (r: ControlFlow<AdvancedTick>) {
        if self.inputs > 0 {
            self.inputs = self.inputs - 1;
            tick.advance();
            self.outputs = self.outputs + 1;
            ControlFlow::Break(AdvancedTick)
        } else {
            ControlFlow::Continue(())
        }
    }
}

/// Why a miner could not be added to a territory: all its places are taken.
#[derive(Debug, Clone, Copy, PartialEq, Eq, Structural)]
pub struct TerritoryFullError {
    /// The number of miners that the territory has room for.
    pub max_miners: u32,
}

/// A territory, as far as the scheduler looks into it: the ore that lies
/// mined in it, the miners that work it, and how many it has room for. The
/// engine mines in its own time.
pub struct Territory {
    resource: u32,
    max_miners: u32,
    miners: u32,
    ore: u32,
}

impl Territory {
    /// Which resource the ore is.
    pub closed spec fn resource(&self) -> u32 {
        self.resource
    }

    /// The number of miners that the territory has room for.
    pub closed spec fn room(&self) -> nat {
        self.max_miners as nat
    }

    /// The number of miners in the territory.
    pub closed spec fn miners(&self) -> nat {
        self.miners as nat
    }

    /// The units of ore that lie mined.
    pub closed spec fn ore(&self) -> nat {
        self.ore as nat
    }

    /// There are no more miners than the territory has room for.
    pub open spec fn wf(&self) -> bool {
        self.miners() <= self.room()
    }

    /// A territory of `resource` without miners or ore, with room for
    /// `max_miners` miners.
    pub fn new(resource: u32, max_miners: u32) -> (r: Self)
        ensures
            r.wf(),
            r.resource() == resource,
            r.room() == max_miners,
            r.miners() == 0,
            r.ore() == 0,
    {
        Territory { resource, max_miners, miners: 0, ore: 0 }
    }

    /// The number of miners that the territory has room for.
    pub fn max_miners(&self) -> (n: u32)
        ensures
            n == self.room(),
    {
        self.max_miners
    }

    /// The number of miners in the territory.
    pub fn num_miners(&self) -> (n: u32)
        ensures
            n == self.miners(),
    {
        self.miners
    }

    /// Adds a miner, if the territory has room for one more.
    pub fn add_miner(&mut self) -> (r: Result<(), TerritoryFullError>)
        requires
            old(self).wf(),
        ensures
            final(self).wf(),
            miner_added(old(self), final(self), r),
    {
        if self.miners < self.max_miners {
            self.miners = self.miners + 1;
            Ok(())
        } else {
            Err(TerritoryFullError { max_miners: self.max_miners })
        }
    }

    /// Records that the engine has mined `units` units of ore.
    pub fn deposit(&mut self, units: u32)
        requires
            old(self).ore() + units <= u32::MAX,
        ensures
            final(self).ore() == old(self).ore() + units,
            final(self).resource() == old(self).resource(),
            final(self).room() == old(self).room(),
            final(self).miners() == old(self).miners(),
    {
        self.ore = self.ore + units;
    }
}

impl Producer for Territory {
    open spec fn valid(&self) -> bool {
        self.wf()
    }

    open spec fn available(&self) -> nat {
        self.ore()
    }

    open spec fn lasting(&self) -> bool {
        false
    }

    open spec fn output(&self) -> Value {
        Value::Bundle(Bundle { resource: self.resource(), amount: 1 })
    }

    open spec fn parallelism(&self) -> nat {
        self.miners()
    }

    open spec fn queued_inputs(&self) -> nat {
        0
    }

    open spec fn intake(&self) -> nat {
        0
    }

    open spec fn can_take_inputs(&self) -> bool {
        true
    }

    open spec fn plan(&self, in_flight: u32) -> ScaleUp {
        if self.miners() + in_flight <= self.room() {
            ScaleUp::Build
        } else {
            ScaleUp::Never
        }
    }

    open spec fn decided(&self, after: &Self) -> bool {
        *after == *self
    }

    fn available_parallelism(&self) -> (n: u32) {
        self.miners
    }

    fn add_inputs(&mut self) {
    }

    fn poll(&mut self) -> (r: Option<Value>) {
        if self.ore > 0 {
            self.ore = self.ore - 1;
            Some(Value::Bundle(Bundle { resource: self.resource, amount: 1 }))
        } else {
            None
        }
    }

    fn scale_up(&mut self, in_flight: u32) -> (plan: ScaleUp) {
        if in_flight <= self.max_miners - self.miners {
            ScaleUp::Build
        } else {
            ScaleUp::Never
        }
    }
}

impl HandProducer for Territory {
    open spec fn automatic(&self) -> bool {
        self.miners() > 0
    }

    open spec fn runs_by_hand(&self) -> bool {
        self.ore() < u32::MAX
    }

    open spec fn has_work(&self) -> bool {
        true
    }

    fn can_craft_automatically(&self) -> (r: bool) {
        self.miners > 0
    }

    fn can_craft_by_hand(&self) -> (r: bool) {
        self.ore < u32::MAX
    }

    fn craft_by_hand(&mut self, tick: &mut Tick) -> (r: ControlFlow<AdvancedTick>) {
        tick.advance();
        self.ore = self.ore + 1;
        ControlFlow::Break(AdvancedTick)
    }
}

/// Wrapper for what needs to be made only once: the first request for it
/// starts the making, and later ones use what was made.
pub struct TheFirstTime<R>(pub R);

/// Producer of a thing that is made once and handed to everybody who asks:
/// a token for it, which can be copied freely.
pub struct OnceMaker {
    is_started: bool,
    output: Option<u32>,
}

impl OnceMaker {
    /// Whether the making was started.
    pub closed spec fn started(&self) -> bool {
        self.is_started
    }

    /// The token for what was made, once it is made.
    pub closed spec fn made(&self) -> Option<u32> {
        self.output
    }

    /// A maker that has not started.
    pub fn new() -> (r: Self)
        ensures
            !r.started(),
            r.made() is None,
    {
        OnceMaker { is_started: false, output: None }
    }

    /// Makes sure that the making is under way. Says whether this call
    /// started it, which only the first call does: the caller then has the
    /// thing made and hands it in with `set_made`.
    pub fn ensure_made(&mut self) -> (start: bool)
        ensures
            made_sure(old(self), final(self), start),
    {
        if !self.is_started {
            self.is_started = true;
            true
        } else {
            false
        }
    }

    /// Hands in the token for what was made.
    pub fn set_made(&mut self, token: u32)
        ensures
            final(self).made() == Some(token),
            final(self).started() == old(self).started(),
    {
        self.output = Some(token);
    }
}

impl Producer for OnceMaker {
    open spec fn valid(&self) -> bool {
        true
    }

    open spec fn available(&self) -> nat {
        if self.made() is Some {
            1
        } else {
            0
        }
    }

    open spec fn lasting(&self) -> bool {
        true
    }

    open spec fn output(&self) -> Value {
        Value::Token(self.made()->0)
    }

    open spec fn parallelism(&self) -> nat {
        if self.made() is Some {
            1
        } else {
            0
        }
    }

    open spec fn queued_inputs(&self) -> nat {
        0
    }

    open spec fn intake(&self) -> nat {
        0
    }

    open spec fn can_take_inputs(&self) -> bool {
        true
    }

    open spec fn plan(&self, in_flight: u32) -> ScaleUp {
        if self.started() {
            ScaleUp::Ready
        } else {
            ScaleUp::Build
        }
    }

    open spec fn decided(&self, after: &Self) -> bool {
        after.started() && after.made() == self.made()
    }

    fn available_parallelism(&self) -> (n: u32) {
        if self.output.is_some() {
            1
        } else {
            0
        }
    }

    fn add_inputs(&mut self) {
    }

    fn poll(&mut self) -> (r: Option<Value>) {
        match self.output {
            Some(token) => Some(Value::Token(token)),
            None => None,
        }
    }

    fn scale_up(&mut self, in_flight: u32) -> (plan: ScaleUp)
        ensures
            final(self).started(),
            final(self).made() == old(self).made(),
    {
        if self.ensure_made() {
            ScaleUp::Build
        } else {
            ScaleUp::Ready
        }
    }
}

/// How much one entity under construction counts for, in entities, when
/// the backlog is held against the capacity.
pub const SCALE_UP_WEIGHT: u32 = 12;

/// How many queued requests per entity are too many.
pub const BACKLOG_FACTOR: u32 = 4;

/// Whether a backlog of `queue_len` requests is too long for `parallelism`
/// producing entities, with `in_flight` more under construction.
pub open spec fn backlog_too_long(queue_len: nat, parallelism: nat, in_flight: nat) -> bool {
    queue_len > (parallelism + in_flight * SCALE_UP_WEIGHT as nat) * BACKLOG_FACTOR as nat
}

/// Whether the priorities of `queue` never rise from one request to the
/// next.
pub open spec fn sorted_by_priority(queue: Seq<(WakeHandle, Priority)>) -> bool {
    forall|i: int, j: int|
        0 <= i < j < queue.len() ==> (#[trigger] queue[i]).1.0 >= (#[trigger] queue[j]).1.0
}

/// Whether `i` is the place in `queue` for a new request of priority `p`:
/// behind every request that is as urgent or more, and before the rest.
pub open spec fn is_slot(queue: Seq<(WakeHandle, Priority)>, p: Priority, i: int) -> bool {
    &&& 0 <= i <= queue.len()
    &&& forall|j: int| 0 <= j < i ==> (#[trigger] queue[j]).1.0 >= p.0
    &&& i < queue.len() ==> queue[i].1.0 < p.0
}

/// The place in `queue` for a new request of priority `p`: behind the
/// requests at the front that are as urgent or more.
pub open spec fn slot(queue: Seq<(WakeHandle, Priority)>, p: Priority) -> int
    decreases queue.len(),
{
    if queue.len() == 0 || queue[0].1.0 < p.0 {
        0
    } else {
        1 + slot(queue.skip(1), p)
    }
}

/// The handles that the requests of `queue` are to resolve, in order.
pub open spec fn sink_ids(queue: Seq<(WakeHandle, Priority)>) -> Seq<WakeHandleId> {
    Seq::new(queue.len(), |i: int| queue[i].0.id)
}

/// How many of `queue_len` requests a producer serves that has
/// `available` outputs, which stay or not as `lasting` says.
pub open spec fn deliveries(queue_len: nat, available: nat, lasting: bool) -> nat {
    if available == 0 {
        0
    } else if lasting || queue_len <= available {
        queue_len
    } else {
        available
    }
}

/// The waiters that become due for a poll when the first `k` of `sinks`
/// are resolved one after the other, starting from the table `waiters`:
/// the dependents of each, in that order.
pub open spec fn wakes(waiters: WaiterQueue, sinks: Seq<WakeHandleId>, k: int) -> Seq<WakeHandleId>
    decreases k,
{
    if k <= 0 || k > sinks.len() {
        Seq::empty()
    } else {
        wakes(waiters, sinks, k - 1) + woken_by(waiters.state(sinks[k - 1]))
    }
}

/// Whether no handle has two requests in `queue`.
pub open spec fn distinct_sinks(queue: Seq<(WakeHandle, Priority)>) -> bool {
    forall|i: int, j: int|
        0 <= i < j < queue.len() ==> (#[trigger] queue[i]).0.id != (#[trigger] queue[j]).0.id
}

/// A request for a handle that has none in the queue leaves the queue
/// without a handle that has two, wherever it is put.
proof fn lemma_insert_keeps_distinct(
    queue: Seq<(WakeHandle, Priority)>,
    at: int,
    sink: WakeHandle,
    p: Priority,
)
    requires
        distinct_sinks(queue),
        0 <= at <= queue.len(),
        forall|i: int| 0 <= i < queue.len() ==> (#[trigger] queue[i]).0.id != sink.id,
    ensures
        distinct_sinks(queue.insert(at, (sink, p))),
{
    let after = queue.insert(at, (sink, p));
    assert forall|i: int, j: int| 0 <= i < j < after.len() implies (#[trigger] after[i]).0.id != (
    #[trigger] after[j]).0.id by {
        let i0 = if i < at { i } else { i - 1 };
        let j0 = if j < at { j } else { j - 1 };
        if i != at {
            assert(after[i] == queue[i0]);
        }
        if j != at {
            assert(after[j] == queue[j0]);
        }
        if i != at && j != at {
            assert(queue[i0].0.id != queue[j0].0.id);
        }
    }
}

/// A new request has one place only.
pub proof fn lemma_slot_unique(queue: Seq<(WakeHandle, Priority)>, p: Priority, i: int)
    requires
        is_slot(queue, p, i),
    ensures
        slot(queue, p) == i,
    decreases i,
{
    if i > 0 {
        assert(queue[0].1.0 >= p.0);
        let rest = queue.skip(1);
        assert forall|j: int| 0 <= j < i - 1 implies (#[trigger] rest[j]).1.0 >= p.0 by {
            assert(rest[j] == queue[j + 1]);
        }
        if i - 1 < rest.len() {
            assert(rest[i - 1] == queue[i]);
        }
        lemma_slot_unique(rest, p, i - 1);
    }
}

/// A queue that is sorted by priority stays so when a request is put in
/// its place: the requests that are as urgent or more stay before it, in
/// their order, and the less urgent ones behind it, in theirs. So requests
/// are served by priority, and in the order of arrival among equals.
pub proof fn lemma_insert_keeps_order(
    queue: Seq<(WakeHandle, Priority)>,
    sink: WakeHandle,
    p: Priority,
)
    requires
        sorted_by_priority(queue),
    ensures
        is_slot(queue, p, slot(queue, p)),
        sorted_by_priority(queue.insert(slot(queue, p), (sink, p))),
        forall|j: int|
            0 <= j < queue.len() ==> (#[trigger] queue[j] == queue.insert(
                slot(queue, p),
                (sink, p),
            )[if queue[j].1.0 >= p.0 {
                j
            } else {
                j + 1
            }]),
{
    lemma_slot_exists(queue, p, 0);
    let i = slot(queue, p);
    let after = queue.insert(i, (sink, p));
    assert forall|a: int, b: int| 0 <= a < b < after.len() implies (#[trigger] after[a]).1.0 >= (
    #[trigger] after[b]).1.0 by {
        let a0 = if a < i { a } else { a - 1 };
        let b0 = if b < i { b } else { b - 1 };
        if a != i {
            assert(after[a] == queue[a0]);
        }
        if b != i {
            assert(after[b] == queue[b0]);
        }
        if a == i {
            assert(queue[i].1.0 < p.0);
            if i < b0 {
                assert(queue[i].1.0 >= queue[b0].1.0);
            }
        } else if b == i {
            assert(queue[a0].1.0 >= p.0);
        } else {
            assert(queue[a0].1.0 >= queue[b0].1.0);
        }
    }
    assert forall|j: int| 0 <= j < queue.len() implies (#[trigger] queue[j] == after[if queue[j].1.0
        >= p.0 {
        j
    } else {
        j + 1
    }]) by {
        if queue[j].1.0 >= p.0 {
            if j >= i {
                assert(queue[i].1.0 < p.0);
                if i < j {
                    assert(queue[i].1.0 >= queue[j].1.0);
                }
            }
        } else {
            if j < i {
                assert(queue[j].1.0 >= p.0);
            }
        }
    }
}

/// Every queue has a place for a new request: the search from `from` on
/// finds it, if all requests before `from` are as urgent or more.
proof fn lemma_slot_exists(queue: Seq<(WakeHandle, Priority)>, p: Priority, from: int)
    requires
        0 <= from <= queue.len(),
        forall|j: int| 0 <= j < from ==> (#[trigger] queue[j]).1.0 >= p.0,
    ensures
        is_slot(queue, p, slot(queue, p)),
    decreases queue.len() - from,
{
    if from < queue.len() && queue[from].1.0 >= p.0 {
        lemma_slot_exists(queue, p, from + 1);
    } else {
        assert(is_slot(queue, p, from));
        lemma_slot_unique(queue, p, from);
    }
}

/// A producer along with a queue of requests waiting on it.
pub struct ProducerWithQueue<P: Producer> {
    /// The producer.
    pub producer: P,
    /// Who waits for an output, and how urgently. Kept sorted by priority.
    pub queue: VecDeque<(WakeHandle, Priority)>,
    /// Number of producing entities we're in the process of building.
    pub scaling_up: u32,
}

impl<P: Producer> ProducerWithQueue<P> {
    /// The producer is well formed, and the queue is sorted by priority,
    /// most urgent first, and holds one request at most for each handle.
    pub open spec fn wf(&self) -> bool {
        &&& self.producer.valid()
        &&& sorted_by_priority(self.queue@)
        &&& distinct_sinks(self.queue@)
    }

    /// Whether the backlog calls for one more producing entity.
    pub open spec fn wants_scale_up(&self) -> bool {
        backlog_too_long(self.queue@.len(), self.producer.parallelism(), self.scaling_up as nat)
    }

    /// Whether the queue holds a request for the handle `id`.
    pub open spec fn queued(&self, id: WakeHandleId) -> bool {
        exists|i: int| 0 <= i < self.queue@.len() && (#[trigger] self.queue@[i]).0.id == id
    }

    /// Whether every request in the queue is for a handle of `waiters`
    /// that waits for a producer.
    pub open spec fn sinks_pending(&self, waiters: &WaiterQueue) -> bool {
        forall|i: int|
            0 <= i < self.queue@.len() ==> waiters.awaits_resource(
                (#[trigger] self.queue@[i]).0.id,
            )
    }

    /// Whether every request in the queue is for a handle of `waiters`
    /// that waits for a producer.
    pub fn sinks_in(&self, waiters: &WaiterQueue) -> (r: bool)
        requires
            waiters.wf(),
        ensures
            r == self.sinks_pending(waiters),
    {
        let mut i: usize = 0;
        while i < self.queue.len()
            invariant
                waiters.wf(),
                i <= self.queue@.len(),
                forall|j: int|
                    0 <= j < i ==> waiters.awaits_resource((#[trigger] self.queue@[j]).0.id),
            decreases self.queue@.len() - i,
        {
            if !waiters.is_awaiting_resource(self.queue[i].0.id) {
                return false;
            }
            i += 1;
        }
        true
    }

    /// The producer with nobody waiting and nothing under construction.
    pub fn new(producer: P) -> (r: Self)
        requires
            producer.valid(),
        ensures
            r.wf(),
            r.producer == producer,
            r.queue@.len() == 0,
            r.scaling_up == 0,
    {
        ProducerWithQueue { producer, queue: VecDeque::new(), scaling_up: 0 }
    }

    /// Asks for one output for `sink`, with priority `p`. Where nobody
    /// waits and the producer has an output, `sink` gets it at once. Else
    /// the request queues up behind those that are as urgent or more.
    pub fn enqueue(&mut self, waiters: &mut WaiterQueue, sink: WakeHandle, p: Priority)
        requires
            old(self).wf(),
            old(waiters).wf(),
            old(waiters).awaits_resource(sink.id),
            !old(self).queued(sink.id),
        ensures
            final(self).wf(),
            final(waiters).wf(),
            final(self).scaling_up == old(self).scaling_up,
            same_output(&old(self).producer, &final(self).producer),
            forall|n: u32| #[trigger] final(self).producer.plan(n) == old(self).producer.plan(n),
            final(self).producer.queued_inputs() == old(self).producer.queued_inputs(),
            final(waiters).next_id() == old(waiters).next_id(),
            if old(self).queue@.len() == 0 && old(self).producer.available() > 0 {
                &&& final(self).queue@ == old(self).queue@
                &&& final(self).producer.available() == if old(self).producer.lasting() {
                    old(self).producer.available() as int
                } else {
                    old(self).producer.available() - 1
                }
                &&& final(waiters).state(sink.id) == Some(
                    WaiterState::Done(old(self).producer.output()),
                )
                &&& forall|k: WakeHandleId|
                    k != sink.id ==> #[trigger] final(waiters).state(k) == old(waiters).state(k)
                &&& final(waiters).updates() == old(waiters).updates() + woken_by(
                    old(waiters).state(sink.id),
                )
            } else {
                &&& final(self).queue@ == old(self).queue@.insert(
                    slot(old(self).queue@, p),
                    (sink, p),
                )
                &&& final(self).producer.available() == old(self).producer.available()
                &&& final(waiters).entries() == old(waiters).entries()
                &&& final(waiters).updates() == old(waiters).updates()
            },
    {
        if self.queue.len() == 0 {
            if let Some(output) = self.producer.poll() {
                waiters.set_output(sink, output);
                return ;
            }
        }
        let n = self.queue.len();
        let mut i: usize = 0;
        while i < n && self.queue[i].1.0 >= p.0
            invariant
                n == self.queue@.len(),
                i <= n,
                forall|j: int| 0 <= j < i ==> (#[trigger] self.queue@[j]).1.0 >= p.0,
            decreases n - i,
        {
            i += 1;
        }
        proof {
            assert(is_slot(self.queue@, p, i as int));
            lemma_slot_unique(self.queue@, p, i as int);
            lemma_insert_keeps_order(self.queue@, sink, p);
            assert forall|j: int| 0 <= j < self.queue@.len()
                implies (#[trigger] self.queue@[j]).0.id
                != sink.id by {
                if self.queue@[j].0.id == sink.id {
                    assert(old(self).queue@[j].0.id == sink.id);
                }
            }
            lemma_insert_keeps_distinct(self.queue@, i as int, sink, p);
        }
        self.queue.insert(i, (sink, p));
    }

    /// Feeds the producer the inputs for one output, and asks for that
    /// output for `sink`, with priority `p`.
    pub fn feed(&mut self, waiters: &mut WaiterQueue, p: Priority, sink: WakeHandle)
        requires
            old(self).wf(),
            old(self).producer.can_take_inputs(),
            old(waiters).wf(),
            old(waiters).awaits_resource(sink.id),
            !old(self).queued(sink.id),
        ensures
            final(self).wf(),
            final(waiters).wf(),
            final(self).scaling_up == old(self).scaling_up,
            same_output(&old(self).producer, &final(self).producer),
            final(self).producer.queued_inputs() == old(self).producer.queued_inputs() + old(
                self,
            ).producer.intake(),
            final(waiters).next_id() == old(waiters).next_id(),
            if old(self).queue@.len() == 0 && old(self).producer.available() > 0 {
                &&& final(self).queue@ == old(self).queue@
                &&& final(self).producer.available() == if old(self).producer.lasting() {
                    old(self).producer.available() as int
                } else {
                    old(self).producer.available() - 1
                }
                &&& final(waiters).state(sink.id) == Some(
                    WaiterState::Done(old(self).producer.output()),
                )
                &&& forall|k: WakeHandleId|
                    k != sink.id ==> #[trigger] final(waiters).state(k) == old(waiters).state(k)
                &&& final(waiters).updates() == old(waiters).updates() + woken_by(
                    old(waiters).state(sink.id),
                )
            } else {
                &&& final(self).queue@ == old(self).queue@.insert(
                    slot(old(self).queue@, p),
                    (sink, p),
                )
                &&& final(self).producer.available() == old(self).producer.available()
                &&& final(waiters).entries() == old(waiters).entries()
                &&& final(waiters).updates() == old(waiters).updates()
            },
    {
        self.producer.add_inputs();
        self.enqueue(waiters, sink, p);
    }

    /// Hands the outputs that the producer has ready to the requests at the
    /// front of the queue, one each, until the queue or the outputs run
    /// out: no request that could be served is left waiting.
    pub fn update(&mut self, waiters: &mut WaiterQueue)
        requires
            old(self).wf(),
            old(waiters).wf(),
            old(self).sinks_pending(old(waiters)),
        ensures
            final(self).wf(),
            final(waiters).wf(),
            final(self).sinks_pending(final(waiters)),
            final(self).queue@.len() == 0 || final(self).producer.available() == 0,
            drained(old(self), final(self)),
            delivered(old(self), old(waiters), final(waiters)),
    {
        let ghost q0 = self.queue@;
        let ghost sinks = sink_ids(q0);
        let ghost a0 = self.producer.available();
        let ghost out = self.producer.output();
        let ghost mut k: int = 0;
        assert(q0.skip(0) =~= q0);
        assert(waiters.updates() =~= old(waiters).updates() + wakes(*old(waiters), sinks, 0));
        loop
            invariant
                self.producer.valid(),
                sorted_by_priority(q0),
                distinct_sinks(q0),
                waiters.wf(),
                q0 == old(self).queue@,
                sinks == sink_ids(q0),
                a0 == old(self).producer.available(),
                out == old(self).producer.output(),
                0 <= k <= q0.len(),
                self.queue@ == q0.skip(k),
                self.scaling_up == old(self).scaling_up,
                same_output(&old(self).producer, &self.producer),
                self.producer.queued_inputs() == old(self).producer.queued_inputs(),
                forall|n: u32| #[trigger] self.producer.plan(n) == old(self).producer.plan(n),
                k > 0 ==> a0 > 0,
                self.producer.lasting() ==> self.producer.available() == a0,
                !self.producer.lasting() ==> self.producer.available() + k == a0,
                waiters.next_id() == old(waiters).next_id(),
                waiters.updates() == old(waiters).updates() + wakes(*old(waiters), sinks, k),
                forall|i: int|
                    0 <= i < q0.len() ==> old(waiters).awaits_resource((#[trigger] q0[i]).0.id),
                forall|id: WakeHandleId| #[trigger]
                    waiters.state(id) == if sinks.take(k).contains(id) {
                        Some(WaiterState::Done(out))
                    } else {
                        old(waiters).state(id)
                    },
            ensures
                self.queue@.len() == 0 || self.producer.available() == 0,
                k == deliveries(q0.len(), a0, old(self).producer.lasting()),
            decreases q0.len() - k,
        {
            if self.queue.len() == 0 {
                break ;
            }
            match self.producer.poll() {
                Some(output) => {
                    let ghost before = *waiters;
                    let front = self.queue.pop_front();
                    match front {
                        Some((sink, _)) => {
                            proof {
                                assert(sink == q0[k].0);
                                assert(sinks[k] == sink.id);
                                if sinks.take(k).contains(sink.id) {
                                    let a = choose|a: int|
                                        0 <= a < sinks.take(k).len() && sinks.take(k)[a] == sink.id;
                                    assert(q0[a].0.id != q0[k].0.id);
                                }
                                assert(before.state(sink.id) == old(waiters).state(sink.id));
                                assert(old(waiters).awaits_resource(q0[k].0.id));
                            }
                            waiters.set_output(sink, output);
                            proof {
                                let k1 = k + 1;
                                assert(sinks.take(k1) =~= sinks.take(k).push(sink.id));
                                assert(sinks.take(k1 - 1) =~= sinks.take(k));
                                assert forall|id: WakeHandleId| #[trigger]
                                    waiters.state(id) == if sinks.take(k1).contains(id) {
                                        Some(WaiterState::Done(out))
                                    } else {
                                        old(waiters).state(id)
                                    } by {
                                    if id == sink.id {
                                        assert(sinks.take(k1)[k] == id);
                                    } else {
                                        assert(waiters.state(id) == before.state(id));
                                        if sinks.take(k).contains(id) {
                                            let a = choose|a: int|
                                                0 <= a < sinks.take(k).len() && sinks.take(k)[a]
                                                    == id;
                                            assert(sinks.take(k1)[a] == id);
                                        }
                                        if sinks.take(k1).contains(id) {
                                            let a = choose|a: int|
                                                0 <= a < sinks.take(k1).len() && sinks.take(k1)[a]
                                                    == id;
                                            assert(sinks.take(k)[a] == id);
                                        }
                                    }
                                }
                                assert(waiters.updates() =~= old(waiters).updates() + wakes(
                                    *old(waiters),
                                    sinks,
                                    k1,
                                ));
                                assert(q0.skip(k1) =~= q0.skip(k).subrange(
                                    1,
                                    q0.skip(k).len() as int,
                                ));
                                k = k1;
                            }
                        },
                        None => {
                            proof {
                                assert(false);
                            }
                        },
                    }
                },
                None => {
                    break ;
                },
            }
        }
        proof {
            assert forall|a: int, b: int| 0 <= a < b < self.queue@.len() implies (
            #[trigger] self.queue@[a]).1.0 >= (#[trigger] self.queue@[b]).1.0 by {
                assert(self.queue@[a] == q0[a + k]);
                assert(self.queue@[b] == q0[b + k]);
            }
            assert forall|a: int, b: int| 0 <= a < b < self.queue@.len() implies (
            #[trigger] self.queue@[a]).0.id != (#[trigger] self.queue@[b]).0.id by {
                assert(self.queue@[a] == q0[a + k]);
                assert(self.queue@[b] == q0[b + k]);
            }
            assert forall|i: int| 0 <= i < self.queue@.len() implies waiters.awaits_resource(
                (#[trigger] self.queue@[i]).0.id,
            ) by {
                assert(self.queue@[i] == q0[i + k]);
                let id = q0[i + k].0.id;
                if sinks.take(k).contains(id) {
                    let a = choose|a: int| 0 <= a < sinks.take(k).len() && sinks.take(k)[a] == id;
                    assert(q0[a].0.id != q0[i + k].0.id);
                }
                assert(old(waiters).awaits_resource(q0[i + k].0.id));
            }
        }
    }

    /// Checks whether the backlog calls for one more producing entity. If
    /// so, returns the priority with which to build it: one above that of
    /// the most urgent request, as far as priorities go.
    pub fn scale_up_if_needed(&self) -> (r: Option<Priority>)
        requires
            self.wf(),
        ensures
            r is Some <==> self.wants_scale_up(),
            r matches Some(p) ==> p.0 == if self.queue@[0].1.0 < u16::MAX {
                self.queue@[0].1.0 + 1
            } else {
                u16::MAX as int
            },
    {
        let entities: u64 = self.producer.available_parallelism() as u64;
        let in_flight: u64 = self.scaling_up as u64;
        let weight: u64 = SCALE_UP_WEIGHT as u64;
        let factor: u64 = BACKLOG_FACTOR as u64;
        assert(in_flight * weight == in_flight * 12 && in_flight * weight <= 12 * 0xFFFF_FFFF)
            by (nonlinear_arith)
            requires
                in_flight <= 0xFFFF_FFFF,
                weight == 12,
        ;
        let under_way: u64 = in_flight * weight;
        assert((entities + under_way) * factor == (entities + under_way) * 4) by (nonlinear_arith)
            requires
                factor == 4,
        ;
        let capacity: u64 = (entities + under_way) * factor;
        if self.queue.len() as u64 > capacity {
            let p = self.queue[0].1;
            if p.0 < u16::MAX {
                Some(Priority(p.0 + 1))
            } else {
                Some(p)
            }
        } else {
            None
        }
    }

    /// Starts a scale-up: counts one more entity as under construction,
    /// and says what it takes to build it. The count goes down again with
    /// `scale_up_done`, when the entity is ready.
    pub fn trigger_scale_up(&mut self) -> (plan: ScaleUp)
        requires
            old(self).wf(),
            old(self).scaling_up < u32::MAX,
        ensures
            final(self).wf(),
            final(self).scaling_up == old(self).scaling_up + 1,
            final(self).queue@ == old(self).queue@,
            plan == old(self).producer.plan((old(self).scaling_up + 1) as u32),
            old(self).producer.decided(&final(self).producer),
            same_output(&old(self).producer, &final(self).producer),
            final(self).producer.queued_inputs() == old(self).producer.queued_inputs(),
            final(self).producer.available() == old(self).producer.available(),
    {
        self.scaling_up = self.scaling_up + 1;
        self.producer.scale_up(self.scaling_up)
    }

    /// Records that an entity that was under construction is ready.
    pub fn scale_up_done(&mut self)
        requires
            old(self).scaling_up > 0,
        ensures
            final(self).scaling_up == old(self).scaling_up - 1,
            final(self).queue@ == old(self).queue@,
            final(self).producer == old(self).producer,
    {
        self.scaling_up = self.scaling_up - 1;
    }

    /// If somebody waits and the producer cannot produce automatically,
    /// runs it by hand once. Says whether that advanced the tick.
    pub fn craft_by_hand_if_needed(&mut self, tick: &mut Tick) -> (r: ControlFlow<AdvancedTick>)
        where P: HandProducer
        requires
            old(self).wf(),
            old(tick)@ < u64::MAX,
            !old(self).producer.automatic() && old(self).queue@.len() > 0 ==> old(
                self,
            ).producer.runs_by_hand(),
        ensures
            final(self).wf(),
            final(self).queue@ == old(self).queue@,
            final(self).scaling_up == old(self).scaling_up,
            same_output(&old(self).producer, &final(self).producer),
            final(self).producer.automatic() == old(self).producer.automatic(),
            r is Break <==> !old(self).producer.automatic() && old(self).queue@.len() > 0 && old(
                self,
            ).producer.has_work(),
            r is Break ==> final(tick)@ == old(tick)@ + 1 && final(self).producer.available()
                == old(self).producer.available() + 1 && final(self).producer.queued_inputs() + old(
                self,
            ).producer.intake() == old(self).producer.queued_inputs(),
            r is Continue ==> *final(self) == *old(self) && *final(tick) == *old(tick),
    {
        if !self.producer.can_craft_automatically() && self.queue.len() > 0 {
            self.producer.craft_by_hand(tick)
        } else {
            ControlFlow::Continue(())
        }
    }
}

/// Whether `after` is what serving the queue makes of `before`: as many
/// requests as `deliveries` says have left the front of the queue, and as
/// many outputs the producer, unless they last.
pub open spec fn drained<P: Producer>(
    before: &ProducerWithQueue<P>,
    after: &ProducerWithQueue<P>,
) -> bool {
    let k = deliveries(
        before.queue@.len(),
        before.producer.available(),
        before.producer.lasting(),
    );
    &&& after.queue@ == before.queue@.skip(k as int)
    &&& after.scaling_up == before.scaling_up
    &&& same_output(&before.producer, &after.producer)
    &&& after.producer.queued_inputs() == before.producer.queued_inputs()
    &&& forall|n: u32| #[trigger] after.producer.plan(n) == before.producer.plan(n)
    &&& after.producer.available() == if before.producer.lasting() {
        before.producer.available() as int
    } else {
        before.producer.available() - k
    }
}

/// Whether `waiters_after` is what serving the queue of `before` makes of
/// `waiters_before`: the handle of each request that `deliveries` says is
/// served is resolved with the producer's output, and whoever waited for
/// it is due for a poll.
pub open spec fn delivered<P: Producer>(
    before: &ProducerWithQueue<P>,
    waiters_before: &WaiterQueue,
    waiters_after: &WaiterQueue,
) -> bool {
    let k = deliveries(
        before.queue@.len(),
        before.producer.available(),
        before.producer.lasting(),
    );
    let sinks = sink_ids(before.queue@);
    &&& waiters_after.next_id() == waiters_before.next_id()
    &&& waiters_after.updates() == waiters_before.updates() + wakes(
        *waiters_before,
        sinks,
        k as int,
    )
    &&& forall|id: WakeHandleId| #[trigger]
        waiters_after.state(id) == if sinks.take(k as int).contains(id) {
            Some(WaiterState::Done(before.producer.output()))
        } else {
            waiters_before.state(id)
        }
}

/// No wake-up is lost: where the producer had an output and somebody
/// waited for one, the request at the front of the queue has received it,
/// and afterwards nobody waits while an output is there.
pub proof fn lemma_no_lost_wakeup<P: Producer>(
    before: &ProducerWithQueue<P>,
    after: &ProducerWithQueue<P>,
    waiters_before: &WaiterQueue,
    waiters_after: &WaiterQueue,
)
    requires
        drained(before, after),
        delivered(before, waiters_before, waiters_after),
        before.producer.available() > 0,
        before.queue@.len() > 0,
    ensures
        waiters_after.state(before.queue@[0].0.id) == Some(
            WaiterState::Done(before.producer.output()),
        ),
        after.queue@.len() == 0 || after.producer.available() == 0,
{
    let k = deliveries(
        before.queue@.len(),
        before.producer.available(),
        before.producer.lasting(),
    );
    let sinks = sink_ids(before.queue@);
    assert(sinks.take(k as int)[0] == before.queue@[0].0.id);
}

/// Whoever is served in one go gets the same: each request that leaves the
/// queue is resolved with the producer's output.
pub proof fn lemma_served_alike<P: Producer>(
    before: &ProducerWithQueue<P>,
    waiters_before: &WaiterQueue,
    waiters_after: &WaiterQueue,
    i: int,
    j: int,
)
    requires
        delivered(before, waiters_before, waiters_after),
        0 <= i < deliveries(
            before.queue@.len(),
            before.producer.available(),
            before.producer.lasting(),
        ),
        0 <= j < deliveries(
            before.queue@.len(),
            before.producer.available(),
            before.producer.lasting(),
        ),
    ensures
        waiters_after.state(before.queue@[i].0.id) == Some(
            WaiterState::Done(before.producer.output()),
        ),
        waiters_after.state(before.queue@[i].0.id) == waiters_after.state(before.queue@[j].0.id),
{
    let k = deliveries(
        before.queue@.len(),
        before.producer.available(),
        before.producer.lasting(),
    );
    let sinks = sink_ids(before.queue@);
    assert(sinks.take(k as int)[i] == before.queue@[i].0.id);
    assert(sinks.take(k as int)[j] == before.queue@[j].0.id);
}

/// One trigger counts once up and once down: when the entity that a
/// trigger counted as under construction is done, as many count as before
/// the trigger.
pub proof fn lemma_scale_up_counts_once<P: Producer>(
    before: &ProducerWithQueue<P>,
    triggered: &ProducerWithQueue<P>,
    done: &ProducerWithQueue<P>,
)
    requires
        triggered.scaling_up == before.scaling_up + 1,
        done.scaling_up == triggered.scaling_up - 1,
    ensures
        done.scaling_up == before.scaling_up,
        triggered.scaling_up > before.scaling_up,
{
}

/// While one entity more is under construction than when the backlog
/// called for it, the same backlog does not call for another, so long as it
/// is no longer than what the entity under construction makes up for.
pub proof fn lemma_scale_up_once<P: Producer>(
    before: &ProducerWithQueue<P>,
    after: &ProducerWithQueue<P>,
)
    requires
        after.scaling_up == before.scaling_up + 1,
        after.queue@ == before.queue@,
        after.producer.parallelism() == before.producer.parallelism(),
        before.queue@.len() <= (before.producer.parallelism() + (before.scaling_up + 1)
            * SCALE_UP_WEIGHT) * BACKLOG_FACTOR,
    ensures
        !after.wants_scale_up(),
{
}

/// Any of the producers that the scheduler knows, for a place in its
/// registry.
pub enum AnyProducer {
    /// A recipe that is crafted by hand.
    Hand(HandCrafter),
    /// A territory with its miners.
    Territory(Territory),
    /// The machines of one kind.
    Machines(MultiMachine),
    /// A thing that is made once.
    Once(OnceMaker),
}

impl Producer for AnyProducer {
    open spec fn valid(&self) -> bool {
        match self {
            AnyProducer::Hand(p) => p.valid(),
            AnyProducer::Territory(p) => p.valid(),
            AnyProducer::Machines(p) => p.valid(),
            AnyProducer::Once(p) => p.valid(),
        }
    }

    open spec fn available(&self) -> nat {
        match self {
            AnyProducer::Hand(p) => p.available(),
            AnyProducer::Territory(p) => p.available(),
            AnyProducer::Machines(p) => p.available(),
            AnyProducer::Once(p) => p.available(),
        }
    }

    open spec fn lasting(&self) -> bool {
        match self {
            AnyProducer::Hand(p) => p.lasting(),
            AnyProducer::Territory(p) => p.lasting(),
            AnyProducer::Machines(p) => p.lasting(),
            AnyProducer::Once(p) => p.lasting(),
        }
    }

    open spec fn output(&self) -> Value {
        match self {
            AnyProducer::Hand(p) => p.output(),
            AnyProducer::Territory(p) => p.output(),
            AnyProducer::Machines(p) => p.output(),
            AnyProducer::Once(p) => p.output(),
        }
    }

    open spec fn parallelism(&self) -> nat {
        match self {
            AnyProducer::Hand(p) => p.parallelism(),
            AnyProducer::Territory(p) => p.parallelism(),
            AnyProducer::Machines(p) => p.parallelism(),
            AnyProducer::Once(p) => p.parallelism(),
        }
    }

    open spec fn queued_inputs(&self) -> nat {
        match self {
            AnyProducer::Hand(p) => p.queued_inputs(),
            AnyProducer::Territory(p) => p.queued_inputs(),
            AnyProducer::Machines(p) => p.queued_inputs(),
            AnyProducer::Once(p) => p.queued_inputs(),
        }
    }

    open spec fn intake(&self) -> nat {
        match self {
            AnyProducer::Hand(p) => p.intake(),
            AnyProducer::Territory(p) => p.intake(),
            AnyProducer::Machines(p) => p.intake(),
            AnyProducer::Once(p) => p.intake(),
        }
    }

    open spec fn can_take_inputs(&self) -> bool {
        match self {
            AnyProducer::Hand(p) => p.can_take_inputs(),
            AnyProducer::Territory(p) => p.can_take_inputs(),
            AnyProducer::Machines(p) => p.can_take_inputs(),
            AnyProducer::Once(p) => p.can_take_inputs(),
        }
    }

    open spec fn plan(&self, in_flight: u32) -> ScaleUp {
        match self {
            AnyProducer::Hand(p) => p.plan(in_flight),
            AnyProducer::Territory(p) => p.plan(in_flight),
            AnyProducer::Machines(p) => p.plan(in_flight),
            AnyProducer::Once(p) => p.plan(in_flight),
        }
    }

    open spec fn decided(&self, after: &Self) -> bool {
        match (self, after) {
            (AnyProducer::Hand(p), AnyProducer::Hand(q)) => p.decided(q),
            (AnyProducer::Territory(p), AnyProducer::Territory(q)) => p.decided(q),
            (AnyProducer::Machines(p), AnyProducer::Machines(q)) => p.decided(q),
            (AnyProducer::Once(p), AnyProducer::Once(q)) => p.decided(q),
            _ => false,
        }
    }

    fn available_parallelism(&self) -> (n: u32) {
        match self {
            AnyProducer::Hand(p) => p.available_parallelism(),
            AnyProducer::Territory(p) => p.available_parallelism(),
            AnyProducer::Machines(p) => p.available_parallelism(),
            AnyProducer::Once(p) => p.available_parallelism(),
        }
    }

    fn add_inputs(&mut self)
        ensures
            same_kind(old(self), final(self)),
    {
        match self {
            AnyProducer::Hand(p) => Producer::add_inputs(p),
            AnyProducer::Territory(p) => Producer::add_inputs(p),
            AnyProducer::Machines(p) => Producer::add_inputs(p),
            AnyProducer::Once(p) => Producer::add_inputs(p),
        }
    }

    fn poll(&mut self) -> (r: Option<Value>)
        ensures
            same_kind(old(self), final(self)),
    {
        match self {
            AnyProducer::Hand(p) => Producer::poll(p),
            AnyProducer::Territory(p) => Producer::poll(p),
            AnyProducer::Machines(p) => Producer::poll(p),
            AnyProducer::Once(p) => Producer::poll(p),
        }
    }

    fn scale_up(&mut self, in_flight: u32) -> (plan: ScaleUp)
        ensures
            same_kind(old(self), final(self)),
    {
        match self {
            AnyProducer::Hand(p) => Producer::scale_up(p, in_flight),
            AnyProducer::Territory(p) => Producer::scale_up(p, in_flight),
            AnyProducer::Machines(p) => Producer::scale_up(p, in_flight),
            AnyProducer::Once(p) => Producer::scale_up(p, in_flight),
        }
    }
}

/// Whether `a` and `b` are producers of the same kind.
pub open spec fn same_kind(a: &AnyProducer, b: &AnyProducer) -> bool {
    &&& a is Hand == b is Hand
    &&& a is Territory == b is Territory
    &&& a is Machines == b is Machines
    &&& a is Once == b is Once
}

impl HandProducer for AnyProducer {
    open spec fn automatic(&self) -> bool {
        match self {
            AnyProducer::Hand(p) => p.automatic(),
            AnyProducer::Territory(p) => p.automatic(),
            AnyProducer::Machines(p) => p.automatic(),
            AnyProducer::Once(_) => true,
        }
    }

    open spec fn runs_by_hand(&self) -> bool {
        match self {
            AnyProducer::Hand(p) => p.runs_by_hand(),
            AnyProducer::Territory(p) => p.runs_by_hand(),
            AnyProducer::Machines(p) => p.runs_by_hand(),
            AnyProducer::Once(_) => true,
        }
    }

    open spec fn has_work(&self) -> bool {
        match self {
            AnyProducer::Hand(p) => p.has_work(),
            AnyProducer::Territory(p) => p.has_work(),
            AnyProducer::Machines(p) => p.has_work(),
            AnyProducer::Once(_) => false,
        }
    }

    fn can_craft_automatically(&self) -> (r: bool) {
        match self {
            AnyProducer::Hand(p) => p.can_craft_automatically(),
            AnyProducer::Territory(p) => p.can_craft_automatically(),
            AnyProducer::Machines(p) => p.can_craft_automatically(),
            AnyProducer::Once(_) => true,
        }
    }

    fn can_craft_by_hand(&self) -> (r: bool) {
        match self {
            AnyProducer::Hand(p) => p.can_craft_by_hand(),
            AnyProducer::Territory(p) => p.can_craft_by_hand(),
            AnyProducer::Machines(p) => p.can_craft_by_hand(),
            AnyProducer::Once(_) => true,
        }
    }

    fn craft_by_hand(&mut self, tick: &mut Tick) -> (r: ControlFlow<AdvancedTick>)
        ensures
            same_kind(old(self), final(self)),
    {
        match self {
            AnyProducer::Hand(p) => HandProducer::craft_by_hand(p, tick),
            AnyProducer::Territory(p) => HandProducer::craft_by_hand(p, tick),
            AnyProducer::Machines(p) => HandProducer::craft_by_hand(p, tick),
            AnyProducer::Once(_) => ControlFlow::Continue(()),
        }
    }
}

/// Whether `after` and `start` are what making sure of the making makes of
/// `before`: the making is under way, and `start` says whether it was not
/// before.
pub open spec fn made_sure(before: &OnceMaker, after: &OnceMaker, start: bool) -> bool {
    &&& start == !before.started()
    &&& after.started()
    &&& after.made() == before.made()
}

/// However many times somebody makes sure of the making, it is started
/// once: by the first call, if it was not under way before, and by no other.
pub proof fn lemma_built_once(states: Seq<OnceMaker>, starts: Seq<bool>)
    requires
        states.len() == starts.len() + 1,
        forall|i: int|
            0 <= i < starts.len() ==> made_sure(&states[i], &states[i + 1], #[trigger] starts[i]),
    ensures
        forall|i: int| 0 < i < starts.len() ==> !(#[trigger] starts[i]),
        starts.len() > 0 ==> starts[0] == !states[0].started(),
        forall|i: int| 0 < i < states.len() ==> (#[trigger] states[i]).started(),
        forall|i: int| 0 <= i < states.len() ==> (#[trigger] states[i]).made() == states[0].made(),
    decreases starts.len(),
{
    if starts.len() > 0 {
        let n = starts.len() - 1;
        lemma_built_once(states.drop_last(), starts.drop_last());
        assert(made_sure(&states[n], &states[n + 1], starts[n]));
        assert forall|i: int| 0 <= i < n implies made_sure(
            &states.drop_last()[i],
            &states.drop_last()[i + 1],
            #[trigger] starts.drop_last()[i],
        ) by {
            assert(made_sure(&states[i], &states[i + 1], starts[i]));
        }
        assert forall|i: int| 0 < i < starts.len() implies !(#[trigger] starts[i]) by {
            if i < n {
                assert(starts.drop_last()[i] == starts[i]);
            } else {
                if n > 0 {
                    assert(states.drop_last()[n].started());
                }
            }
        }
        assert forall|i: int| 0 < i < states.len() implies (#[trigger] states[i]).started() by {
            if i <= n {
                assert(states.drop_last()[i] == states[i]);
            }
        }
        assert forall|i: int| 0 <= i < states.len() implies (#[trigger] states[i]).made()
            == states[0].made() by {
            if i <= n {
                assert(states.drop_last()[i] == states[i]);
            } else {
                assert(states.drop_last()[n].made() == states[0].made());
            }
        }
        if n > 0 {
            assert(starts.drop_last()[0] == starts[0]);
        }
    }
}

/// What the machines that stood hold together after a machine was added
/// is what they held before, less what they held above the new average.
proof fn lemma_rebalance_prefix(before: Seq<Machine>, after: Seq<Machine>, level: nat, k: int)
    requires
        0 <= k <= before.len(),
        before.len() <= after.len(),
        forall|j: int|
            0 <= j < before.len() ==> (#[trigger] after[j]).load() == if before[j].load() > level {
                level
            } else {
                before[j].load()
            },
    ensures
        total_load(after.take(k)) + excess_load(before.take(k), level)
            == total_load(before.take(k)),
    decreases k,
{
    if k > 0 {
        lemma_rebalance_prefix(before, after, level, k - 1);
        assert(after.take(k).drop_last() =~= after.take(k - 1));
        assert(before.take(k).drop_last() =~= before.take(k - 1));
        assert(after.take(k).last() == after[k - 1]);
        assert(before.take(k).last() == before[k - 1]);
    }
}

/// Adding a machine loses no work and leaves none above the average: the
/// machines hold together what they held before and what the new machine
/// brought, and none of those that stood holds more than the new average.
pub proof fn lemma_rebalance_conserves(before: Seq<Machine>, after: Seq<Machine>, m: Machine)
    requires
        rebalanced(before, after, m),
    ensures
        total_load(after) == total_load(before) + m.load(),
        forall|j: int|
            0 <= j < before.len() ==> (#[trigger] after[j]).load() <= total_load(before) / (
            before.len() + 1) as nat,
{
    let level = total_load(before) / (before.len() + 1) as nat;
    let n = before.len() as int;
    lemma_rebalance_prefix(before, after, level, n);
    assert(before.take(n) =~= before);
    assert(after.drop_last() =~= after.take(n));
    assert(after.last() == after[n]);
}

/// When a machine that brings no load joins a single machine, the two end
/// up with loads that differ by one at most, and that are together what the
/// one held.
pub proof fn lemma_rebalance_two(before: Seq<Machine>, after: Seq<Machine>, m: Machine)
    requires
        before.len() == 1,
        m.load() == 0,
        rebalanced(before, after, m),
    ensures
        after[0].load() + after[1].load() == before[0].load(),
        after[0].load() <= after[1].load() <= after[0].load() + 1,
{
    reveal_with_fuel(total_load, 2);
    reveal_with_fuel(excess_load, 2);
    assert(before.drop_last() =~= Seq::<Machine>::empty());
    assert(before.last() == before[0]);
    let total = before[0].load();
    assert(total_load(before) == total);
    let level = total / 2;
    assert(total_load(before) / (before.len() + 1) as nat == level);
}

impl GameState {
    /// Adds the machine `m`, which was built for it, to the store of
    /// machines at `producer`.
    pub fn add_machine(&mut self, producer: ProducerId, m: Machine)
        requires
            old(self).wf(),
            producer.0 < old(self).producers@.len(),
            old(self).producers@[producer.0 as int].producer matches AnyProducer::Machines(store)
                && !(store.storage() is Removed) && store.machines().len() < u32::MAX && m.load()
                + store.backlog() <= u32::MAX && m.stock() + store.buffered_outputs() <= u32::MAX,
        ensures
            final(self).wf(),
            crate::scheduler::same_but_producer(old(self), final(self), producer.0 as int),
            final(self).producers@[producer.0 as int].queue@
                == old(self).producers@[producer.0 as int].queue@,
            final(self).producers@[producer.0 as int].scaling_up
                == old(self).producers@[producer.0 as int].scaling_up,
            final(self).producers@[producer.0 as int].producer matches AnyProducer::Machines(after)
                && added(&old(self).producers@[producer.0 as int].producer->Machines_0, &after, m),
    {
        match &mut self.producers[producer.0].producer {
            AnyProducer::Machines(store) => {
                store.add(m);
            },
            _ => {},
        }
        proof {
            self.lemma_producer_changed(old(self), producer.0 as int);
        }
    }

    /// Adds a miner, which was built for it, to the territory at
    /// `producer`, if the territory has room for one more.
    pub fn add_miner(&mut self, producer: ProducerId) -> (r: Result<(), TerritoryFullError>)
        requires
            old(self).wf(),
            producer.0 < old(self).producers@.len(),
            old(self).producers@[producer.0 as int].producer is Territory,
        ensures
            final(self).wf(),
            crate::scheduler::same_but_producer(old(self), final(self), producer.0 as int),
            final(self).producers@[producer.0 as int].queue@
                == old(self).producers@[producer.0 as int].queue@,
            final(self).producers@[producer.0 as int].scaling_up
                == old(self).producers@[producer.0 as int].scaling_up,
            final(self).producers@[producer.0 as int].producer matches AnyProducer::Territory(after)
                && miner_added(
                &old(self).producers@[producer.0 as int].producer->Territory_0,
                &after,
                r,
            ),
    {
        let r = match &mut self.producers[producer.0].producer {
            AnyProducer::Territory(territory) => territory.add_miner(),
            _ => Ok(()),
        };
        proof {
            self.lemma_producer_changed(old(self), producer.0 as int);
        }
        r
    }
}

/// Whether `after` and `r` are what adding a miner makes of the territory
/// `before`.
pub open spec fn miner_added(
    before: &Territory,
    after: &Territory,
    r: Result<(), TerritoryFullError>,
) -> bool {
    &&& after.resource() == before.resource()
    &&& after.room() == before.room()
    &&& after.ore() == before.ore()
    &&& match r {
        Ok(_) => before.miners() < before.room() && after.miners() == before.miners() + 1,
        Err(e) => before.miners() == before.room() && after.miners() == before.miners()
            && e.max_miners == before.room(),
    }
}

} // verus!
