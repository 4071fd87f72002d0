//! Resource containers, and containers for things that are made once and
//! used many times.

use std::collections::HashMap;
use std::marker::PhantomData;
use vstd::prelude::*;

use crate::value::{Bundle, Value};

verus! {

broadcast use vstd::std_specs::hash::group_hash_axioms;

/// Why a withdrawal failed: the container held less than was asked for.
#[derive(Debug, Clone, Copy, PartialEq, Eq, Structural)]
pub struct InsufficientResourceError {
    /// The amount that was asked for.
    pub requested_amount: u32,
    /// The amount that was there.
    pub available_amount: u32,
}

/// Holds any amount of one resource.
pub struct Resource {
    resource: u32,
    amount: u32,
}

impl Resource {
    /// Which resource the container holds.
    pub closed spec fn kind(&self) -> u32 {
        self.resource
    }

    /// How many units the container holds.
    pub closed spec fn units(&self) -> nat {
        self.amount as nat
    }

    /// An empty container for `resource`.
    pub fn new_empty(resource: u32) -> (r: Self)
        ensures
            r.kind() == resource,
            r.units() == 0,
    {
        Resource { resource, amount: 0 }
    }

    /// Which resource the container holds.
    pub fn resource(&self) -> (k: u32)
        ensures
            k == self.kind(),
    {
        self.resource
    }

    /// How many units the container holds.
    pub fn amount(&self) -> (n: u32)
        ensures
            n == self.units(),
    {
        self.amount
    }

    /// Puts the units of `bundle` into the container.
    pub fn add(&mut self, bundle: Bundle)
        requires
            bundle.resource == old(self).kind(),
            old(self).units() + bundle.amount <= u32::MAX,
        ensures
            final(self).kind() == old(self).kind(),
            final(self).units() == old(self).units() + bundle.amount,
    {
        self.amount = self.amount + bundle.amount;
    }

    /// Takes a bundle of exactly `amount` units out of the container, or
    /// nothing at all where it holds less.
    pub fn bundle(&mut self, amount: u32) -> (r: Result<Bundle, InsufficientResourceError>)
        ensures
            final(self).kind() == old(self).kind(),
            match r {
                Ok(b) => amount <= old(self).units() && final(self).units() == old(self).units()
                    - amount && b == (Bundle { resource: old(self).kind(), amount }),
                Err(e) => amount > old(self).units() && *final(self) == *old(self)
                    && e.requested_amount == amount && e.available_amount == old(self).units(),
            },
    {
        if amount <= self.amount {
            self.amount = self.amount - amount;
            Ok(Bundle { resource: self.resource, amount })
        } else {
            Err(InsufficientResourceError { requested_amount: amount, available_amount: self.amount })
        }
    }
}

/// A store of various resources, one container for each.
pub struct ResourceStore {
    items: HashMap<u32, Resource>,
}

impl ResourceStore {
    /// The containers of the store, each under the resource that it holds.
    pub closed spec fn containers(&self) -> Map<u32, Resource> {
        self.items@
    }

    /// Each container stands under the resource that it holds.
    pub open spec fn wf(&self) -> bool {
        forall|k: u32| #[trigger]
            self.containers().contains_key(k) ==> self.containers()[k].kind() == k
    }

    /// How many units of `resource` the store holds: nothing where it has
    /// no container for it.
    pub open spec fn units_of(&self, resource: u32) -> nat {
        if self.containers().contains_key(resource) {
            self.containers()[resource].units()
        } else {
            0
        }
    }

    /// A store without containers.
    pub fn new() -> (r: Self)
        ensures
            r.wf(),
            r.containers() == Map::<u32, Resource>::empty(),
    {
        ResourceStore { items: HashMap::new() }
    }

    /// Takes the container for `resource` out of the store: an empty one
    /// where the store has none yet.
    fn take_out(&mut self, resource: u32) -> (r: Resource)
        requires
            old(self).wf(),
        ensures
            final(self).containers() == old(self).containers().remove(resource),
            r.kind() == resource,
            r.units() == old(self).units_of(resource),
    {
        proof {
            if self.containers().contains_key(resource) {
                assert(self.containers()[resource].kind() == resource);
            }
        }
        match self.items.remove(&resource) {
            Some(r) => r,
            None => Resource::new_empty(resource),
        }
    }

    /// Puts the container `r` into the store, in place of the one that
    /// the store has for its resource, if it has one.
    fn put_back(&mut self, r: Resource)
        requires
            old(self).wf(),
        ensures
            final(self).wf(),
            final(self).containers() == old(self).containers().insert(r.kind(), r),
    {
        let k = r.resource();
        let _ = self.items.insert(k, r);
        proof {
            assert forall|j: u32| #[trigger] self.containers().contains_key(j) implies
                self.containers()[j].kind() == j by {
                if j != k {
                    assert(old(self).containers().contains_key(j));
                }
            }
        }
    }

    /// How many units of `resource` the store holds.
    pub fn amount(&self, resource: u32) -> (n: u32)
        requires
            self.wf(),
        ensures
            n == self.units_of(resource),
    {
        match self.items.get(&resource) {
            Some(r) => r.amount(),
            None => 0,
        }
    }

    /// Puts the units of `bundle` into the container for its resource.
    pub fn add(&mut self, bundle: Bundle)
        requires
            old(self).wf(),
            old(self).units_of(bundle.resource) + bundle.amount <= u32::MAX,
        ensures
            final(self).wf(),
            final(self).containers().contains_key(bundle.resource),
            forall|k: u32|
                #[trigger] final(self).units_of(k) == if k == bundle.resource {
                    old(self).units_of(k) + bundle.amount
                } else {
                    old(self).units_of(k) as int
                },
    {
        let mut r = self.take_out(bundle.resource);
        r.add(bundle);
        self.put_back(r);
    }

    /// Takes a bundle of exactly `amount` units of `resource` out of the
    /// store, or nothing at all where it holds less.
    pub fn bundle(&mut self, resource: u32, amount: u32) -> (r: Result<
        Bundle,
        InsufficientResourceError,
    >)
        requires
            old(self).wf(),
        ensures
            final(self).wf(),
            final(self).containers().contains_key(resource),
            forall|k: u32|
                k != resource ==> #[trigger] final(self).units_of(k) == old(self).units_of(k),
            match r {
                Ok(b) => amount <= old(self).units_of(resource) && final(self).units_of(resource)
                    == old(self).units_of(resource) - amount && b == (Bundle { resource, amount }),
                Err(e) => amount > old(self).units_of(resource) && final(self).units_of(resource)
                    == old(self).units_of(resource) && e.requested_amount == amount
                    && e.available_amount == old(self).units_of(resource),
            },
    {
        let mut held = self.take_out(resource);
        let r = held.bundle(amount);
        self.put_back(held);
        r
    }
}

/// Items that can be made use of many times (recipes, technologies).
pub trait Reusable {

}

/// Token that says that a reusable thing is available. It stands for the
/// permission to use the thing, and holds nothing of it.
pub struct Available<T: Reusable>(PhantomData<T>);

impl<T: Reusable> Clone for Available<T> {
    fn clone(&self) -> Self {
        Available(PhantomData)
    }
}

impl<T: Reusable> Copy for Available<T> {

}

/// A container for a reusable thing. The `Available` token serves as
/// access to what it holds. What is put in stays in: the container never
/// goes back to holding nothing.
pub struct ReusableContainer<T> {
    /// The reusable thing, once it is built.
    val: Option<T>,
}

impl<T: Reusable> ReusableContainer<T> {
    /// What the container holds, if anything.
    pub closed spec fn content(&self) -> Option<T> {
        self.val
    }

    /// A container that holds nothing yet.
    pub fn empty() -> (r: Self)
        ensures
            r.content() is None,
    {
        ReusableContainer { val: None }
    }

    /// A token for what the container holds, if it holds anything.
    pub fn available(&self) -> (r: Option<Available<T>>)
        ensures
            r is Some <==> self.content() is Some,
    {
        match &self.val {
            Some(_) => Some(Available(PhantomData)),
            None => None,
        }
    }

    /// What the container holds.
    pub fn get(&self, _token: Available<T>) -> (r: &T)
        requires
            self.content() is Some,
        ensures
            self.content() == Some(*r),
    {
        match &self.val {
            Some(t) => t,
            None => vstd::pervasive::unreached(),
        }
    }

    /// Puts `t` into the container and returns the token for it.
    pub fn set(&mut self, t: T) -> (r: Available<T>)
        ensures
            final(self).content() == Some(t),
    {
        self.val = Some(t);
        Available(PhantomData)
    }
}

/// What the first `n` of `items` hold together, if each of them is a
/// bundle of `resource`.
pub open spec fn bundles_total(items: Seq<Value>, resource: u32, n: int) -> Option<nat>
    decreases n,
{
    if n <= 0 || n > items.len() {
        Some(0)
    } else {
        match (bundles_total(items, resource, n - 1), items[n - 1]) {
            (Some(rest), Value::Bundle(b)) => if b.resource == resource {
                Some((rest + b.amount) as nat)
            } else {
                None
            },
            _ => None,
        }
    }
}

/// What the items of `list` hold together, if it is a list and each of its
/// items is a bundle of `resource`.
pub open spec fn list_total(list: Value, resource: u32) -> Option<nat> {
    match list {
        Value::List(items) => bundles_total(items@, resource, items@.len() as int),
        _ => None,
    }
}

/// Puts the bundles of a list together into one container of `resource`.
/// There is no such container where `list` is not a list, where one of its
/// items is not a bundle of `resource`, or where the units are too many to
/// count.
pub fn sum_bundles(list: &Value, resource: u32) -> (r: Option<Resource>)
    ensures
        match r {
            Some(total) => list_total(*list, resource) == Some(total.units()) && total.kind()
                == resource && total.units() <= u32::MAX,
            None => list_total(*list, resource) matches Some(n) ==> n > u32::MAX,
        },
{
    match list {
        Value::List(items) => {
            let mut total = Resource::new_empty(resource);
            let mut i: usize = 0;
            while i < items.len()
                invariant
                    i <= items@.len(),
                    list_total(*list, resource) == bundles_total(
                        items@,
                        resource,
                        items@.len() as int,
                    ),
                    total.kind() == resource,
                    bundles_total(items@, resource, i as int) == Some(total.units()),
                    total.units() <= u32::MAX,
                decreases items@.len() - i,
            {
                match &items[i] {
                    Value::Bundle(b) => {
                        if b.resource != resource || b.amount > u32::MAX - total.amount() {
                            proof {
                                let next = bundles_total(items@, resource, i as int + 1);
                                assert(items@[i as int] == Value::Bundle(*b));
                                assert(next == if b.resource == resource {
                                    Some((total.units() + b.amount) as nat)
                                } else {
                                    None
                                });
                                lemma_bundles_total_grows(
                                    items@,
                                    resource,
                                    i as int + 1,
                                    items@.len() as int,
                                );
                            }
                            return None;
                        }
                        total.add(*b);
                    },
                    _ => {
                        proof {
                            assert(!(items@[i as int] is Bundle));
                            assert(bundles_total(items@, resource, i as int + 1) is None);
                            lemma_bundles_total_grows(
                                items@,
                                resource,
                                i as int + 1,
                                items@.len() as int,
                            );
                        }
                        return None;
                    },
                }
                i += 1;
            }
            Some(total)
        },
        _ => None,
    }
}

/// The bundles of a longer part of a list come to no less than those of a
/// shorter part, and to nothing where those come to nothing.
proof fn lemma_bundles_total_grows(items: Seq<Value>, resource: u32, n: int, m: int)
    requires
        0 <= n <= m <= items.len(),
    ensures
        bundles_total(items, resource, n) is None ==> bundles_total(items, resource, m) is None,
        bundles_total(items, resource, m) matches Some(t) ==> bundles_total(items, resource, n)
            matches Some(s) && s <= t,
    decreases m - n,
{
    if n < m {
        lemma_bundles_total_grows(items, resource, n, m - 1);
    }
}

} // verus!
