//! Bundle arithmetic: how many bundles a set of resource containers holds,
//! and how bundles go in and come out of it.

use vstd::prelude::*;

use crate::resources::Resource;
use crate::value::Bundle;

verus! {

/// The only field of a tuple of one.
pub fn tup1_field0<A: Copy>(x: (A,)) -> (r: A)
    ensures
        r == x.0,
{
    x.0
}

/// The first field of a pair.
pub fn tup2_field0<A: Copy, B: Copy>(x: (A, B)) -> (r: A)
    ensures
        r == x.0,
{
    x.0
}

/// The second field of a pair.
pub fn tup2_field1<A: Copy, B: Copy>(x: (A, B)) -> (r: B)
    ensures
        r == x.1,
{
    x.1
}

/// A bundle, or what wraps one.
pub trait IsBundle: Sized {
    /// The bundle itself.
    spec fn as_bundle(&self) -> Bundle;

    /// How many units it holds.
    fn amount(&self) -> (n: u32)
        ensures
            n == self.as_bundle().amount,
    ;

    /// A container that holds just the units of the bundle.
    fn to_resource(self) -> (r: Resource)
        ensures
            r.kind() == self.as_bundle().resource,
            r.units() == self.as_bundle().amount,
    ;
}

impl IsBundle for Bundle {
    open spec fn as_bundle(&self) -> Bundle {
        *self
    }

    fn amount(&self) -> (n: u32) {
        self.amount
    }

    fn to_resource(self) -> (r: Resource) {
        let mut r = Resource::new_empty(self.resource);
        r.add(self);
        r
    }
}

impl IsBundle for (Bundle,) {
    open spec fn as_bundle(&self) -> Bundle {
        self.0
    }

    fn amount(&self) -> (n: u32) {
        self.0.amount
    }

    fn to_resource(self) -> (r: Resource) {
        self.0.to_resource()
    }
}

/// A tuple of bundles: what one cycle of a recipe takes in or gives out.
pub trait MultiBundle: Sized {
    /// The matching tuple of resource containers.
    type AsResource;

    /// Whether the bundles are of the resources of `res`, one for one, and
    /// none of them is empty.
    spec fn fits(&self, res: &Self::AsResource) -> bool;

    /// How many times the bundles are there in `res`.
    spec fn count(&self, res: &Self::AsResource) -> nat;

    /// Whether `res` has room for the bundles once more.
    spec fn has_room(&self, res: &Self::AsResource) -> bool;

    /// How many units each container of `res` holds, in order.
    spec fn held(res: &Self::AsResource) -> Seq<nat>;

    /// How many units each of the bundles holds, in order.
    spec fn sizes(&self) -> Seq<nat>;

    /// Counts the bundle tuples available in the given resource tuple.
    fn bundle_count(&self, res: &Self::AsResource) -> (n: u32)
        requires
            self.fits(res),
        ensures
            n == self.count(res),
    ;

    /// Adds the bundle tuple to the resource tuple.
    fn add(self, res: &mut Self::AsResource)
        requires
            self.fits(old(res)),
            self.has_room(old(res)),
        ensures
            self.fits(final(res)),
            self.count(final(res)) == self.count(old(res)) + 1,
            Self::held(final(res)).len() == self.sizes().len(),
            forall|i: int|
                0 <= i < self.sizes().len() ==> #[trigger] Self::held(final(res))[i] == Self::held(
                    old(res),
                )[i] + self.sizes()[i],
    ;

    /// Pops a bundle tuple from a resource tuple, if there are enough
    /// resources for all of it; else the resources stay as they are.
    fn bundle(&self, res: &mut Self::AsResource) -> (r: Option<Self>)
        requires
            self.fits(old(res)),
        ensures
            self.fits(final(res)),
            r is Some <==> self.count(old(res)) > 0,
            r matches Some(b) ==> b == *self && self.count(final(res)) == self.count(old(res)) - 1,
            r is Some ==> Self::held(final(res)).len() == self.sizes().len() && forall|i: int|
                0 <= i < self.sizes().len() ==> #[trigger] Self::held(final(res))[i] == Self::held(
                    old(res),
                )[i] - self.sizes()[i],
            r is None ==> *final(res) == *old(res),
    ;
}

/// How many bundles of `size` units there are in `units` units.
pub open spec fn bundles_in(units: nat, size: nat) -> nat {
    if size == 0 {
        0
    } else {
        units / size
    }
}

/// One bundle more or less is one more or less in the count.
proof fn lemma_bundles_in_step(units: nat, size: nat)
    requires
        size > 0,
    ensures
        bundles_in(units + size, size) == bundles_in(units, size) + 1,
        units >= size ==> bundles_in((units - size) as nat, size) + 1 == bundles_in(units, size),
        units < size <==> bundles_in(units, size) == 0,
{
    vstd::arithmetic::div_mod::lemma_div_plus_one(units as int, size as int);
    if units >= size {
        vstd::arithmetic::div_mod::lemma_div_plus_one(units - size, size as int);
        assert(units - size + size == units);
    }
    if units < size {
        vstd::arithmetic::div_mod::lemma_basic_div(units as int, size as int);
    } else {
        vstd::arithmetic::div_mod::lemma_div_non_zero(units as int, size as int);
    }
}

impl MultiBundle for (Bundle,) {
    type AsResource = (Resource,);

    open spec fn fits(&self, res: &(Resource,)) -> bool {
        self.0.resource == res.0.kind() && self.0.amount > 0
    }

    open spec fn count(&self, res: &(Resource,)) -> nat {
        bundles_in(res.0.units(), self.0.amount as nat)
    }

    open spec fn has_room(&self, res: &(Resource,)) -> bool {
        res.0.units() + self.0.amount <= u32::MAX
    }

    open spec fn held(res: &(Resource,)) -> Seq<nat> {
        seq![res.0.units()]
    }

    open spec fn sizes(&self) -> Seq<nat> {
        seq![self.0.amount as nat]
    }

    fn bundle_count(&self, res: &(Resource,)) -> (n: u32) {
        res.0.amount() / self.0.amount
    }

    fn add(self, res: &mut (Resource,)) {
        proof {
            lemma_bundles_in_step(res.0.units(), self.0.amount as nat);
        }
        res.0.add(self.0);
    }

    fn bundle(&self, res: &mut (Resource,)) -> (r: Option<Self>) {
        proof {
            lemma_bundles_in_step(res.0.units(), self.0.amount as nat);
        }
        match res.0.bundle(self.0.amount) {
            Ok(b) => Some((b,)),
            Err(_) => None,
        }
    }
}

/// The smaller of two counts.
pub open spec fn smaller(a: nat, b: nat) -> nat {
    if a <= b {
        a
    } else {
        b
    }
}

impl MultiBundle for (Bundle, Bundle) {
    type AsResource = (Resource, Resource);

    open spec fn fits(&self, res: &(Resource, Resource)) -> bool {
        &&& self.0.resource == res.0.kind() && self.0.amount > 0
        &&& self.1.resource == res.1.kind() && self.1.amount > 0
    }

    open spec fn count(&self, res: &(Resource, Resource)) -> nat {
        smaller(
            bundles_in(res.0.units(), self.0.amount as nat),
            bundles_in(res.1.units(), self.1.amount as nat),
        )
    }

    open spec fn has_room(&self, res: &(Resource, Resource)) -> bool {
        res.0.units() + self.0.amount <= u32::MAX && res.1.units() + self.1.amount <= u32::MAX
    }

    open spec fn held(res: &(Resource, Resource)) -> Seq<nat> {
        seq![res.0.units(), res.1.units()]
    }

    open spec fn sizes(&self) -> Seq<nat> {
        seq![self.0.amount as nat, self.1.amount as nat]
    }

    fn bundle_count(&self, res: &(Resource, Resource)) -> (n: u32) {
        let a = res.0.amount() / self.0.amount;
        let b = res.1.amount() / self.1.amount;
        if a <= b {
            a
        } else {
            b
        }
    }

    fn add(self, res: &mut (Resource, Resource)) {
        proof {
            lemma_bundles_in_step(res.0.units(), self.0.amount as nat);
            lemma_bundles_in_step(res.1.units(), self.1.amount as nat);
        }
        res.0.add(self.0);
        res.1.add(self.1);
    }

    fn bundle(&self, res: &mut (Resource, Resource)) -> (r: Option<Self>) {
        proof {
            lemma_bundles_in_step(res.0.units(), self.0.amount as nat);
            lemma_bundles_in_step(res.1.units(), self.1.amount as nat);
        }
        if res.0.amount() >= self.0.amount && res.1.amount() >= self.1.amount {
            let first = res.0.bundle(self.0.amount);
            let second = res.1.bundle(self.1.amount);
            match (first, second) {
                (Ok(a), Ok(b)) => Some((a, b)),
                _ => None,
            }
        } else {
            None
        }
    }
}

} // verus!
