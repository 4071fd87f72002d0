use factory_scheduler::recipes::{tup1_field0, tup2_field0, tup2_field1, IsBundle, MultiBundle};
use factory_scheduler::resources::{
    InsufficientResourceError, Resource, ResourceStore, Reusable, ReusableContainer,
};
use factory_scheduler::value::Bundle;

struct Recipe(u32);

impl Reusable for Recipe {}

fn holding(resource: u32, amount: u32) -> Resource {
    let mut r = Resource::new_empty(resource);
    r.add(Bundle { resource, amount });
    r
}

#[test]
fn tuple_fields_are_what_they_are() {
    assert_eq!(tup1_field0((7u32,)), 7);
    assert_eq!(tup2_field0((7u32, 'x')), 7);
    assert_eq!(tup2_field1((7u32, 'x')), 'x');
}

#[test]
fn a_withdrawal_is_all_or_nothing() {
    let mut r = holding(3, 10);
    assert_eq!(r.resource(), 3);
    assert_eq!(r.bundle(4), Ok(Bundle { resource: 3, amount: 4 }));
    assert_eq!(r.amount(), 6);
    assert_eq!(
        r.bundle(7),
        Err(InsufficientResourceError { requested_amount: 7, available_amount: 6 })
    );
    assert_eq!(r.amount(), 6);
    assert_eq!(r.bundle(6), Ok(Bundle { resource: 3, amount: 6 }));
    assert_eq!(r.amount(), 0);
    assert_eq!(r.bundle(0), Ok(Bundle { resource: 3, amount: 0 }));
}

#[test]
fn a_store_keeps_each_resource_apart() {
    let mut store = ResourceStore::new();
    assert_eq!(store.amount(1), 0);
    store.add(Bundle { resource: 1, amount: 5 });
    store.add(Bundle { resource: 2, amount: 7 });
    store.add(Bundle { resource: 1, amount: 1 });
    assert_eq!(store.amount(1), 6);
    assert_eq!(store.amount(2), 7);
    assert_eq!(store.amount(3), 0);
    assert_eq!(store.bundle(2, 7), Ok(Bundle { resource: 2, amount: 7 }));
    assert_eq!(
        store.bundle(2, 1),
        Err(InsufficientResourceError { requested_amount: 1, available_amount: 0 })
    );
    assert_eq!(
        store.bundle(9, 2),
        Err(InsufficientResourceError { requested_amount: 2, available_amount: 0 })
    );
    assert_eq!(store.amount(1), 6);
}

#[test]
fn a_bundle_becomes_a_container_of_its_units() {
    let r = Bundle { resource: 4, amount: 9 }.to_resource();
    assert_eq!((r.resource(), r.amount()), (4, 9));
    let wrapped = (Bundle { resource: 5, amount: 2 },);
    assert_eq!(wrapped.amount(), 2);
    assert_eq!(IsBundle::amount(&Bundle { resource: 5, amount: 3 }), 3);
    let r = wrapped.to_resource();
    assert_eq!((r.resource(), r.amount()), (5, 2));
}

#[test]
fn bundles_of_one_resource_are_counted_by_division() {
    let size = (Bundle { resource: 1, amount: 3 },);
    let mut res = (holding(1, 10),);
    assert_eq!(size.bundle_count(&res), 3);
    assert_eq!(size.bundle(&mut res), Some((Bundle { resource: 1, amount: 3 },)));
    assert_eq!(res.0.amount(), 7);
    assert_eq!(size.bundle_count(&res), 2);
    (Bundle { resource: 1, amount: 3 },).add(&mut res);
    assert_eq!(res.0.amount(), 10);
    assert_eq!(size.bundle_count(&res), 3);
    let mut little = (holding(1, 2),);
    assert_eq!(size.bundle_count(&little), 0);
    assert_eq!(size.bundle(&mut little), None);
    assert_eq!(little.0.amount(), 2);
}

#[test]
fn bundles_of_two_resources_are_counted_by_the_scarcer() {
    let size = (Bundle { resource: 1, amount: 2 }, Bundle { resource: 2, amount: 5 });
    let mut res = (holding(1, 9), holding(2, 11));
    assert_eq!(size.bundle_count(&res), 2);
    assert_eq!(
        size.bundle(&mut res),
        Some((Bundle { resource: 1, amount: 2 }, Bundle { resource: 2, amount: 5 }))
    );
    assert_eq!((res.0.amount(), res.1.amount()), (7, 6));
    assert_eq!(size.bundle(&mut res).is_some(), true);
    assert_eq!((res.0.amount(), res.1.amount()), (5, 1));
    // Enough of the first, too little of the second: nothing is taken.
    assert_eq!(size.bundle_count(&res), 0);
    assert_eq!(size.bundle(&mut res), None);
    assert_eq!((res.0.amount(), res.1.amount()), (5, 1));
    (Bundle { resource: 1, amount: 2 }, Bundle { resource: 2, amount: 5 }).add(&mut res);
    assert_eq!((res.0.amount(), res.1.amount()), (7, 6));
    assert_eq!(size.bundle_count(&res), 1);
}

#[test]
fn a_reusable_thing_is_there_once_it_is_set() {
    let mut c: ReusableContainer<Recipe> = ReusableContainer::empty();
    assert!(c.available().is_none());
    let token = c.set(Recipe(5));
    assert!(c.available().is_some());
    assert_eq!(c.get(token).0, 5);
    // The token can be copied, and holds nothing of the thing.
    let copy = token;
    assert_eq!(c.get(copy).0, 5);
    assert_eq!(c.get(token).0, 5);
    assert_eq!(std::mem::size_of_val(&token), 0);
    // Setting it again hands out a token to the new thing.
    let again = c.set(Recipe(6));
    assert_eq!(c.get(again).0, 6);
    assert!(c.available().is_some());
}

#[test]
fn a_withdrawal_of_two_takes_from_both_or_from_neither() {
    let size = (Bundle { resource: 1, amount: 3 }, Bundle { resource: 2, amount: 4 });
    let mut res = (holding(1, 10), holding(2, 4));
    assert!(size.bundle(&mut res).is_some());
    assert_eq!((res.0.amount(), res.1.amount()), (7, 0));
    assert!(size.bundle(&mut res).is_none());
    assert_eq!((res.0.amount(), res.1.amount()), (7, 0));
    let mut short = (holding(1, 2), holding(2, 40));
    assert!(size.bundle(&mut short).is_none());
    assert_eq!((short.0.amount(), short.1.amount()), (2, 40));
}
