use rust_backend::market::order::{copy_orders, watched_regions, Order, Orders};

fn order(order_id: u64, type_id: u64) -> Order {
    Order {
        duration: 30,
        is_buy_order: false,
        issued: 1_700_000_000,
        location_id: 60003760,
        min_volume: 1,
        order_id,
        price: 12345,
        range: String::from("station"),
        system_id: 30000142,
        type_id,
        volume_remain: 10,
        volume_total: 20,
    }
}

fn ids(orders: &[Order]) -> Vec<u64> {
    orders.iter().map(|o| o.order_id).collect()
}

const WATCHED: u64 = 10000033;

#[test]
fn watched_region_is_the_configured_one() {
    assert_eq!(watched_regions(), vec![WATCHED]);
}

#[test]
fn empty_cache_lists_the_watched_region_as_stale() {
    let cache = Orders::new();
    assert_eq!(cache.expired_regions_at(0), vec![WATCHED]);
    assert_eq!(cache.expired_regions(), vec![WATCHED]);
    assert!(cache.orders().is_empty());
    assert!(!cache.contains_region(WATCHED));
}

#[test]
fn refreshed_region_is_not_stale_before_its_deadline() {
    let mut cache = Orders::new();
    cache.insert(WATCHED, vec![order(1, 34)], 1000);
    assert!(cache.expired_regions_at(999).is_empty());
    assert!(cache.contains_region(WATCHED));
}

#[test]
fn region_is_stale_at_its_deadline_and_after() {
    let mut cache = Orders::new();
    cache.insert(WATCHED, vec![order(1, 34)], 1000);
    assert_eq!(cache.expired_regions_at(1000), vec![WATCHED]);
    assert_eq!(cache.expired_regions_at(1001), vec![WATCHED]);
}

#[test]
fn unwatched_region_is_stale_only_once_fetched_and_due() {
    let mut cache = Orders::new();
    cache.insert(10000002, vec![order(1, 34)], 500);
    cache.insert(WATCHED, vec![], 2000);
    assert_eq!(cache.expired_regions_at(400), Vec::<u64>::new());
    assert_eq!(cache.expired_regions_at(500), vec![10000002]);
    assert_eq!(cache.expired_regions_at(2000), vec![10000002, WATCHED]);
}

#[test]
fn no_region_is_listed_twice() {
    let mut cache = Orders::new();
    cache.insert(7, vec![], 10);
    cache.insert(7, vec![], 20);
    cache.insert(8, vec![], 5);
    let mut stale = cache.expired_regions_at(100);
    stale.sort();
    assert_eq!(stale, vec![7, 8, WATCHED]);
}

#[test]
fn clock_based_listing_follows_the_deadlines() {
    let mut cache = Orders::new();
    cache.insert(WATCHED, vec![], i64::MAX);
    cache.insert(5, vec![], 0);
    assert_eq!(cache.expired_regions(), vec![5]);
}

#[test]
fn insert_overwrites_orders_and_deadline() {
    let mut cache = Orders::new();
    cache.insert(7, vec![order(1, 34), order(2, 35)], 10);
    cache.insert(7, vec![order(3, 36)], 50);
    assert_eq!(ids(&cache.orders()), vec![3]);
    assert!(cache.expired_regions_at(20).iter().all(|r| *r != 7));
    assert!(cache.expired_regions_at(50).contains(&7));
}

#[test]
fn storing_the_same_listing_twice_changes_nothing() {
    let mut once = Orders::new();
    once.insert(7, vec![order(1, 34), order(2, 35)], 10);
    let mut twice = Orders::new();
    twice.insert(7, vec![order(1, 34), order(2, 35)], 10);
    twice.insert(7, vec![order(1, 34), order(2, 35)], 10);
    assert_eq!(once.orders(), twice.orders());
    assert_eq!(once.expired_regions_at(10), twice.expired_regions_at(10));
    assert_eq!(once.expired_regions_at(9), twice.expired_regions_at(9));
}

#[test]
fn taking_over_the_same_batch_twice_changes_nothing() {
    let batch = || {
        let mut b = Orders::new();
        b.insert(7, vec![order(1, 34)], 10);
        b.insert(9, vec![order(2, 35)], 30);
        b
    };
    let mut once = Orders::new();
    once.insert(8, vec![order(5, 1)], 20);
    once.update(batch());
    let mut twice = Orders::new();
    twice.insert(8, vec![order(5, 1)], 20);
    twice.update(batch());
    twice.update(batch());
    assert_eq!(once.orders(), twice.orders());
    assert_eq!(ids(&once.orders()), vec![5, 1, 2]);
    assert_eq!(once.expired_regions_at(25), twice.expired_regions_at(25));
}

#[test]
fn update_replaces_named_regions_and_keeps_the_rest() {
    let mut cache = Orders::new();
    cache.insert(7, vec![order(1, 34)], 10);
    cache.insert(8, vec![order(2, 34)], 10);
    let mut batch = Orders::new();
    batch.insert(9, vec![order(4, 34)], 100);
    batch.insert(7, vec![order(3, 34)], 100);
    cache.update(batch);
    assert_eq!(ids(&cache.orders()), vec![3, 2, 4]);
    let mut stale = cache.expired_regions_at(50);
    stale.sort();
    assert_eq!(stale, vec![8, WATCHED]);
}

#[test]
fn two_regions_land_whichever_comes_first() {
    let mut ab = Orders::new();
    ab.insert(7, vec![order(1, 34)], 10);
    ab.insert(8, vec![order(2, 35)], 20);
    let mut ba = Orders::new();
    ba.insert(8, vec![order(2, 35)], 20);
    ba.insert(7, vec![order(1, 34)], 10);
    let mut left = ids(&ab.orders());
    let mut right = ids(&ba.orders());
    left.sort();
    right.sort();
    assert_eq!(left, vec![1, 2]);
    assert_eq!(left, right);
    for now in [5, 10, 15, 20, 25] {
        let mut l = ab.expired_regions_at(now);
        let mut r = ba.expired_regions_at(now);
        l.sort();
        r.sort();
        assert_eq!(l, r);
    }
    assert!(ab.contains_region(7) && ab.contains_region(8));
}

#[test]
fn orders_are_flattened_region_after_region() {
    let mut cache = Orders::new();
    cache.insert(7, vec![order(1, 34), order(2, 34)], 10);
    cache.insert(8, vec![], 10);
    cache.insert(9, vec![order(3, 34)], 10);
    assert_eq!(ids(&cache.orders()), vec![1, 2, 3]);
    assert_eq!(cache.orders()[0], order(1, 34));
}

#[test]
fn order_clone_is_equal() {
    let o = order(1, 34);
    assert_eq!(o.clone(), o);
    assert_eq!(copy_orders(&vec![order(1, 2), order(3, 4)]), vec![order(1, 2), order(3, 4)]);
}
