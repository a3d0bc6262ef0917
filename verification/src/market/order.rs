//! Orders as the market reports them, and the cache that keeps the latest
//! listing of each region together with the time at which it goes stale.
//!
//! Prices are in hundredths of the currency unit; times are seconds since the
//! Unix epoch.

use std::collections::HashMap;
use vstd::prelude::*;

verus! {

broadcast use vstd::std_specs::hash::group_hash_axioms;

/// One order of the market, as listed.
#[derive(Debug, PartialEq, Eq)]
pub struct Order {
    pub duration: u64,
    pub is_buy_order: bool,
    pub issued: i64,
    pub location_id: u64,
    pub min_volume: u64,
    pub order_id: u64,
    pub price: u64,
    pub range: String,
    pub system_id: u64,
    pub type_id: u64,
    pub volume_remain: u64,
    pub volume_total: u64,
}

impl Clone for Order {
    fn clone(&self) -> (copy: Order)
        ensures
            copy == *self,
    {
        Order {
            duration: self.duration,
            is_buy_order: self.is_buy_order,
            issued: self.issued,
            location_id: self.location_id,
            min_volume: self.min_volume,
            order_id: self.order_id,
            price: self.price,
            range: self.range.clone(),
            system_id: self.system_id,
            type_id: self.type_id,
            volume_remain: self.volume_remain,
            volume_total: self.volume_total,
        }
    }
}

/// What the cache holds of one region.
pub struct RegionSnapshot {
    pub orders: Seq<Order>,
    pub expiry: i64,
}

/// The regions that are refreshed even before anything was fetched for them.
pub open spec fn watched() -> Seq<u64> {
    seq![10000033u64]
}

/// The regions that are refreshed even before anything was fetched for them.
pub fn watched_regions() -> (regions: Vec<u64>)
    ensures
        regions@ == watched(),
{
    let mut regions: Vec<u64> = Vec::new();
    regions.push(10000033u64);
    assert(regions@ =~= watched());
    regions
}

/// A region is stale at `now` if its deadline is at or before `now`, or if it
/// is watched and was never fetched.
pub open spec fn is_stale(cache: Map<u64, RegionSnapshot>, now: i64, region: u64) -> bool {
    if cache.contains_key(region) {
        cache[region].expiry <= now
    } else {
        watched().contains(region)
    }
}

/// The orders of the given regions, region after region.
pub open spec fn orders_along(cache: Map<u64, RegionSnapshot>, regions: Seq<u64>) -> Seq<Order>
    decreases regions.len(),
{
    if regions.len() == 0 {
        Seq::empty()
    } else {
        orders_along(cache, regions.drop_last()) + cache[regions.last()].orders
    }
}

proof fn lemma_push_contains(s: Seq<u64>, x: u64, r: u64)
    ensures
        s.push(x).contains(r) <==> (s.contains(r) || r == x),
{
    if s.contains(r) {
        let i = choose|i: int| 0 <= i < s.len() && s[i] == r;
        assert(s.push(x)[i] == r);
    }
    if r == x {
        assert(s.push(x)[s.len() as int] == r);
    }
}

/// One of the first `k` of the listed regions is the given one, and it is
/// due at `now`.
spec fn due_before(
    regions: Seq<u64>,
    expiry_times: Map<u64, i64>,
    k: int,
    now: i64,
    region: u64,
) -> bool {
    exists|i: int| 0 <= i < k && #[trigger] regions[i] == region && expiry_times[region] <= now
}

/// What a cache holds of the first `k` of its regions.
spec fn first_regions(cache: Map<u64, RegionSnapshot>, regions: Seq<u64>, k: int) -> Map<
    u64,
    RegionSnapshot,
> {
    Map::new(|region: u64| listed_before(regions, k, region), |region: u64| cache[region])
}

/// One of the first `k` of the listed regions is the given one.
spec fn listed_before(regions: Seq<u64>, k: int, region: u64) -> bool {
    exists|i: int| 0 <= i < k && #[trigger] regions[i] == region
}

/// `stale` names each region that is stale at `now` once, and no other.
pub open spec fn lists_stale(cache: Map<u64, RegionSnapshot>, now: i64, stale: Seq<u64>) -> bool {
    &&& stale.no_duplicates()
    &&& forall|region: u64| stale.contains(region) <==> is_stale(cache, now, region)
}

/// The order of the regions after `added` came in one by one: those that are
/// new are put at the end.
pub open spec fn merge_order(base: Seq<u64>, added: Seq<u64>) -> Seq<u64>
    decreases added.len(),
{
    if added.len() == 0 {
        base
    } else {
        let merged = merge_order(base, added.drop_last());
        if merged.contains(added.last()) {
            merged
        } else {
            merged.push(added.last())
        }
    }
}

fn has_region(regions: &Vec<u64>, region: u64) -> (found: bool)
    ensures
        found == regions@.contains(region),
{
    let mut k: usize = 0;
    while k < regions.len()
        invariant
            k <= regions@.len(),
            forall|i: int| 0 <= i < k ==> regions@[i] != region,
        decreases regions@.len() - k,
    {
        if regions[k] == region {
            return true;
        }
        k += 1;
    }
    false
}

/// A copy of a list of orders.
pub fn copy_orders(orders: &Vec<Order>) -> (copy: Vec<Order>)
    ensures
        copy@ == orders@,
{
    let mut copy: Vec<Order> = Vec::new();
    let mut i: usize = 0;
    while i < orders.len()
        invariant
            i <= orders@.len(),
            copy@ == orders@.take(i as int),
        decreases orders@.len() - i,
    {
        copy.push(orders[i].clone());
        assert(orders@.take(i + 1) =~= orders@.take(i as int).push(orders@[i as int]));
        i += 1;
    }
    assert(orders@.take(orders@.len() as int) =~= orders@);
    copy
}

/// The time now, in seconds since the Unix epoch, as `chrono::Utc::now`
/// reports it. Nothing is claimed of the value. The call fails only where the
/// system clock stands before the epoch.
#[verifier::external_body]
fn current_time() -> (now: i64) {
    chrono::Utc::now().timestamp()
}

/// The cache: for each region fetched so far, its latest orders and the time
/// at which they go stale. The regions are also kept in the order in which
/// they first came in, so that the cache is walked in one fixed order.
pub struct Orders {
    region_orders: HashMap<u64, Vec<Order>>,
    expiry_times: HashMap<u64, i64>,
    regions: Vec<u64>,
}

impl View for Orders {
    type V = Map<u64, RegionSnapshot>;

    closed spec fn view(&self) -> Map<u64, RegionSnapshot> {
        Map::new(
            |region: u64| self.region_orders@.contains_key(region),
            |region: u64|
                RegionSnapshot {
                    orders: self.region_orders@[region]@,
                    expiry: self.expiry_times@[region],
                },
        )
    }
}

impl Orders {
    /// Every region with orders has a deadline, and the list of regions names
    /// each of them once.
    pub closed spec fn wf(&self) -> bool {
        &&& self.regions@.no_duplicates()
        &&& forall|region: u64|
            self.regions@.contains(region) <==> self.region_orders@.contains_key(region)
        &&& forall|region: u64|
            self.region_orders@.contains_key(region) <==> self.expiry_times@.contains_key(region)
    }

    /// The cached regions, in the order in which they first came in.
    pub closed spec fn region_order(&self) -> Seq<u64> {
        self.regions@
    }

    /// The order of the regions names each cached region once.
    pub proof fn lemma_region_order(&self)
        requires
            self.wf(),
        ensures
            self.region_order().no_duplicates(),
            forall|region: u64|
                self.region_order().contains(region) <==> self@.contains_key(region),
    {
    }

    /// An empty cache.
    pub fn new() -> (cache: Orders)
        ensures
            cache.wf(),
            cache@ == Map::<u64, RegionSnapshot>::empty(),
            cache.region_order() == Seq::<u64>::empty(),
    {
        let cache = Orders {
            region_orders: HashMap::new(),
            expiry_times: HashMap::new(),
            regions: Vec::new(),
        };
        assert(cache@ =~= Map::<u64, RegionSnapshot>::empty());
        cache
    }

    /// Whether anything was ever stored for the region.
    pub fn contains_region(&self, region: u64) -> (found: bool)
        requires
            self.wf(),
        ensures
            found == self@.contains_key(region),
    {
        self.region_orders.contains_key(&region)
    }

    /// Stores a region's orders and deadline, in place of whatever was stored
    /// for it before. Nothing else changes.
    pub fn insert(&mut self, region: u64, orders: Vec<Order>, expiry: i64)
        requires
            old(self).wf(),
        ensures
            final(self).wf(),
            final(self)@ == old(self)@.insert(region, RegionSnapshot { orders: orders@, expiry }),
            final(self).region_order() == if old(self)@.contains_key(region) {
                old(self).region_order()
            } else {
                old(self).region_order().push(region)
            },
    {
        let known = self.region_orders.contains_key(&region);
        let ghost stored = RegionSnapshot { orders: orders@, expiry };
        let ghost listed = self.regions@;
        self.region_orders.insert(region, orders);
        self.expiry_times.insert(region, expiry);
        if !known {
            self.regions.push(region);
        }
        proof {
            assert forall|r: u64|
                self.regions@.contains(r) <==> self.region_orders@.contains_key(r) by {
                if !known {
                    lemma_push_contains(listed, region, r);
                } else {
                    assert(listed.contains(region));
                }
            }
            assert(self.regions@.no_duplicates()) by {
                if !known {
                    assert(!listed.contains(region));
                    assert forall|a: int, b: int|
                        0 <= a < self.regions@.len() && 0 <= b < self.regions@.len() && a
                            != b implies self.regions@[a] != self.regions@[b] by {
                        if a < listed.len() && b < listed.len() {
                            assert(listed[a] != listed[b]);
                        } else if a < listed.len() {
                            assert(listed.contains(listed[a]));
                        } else {
                            assert(listed.contains(listed[b]));
                        }
                    }
                }
            }
            assert forall|r: u64|
                self.region_orders@.contains_key(r) <==> self.expiry_times@.contains_key(r) by {
                assert(old(self).region_orders@.contains_key(r) <==> old(
                    self,
                ).expiry_times@.contains_key(r));
            }
            assert(self@ =~= old(self)@.insert(region, stored));
        }
    }

    /// The regions that are stale at `now`: those whose deadline is at or
    /// before `now`, and the watched regions that were never fetched.
    pub fn expired_regions_at(&self, now: i64) -> (stale: Vec<u64>)
        requires
            self.wf(),
        ensures
            lists_stale(self@, now, stale@),
    {
        let mut stale: Vec<u64> = Vec::new();
        let mut k: usize = 0;
        while k < self.regions.len()
            invariant
                k <= self.regions@.len(),
                self.wf(),
                stale@.no_duplicates(),
                forall|r: u64|
                    stale@.contains(r) <==> due_before(
                        self.regions@,
                        self.expiry_times@,
                        k as int,
                        now,
                        r,
                    ),
            decreases self.regions@.len() - k,
        {
            let ghost seen = stale@;
            let region = self.regions[k];
            assert(self.regions@.contains(region));
            let due = match self.expiry_times.get(&region) {
                Some(expiry) => *expiry <= now,
                None => false,
            };
            if due {
                proof {
                    if seen.contains(region) {
                        let i = choose|i: int|
                            0 <= i < k && #[trigger] self.regions@[i] == region
                                && self.expiry_times@[region] <= now;
                        assert(self.regions@[i] != self.regions@[k as int]);
                    }
                }
                stale.push(region);
            }
            proof {
                assert forall|r: u64|
                    stale@.contains(r) <==> due_before(
                        self.regions@,
                        self.expiry_times@,
                        k + 1,
                        now,
                        r,
                    ) by {
                    lemma_push_contains(seen, region, r);
                    if due_before(self.regions@, self.expiry_times@, k + 1, now, r) {
                        let i = choose|i: int|
                            0 <= i < k + 1 && #[trigger] self.regions@[i] == r
                                && self.expiry_times@[r] <= now;
                        if i < k {
                            assert(due_before(self.regions@, self.expiry_times@, k as int, now, r));
                        }
                    }
                    if due_before(self.regions@, self.expiry_times@, k as int, now, r) {
                        let i = choose|i: int|
                            0 <= i < k && #[trigger] self.regions@[i] == r && self.expiry_times@[r]
                                <= now;
                        assert(0 <= i < k + 1);
                    }
                    if r == region && due {
                        assert(self.regions@[k as int] == r);
                    }
                }
            }
            k += 1;
        }
        proof {
            assert forall|r: u64| stale@.contains(r) <==> (self@.contains_key(r)
                && self@[r].expiry <= now) by {
                if stale@.contains(r) {
                    let i = choose|i: int|
                        0 <= i < k && #[trigger] self.regions@[i] == r && self.expiry_times@[r]
                            <= now;
                    assert(self.regions@.contains(r));
                }
                if self@.contains_key(r) && self@[r].expiry <= now {
                    assert(self.regions@.contains(r));
                    let i = choose|i: int| 0 <= i < self.regions@.len() && self.regions@[i] == r;
                    assert(self.regions@[i] == r);
                    assert(due_before(self.regions@, self.expiry_times@, k as int, now, r));
                }
            }
        }
        let watch = watched_regions();
        let mut t: usize = 0;
        while t < watch.len()
            invariant
                t <= watch@.len(),
                self.wf(),
                stale@.no_duplicates(),
                forall|r: u64|
                    stale@.contains(r) <==> ((self@.contains_key(r) && self@[r].expiry <= now) || (
                    !self@.contains_key(r) && listed_before(watch@, t as int, r))),
            decreases watch@.len() - t,
        {
            let ghost seen = stale@;
            let region = watch[t];
            let fresh = !self.contains_region(region) && !has_region(&stale, region);
            if fresh {
                stale.push(region);
            }
            proof {
                assert forall|r: u64|
                    stale@.contains(r) <==> ((self@.contains_key(r) && self@[r].expiry <= now) || (
                    !self@.contains_key(r) && listed_before(watch@, t + 1, r))) by {
                    lemma_push_contains(seen, region, r);
                    if listed_before(watch@, t + 1, r) {
                        let i = choose|i: int| 0 <= i < t + 1 && #[trigger] watch@[i] == r;
                        if i < t {
                            assert(listed_before(watch@, t as int, r));
                        }
                    }
                    if listed_before(watch@, t as int, r) {
                        let i = choose|i: int| 0 <= i < t && #[trigger] watch@[i] == r;
                        assert(0 <= i < t + 1);
                    }
                    if r == region {
                        assert(watch@[t as int] == r);
                    }
                }
            }
            t += 1;
        }
        proof {
            assert forall|r: u64| stale@.contains(r) <==> is_stale(self@, now, r) by {
                if listed_before(watch@, t as int, r) {
                    let i = choose|i: int| 0 <= i < t && #[trigger] watch@[i] == r;
                    assert(watched()[i] == r);
                }
                if watched().contains(r) {
                    let i = choose|i: int| 0 <= i < watched().len() && watched()[i] == r;
                    assert(watch@[i] == r);
                }
            }
        }
        stale
    }

    /// The regions that are stale by the system clock.
    pub fn expired_regions(&self) -> (stale: Vec<u64>)
        requires
            self.wf(),
        ensures
            exists|now: i64| lists_stale(self@, now, stale@),
    {
        let now = current_time();
        self.expired_regions_at(now)
    }

    /// Takes over every region of `updated_orders`, in place of what was
    /// stored for it; the other regions stay as they are.
    pub fn update(&mut self, updated_orders: Orders)
        requires
            old(self).wf(),
            updated_orders.wf(),
        ensures
            final(self).wf(),
            final(self)@ == old(self)@.union_prefer_right(updated_orders@),
            final(self).region_order() == merge_order(
                old(self).region_order(),
                updated_orders.region_order(),
            ),
    {
        let ghost incoming = updated_orders.regions@;
        let ghost batch = updated_orders@;
        let mut i: usize = 0;
        proof {
            assert(self@ =~= old(self)@.union_prefer_right(first_regions(batch, incoming, 0)));
            assert(incoming.take(0) =~= Seq::<u64>::empty());
        }
        while i < updated_orders.regions.len()
            invariant
                i <= incoming.len(),
                incoming == updated_orders.regions@,
                batch == updated_orders@,
                updated_orders.wf(),
                self.wf(),
                self@ == old(self)@.union_prefer_right(first_regions(batch, incoming, i as int)),
                self.region_order() == merge_order(
                    old(self).region_order(),
                    incoming.take(i as int),
                ),
            decreases incoming.len() - i,
        {
            let region = updated_orders.regions[i];
            assert(incoming.contains(region));
            let ghost held = self@;
            let listing = updated_orders.region_orders.get(&region);
            let deadline = updated_orders.expiry_times.get(&region);
            match (listing, deadline) {
                (Some(orders), Some(expiry)) => {
                    proof {
                        self.lemma_region_order();
                        assert(incoming.take(i + 1).drop_last() =~= incoming.take(i as int));
                    }
                    self.insert(region, copy_orders(orders), *expiry);
                    proof {
                        assert forall|r: u64| listed_before(incoming, i + 1, r) <==> (
                        listed_before(incoming, i as int, r) || r == region) by {
                            if listed_before(incoming, i + 1, r) {
                                let j = choose|j: int| 0 <= j < i + 1 && #[trigger] incoming[j] == r;
                                if j < i {
                                    assert(listed_before(incoming, i as int, r));
                                }
                            }
                            if listed_before(incoming, i as int, r) {
                                let j = choose|j: int| 0 <= j < i && #[trigger] incoming[j] == r;
                                assert(0 <= j < i + 1);
                            }
                            if r == region {
                                assert(incoming[i as int] == r);
                            }
                        }
                        assert(self@ =~= old(self)@.union_prefer_right(
                            first_regions(batch, incoming, i + 1),
                        ));
                    }
                },
                _ => {
                    // Every listed region has both its orders and its deadline.
                    assert(updated_orders.region_orders@.contains_key(region));
                    assert(updated_orders.expiry_times@.contains_key(region));
                },
            }
            i += 1;
        }
        proof {
            assert(incoming.take(incoming.len() as int) =~= incoming);
            assert forall|r: u64| listed_before(incoming, incoming.len() as int, r)
                <==> batch.contains_key(r) by {
                if listed_before(incoming, incoming.len() as int, r) {
                    let j = choose|j: int| 0 <= j < incoming.len() && #[trigger] incoming[j] == r;
                    assert(incoming.contains(r));
                }
                if batch.contains_key(r) {
                    assert(incoming.contains(r));
                    let j = choose|j: int| 0 <= j < incoming.len() && incoming[j] == r;
                    assert(incoming[j] == r);
                }
            }
            assert(first_regions(batch, incoming, incoming.len() as int) =~= batch);
        }
    }

    /// Every cached order: region after region in the order in which the
    /// regions first came in, each region's orders as they were stored.
    pub fn orders(&self) -> (all: Vec<Order>)
        requires
            self.wf(),
        ensures
            all@ == orders_along(self@, self.region_order()),
    {
        let mut all: Vec<Order> = Vec::new();
        let mut k: usize = 0;
        while k < self.regions.len()
            invariant
                k <= self.regions@.len(),
                self.wf(),
                all@ == orders_along(self@, self.region_order().take(k as int)),
            decreases self.regions@.len() - k,
        {
            let region = self.regions[k];
            assert(self.regions@.contains(region));
            let ghost so_far = all@;
            match self.region_orders.get(&region) {
                Some(listed) => {
                    let mut i: usize = 0;
                    while i < listed.len()
                        invariant
                            i <= listed@.len(),
                            all@ == so_far + listed@.take(i as int),
                        decreases listed@.len() - i,
                    {
                        all.push(listed[i].clone());
                        assert(listed@.take(i + 1) =~= listed@.take(i as int).push(
                            listed@[i as int],
                        ));
                        assert(all@ =~= so_far + listed@.take(i + 1));
                        i += 1;
                    }
                    assert(listed@.take(listed@.len() as int) =~= listed@);
                },
                None => {
                    // Every listed region has its orders.
                    assert(self.region_orders@.contains_key(region));
                },
            }
            proof {
                let order = self.region_order();
                assert(order.take(k + 1).drop_last() =~= order.take(k as int));
                assert(order.take(k + 1).last() == region);
            }
            k += 1;
        }
        proof {
            assert(self.region_order().take(k as int) =~= self.region_order());
        }
        all
    }
}

/// Right after a region was stored with a deadline that lies after `now`, the
/// region is not stale at `now`.
pub proof fn lemma_refreshed_region_is_fresh(
    cache: Map<u64, RegionSnapshot>,
    region: u64,
    stored: RegionSnapshot,
    now: i64,
)
    requires
        now < stored.expiry,
    ensures
        !is_stale(cache.insert(region, stored), now, region),
        forall|stale: Seq<u64>|
            lists_stale(cache.insert(region, stored), now, stale) ==> !stale.contains(region),
{
}

/// Storing the same listing twice leaves the cache as storing it once does.
pub proof fn lemma_insert_is_idempotent(
    cache: Map<u64, RegionSnapshot>,
    region: u64,
    stored: RegionSnapshot,
)
    ensures
        cache.insert(region, stored).insert(region, stored) == cache.insert(region, stored),
{
    assert(cache.insert(region, stored).insert(region, stored) =~= cache.insert(region, stored));
}

/// Taking over the same batch twice leaves the cache as taking it over once
/// does.
pub proof fn lemma_update_is_idempotent(
    cache: Map<u64, RegionSnapshot>,
    batch: Map<u64, RegionSnapshot>,
)
    ensures
        cache.union_prefer_right(batch).union_prefer_right(batch) == cache.union_prefer_right(
            batch,
        ),
{
    assert(cache.union_prefer_right(batch).union_prefer_right(batch) =~= cache.union_prefer_right(
        batch,
    ));
}

/// Listings of two different regions may be stored in either order: the cache
/// ends up the same, and holds both.
pub proof fn lemma_inserts_commute(
    cache: Map<u64, RegionSnapshot>,
    first: u64,
    first_stored: RegionSnapshot,
    second: u64,
    second_stored: RegionSnapshot,
)
    requires
        first != second,
    ensures
        cache.insert(first, first_stored).insert(second, second_stored) == cache.insert(
            second,
            second_stored,
        ).insert(first, first_stored),
        cache.insert(first, first_stored).insert(second, second_stored)[first] == first_stored,
        cache.insert(first, first_stored).insert(second, second_stored)[second] == second_stored,
{
    assert(cache.insert(first, first_stored).insert(second, second_stored) =~= cache.insert(
        second,
        second_stored,
    ).insert(first, first_stored));
}

} // verus!
