//! The state that the running program keeps, and what a round of its cycle
//! does with it. Waiting, fetching and locking are left to the caller.

use crate::eve_service::EveService;
use crate::market::order::{
    lists_stale, merge_order, orders_along, Order, Orders, RegionSnapshot,
};
use crate::pathfinding::models::Location;
use vstd::prelude::*;

verus! {

/// What a round of the cycle is to do.
#[derive(Debug)]
pub enum CycleStep {
    /// Shutdown was asked for: leave the cycle.
    Stop,
    /// Refresh these regions, then fold in what came of it.
    Refresh(Vec<u64>),
}

/// The program's state: the order cache, the last known location, and the
/// service.
pub struct Manager {
    pub orders_state: Orders,
    pub location: Option<Location>,
    pub eve_service: EveService,
}

impl Manager {
    /// The cache holds no region twice.
    pub open spec fn wf(&self) -> bool {
        self.orders_state.wf()
    }

    /// A manager with an empty cache and no known location.
    pub fn new(eve_service: EveService) -> (manager: Manager)
        ensures
            manager.wf(),
            manager.orders_state@ == Map::<u64, RegionSnapshot>::empty(),
            manager.orders_state.region_order() == Seq::<u64>::empty(),
            manager.location is None,
            manager.eve_service == eve_service,
    {
        Manager { orders_state: Orders::new(), location: None, eve_service }
    }

    /// What the round that starts at `now` is to do: stop if shutdown was
    /// asked for, else refresh the regions that are stale at `now`.
    pub fn plan_cycle(&self, shutdown: bool, now: i64) -> (step: CycleStep)
        requires
            self.wf(),
        ensures
            shutdown ==> step is Stop,
            !shutdown ==> step is Refresh && lists_stale(
                self.orders_state@,
                now,
                step->Refresh_0@,
            ),
    {
        if shutdown {
            CycleStep::Stop
        } else {
            CycleStep::Refresh(self.orders_state.expired_regions_at(now))
        }
    }

    /// Takes over a batch of refreshed listings; regions that the batch does
    /// not name stay as they are.
    pub fn apply_refresh(&mut self, updated_orders: Orders)
        requires
            old(self).wf(),
            updated_orders.wf(),
        ensures
            final(self).wf(),
            final(self).orders_state@ == old(self).orders_state@.union_prefer_right(
                updated_orders@,
            ),
            final(self).orders_state.region_order() == merge_order(
                old(self).orders_state.region_order(),
                updated_orders.region_order(),
            ),
            final(self).location == old(self).location,
            final(self).eve_service == old(self).eve_service,
    {
        self.orders_state.update(updated_orders);
    }

    /// Notes where the character is.
    pub fn record_location(&mut self, found: Location)
        ensures
            final(self).location == Some(found),
            final(self).orders_state == old(self).orders_state,
            final(self).eve_service == old(self).eve_service,
    {
        self.location = Some(found);
    }

    /// The address at which the user signs in.
    pub fn get_authorization_url(&self) -> (url: String)
        ensures
            url@ == crate::eve_api::authorization_url(
                self.eve_service.client.client_id@,
                self.eve_service.client.redirect_url@,
            ),
    {
        self.eve_service.get_authorization_url()
    }

    /// Where the character was last seen.
    pub fn location(&self) -> (found: Option<Location>)
        ensures
            found == self.location,
    {
        self.location
    }

    /// Every cached order, region after region.
    pub fn orders(&self) -> (all: Vec<Order>)
        requires
            self.wf(),
        ensures
            all@ == orders_along(self.orders_state@, self.orders_state.region_order()),
    {
        self.orders_state.orders()
    }
}

} // verus!
