//! The service that the manager talks to: it owns the client and folds what
//! was fetched into a batch of listings.

use crate::eve_api::{EveApiClient, FetchCause, FetchError};
use crate::market::order::{copy_orders, Order, Orders, RegionSnapshot};
use vstd::prelude::*;

verus! {

/// The client, and what is done with what it fetches.
pub struct EveService {
    pub client: EveApiClient,
}

impl EveService {
    /// A service around the given client.
    pub fn new(client: EveApiClient) -> (service: EveService)
        ensures
            service.client == client,
    {
        EveService { client }
    }

    /// The address at which the user signs in.
    pub fn get_authorization_url(&self) -> (url: String)
        ensures
            url@ == crate::eve_api::authorization_url(
                self.client.client_id@,
                self.client.redirect_url@,
            ),
    {
        self.client.get_authorization_url()
    }

    /// Folds what came of refreshing one region into a batch: a listing is
    /// stored in place of the region's earlier one; a failure leaves the
    /// batch as it is and is handed back with the region's name.
    pub fn fold_refresh(
        batch: &mut Orders,
        region: u64,
        outcome: &Result<(Vec<Order>, i64), FetchCause>,
    ) -> (failed: Option<FetchError>)
        requires
            old(batch).wf(),
        ensures
            final(batch).wf(),
            final(batch)@ == folded_one(old(batch)@, region, *outcome),
            failed == failure_of(region, *outcome),
            outcome is Err ==> final(batch).region_order() == old(batch).region_order(),
    {
        match outcome {
            Ok(listing) => {
                batch.insert(region, copy_orders(&listing.0), listing.1);
                None
            },
            Err(cause) => Some(FetchError { region, cause: *cause }),
        }
    }

    /// The batch of listings that a round of refreshes gives, and the
    /// refreshes that failed. `outcomes[i]` is what came of refreshing
    /// `regions[i]`. A failure does not keep the other regions from being
    /// taken over.
    pub fn updated_orders(
        regions: &Vec<u64>,
        outcomes: &Vec<Result<(Vec<Order>, i64), FetchCause>>,
    ) -> (round: (Orders, Vec<FetchError>))
        requires
            regions@.len() == outcomes@.len(),
        ensures
            round.0.wf(),
            round.0@ == folded(regions@, outcomes@, regions@.len() as int),
            round.1@ == failures(regions@, outcomes@, regions@.len() as int),
    {
        let mut batch = Orders::new();
        let mut failed: Vec<FetchError> = Vec::new();
        let mut k: usize = 0;
        while k < regions.len()
            invariant
                k <= regions@.len(),
                regions@.len() == outcomes@.len(),
                batch.wf(),
                batch@ == folded(regions@, outcomes@, k as int),
                failed@ == failures(regions@, outcomes@, k as int),
            decreases regions@.len() - k,
        {
            match EveService::fold_refresh(&mut batch, regions[k], &outcomes[k]) {
                Some(failure) => {
                    failed.push(failure);
                },
                None => {},
            }
            k += 1;
        }
        (batch, failed)
    }
}

/// The cache after one refresh was folded in.
pub open spec fn folded_one(
    cache: Map<u64, RegionSnapshot>,
    region: u64,
    outcome: Result<(Vec<Order>, i64), FetchCause>,
) -> Map<u64, RegionSnapshot> {
    match outcome {
        Ok(listing) => cache.insert(
            region,
            RegionSnapshot { orders: listing.0@, expiry: listing.1 },
        ),
        Err(_) => cache,
    }
}

/// The failure that a refresh reports, if it failed.
pub open spec fn failure_of(region: u64, outcome: Result<(Vec<Order>, i64), FetchCause>) -> Option<
    FetchError,
> {
    match outcome {
        Ok(_) => None,
        Err(cause) => Some(FetchError { region, cause }),
    }
}

/// The batch that the first `n` refreshes give.
pub open spec fn folded(
    regions: Seq<u64>,
    outcomes: Seq<Result<(Vec<Order>, i64), FetchCause>>,
    n: int,
) -> Map<u64, RegionSnapshot>
    decreases n,
{
    if n <= 0 {
        Map::empty()
    } else {
        folded_one(folded(regions, outcomes, n - 1), regions[n - 1], outcomes[n - 1])
    }
}

/// The failures among the first `n` refreshes, in their order.
pub open spec fn failures(
    regions: Seq<u64>,
    outcomes: Seq<Result<(Vec<Order>, i64), FetchCause>>,
    n: int,
) -> Seq<FetchError>
    decreases n,
{
    if n <= 0 {
        Seq::empty()
    } else {
        match failure_of(regions[n - 1], outcomes[n - 1]) {
            Some(failure) => failures(regions, outcomes, n - 1).push(failure),
            None => failures(regions, outcomes, n - 1),
        }
    }
}

/// A refresh that failed leaves the cache as it was.
pub proof fn lemma_failure_keeps_cache(
    cache: Map<u64, RegionSnapshot>,
    region: u64,
    outcome: Result<(Vec<Order>, i64), FetchCause>,
)
    requires
        outcome is Err,
    ensures
        folded_one(cache, region, outcome) == cache,
{
}

} // verus!
