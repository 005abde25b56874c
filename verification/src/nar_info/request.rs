//! Which requests are made to list the directory of a store path.
use vstd::prelude::*;

use crate::nar_info::directory::Url;

verus! {

/// Where substituters keep listings, and how they are accessed.
pub trait ListingSites: Send + Sync {
    /// A substituter.
    type Substituter;

    /// The hash part of a store path.
    type StorePathHash;

    /// What a site asks for before it answers.
    type Credential;

    /// Where the substituter itself is found.
    fn substituter_url(&self, substituter: &Self::Substituter) -> Url;

    /// Where the substituter keeps the listing of the store path with the hash
    /// `store_path_hash`.
    fn listing_url(
        &self,
        store_path_hash: &Self::StorePathHash,
        substituter: &Self::Substituter,
    ) -> Url;

    /// What is needed to access `url`, if anything is.
    fn credential(&self, url: &Url) -> Option<Self::Credential>;
}

/// A request for a listing.
pub struct PlannedRequest<K> {
    /// The substituter that is asked.
    pub substituter_url: Url,
    /// Where the listing is.
    pub url: Url,
    /// What is needed to access it, if anything is.
    pub credential: Option<K>,
}

impl<K> PlannedRequest<K> {
    /// Whether this is the request that asks `substituter`, with the credential for just the
    /// address that it goes to.
    pub open spec fn asks<S: ListingSites<Credential = K>>(
        self,
        sites: S,
        store_path_hash: S::StorePathHash,
        substituter: S::Substituter,
    ) -> bool {
        &&& call_ensures(S::substituter_url, (&sites, &substituter), self.substituter_url)
        &&& call_ensures(S::listing_url, (&sites, &store_path_hash, &substituter), self.url)
        &&& call_ensures(S::credential, (&sites, &self.url), self.credential)
    }
}

/// A request is reported under the address of the substituter, goes to where the substituter
/// keeps the listing, and carries what the site that it goes to asks for.
pub proof fn law_a_request_goes_to_its_substituter<S: ListingSites>(
    request: PlannedRequest<S::Credential>,
    sites: S,
    store_path_hash: S::StorePathHash,
    substituter: S::Substituter,
)
    requires
        request.asks::<S>(sites, store_path_hash, substituter),
    ensures
        call_ensures(S::substituter_url, (&sites, &substituter), request.substituter_url),
        call_ensures(S::listing_url, (&sites, &store_path_hash, &substituter), request.url),
        call_ensures(S::credential, (&sites, &request.url), request.credential),
{
}

/// Plans one request for each substituter, in their order.
pub fn plan_requests<S: ListingSites>(
    sites: &S,
    substituters: &[S::Substituter],
    store_path_hash: &S::StorePathHash,
) -> (plan: Vec<PlannedRequest<S::Credential>>)
    ensures
        plan@.len() == substituters@.len(),
        forall|i: int|
            0 <= i < plan@.len() ==> (#[trigger] plan@[i]).asks::<S>(
                *sites,
                *store_path_hash,
                substituters@[i],
            ),
        forall|i: int|
            0 <= i < plan@.len() ==> call_ensures(
                S::substituter_url,
                (sites, &substituters@[i]),
                (#[trigger] plan@[i]).substituter_url,
            ) && call_ensures(
                S::listing_url,
                (sites, store_path_hash, &substituters@[i]),
                plan@[i].url,
            ) && call_ensures(S::credential, (sites, &plan@[i].url), plan@[i].credential),
{
    let mut plan: Vec<PlannedRequest<S::Credential>> = Vec::new();
    for i in 0..substituters.len()
        invariant
            plan@.len() == i,
            forall|j: int|
                0 <= j < i ==> (#[trigger] plan@[j]).asks::<S>(
                    *sites,
                    *store_path_hash,
                    substituters@[j],
                ),
    {
        let substituter = &substituters[i];
        let substituter_url = sites.substituter_url(substituter);
        let url = sites.listing_url(store_path_hash, substituter);
        let credential = sites.credential(&url);
        plan.push(PlannedRequest { substituter_url, url, credential });
    }
    plan
}

} // verus!
