//! Listing the directory of a store path, as seen by those who ask for it.
use vstd::prelude::*;

verus! {

/// Where a substituter is found.
#[derive(Debug, Clone, PartialEq, Eq, Hash)]
pub struct Url {
    pub value: String,
}

/// Lists the directory of a store path on substituters.
pub trait NarDirectoryProvider: Send + Sync {
    /// A substituter.
    type Substituter;

    /// The hash part of a store path.
    type StorePathHash;

    /// The headers that are passed on with each request.
    type Headers;

    /// A listing under way. It resolves to what was found, or to why nothing was found, and to
    /// one attempt for each substituter that had its say.
    type Listing;

    /// Begins to list the directory of the store path with the hash `store_path_hash`.
    fn list(
        &self,
        substituters: &[Self::Substituter],
        store_path_hash: &Self::StorePathHash,
        headers: &Self::Headers,
    ) -> Self::Listing;
}

/// A directory listing, as a substituter serves it.
#[derive(Debug, Clone, PartialEq, Eq, Hash)]
pub struct ListDirectoryData {
    pub content: String,
    pub content_type: Option<String>,
}

/// How a substituter fared that was asked for a listing.
#[derive(Debug, Clone, PartialEq, Eq, Hash)]
pub enum ListDirectoryAttempt {
    /// It answered, whether it has the directory or not.
    Successful { substituter_url: Url },
    /// It could not be reached.
    Offline { substituter_url: Url },
    /// It answered in a way that is of no use.
    ServiceError { substituter_url: Url },
}

} // verus!
