//! The plain query and answer by which a client resolves a name.

use vstd::prelude::*;
use crate::domain::DomainName;
use crate::zone::Record;

verus! {

/// A request to resolve a domain.
#[derive(Debug, PartialEq, Eq)]
pub struct ResolveQuery {
    pub domain: DomainName,
}

/// The answer to a [`ResolveQuery`].
#[derive(Debug, Clone, PartialEq, Eq)]
pub struct ResolveAnswer {
    /// `None` where this node knows of no registration.
    pub owner_client_key: Option<String>,
    pub records: Vec<Record>,
}

impl Clone for ResolveQuery {
    fn clone(&self) -> (r: Self)
        ensures
            r == *self,
    {
        ResolveQuery { domain: self.domain.clone() }
    }
}

} // verus!
