//! Fields: the communities that posts and comments belong to, and the
//! options used when listing their content.
use crate::Address;
use vstd::prelude::*;

verus! {

/// A community: a name and its address.
#[derive(Debug)]
pub struct Field {
    pub name: String,
    pub address: String,
}

/// The orderings a post or comment listing can be sorted by.
#[derive(Debug, PartialEq, Eq, Structural)]
pub enum Ordering {
    ByTimestamp,
    ByScore,
    ByUpVote,
    ByDownVote,
    ByUpvoteSubDownVote,
}

/// How a post or comment listing is filtered and sorted.
#[derive(Debug)]
pub struct FilterOption {
    pub level: Option<u8>,
    pub keyword: Option<String>,
    pub ordering: Ordering,
    pub ascending: bool,
    pub max_results: u32,
}

impl Field {
    /// Builds a field value from its name and address.
    pub fn new(name: String, address: Address) -> (r: Field)
        ensures
            r.name@ == name@,
            r.address@ == address@,
    {
        Field { name, address }
    }
}

} // verus!
