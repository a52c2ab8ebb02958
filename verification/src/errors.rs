//! The error kinds the query core surfaces.
use vstd::prelude::*;

verus! {

/// Why a query could not be answered.
#[derive(Debug)]
pub enum QueryError {
    /// A row read from the index does not decode as its family; the query
    /// is abandoned.
    Corruption,
    /// A transaction the query needs is not in the cache.  The caller
    /// fetches the named txid from its upstream source, caches it, and
    /// retries.
    TxMissing(Vec<u8>),
    /// A header the query asked for by hash or height is not on the
    /// indexed best chain.
    MissingHeader,
    /// The queried txid has no TxRow.
    NotIndexed,
    /// The txid is not among the block's transactions.
    NotInBlock,
}

} // verus!
