//! Address-indexed blockchain query core.
//!
//! Given a 32-byte scripthash, this library reconstructs which transaction
//! outputs fund it, which inputs spend those outputs, and the derived views a
//! wallet-facing server needs: balance, ordered history, UTXO set, the
//! Electrum-style status digest, confirmation status, Merkle inclusion proofs
//! and a mempool fee estimate.  The persisted index, the in-memory mempool
//! index and the transaction cache are modelled as plain verified data; the
//! hash primitives and the transaction codec are the only outside calls.

pub mod bytes;
pub mod cache;
pub mod decode;
pub mod errors;
pub mod fees;
pub mod hashes;
pub mod headers;
pub mod merkle;
pub mod query;
pub mod rows;
pub mod script;
pub mod status;
pub mod store;
pub mod tracker;
pub mod txmodel;
