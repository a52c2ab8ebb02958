//! Decoding stored transaction bytes through the consensus codec.
//!
//! The persisted RawTxRow family holds serialized transactions; reading one
//! back as structured data is the codec's work, so the call stands behind a
//! trusted wrapper and its result carries a name.
use vstd::prelude::*;

use crate::txmodel::{Amount, Transaction, TransactionV, TxIn, TxOut};

verus! {

/// What the consensus codec reads out of `raw`: nothing when the bytes are
/// not a serialized transaction, else its id, inputs and outputs; a
/// function of the bytes alone.
pub uninterp spec fn tx_decode(raw: Seq<u8>) -> Option<TransactionV>;

/// Relies on elements::encode::deserialize for the decoded transaction.
/// The result depends on the bytes alone; its transaction ids are 32-byte
/// digests; an output amount that is not explicit reads as confidential.
#[verifier::external_body]
pub(crate) fn decode_transaction(raw: &Vec<u8>) -> (r: Option<Transaction>)
    ensures
        match r {
            Some(t) => tx_decode(raw@) == Some(t@) && t@.txid.len() == 32 && forall|i: int|
                0 <= i < t@.inputs.len() ==> (#[trigger] t@.inputs[i]).prev_txid.len() == 32,
            None => tx_decode(raw@) is None,
        },
{
    let tx: elements::Transaction = elements::encode::deserialize(raw).ok()?;
    let id =
        |t: elements::Txid| <elements::Txid as elements::hashes::Hash>::to_byte_array(t).to_vec();
    let inputs = tx.input.iter().map(
        |i| TxIn { prev_txid: id(i.previous_output.txid), prev_vout: i.previous_output.vout },
    ).collect();
    let outputs = tx.output.iter().map(
        |o| TxOut {
            script_pubkey: o.script_pubkey.to_bytes(),
            value: o.value.explicit().map_or(Amount::Confidential, Amount::Explicit),
        },
    ).collect();
    Some(Transaction { txid: id(tx.txid()), inputs, outputs })
}

} // verus!
