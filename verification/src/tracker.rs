//! Mempool tracker: the in-memory index over unconfirmed transactions.
//!
//! It keeps the same row families as the persisted index, so the status
//! engine reads it through the same scan contract; next to the rows it holds
//! each unconfirmed transaction itself, its raw bytes, and the fee
//! histogram.  A transaction with an unconfirmed parent is recorded at the
//! synthetic height `u32::MAX`, which reads back as height `-1`; all others
//! at `0`.
use vstd::prelude::*;

use crate::bytes::bytes_eq;
use crate::cache::txns_lookup;
use crate::fees::histogram_sorted;
use crate::hashes::{compute_script_hash, sha256_of};
use crate::rows::{tx_in_row_filter, tx_out_row_filter, tx_row_filter_full, tx_in_row_key,
    tx_out_row_key, tx_row_key, tx_row_value};
use crate::store::{row_insert, sorted_rows, RowV, Store};
use crate::txmodel::{Transaction, TransactionV, TxInV, TxOutV};

verus! {

/// The synthetic height of a mempool transaction with an unconfirmed
/// parent; it reads back as `-1`.
pub const MEMPOOL_HEIGHT_UNCONFIRMED_PARENT: u32 = 0xffff_ffff;

/// All-zero stand-in blockhash of a mempool row.
pub open spec fn zero_hash() -> Seq<u8> {
    Seq::<u8>::new(32, |i: int| 0u8)
}

/// The raw bytes stored beside the transaction whose id is `txid`, if any.
pub open spec fn raws_lookup(
    txns: Seq<TransactionV>,
    raws: Seq<Seq<u8>>,
    txid: Seq<u8>,
) -> Option<Seq<u8>>
    decreases txns.len(),
{
    if txns.len() == 0 || raws.len() == 0 {
        None
    } else if txns[0].txid == txid {
        Some(raws[0])
    } else {
        raws_lookup(txns.drop_first(), raws.drop_first(), txid)
    }
}

/// The rows that index one transaction's outputs for their scripthashes.
pub open spec fn out_rows_added(rows: Seq<RowV>, outputs: Seq<TxOutV>, prefix: Seq<u8>) -> Seq<
    RowV,
>
    decreases outputs.len(),
{
    if outputs.len() == 0 {
        rows
    } else {
        out_rows_added(
            row_insert(
                rows,
                tx_out_row_key(sha256_of(outputs[0].script_pubkey), prefix),
                Seq::<u8>::empty(),
            ),
            outputs.drop_first(),
            prefix,
        )
    }
}

/// The rows that index one transaction's inputs by spent outpoint.
pub open spec fn in_rows_added(rows: Seq<RowV>, inputs: Seq<TxInV>, prefix: Seq<u8>) -> Seq<RowV>
    decreases inputs.len(),
{
    if inputs.len() == 0 {
        rows
    } else {
        in_rows_added(
            row_insert(
                rows,
                tx_in_row_key(inputs[0].prev_txid, inputs[0].prev_vout, prefix),
                Seq::<u8>::empty(),
            ),
            inputs.drop_first(),
            prefix,
        )
    }
}

/// Every row one mempool transaction contributes: its TxRow at the synthetic
/// height, one TxOutRow per output, one TxInRow per input.
pub open spec fn mempool_rows_added(rows: Seq<RowV>, tx: TransactionV, height: u32) -> Seq<RowV> {
    let prefix = tx.txid.subrange(0, 8);
    in_rows_added(
        out_rows_added(
            row_insert(rows, tx_row_key(tx.txid), tx_row_value(height, zero_hash())),
            tx.outputs,
            prefix,
        ),
        tx.inputs,
        prefix,
    )
}

/// With one raw copy per transaction, the two lookups find an entry for
/// the same txids.
pub proof fn lemma_tracker_lookups_agree(
    txns: Seq<TransactionV>,
    raws: Seq<Seq<u8>>,
    txid: Seq<u8>,
)
    requires
        txns.len() == raws.len(),
    ensures
        raws_lookup(txns, raws, txid) is Some <==> txns_lookup(txns, txid) is Some,
    decreases txns.len(),
{
    if txns.len() > 0 && txns[0].txid != txid {
        lemma_tracker_lookups_agree(txns.drop_first(), raws.drop_first(), txid);
    }
}

pub ghost struct TrackerV {
    pub rows: Seq<RowV>,
    pub txns: Seq<TransactionV>,
    pub raws: Seq<Seq<u8>>,
    pub histogram: Seq<(u64, u32)>,
}

/// Live view over the mempool.
pub struct Tracker {
    store: Store,
    txns: Vec<Transaction>,
    raws: Vec<Vec<u8>>,
    histogram: Vec<(u64, u32)>,
}

impl View for Tracker {
    type V = TrackerV;

    closed spec fn view(&self) -> TrackerV {
        TrackerV {
            rows: self.store@,
            txns: self.txns@.map_values(|t: Transaction| t@),
            raws: self.raws@.map_values(|r: Vec<u8>| r@),
            histogram: self.histogram@,
        }
    }
}

impl Tracker {
    pub open spec fn wf(&self) -> bool {
        &&& sorted_rows(self@.rows)
        &&& self@.txns.len() == self@.raws.len()
        &&& forall|i: int| 0 <= i < self@.txns.len() ==> (#[trigger] self@.txns[i]).wf()
        &&& histogram_sorted(self@.histogram)
    }

    pub fn new() -> (r: Tracker)
        ensures
            r.wf(),
            r@.rows == Seq::<RowV>::empty(),
            r@.txns == Seq::<TransactionV>::empty(),
            r@.raws == Seq::<Seq<u8>>::empty(),
            r@.histogram == Seq::<(u64, u32)>::empty(),
    {
        let r = Tracker {
            store: Store::new(),
            txns: Vec::new(),
            raws: Vec::new(),
            histogram: Vec::new(),
        };
        proof {
            assert(r@.txns =~= Seq::<TransactionV>::empty());
            assert(r@.raws =~= Seq::<Seq<u8>>::empty());
            assert(r@.histogram =~= Seq::<(u64, u32)>::empty());
        }
        r
    }

    /// The mempool's index, under the same read contract as the persisted
    /// store.
    pub fn index(&self) -> (r: &Store)
        ensures
            r@ == self@.rows,
    {
        &self.store
    }

    /// The unconfirmed transaction with this id, if the mempool holds it.
    pub fn get_txn(&self, txid: &Vec<u8>) -> (r: Option<Transaction>)
        requires
            self.wf(),
        ensures
            match r {
                Some(t) => txns_lookup(self@.txns, txid@) == Some(t@) && t.wf(),
                None => txns_lookup(self@.txns, txid@) is None,
            },
    {
        let n = self.txns.len();
        let mut i: usize = 0;
        proof {
            assert(self@.txns.skip(0) =~= self@.txns);
        }
        while i < n
            invariant
                n == self.txns.len(),
                self@.txns.len() == n,
                i <= n,
                self.wf(),
                txns_lookup(self@.txns, txid@) == txns_lookup(self@.txns.skip(i as int), txid@),
            decreases n - i,
        {
            proof {
                assert(self@.txns[i as int] == self.txns@[i as int]@);
                assert(self@.txns.skip(i as int)[0] == self@.txns[i as int]);
            }
            if bytes_eq(&self.txns[i].txid, txid) {
                let t = self.txns[i].duplicate();
                proof {
                    assert(txns_lookup(self@.txns.skip(i as int), txid@) == Some(
                        self@.txns[i as int],
                    ));
                }
                return Some(t);
            }
            proof {
                assert(self@.txns.skip(i as int).drop_first() =~= self@.txns.skip(i + 1));
            }
            i = i + 1;
        }
        proof {
            assert(self@.txns.skip(n as int).len() == 0);
        }
        None
    }

    /// The raw bytes of the unconfirmed transaction with this id, if the
    /// mempool holds it.
    pub fn get_raw(&self, txid: &Vec<u8>) -> (r: Option<Vec<u8>>)
        requires
            self.wf(),
        ensures
            match r {
                Some(b) => raws_lookup(self@.txns, self@.raws, txid@) == Some(b@),
                None => raws_lookup(self@.txns, self@.raws, txid@) is None,
            },
    {
        let n = self.txns.len();
        let mut i: usize = 0;
        proof {
            assert(self@.txns.skip(0) =~= self@.txns);
            assert(self@.raws.skip(0) =~= self@.raws);
        }
        while i < n
            invariant
                n == self.txns.len(),
                self@.txns.len() == n,
                self@.raws.len() == n,
                i <= n,
                self.wf(),
                raws_lookup(self@.txns, self@.raws, txid@) == raws_lookup(
                    self@.txns.skip(i as int),
                    self@.raws.skip(i as int),
                    txid@,
                ),
            decreases n - i,
        {
            proof {
                assert(self@.txns[i as int] == self.txns@[i as int]@);
                assert(self@.raws[i as int] == self.raws@[i as int]@);
                assert(self@.txns.skip(i as int)[0] == self@.txns[i as int]);
                assert(self@.raws.skip(i as int)[0] == self@.raws[i as int]);
            }
            if bytes_eq(&self.txns[i].txid, txid) {
                let b = self.raws[i].clone();
                proof {
                    assert(b@ =~= self.raws@[i as int]@);
                    assert(raws_lookup(
                        self@.txns.skip(i as int),
                        self@.raws.skip(i as int),
                        txid@,
                    ) == Some(self@.raws[i as int]));
                }
                return Some(b);
            }
            proof {
                assert(self@.txns.skip(i as int).drop_first() =~= self@.txns.skip(i + 1));
                assert(self@.raws.skip(i as int).drop_first() =~= self@.raws.skip(i + 1));
            }
            i = i + 1;
        }
        proof {
            assert(self@.txns.skip(n as int).len() == 0);
        }
        None
    }

    /// The fee histogram: `(sat/vB rate, vsize)` buckets, highest rate
    /// first.
    pub fn fee_histogram(&self) -> (r: &Vec<(u64, u32)>)
        ensures
            r@ == self@.histogram,
    {
        &self.histogram
    }

    /// Install a freshly aggregated histogram.
    pub fn set_fee_histogram(&mut self, histogram: Vec<(u64, u32)>)
        requires
            old(self).wf(),
            histogram_sorted(histogram@),
        ensures
            final(self).wf(),
            final(self)@.histogram == histogram@,
            final(self)@.rows == old(self)@.rows,
            final(self)@.txns == old(self)@.txns,
            final(self)@.raws == old(self)@.raws,
    {
        self.histogram = histogram;
    }

    /// Take in one unconfirmed transaction: remember it with its raw bytes
    /// and index it under all four row families' shapes.
    pub fn add_txn(&mut self, tx: Transaction, raw: Vec<u8>, has_unconfirmed_parent: bool)
        requires
            old(self).wf(),
            tx.wf(),
        ensures
            final(self).wf(),
            final(self)@.rows == mempool_rows_added(
                old(self)@.rows,
                tx@,
                if has_unconfirmed_parent {
                    MEMPOOL_HEIGHT_UNCONFIRMED_PARENT
                } else {
                    0u32
                },
            ),
            final(self)@.txns == old(self)@.txns.push(tx@),
            final(self)@.raws == old(self)@.raws.push(raw@),
            final(self)@.histogram == old(self)@.histogram,
    {
        let ghost txv = tx@;
        let ghost prefix = tx@.txid.subrange(0, 8);
        let height: u32 = if has_unconfirmed_parent {
            MEMPOOL_HEIGHT_UNCONFIRMED_PARENT
        } else {
            0
        };
        let key = tx_row_filter_full(&tx.txid);
        let mut value: Vec<u8> = Vec::new();
        crate::bytes::push_u32_le(&mut value, height);
        let mut k: usize = 0;
        while k < 32
            invariant
                k <= 32,
                value@.len() == 4 + k,
                value@.subrange(0, 4) == crate::bytes::u32_le(height),
                forall|j: int| 4 <= j < value@.len() ==> value@[j] == 0u8,
            decreases 32 - k,
        {
            value.push(0u8);
            proof {
                assert(value@.subrange(0, 4) =~= value@.subrange(0, value@.len() - 1).subrange(
                    0,
                    4,
                ));
            }
            k = k + 1;
        }
        proof {
            assert forall|j: int| 0 <= j < 36 implies value@[j] == tx_row_value(
                height,
                zero_hash(),
            )[j] by {
                if j < 4 {
                    assert(value@[j] == value@.subrange(0, 4)[j]);
                } else {
                    assert(zero_hash()[j - 4] == 0u8);
                    assert(value@[j] == 0u8);
                }
            }
            assert(value@ =~= tx_row_value(height, zero_hash()));
        }
        self.store.insert(key, value);
        // one TxOutRow per output
        let ghost rows_after_tx = self@.rows;
        let ghost outs = txv.outputs;
        let n_out = tx.outputs.len();
        let mut i: usize = 0;
        proof {
            assert(outs.skip(0) =~= outs);
        }
        while i < n_out
            invariant
                n_out == tx.outputs.len(),
                i <= n_out,
                outs == tx@.outputs,
                prefix == tx@.txid.subrange(0, 8),
                tx.wf(),
                sorted_rows(self@.rows),
                self@.txns == old(self)@.txns,
                self@.raws == old(self)@.raws,
                self@.histogram == old(self)@.histogram,
                out_rows_added(rows_after_tx, outs, prefix) == out_rows_added(
                    self@.rows,
                    outs.skip(i as int),
                    prefix,
                ),
            decreases n_out - i,
        {
            proof {
                assert(outs.skip(i as int)[0] == outs[i as int]);
                assert(outs[i as int] == tx.outputs@[i as int]@);
                assert(outs.skip(i as int).drop_first() =~= outs.skip(i + 1));
            }
            let script_hash = compute_script_hash(&tx.outputs[i].script_pubkey);
            let mut okey = tx_out_row_filter(&script_hash);
            crate::bytes::append_range(&mut okey, &tx.txid, 0, 8);
            proof {
                assert(okey@ =~= tx_out_row_key(sha256_of(outs[i as int].script_pubkey), prefix));
            }
            let empty_value: Vec<u8> = Vec::new();
            proof {
                assert(empty_value@ =~= Seq::<u8>::empty());
            }
            self.store.insert(okey, empty_value);
            i = i + 1;
        }
        proof {
            assert(outs.skip(n_out as int).len() == 0);
        }
        // one TxInRow per input
        let ghost rows_after_out = self@.rows;
        let ghost ins = txv.inputs;
        let n_in = tx.inputs.len();
        let mut j: usize = 0;
        proof {
            assert(ins.skip(0) =~= ins);
        }
        while j < n_in
            invariant
                n_in == tx.inputs.len(),
                j <= n_in,
                ins == tx@.inputs,
                prefix == tx@.txid.subrange(0, 8),
                tx.wf(),
                sorted_rows(self@.rows),
                self@.txns == old(self)@.txns,
                self@.raws == old(self)@.raws,
                self@.histogram == old(self)@.histogram,
                in_rows_added(rows_after_out, ins, prefix) == in_rows_added(
                    self@.rows,
                    ins.skip(j as int),
                    prefix,
                ),
            decreases n_in - j,
        {
            proof {
                assert(ins.skip(j as int)[0] == ins[j as int]);
                assert(ins[j as int] == tx.inputs@[j as int]@);
                assert(ins.skip(j as int).drop_first() =~= ins.skip(j + 1));
            }
            let mut ikey = tx_in_row_filter(&tx.inputs[j].prev_txid, tx.inputs[j].prev_vout);
            crate::bytes::append_range(&mut ikey, &tx.txid, 0, 8);
            proof {
                assert(ikey@ =~= tx_in_row_key(
                    ins[j as int].prev_txid,
                    ins[j as int].prev_vout,
                    prefix,
                ));
            }
            let empty_value: Vec<u8> = Vec::new();
            proof {
                assert(empty_value@ =~= Seq::<u8>::empty());
            }
            self.store.insert(ikey, empty_value);
            j = j + 1;
        }
        proof {
            assert(ins.skip(n_in as int).len() == 0);
        }
        let ghost txns_before = self@.txns;
        let ghost raws_before = self@.raws;
        self.txns.push(tx);
        self.raws.push(raw);
        proof {
            assert(self@.txns =~= txns_before.push(txv));
            assert(self@.raws =~= raws_before.push(self.raws@[raws_before.len() as int]@));
        }
    }
}

} // verus!
