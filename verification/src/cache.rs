//! Transaction cache: insert-only memoization of materialized transactions,
//! keyed by txid.
//!
//! Transactions are content-addressed, so a duplicate insert can only carry
//! the same content; the cache keeps the first copy.
use vstd::prelude::*;

use crate::bytes::bytes_eq;
use crate::txmodel::{Transaction, TransactionV};

verus! {

/// The first transaction in `txns` whose id is `txid`, if any.
pub open spec fn txns_lookup(txns: Seq<TransactionV>, txid: Seq<u8>) -> Option<TransactionV>
    decreases txns.len(),
{
    if txns.len() == 0 {
        None
    } else if txns[0].txid == txid {
        Some(txns[0])
    } else {
        txns_lookup(txns.drop_first(), txid)
    }
}

/// Memoized transactions.
pub struct TransactionCache {
    txns: Vec<Transaction>,
}

impl View for TransactionCache {
    type V = Seq<TransactionV>;

    closed spec fn view(&self) -> Seq<TransactionV> {
        self.txns@.map_values(|t: Transaction| t@)
    }
}

impl TransactionCache {
    /// Every entry is well formed.
    pub open spec fn wf(&self) -> bool {
        forall|i: int| 0 <= i < self@.len() ==> (#[trigger] self@[i]).wf()
    }

    pub fn new() -> (r: TransactionCache)
        ensures
            r.wf(),
            r@ == Seq::<TransactionV>::empty(),
    {
        let r = TransactionCache { txns: Vec::new() };
        proof {
            assert(r@ =~= Seq::<TransactionV>::empty());
        }
        r
    }

    /// The cached transaction with this id, if any.
    pub fn get(&self, txid: &Vec<u8>) -> (r: Option<Transaction>)
        requires
            self.wf(),
        ensures
            match r {
                Some(t) => txns_lookup(self@, txid@) == Some(t@) && t.wf(),
                None => txns_lookup(self@, txid@) is None,
            },
    {
        let n = self.txns.len();
        let mut i: usize = 0;
        proof {
            assert(self@.skip(0) =~= self@);
        }
        while i < n
            invariant
                n == self.txns.len(),
                self@.len() == n,
                i <= n,
                self.wf(),
                txns_lookup(self@, txid@) == txns_lookup(self@.skip(i as int), txid@),
            decreases n - i,
        {
            proof {
                assert(self@[i as int] == self.txns@[i as int]@);
                assert(self@.skip(i as int)[0] == self@[i as int]);
            }
            if bytes_eq(&self.txns[i].txid, txid) {
                let t = self.txns[i].duplicate();
                proof {
                    assert(txns_lookup(self@.skip(i as int), txid@) == Some(self@[i as int]));
                }
                return Some(t);
            }
            proof {
                assert(self@.skip(i as int).drop_first() =~= self@.skip(i + 1));
            }
            i = i + 1;
        }
        proof {
            assert(self@.skip(n as int).len() == 0);
        }
        None
    }

    /// Remember a transaction.  A txid already present keeps its first copy.
    pub fn insert(&mut self, t: Transaction)
        requires
            old(self).wf(),
            t.wf(),
        ensures
            final(self).wf(),
            final(self)@ == if txns_lookup(old(self)@, t@.txid) is None {
                old(self)@.push(t@)
            } else {
                old(self)@
            },
    {
        let present = self.get(&t.txid);
        match present {
            Some(_) => {},
            None => {
                let ghost pre = self@;
                self.txns.push(t);
                proof {
                    assert(self@ =~= pre.push(self.txns@[pre.len() as int]@));
                }
            },
        }
    }
}

} // verus!
