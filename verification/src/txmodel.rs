//! The transaction data the query core reads: inputs as outpoints, outputs
//! as locking script plus amount, and the content-derived transaction id.
//!
//! An amount is either explicit or blinded; a blinded amount counts as zero
//! wherever a balance is formed.
use vstd::prelude::*;

verus! {

/// An output's amount: a plain number, or blinded.
#[derive(Clone, Copy)]
pub enum Amount {
    Explicit(u64),
    Confidential,
}

/// What an amount contributes to a balance: blinded amounts count as zero.
pub open spec fn amount_value(a: Amount) -> u64 {
    match a {
        Amount::Explicit(v) => v,
        Amount::Confidential => 0,
    }
}

/// Read the numeric value of an amount; blinded amounts read as zero.
pub fn amount_to_value(a: &Amount) -> (r: u64)
    ensures
        r == amount_value(*a),
{
    match a {
        Amount::Explicit(v) => *v,
        Amount::Confidential => 0,
    }
}

/// One transaction output.
pub struct TxOut {
    pub script_pubkey: Vec<u8>,
    pub value: Amount,
}

pub ghost struct TxOutV {
    pub script_pubkey: Seq<u8>,
    pub value: Amount,
}

impl View for TxOut {
    type V = TxOutV;

    open spec fn view(&self) -> TxOutV {
        TxOutV { script_pubkey: self.script_pubkey@, value: self.value }
    }
}

impl TxOut {
    pub fn duplicate(&self) -> (r: TxOut)
        ensures
            r@ == self@,
    {
        let script_pubkey = self.script_pubkey.clone();
        proof {
            assert(script_pubkey@ =~= self.script_pubkey@);
        }
        TxOut { script_pubkey, value: self.value }
    }
}

/// One transaction input: the outpoint it consumes.
pub struct TxIn {
    pub prev_txid: Vec<u8>,
    pub prev_vout: u32,
}

pub ghost struct TxInV {
    pub prev_txid: Seq<u8>,
    pub prev_vout: u32,
}

impl View for TxIn {
    type V = TxInV;

    open spec fn view(&self) -> TxInV {
        TxInV { prev_txid: self.prev_txid@, prev_vout: self.prev_vout }
    }
}

impl TxIn {
    pub fn duplicate(&self) -> (r: TxIn)
        ensures
            r@ == self@,
    {
        let prev_txid = self.prev_txid.clone();
        proof {
            assert(prev_txid@ =~= self.prev_txid@);
        }
        TxIn { prev_txid, prev_vout: self.prev_vout }
    }
}

/// A transaction, carried together with its id.  Transactions are
/// content-addressed, so the id identifies the rest.
pub struct Transaction {
    pub txid: Vec<u8>,
    pub inputs: Vec<TxIn>,
    pub outputs: Vec<TxOut>,
}

pub ghost struct TransactionV {
    pub txid: Seq<u8>,
    pub inputs: Seq<TxInV>,
    pub outputs: Seq<TxOutV>,
}

impl View for Transaction {
    type V = TransactionV;

    open spec fn view(&self) -> TransactionV {
        TransactionV {
            txid: self.txid@,
            inputs: self.inputs@.map_values(|i: TxIn| i@),
            outputs: self.outputs@.map_values(|o: TxOut| o@),
        }
    }
}

impl TransactionV {
    pub open spec fn wf(self) -> bool {
        &&& self.txid.len() == 32
        &&& self.outputs.len() <= 0xffff_ffff
        &&& forall|i: int|
            0 <= i < self.inputs.len() ==> (#[trigger] self.inputs[i]).prev_txid.len() == 32
    }
}

impl Transaction {
    pub open spec fn wf(&self) -> bool {
        self@.wf()
    }

    /// A fresh transaction with the same content.
    pub fn duplicate(&self) -> (r: Transaction)
        ensures
            r@ == self@,
    {
        let txid = self.txid.clone();
        proof {
            assert(txid@ =~= self.txid@);
        }
        let mut inputs: Vec<TxIn> = Vec::new();
        let mut i: usize = 0;
        while i < self.inputs.len()
            invariant
                i <= self.inputs.len(),
                inputs@.len() == i,
                forall|j: int| 0 <= j < i ==> (#[trigger] inputs@[j])@ == self.inputs@[j]@,
            decreases self.inputs.len() - i,
        {
            inputs.push(self.inputs[i].duplicate());
            i = i + 1;
        }
        let mut outputs: Vec<TxOut> = Vec::new();
        let mut j: usize = 0;
        while j < self.outputs.len()
            invariant
                j <= self.outputs.len(),
                outputs@.len() == j,
                forall|k: int| 0 <= k < j ==> (#[trigger] outputs@[k])@ == self.outputs@[k]@,
            decreases self.outputs.len() - j,
        {
            outputs.push(self.outputs[j].duplicate());
            j = j + 1;
        }
        let r = Transaction { txid, inputs, outputs };
        proof {
            assert(r.inputs@.map_values(|x: TxIn| x@) =~= self.inputs@.map_values(|x: TxIn| x@));
            assert(r.outputs@.map_values(|x: TxOut| x@) =~= self.outputs@.map_values(
                |x: TxOut| x@,
            ));
        }
        r
    }
}

} // verus!
