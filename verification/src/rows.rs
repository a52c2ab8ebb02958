//! Row codec: the binary key/value layout of the index row families.
//!
//! Keys are compared and scanned as raw bytes, so every family starts its key
//! with a one-byte tag.  A transaction id appears in compound keys first as an
//! 8-byte prefix (to keep keys short) and, where needed, in full to settle
//! prefix collisions.  Parsers reject any row that does not match their
//! family's layout exactly.
use vstd::prelude::*;

use crate::bytes::{append_bytes, append_range, bytes_eq, read_u32_le, slice_range, u32_from_le,
    u32_le, push_u32_le, lemma_u32_le_round_trip};
use crate::store::{Row, RowV};

verus! {

/// How many leading bytes of a transaction id compound keys carry.
pub const TXID_PREFIX_LEN: usize = 8;

/// ASCII 'T': tag of a TxRow key.
pub const TAG_TX: u8 = 84;

/// ASCII 'R': tag of a RawTxRow key.
pub const TAG_RAW_TX: u8 = 82;

/// ASCII 'O': tag of a TxOutRow key.
pub const TAG_TX_OUT: u8 = 79;

/// ASCII 'I': tag of a TxInRow key.
pub const TAG_TX_IN: u8 = 73;

/// ASCII 'M': tag of a block metadata key.
pub const TAG_BLOCK_META: u8 = 77;

// ---------------------------------------------------------------------------
// TxRow: 'T' | txid[0..8] | txid  ->  height_le | blockhash
// ---------------------------------------------------------------------------

/// Locates a transaction's confirmation height and the block seen to confirm
/// it, reachable both by txid prefix and by full txid.
pub struct TxRow {
    pub txid: Vec<u8>,
    pub height: u32,
    pub blockhash: Vec<u8>,
}

pub ghost struct TxRowV {
    pub txid: Seq<u8>,
    pub height: u32,
    pub blockhash: Seq<u8>,
}

impl View for TxRow {
    type V = TxRowV;

    open spec fn view(&self) -> TxRowV {
        TxRowV { txid: self.txid@, height: self.height, blockhash: self.blockhash@ }
    }
}

impl TxRowV {
    pub open spec fn wf(self) -> bool {
        self.txid.len() == 32 && self.blockhash.len() == 32
    }
}

/// The key of the TxRow for `txid`.
pub open spec fn tx_row_key(txid: Seq<u8>) -> Seq<u8> {
    seq![TAG_TX] + txid.subrange(0, 8) + txid
}

/// The value of a TxRow.
pub open spec fn tx_row_value(height: u32, blockhash: Seq<u8>) -> Seq<u8> {
    u32_le(height) + blockhash
}

/// What a row means as a TxRow, if anything.
pub open spec fn parse_tx_row(row: RowV) -> Option<TxRowV> {
    if row.key.len() == 41 && row.key[0] == TAG_TX && row.value.len() == 36 && row.key.subrange(1, 9)
        == row.key.subrange(9, 17) {
        Some(
            TxRowV {
                txid: row.key.subrange(9, 41),
                height: u32_from_le(row.value.subrange(0, 4)),
                blockhash: row.value.subrange(4, 36),
            },
        )
    } else {
        None
    }
}

/// The scan prefix that finds TxRows by a txid prefix.
pub fn tx_row_filter_prefix(txid_prefix: &Vec<u8>) -> (r: Vec<u8>)
    ensures
        r@ == seq![TAG_TX] + txid_prefix@,
{
    let mut out: Vec<u8> = Vec::new();
    out.push(TAG_TX);
    append_bytes(&mut out, txid_prefix);
    proof {
        assert(out@ =~= seq![TAG_TX] + txid_prefix@);
    }
    out
}

/// The exact key of the TxRow for `txid`.
pub fn tx_row_filter_full(txid: &Vec<u8>) -> (r: Vec<u8>)
    requires
        txid@.len() == 32,
    ensures
        r@ == tx_row_key(txid@),
{
    let mut out: Vec<u8> = Vec::new();
    out.push(TAG_TX);
    append_range(&mut out, txid, 0, TXID_PREFIX_LEN);
    append_bytes(&mut out, txid);
    proof {
        assert(out@ =~= tx_row_key(txid@));
    }
    out
}

impl TxRow {
    pub open spec fn wf(&self) -> bool {
        self@.wf()
    }

    pub fn to_row(&self) -> (r: Row)
        requires
            self.wf(),
        ensures
            r@ == (RowV { key: tx_row_key(self@.txid), value: tx_row_value(
                self@.height,
                self@.blockhash,
            ) }),
    {
        let key = tx_row_filter_full(&self.txid);
        let mut value: Vec<u8> = Vec::new();
        push_u32_le(&mut value, self.height);
        append_bytes(&mut value, &self.blockhash);
        proof {
            assert(value@ =~= tx_row_value(self@.height, self@.blockhash));
        }
        Row { key, value }
    }

    pub fn from_row(row: &Row) -> (r: Option<TxRow>)
        ensures
            match r {
                Some(t) => parse_tx_row(row@) == Some(t@) && t.wf(),
                None => parse_tx_row(row@) is None,
            },
    {
        if row.key.len() != 41 || row.value.len() != 36 {
            return None;
        }
        if row.key[0] != TAG_TX {
            return None;
        }
        let p1 = slice_range(&row.key, 1, 9);
        let p2 = slice_range(&row.key, 9, 17);
        if !bytes_eq(&p1, &p2) {
            return None;
        }
        let txid = slice_range(&row.key, 9, 41);
        let height = read_u32_le(&row.value, 0);
        let blockhash = slice_range(&row.value, 4, 36);
        let t = TxRow { txid, height, blockhash };
        proof {
            assert(parse_tx_row(row@) == Some(t@));
        }
        Some(t)
    }
}

/// Encoding then parsing a TxRow gives it back.
pub proof fn lemma_tx_row_round_trip(t: TxRowV)
    requires
        t.wf(),
    ensures
        parse_tx_row(RowV { key: tx_row_key(t.txid), value: tx_row_value(t.height, t.blockhash) })
            == Some(t),
{
    let row = RowV { key: tx_row_key(t.txid), value: tx_row_value(t.height, t.blockhash) };
    assert(row.key.subrange(1, 9) =~= t.txid.subrange(0, 8));
    assert(row.key.subrange(9, 17) =~= t.txid.subrange(0, 8));
    assert(row.key.subrange(9, 41) =~= t.txid);
    assert(row.value.subrange(0, 4) =~= u32_le(t.height));
    assert(row.value.subrange(4, 36) =~= t.blockhash);
    lemma_u32_le_round_trip(t.height);
}

// ---------------------------------------------------------------------------
// RawTxRow: 'R' | txid  ->  raw transaction bytes
// ---------------------------------------------------------------------------

/// The authoritative local copy of a confirmed transaction's bytes.
pub struct RawTxRow {
    pub txid: Vec<u8>,
    pub rawtx: Vec<u8>,
}

pub ghost struct RawTxRowV {
    pub txid: Seq<u8>,
    pub rawtx: Seq<u8>,
}

impl View for RawTxRow {
    type V = RawTxRowV;

    open spec fn view(&self) -> RawTxRowV {
        RawTxRowV { txid: self.txid@, rawtx: self.rawtx@ }
    }
}

/// The key of the RawTxRow for `txid`.
pub open spec fn raw_tx_row_key(txid: Seq<u8>) -> Seq<u8> {
    seq![TAG_RAW_TX] + txid
}

/// What a row means as a RawTxRow, if anything.
pub open spec fn parse_raw_tx_row(row: RowV) -> Option<RawTxRowV> {
    if row.key.len() == 33 && row.key[0] == TAG_RAW_TX {
        Some(RawTxRowV { txid: row.key.subrange(1, 33), rawtx: row.value })
    } else {
        None
    }
}

/// The exact key of the RawTxRow for `txid`.
pub fn raw_tx_row_filter_full(txid: &Vec<u8>) -> (r: Vec<u8>)
    requires
        txid@.len() == 32,
    ensures
        r@ == raw_tx_row_key(txid@),
{
    let mut out: Vec<u8> = Vec::new();
    out.push(TAG_RAW_TX);
    append_bytes(&mut out, txid);
    proof {
        assert(out@ =~= raw_tx_row_key(txid@));
    }
    out
}

impl RawTxRow {
    pub open spec fn wf(&self) -> bool {
        self.txid@.len() == 32
    }

    pub fn to_row(&self) -> (r: Row)
        requires
            self.wf(),
        ensures
            r@ == (RowV { key: raw_tx_row_key(self@.txid), value: self@.rawtx }),
    {
        let key = raw_tx_row_filter_full(&self.txid);
        let value = self.rawtx.clone();
        proof {
            assert(value@ =~= self.rawtx@);
        }
        Row { key, value }
    }

    pub fn from_row(row: &Row) -> (r: Option<RawTxRow>)
        ensures
            match r {
                Some(t) => parse_raw_tx_row(row@) == Some(t@) && t.wf(),
                None => parse_raw_tx_row(row@) is None,
            },
    {
        if row.key.len() != 33 {
            return None;
        }
        if row.key[0] != TAG_RAW_TX {
            return None;
        }
        let txid = slice_range(&row.key, 1, 33);
        let rawtx = row.value.clone();
        let t = RawTxRow { txid, rawtx };
        proof {
            assert(t.rawtx@ =~= row.value@);
            assert(parse_raw_tx_row(row@) == Some(t@));
        }
        Some(t)
    }
}

/// Encoding then parsing a RawTxRow gives it back.
pub proof fn lemma_raw_tx_row_round_trip(t: RawTxRowV)
    requires
        t.txid.len() == 32,
    ensures
        parse_raw_tx_row(RowV { key: raw_tx_row_key(t.txid), value: t.rawtx }) == Some(t),
{
    let row = RowV { key: raw_tx_row_key(t.txid), value: t.rawtx };
    assert(row.key.subrange(1, 33) =~= t.txid);
}

// ---------------------------------------------------------------------------
// TxOutRow: 'O' | scripthash | txid[0..8]  ->  (empty)
// ---------------------------------------------------------------------------

/// Marks that a transaction (known by prefix) pays the scripthash.
pub struct TxOutRow {
    pub script_hash: Vec<u8>,
    pub txid_prefix: Vec<u8>,
}

pub ghost struct TxOutRowV {
    pub script_hash: Seq<u8>,
    pub txid_prefix: Seq<u8>,
}

impl View for TxOutRow {
    type V = TxOutRowV;

    open spec fn view(&self) -> TxOutRowV {
        TxOutRowV { script_hash: self.script_hash@, txid_prefix: self.txid_prefix@ }
    }
}

/// The key of the TxOutRow for a scripthash and a txid prefix.
pub open spec fn tx_out_row_key(script_hash: Seq<u8>, txid_prefix: Seq<u8>) -> Seq<u8> {
    seq![TAG_TX_OUT] + script_hash + txid_prefix
}

/// What a row means as a TxOutRow, if anything.
pub open spec fn parse_tx_out_row(row: RowV) -> Option<TxOutRowV> {
    if row.key.len() == 41 && row.key[0] == TAG_TX_OUT && row.value.len() == 0 {
        Some(
            TxOutRowV {
                script_hash: row.key.subrange(1, 33),
                txid_prefix: row.key.subrange(33, 41),
            },
        )
    } else {
        None
    }
}

/// The scan prefix that finds the TxOutRows of a scripthash.
pub fn tx_out_row_filter(script_hash: &Vec<u8>) -> (r: Vec<u8>)
    ensures
        r@ == seq![TAG_TX_OUT] + script_hash@,
{
    let mut out: Vec<u8> = Vec::new();
    out.push(TAG_TX_OUT);
    append_bytes(&mut out, script_hash);
    proof {
        assert(out@ =~= seq![TAG_TX_OUT] + script_hash@);
    }
    out
}

impl TxOutRow {
    pub open spec fn wf(&self) -> bool {
        self.script_hash@.len() == 32 && self.txid_prefix@.len() == 8
    }

    pub fn to_row(&self) -> (r: Row)
        requires
            self.wf(),
        ensures
            r@ == (RowV { key: tx_out_row_key(self@.script_hash, self@.txid_prefix), value: Seq::<
                u8,
            >::empty() }),
    {
        let mut key = tx_out_row_filter(&self.script_hash);
        append_bytes(&mut key, &self.txid_prefix);
        let value: Vec<u8> = Vec::new();
        proof {
            assert(key@ =~= tx_out_row_key(self@.script_hash, self@.txid_prefix));
            assert(value@ =~= Seq::<u8>::empty());
        }
        Row { key, value }
    }

    pub fn from_row(row: &Row) -> (r: Option<TxOutRow>)
        ensures
            match r {
                Some(t) => parse_tx_out_row(row@) == Some(t@) && t.wf(),
                None => parse_tx_out_row(row@) is None,
            },
    {
        if row.key.len() != 41 || row.value.len() != 0 {
            return None;
        }
        if row.key[0] != TAG_TX_OUT {
            return None;
        }
        let script_hash = slice_range(&row.key, 1, 33);
        let txid_prefix = slice_range(&row.key, 33, 41);
        let t = TxOutRow { script_hash, txid_prefix };
        proof {
            assert(parse_tx_out_row(row@) == Some(t@));
        }
        Some(t)
    }
}

/// Encoding then parsing a TxOutRow gives it back.
pub proof fn lemma_tx_out_row_round_trip(t: TxOutRowV)
    requires
        t.script_hash.len() == 32,
        t.txid_prefix.len() == 8,
    ensures
        parse_tx_out_row(
            RowV { key: tx_out_row_key(t.script_hash, t.txid_prefix), value: Seq::<u8>::empty() },
        ) == Some(t),
{
    let row = RowV { key: tx_out_row_key(t.script_hash, t.txid_prefix), value: Seq::<u8>::empty() };
    assert(row.key.subrange(1, 33) =~= t.script_hash);
    assert(row.key.subrange(33, 41) =~= t.txid_prefix);
}

// ---------------------------------------------------------------------------
// TxInRow: 'I' | funding txid | vout_le | spender txid[0..8]  ->  (empty)
// ---------------------------------------------------------------------------

/// Marks that a transaction (known by prefix) spends the outpoint.
pub struct TxInRow {
    pub prev_txid: Vec<u8>,
    pub prev_vout: u32,
    pub txid_prefix: Vec<u8>,
}

pub ghost struct TxInRowV {
    pub prev_txid: Seq<u8>,
    pub prev_vout: u32,
    pub txid_prefix: Seq<u8>,
}

impl View for TxInRow {
    type V = TxInRowV;

    open spec fn view(&self) -> TxInRowV {
        TxInRowV {
            prev_txid: self.prev_txid@,
            prev_vout: self.prev_vout,
            txid_prefix: self.txid_prefix@,
        }
    }
}

/// The key of the TxInRow for an outpoint and a spender prefix.
pub open spec fn tx_in_row_key(prev_txid: Seq<u8>, prev_vout: u32, txid_prefix: Seq<u8>) -> Seq<
    u8,
> {
    seq![TAG_TX_IN] + prev_txid + u32_le(prev_vout) + txid_prefix
}

/// What a row means as a TxInRow, if anything.
pub open spec fn parse_tx_in_row(row: RowV) -> Option<TxInRowV> {
    if row.key.len() == 45 && row.key[0] == TAG_TX_IN && row.value.len() == 0 {
        Some(
            TxInRowV {
                prev_txid: row.key.subrange(1, 33),
                prev_vout: u32_from_le(row.key.subrange(33, 37)),
                txid_prefix: row.key.subrange(37, 45),
            },
        )
    } else {
        None
    }
}

/// The scan prefix that finds the TxInRows of an outpoint.
pub fn tx_in_row_filter(prev_txid: &Vec<u8>, prev_vout: u32) -> (r: Vec<u8>)
    ensures
        r@ == seq![TAG_TX_IN] + prev_txid@ + u32_le(prev_vout),
{
    let mut out: Vec<u8> = Vec::new();
    out.push(TAG_TX_IN);
    append_bytes(&mut out, prev_txid);
    push_u32_le(&mut out, prev_vout);
    proof {
        assert(out@ =~= seq![TAG_TX_IN] + prev_txid@ + u32_le(prev_vout));
    }
    out
}

impl TxInRow {
    pub open spec fn wf(&self) -> bool {
        self.prev_txid@.len() == 32 && self.txid_prefix@.len() == 8
    }

    pub fn to_row(&self) -> (r: Row)
        requires
            self.wf(),
        ensures
            r@ == (RowV { key: tx_in_row_key(self@.prev_txid, self@.prev_vout, self@.txid_prefix),
                value: Seq::<u8>::empty() }),
    {
        let mut key = tx_in_row_filter(&self.prev_txid, self.prev_vout);
        append_bytes(&mut key, &self.txid_prefix);
        let value: Vec<u8> = Vec::new();
        proof {
            assert(key@ =~= tx_in_row_key(self@.prev_txid, self@.prev_vout, self@.txid_prefix));
            assert(value@ =~= Seq::<u8>::empty());
        }
        Row { key, value }
    }

    pub fn from_row(row: &Row) -> (r: Option<TxInRow>)
        ensures
            match r {
                Some(t) => parse_tx_in_row(row@) == Some(t@) && t.wf(),
                None => parse_tx_in_row(row@) is None,
            },
    {
        if row.key.len() != 45 || row.value.len() != 0 {
            return None;
        }
        if row.key[0] != TAG_TX_IN {
            return None;
        }
        let prev_txid = slice_range(&row.key, 1, 33);
        let prev_vout = read_u32_le(&row.key, 33);
        let txid_prefix = slice_range(&row.key, 37, 45);
        let t = TxInRow { prev_txid, prev_vout, txid_prefix };
        proof {
            assert(parse_tx_in_row(row@) == Some(t@));
        }
        Some(t)
    }
}

/// Encoding then parsing a TxInRow gives it back.
pub proof fn lemma_tx_in_row_round_trip(t: TxInRowV)
    requires
        t.prev_txid.len() == 32,
        t.txid_prefix.len() == 8,
    ensures
        parse_tx_in_row(
            RowV {
                key: tx_in_row_key(t.prev_txid, t.prev_vout, t.txid_prefix),
                value: Seq::<u8>::empty(),
            },
        ) == Some(t),
{
    let row = RowV {
        key: tx_in_row_key(t.prev_txid, t.prev_vout, t.txid_prefix),
        value: Seq::<u8>::empty(),
    };
    assert(row.key.subrange(1, 33) =~= t.prev_txid);
    assert(row.key.subrange(33, 37) =~= u32_le(t.prev_vout));
    assert(row.key.subrange(37, 45) =~= t.txid_prefix);
    lemma_u32_le_round_trip(t.prev_vout);
}

// ---------------------------------------------------------------------------
// Block metadata: 'M' | blockhash  ->  tx_count_le | size_le | weight_le
// ---------------------------------------------------------------------------

/// Sidecar metrics of a block.
pub struct BlockMeta {
    pub tx_count: u32,
    pub size: u32,
    pub weight: u32,
}

impl BlockMeta {
    /// A fresh copy.
    pub fn duplicate(&self) -> (r: BlockMeta)
        ensures
            r.tx_count == self.tx_count,
            r.size == self.size,
            r.weight == self.weight,
    {
        BlockMeta { tx_count: self.tx_count, size: self.size, weight: self.weight }
    }
}

/// The key of the metadata row for `blockhash`.
pub open spec fn block_meta_key(blockhash: Seq<u8>) -> Seq<u8> {
    seq![TAG_BLOCK_META] + blockhash
}

/// The 12-byte value of a metadata row.
pub open spec fn block_meta_value(tx_count: u32, size: u32, weight: u32) -> Seq<u8> {
    u32_le(tx_count) + u32_le(size) + u32_le(weight)
}

/// What a 12-byte value means as block metadata.
pub open spec fn parse_block_meta_value(value: Seq<u8>) -> Option<(u32, u32, u32)> {
    if value.len() == 12 {
        Some(
            (
                u32_from_le(value.subrange(0, 4)),
                u32_from_le(value.subrange(4, 8)),
                u32_from_le(value.subrange(8, 12)),
            ),
        )
    } else {
        None
    }
}

/// The exact key of the metadata row for `blockhash`.
pub fn block_meta_filter_full(blockhash: &Vec<u8>) -> (r: Vec<u8>)
    requires
        blockhash@.len() == 32,
    ensures
        r@ == block_meta_key(blockhash@),
{
    let mut out: Vec<u8> = Vec::new();
    out.push(TAG_BLOCK_META);
    append_bytes(&mut out, blockhash);
    proof {
        assert(out@ =~= block_meta_key(blockhash@));
    }
    out
}

/// Encode block metadata as a row value.
pub fn block_meta_encode(meta: &BlockMeta) -> (r: Vec<u8>)
    ensures
        r@ == block_meta_value(meta.tx_count, meta.size, meta.weight),
{
    let mut out: Vec<u8> = Vec::new();
    push_u32_le(&mut out, meta.tx_count);
    push_u32_le(&mut out, meta.size);
    push_u32_le(&mut out, meta.weight);
    proof {
        assert(out@ =~= block_meta_value(meta.tx_count, meta.size, meta.weight));
    }
    out
}

/// Decode a row value as block metadata.
pub fn block_meta_decode(value: &Vec<u8>) -> (r: Option<BlockMeta>)
    ensures
        match r {
            Some(m) => parse_block_meta_value(value@) == Some((m.tx_count, m.size, m.weight)),
            None => parse_block_meta_value(value@) is None,
        },
{
    if value.len() != 12 {
        return None;
    }
    let tx_count = read_u32_le(value, 0);
    let size = read_u32_le(value, 4);
    let weight = read_u32_le(value, 8);
    Some(BlockMeta { tx_count, size, weight })
}

/// Encoding then decoding block metadata gives it back.
pub proof fn lemma_block_meta_round_trip(tx_count: u32, size: u32, weight: u32)
    ensures
        parse_block_meta_value(block_meta_value(tx_count, size, weight)) == Some(
            (tx_count, size, weight),
        ),
{
    let value = block_meta_value(tx_count, size, weight);
    assert(value.subrange(0, 4) =~= u32_le(tx_count));
    assert(value.subrange(4, 8) =~= u32_le(size));
    assert(value.subrange(8, 12) =~= u32_le(weight));
    lemma_u32_le_round_trip(tx_count);
    lemma_u32_le_round_trip(size);
    lemma_u32_le_round_trip(weight);
}

} // verus!
