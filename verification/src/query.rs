//! Scripthash status engine and the query entry points built around it.
//!
//! The engine joins three sources: the persisted index (scanned by
//! scripthash and by spent outpoint), the mempool tracker's index of the
//! same shape, and the transaction cache that materializes candidates.  Keys
//! carry only a txid prefix, so every candidate is re-checked against the
//! full transaction before it may contribute a record.
use vstd::prelude::*;

use crate::bytes::{bytes_eq, u32_le, vecs_view};
use crate::cache::{txns_lookup, TransactionCache};
use crate::errors::QueryError;
use crate::hashes::{compute_script_hash, sha256_of};
use crate::rows::{parse_tx_in_row, parse_tx_out_row, parse_tx_row, tx_in_row_filter,
    tx_out_row_filter, tx_row_filter_prefix, TxInRow, TxOutRow, TxRow, TxRowV, TAG_TX, TAG_TX_IN,
    TAG_TX_OUT};
use crate::status::{funding_map, fundings_view, lemma_outs_map_of_covers,
    lemma_unspent_partition, spendings_view, spends_key, unspent_map, FundingOutput,
    FundingOutputV, SpendingInput, SpendingInputV, Status, StatusV};
use crate::store::{rows_with_prefix, Row, RowV, Store};
use crate::txmodel::{amount_to_value, amount_value, Transaction, TransactionV};

verus! {

/// A materialized candidate: one transaction and the height its row named.
pub struct TxnHeight {
    pub txn: Transaction,
    pub height: u32,
}

pub ghost struct TxnHeightV {
    pub txn: TransactionV,
    pub height: u32,
}

impl View for TxnHeight {
    type V = TxnHeightV;

    open spec fn view(&self) -> TxnHeightV {
        TxnHeightV { txn: self.txn@, height: self.height }
    }
}

// ---------------------------------------------------------------------------
// Scan keys
// ---------------------------------------------------------------------------

/// The scan prefix of the TxOutRows of a scripthash.
pub open spec fn txout_scan_key(script_hash: Seq<u8>) -> Seq<u8> {
    seq![TAG_TX_OUT] + script_hash
}

/// The scan prefix of the TxRows under a txid prefix.
pub open spec fn tx_scan_key(txid_prefix: Seq<u8>) -> Seq<u8> {
    seq![TAG_TX] + txid_prefix
}

/// The scan prefix of the TxInRows of an outpoint.
pub open spec fn txin_scan_key(prev_txid: Seq<u8>, prev_vout: u32) -> Seq<u8> {
    seq![TAG_TX_IN] + prev_txid + u32_le(prev_vout)
}

// ---------------------------------------------------------------------------
// Parsing scan results
// ---------------------------------------------------------------------------

/// The txid prefixes named by a run of TxOutRows; nothing if any row is not
/// a TxOutRow.
pub open spec fn parse_txout_prefixes(rs: Seq<RowV>) -> Option<Seq<Seq<u8>>>
    decreases rs.len(),
{
    if rs.len() == 0 {
        Some(Seq::<Seq<u8>>::empty())
    } else {
        match parse_tx_out_row(rs[0]) {
            Option::None => None,
            Option::Some(t) => match parse_txout_prefixes(rs.drop_first()) {
                Option::None => None,
                Option::Some(rest) => Some(seq![t.txid_prefix] + rest),
            },
        }
    }
}

/// The spender prefixes named by a run of TxInRows; nothing if any row is
/// not a TxInRow.
pub open spec fn parse_txin_prefixes(rs: Seq<RowV>) -> Option<Seq<Seq<u8>>>
    decreases rs.len(),
{
    if rs.len() == 0 {
        Some(Seq::<Seq<u8>>::empty())
    } else {
        match parse_tx_in_row(rs[0]) {
            Option::None => None,
            Option::Some(t) => match parse_txin_prefixes(rs.drop_first()) {
                Option::None => None,
                Option::Some(rest) => Some(seq![t.txid_prefix] + rest),
            },
        }
    }
}

/// A run of rows read as TxRows; nothing if any row is not a TxRow.
pub open spec fn parse_txrow_list(rs: Seq<RowV>) -> Option<Seq<TxRowV>>
    decreases rs.len(),
{
    if rs.len() == 0 {
        Some(Seq::<TxRowV>::empty())
    } else {
        match parse_tx_row(rs[0]) {
            Option::None => None,
            Option::Some(t) => match parse_txrow_list(rs.drop_first()) {
                Option::None => None,
                Option::Some(rest) => Some(seq![t] + rest),
            },
        }
    }
}

// ---------------------------------------------------------------------------
// Materialization through the cache
// ---------------------------------------------------------------------------

/// Each TxRow joined with its cached transaction; nothing if one is not
/// cached.
pub open spec fn load_txrow_list(trs: Seq<TxRowV>, cache: Seq<TransactionV>) -> Option<
    Seq<TxnHeightV>,
>
    decreases trs.len(),
{
    if trs.len() == 0 {
        Some(Seq::<TxnHeightV>::empty())
    } else {
        match txns_lookup(cache, trs[0].txid) {
            Option::None => None,
            Option::Some(txn) => match load_txrow_list(trs.drop_first(), cache) {
                Option::None => None,
                Option::Some(rest) => Some(seq![TxnHeightV { txn, height: trs[0].height }] + rest),
            },
        }
    }
}

/// All materialized candidates under one txid prefix.
pub open spec fn txns_for_prefix(rows: Seq<RowV>, cache: Seq<TransactionV>, p: Seq<u8>) -> Option<
    Seq<TxnHeightV>,
> {
    match parse_txrow_list(rows_with_prefix(rows, tx_scan_key(p))) {
        Option::None => None,
        Option::Some(trs) => load_txrow_list(trs, cache),
    }
}

/// All materialized candidates under a run of txid prefixes, in order.
pub open spec fn txns_for_prefixes(
    rows: Seq<RowV>,
    cache: Seq<TransactionV>,
    ps: Seq<Seq<u8>>,
) -> Option<Seq<TxnHeightV>>
    decreases ps.len(),
{
    if ps.len() == 0 {
        Some(Seq::<TxnHeightV>::empty())
    } else {
        match txns_for_prefix(rows, cache, ps[0]) {
            Option::None => None,
            Option::Some(first) => match txns_for_prefixes(rows, cache, ps.drop_first()) {
                Option::None => None,
                Option::Some(rest) => Some(first + rest),
            },
        }
    }
}

// ---------------------------------------------------------------------------
// Funding and spending records
// ---------------------------------------------------------------------------

/// The funding records one candidate contributes from output `i` on: one
/// per output whose script hashes to the scripthash, with the explicit
/// amount or zero.
pub open spec fn fundings_from(t: TxnHeightV, script_hash: Seq<u8>, i: int) -> Seq<FundingOutputV>
    decreases t.txn.outputs.len() - i,
{
    if i < 0 || i >= t.txn.outputs.len() {
        Seq::<FundingOutputV>::empty()
    } else {
        let rest = fundings_from(t, script_hash, i + 1);
        if sha256_of(t.txn.outputs[i].script_pubkey) == script_hash {
            seq![
                FundingOutputV {
                    txn_id: t.txn.txid,
                    height: t.height,
                    output_index: i as u32,
                    value: amount_value(t.txn.outputs[i].value),
                },
            ] + rest
        } else {
            rest
        }
    }
}

/// The funding records of a run of candidates, in order.
pub open spec fn fundings_of(ts: Seq<TxnHeightV>, script_hash: Seq<u8>) -> Seq<FundingOutputV>
    decreases ts.len(),
{
    if ts.len() == 0 {
        Seq::<FundingOutputV>::empty()
    } else {
        fundings_from(ts[0], script_hash, 0) + fundings_of(ts.drop_first(), script_hash)
    }
}

/// Everything one source says funds the scripthash; nothing on a corrupt
/// row or an uncached transaction.
pub open spec fn funding_spec(
    rows: Seq<RowV>,
    cache: Seq<TransactionV>,
    script_hash: Seq<u8>,
) -> Option<Seq<FundingOutputV>> {
    match parse_txout_prefixes(rows_with_prefix(rows, txout_scan_key(script_hash))) {
        Option::None => None,
        Option::Some(ps) => match txns_for_prefixes(rows, cache, ps) {
            Option::None => None,
            Option::Some(ts) => Some(fundings_of(ts, script_hash)),
        },
    }
}

/// The spending records one candidate contributes against one funding
/// output, looking at inputs from `i` on.
pub open spec fn spend_matches_in(t: TxnHeightV, f: FundingOutputV, i: int) -> Seq<SpendingInputV>
    decreases t.txn.inputs.len() - i,
{
    if i < 0 || i >= t.txn.inputs.len() {
        Seq::<SpendingInputV>::empty()
    } else {
        let rest = spend_matches_in(t, f, i + 1);
        if t.txn.inputs[i].prev_txid == f.txn_id && t.txn.inputs[i].prev_vout == f.output_index {
            seq![
                SpendingInputV {
                    txn_id: t.txn.txid,
                    height: t.height,
                    funding_txid: f.txn_id,
                    funding_vout: f.output_index,
                    value: f.value,
                },
            ] + rest
        } else {
            rest
        }
    }
}

/// The spending records of a run of candidates against one funding output.
pub open spec fn spend_matches(ts: Seq<TxnHeightV>, f: FundingOutputV) -> Seq<SpendingInputV>
    decreases ts.len(),
{
    if ts.len() == 0 {
        Seq::<SpendingInputV>::empty()
    } else {
        spend_matches_in(ts[0], f, 0) + spend_matches(ts.drop_first(), f)
    }
}

/// What one source says about who spends one funding output: the spender if
/// there is exactly one, nothing-found if none; nothing at all on a corrupt
/// row, an uncached transaction, or more than one surviving spender (the
/// chain forbids a double spend, so that is corruption).
pub open spec fn spending_for(
    rows: Seq<RowV>,
    cache: Seq<TransactionV>,
    f: FundingOutputV,
) -> Option<Option<SpendingInputV>> {
    match parse_txin_prefixes(
        rows_with_prefix(rows, txin_scan_key(f.txn_id, f.output_index)),
    ) {
        Option::None => None,
        Option::Some(ps) => match txns_for_prefixes(rows, cache, ps) {
            Option::None => None,
            Option::Some(ts) => {
                let ms = spend_matches(ts, f);
                if ms.len() == 0 {
                    Some(None)
                } else if ms.len() == 1 {
                    Some(Some(ms[0]))
                } else {
                    None
                }
            },
        },
    }
}

/// The spending records found for a run of funding outputs, in order,
/// keeping only the outputs that are spent.
pub open spec fn spendings_for(
    rows: Seq<RowV>,
    cache: Seq<TransactionV>,
    fs: Seq<FundingOutputV>,
) -> Option<Seq<SpendingInputV>>
    decreases fs.len(),
{
    if fs.len() == 0 {
        Some(Seq::<SpendingInputV>::empty())
    } else {
        match spending_for(rows, cache, fs[0]) {
            Option::None => None,
            Option::Some(opt) => match spendings_for(rows, cache, fs.drop_first()) {
                Option::None => None,
                Option::Some(rest) => Some(
                    match opt {
                        Option::Some(s) => seq![s] + rest,
                        Option::None => rest,
                    },
                ),
            },
        }
    }
}

/// One source's full answer for a scripthash: its funding outputs and the
/// spenders found among the same source's rows.
pub open spec fn side_status_spec(
    rows: Seq<RowV>,
    cache: Seq<TransactionV>,
    script_hash: Seq<u8>,
    extra_funding: Seq<FundingOutputV>,
) -> Option<(Seq<FundingOutputV>, Seq<SpendingInputV>)> {
    match funding_spec(rows, cache, script_hash) {
        Option::None => None,
        Option::Some(fs) => match spendings_for(rows, cache, fs + extra_funding) {
            Option::None => None,
            Option::Some(ss) => Some((fs, ss)),
        },
    }
}

/// The whole engine: the confirmed side over the persisted rows, then the
/// mempool side over the tracker's rows, which also checks spends of the
/// confirmed funding outputs.
pub open spec fn status_spec(
    rows: Seq<RowV>,
    mempool_rows: Seq<RowV>,
    cache: Seq<TransactionV>,
    script_hash: Seq<u8>,
) -> Option<StatusV> {
    match side_status_spec(rows, cache, script_hash, Seq::<FundingOutputV>::empty()) {
        Option::None => None,
        Option::Some((cf, cs)) => match side_status_spec(mempool_rows, cache, script_hash, cf) {
            Option::None => None,
            Option::Some((mf, ms)) => Some(
                StatusV {
                    confirmed_funding: cf,
                    confirmed_spending: cs,
                    mempool_funding: mf,
                    mempool_spending: ms,
                },
            ),
        },
    }
}

// ---------------------------------------------------------------------------
// Reading the index
// ---------------------------------------------------------------------------

/// The TxRows a list of rows holds.
pub open spec fn txrows_view(s: Seq<TxRow>) -> Seq<TxRowV> {
    s.map_values(|t: TxRow| t@)
}

/// The candidates a list holds.
pub open spec fn txnheights_view(s: Seq<TxnHeight>) -> Seq<TxnHeightV> {
    s.map_values(|t: TxnHeight| t@)
}

/// The txid prefixes of the transactions paying `script_hash`, from the
/// TxOutRows under it.
pub fn txids_by_script_hash(store: &Store, script_hash: &Vec<u8>) -> (r: Result<
    Vec<Vec<u8>>,
    QueryError,
>)
    ensures
        match r {
            Ok(ps) => parse_txout_prefixes(rows_with_prefix(store@, txout_scan_key(script_hash@)))
                == Some(vecs_view(ps@)),
            Err(e) => parse_txout_prefixes(rows_with_prefix(store@, txout_scan_key(script_hash@)))
                is None && e is Corruption,
        },
{
    let filter = tx_out_row_filter(script_hash);
    let rows = store.scan(&filter);
    let ghost rsv = rows_with_prefix(store@, txout_scan_key(script_hash@));
    proof {
        assert(rows@.map_values(|row: Row| row@) == rsv);
    }
    let mut out: Vec<Vec<u8>> = Vec::new();
    let n = rows.len();
    let mut i: usize = 0;
    proof {
        assert(rsv.skip(0) =~= rsv);
        assert(vecs_view(out@) =~= Seq::<Seq<u8>>::empty());
    }
    while i < n
        invariant
            n == rows.len(),
            i <= n,
            rsv == rows@.map_values(|row: Row| row@),
            rsv == rows_with_prefix(store@, txout_scan_key(script_hash@)),
            rsv.len() == n,
            parse_txout_prefixes(rsv) == (match parse_txout_prefixes(rsv.skip(i as int)) {
                Option::None => None::<Seq<Seq<u8>>>,
                Option::Some(rest) => Some(vecs_view(out@) + rest),
            }),
        decreases n - i,
    {
        proof {
            assert(rsv[i as int] == rows@[i as int]@);
            assert(rsv.skip(i as int)[0] == rsv[i as int]);
            assert(rsv.skip(i as int).drop_first() =~= rsv.skip(i + 1));
        }
        match TxOutRow::from_row(&rows[i]) {
            Option::Some(t) => {
                let ghost pre = out@;
                let ghost pv = t.txid_prefix@;
                out.push(t.txid_prefix);
                proof {
                    assert(vecs_view(out@) =~= vecs_view(pre).push(pv));
                    if parse_txout_prefixes(rsv.skip(i + 1)) is Some {
                        let rest = parse_txout_prefixes(rsv.skip(i + 1))->Some_0;
                        assert(vecs_view(pre) + (seq![pv] + rest) =~= vecs_view(out@) + rest);
                    }
                }
            },
            Option::None => {
                return Err(QueryError::Corruption);
            },
        }
        i = i + 1;
    }
    proof {
        assert(rsv.skip(n as int).len() == 0);
        assert(vecs_view(out@) + Seq::<Seq<u8>>::empty() =~= vecs_view(out@));
    }
    Ok(out)
}

/// The txid prefixes of the transactions spending the outpoint, from the
/// TxInRows under it.
pub fn txids_by_funding_output(store: &Store, txn_id: &Vec<u8>, output_index: u32) -> (r: Result<
    Vec<Vec<u8>>,
    QueryError,
>)
    ensures
        match r {
            Ok(ps) => parse_txin_prefixes(
                rows_with_prefix(store@, txin_scan_key(txn_id@, output_index)),
            ) == Some(vecs_view(ps@)),
            Err(e) => parse_txin_prefixes(
                rows_with_prefix(store@, txin_scan_key(txn_id@, output_index)),
            ) is None && e is Corruption,
        },
{
    let filter = tx_in_row_filter(txn_id, output_index);
    let rows = store.scan(&filter);
    let ghost rsv = rows_with_prefix(store@, txin_scan_key(txn_id@, output_index));
    proof {
        assert(rows@.map_values(|row: Row| row@) == rsv);
    }
    let mut out: Vec<Vec<u8>> = Vec::new();
    let n = rows.len();
    let mut i: usize = 0;
    proof {
        assert(rsv.skip(0) =~= rsv);
        assert(vecs_view(out@) =~= Seq::<Seq<u8>>::empty());
    }
    while i < n
        invariant
            n == rows.len(),
            i <= n,
            rsv == rows@.map_values(|row: Row| row@),
            rsv == rows_with_prefix(store@, txin_scan_key(txn_id@, output_index)),
            rsv.len() == n,
            parse_txin_prefixes(rsv) == (match parse_txin_prefixes(rsv.skip(i as int)) {
                Option::None => None::<Seq<Seq<u8>>>,
                Option::Some(rest) => Some(vecs_view(out@) + rest),
            }),
        decreases n - i,
    {
        proof {
            assert(rsv[i as int] == rows@[i as int]@);
            assert(rsv.skip(i as int)[0] == rsv[i as int]);
            assert(rsv.skip(i as int).drop_first() =~= rsv.skip(i + 1));
        }
        match TxInRow::from_row(&rows[i]) {
            Option::Some(t) => {
                let ghost pre = out@;
                let ghost pv = t.txid_prefix@;
                out.push(t.txid_prefix);
                proof {
                    assert(vecs_view(out@) =~= vecs_view(pre).push(pv));
                    if parse_txin_prefixes(rsv.skip(i + 1)) is Some {
                        let rest = parse_txin_prefixes(rsv.skip(i + 1))->Some_0;
                        assert(vecs_view(pre) + (seq![pv] + rest) =~= vecs_view(out@) + rest);
                    }
                }
            },
            Option::None => {
                return Err(QueryError::Corruption);
            },
        }
        i = i + 1;
    }
    proof {
        assert(rsv.skip(n as int).len() == 0);
        assert(vecs_view(out@) + Seq::<Seq<u8>>::empty() =~= vecs_view(out@));
    }
    Ok(out)
}

/// The TxRows under one txid prefix.
pub fn txrows_by_prefix(store: &Store, txid_prefix: &Vec<u8>) -> (r: Result<Vec<TxRow>, QueryError>)
    ensures
        match r {
            Ok(ts) => parse_txrow_list(rows_with_prefix(store@, tx_scan_key(txid_prefix@))) == Some(
                txrows_view(ts@),
            ),
            Err(e) => parse_txrow_list(rows_with_prefix(store@, tx_scan_key(txid_prefix@)))
                is None && e is Corruption,
        },
{
    let filter = tx_row_filter_prefix(txid_prefix);
    let rows = store.scan(&filter);
    let ghost rsv = rows_with_prefix(store@, tx_scan_key(txid_prefix@));
    proof {
        assert(rows@.map_values(|row: Row| row@) == rsv);
    }
    let mut out: Vec<TxRow> = Vec::new();
    let n = rows.len();
    let mut i: usize = 0;
    proof {
        assert(rsv.skip(0) =~= rsv);
        assert(txrows_view(out@) =~= Seq::<TxRowV>::empty());
    }
    while i < n
        invariant
            n == rows.len(),
            i <= n,
            rsv == rows@.map_values(|row: Row| row@),
            rsv == rows_with_prefix(store@, tx_scan_key(txid_prefix@)),
            rsv.len() == n,
            parse_txrow_list(rsv) == (match parse_txrow_list(rsv.skip(i as int)) {
                Option::None => None::<Seq<TxRowV>>,
                Option::Some(rest) => Some(txrows_view(out@) + rest),
            }),
        decreases n - i,
    {
        proof {
            assert(rsv[i as int] == rows@[i as int]@);
            assert(rsv.skip(i as int)[0] == rsv[i as int]);
            assert(rsv.skip(i as int).drop_first() =~= rsv.skip(i + 1));
        }
        match TxRow::from_row(&rows[i]) {
            Option::Some(t) => {
                let ghost pre = out@;
                let ghost tv = t@;
                out.push(t);
                proof {
                    assert(txrows_view(out@) =~= txrows_view(pre).push(tv));
                    if parse_txrow_list(rsv.skip(i + 1)) is Some {
                        let rest = parse_txrow_list(rsv.skip(i + 1))->Some_0;
                        assert(txrows_view(pre) + (seq![tv] + rest) =~= txrows_view(out@) + rest);
                    }
                }
            },
            Option::None => {
                return Err(QueryError::Corruption);
            },
        }
        i = i + 1;
    }
    proof {
        assert(rsv.skip(n as int).len() == 0);
        assert(txrows_view(out@) + Seq::<TxRowV>::empty() =~= txrows_view(out@));
    }
    Ok(out)
}

/// Join each TxRow with its cached transaction.
fn load_txrow_rows(cache: &TransactionCache, txrows: &Vec<TxRow>) -> (r: Result<
    Vec<TxnHeight>,
    QueryError,
>)
    requires
        cache.wf(),
    ensures
        match r {
            Ok(ts) => load_txrow_list(txrows_view(txrows@), cache@) == Some(txnheights_view(ts@))
                && forall|k: int| 0 <= k < ts@.len() ==> (#[trigger] ts@[k]).txn.wf(),
            Err(e) => load_txrow_list(txrows_view(txrows@), cache@) is None && e is TxMissing,
        },
{
    let ghost trv = txrows_view(txrows@);
    let mut out: Vec<TxnHeight> = Vec::new();
    let n = txrows.len();
    let mut i: usize = 0;
    proof {
        assert(trv.skip(0) =~= trv);
        assert(txnheights_view(out@) =~= Seq::<TxnHeightV>::empty());
    }
    while i < n
        invariant
            n == txrows.len(),
            i <= n,
            cache.wf(),
            trv == txrows_view(txrows@),
            trv.len() == n,
            forall|k: int| 0 <= k < out@.len() ==> (#[trigger] out@[k]).txn.wf(),
            load_txrow_list(trv, cache@) == (match load_txrow_list(trv.skip(i as int), cache@) {
                Option::None => None::<Seq<TxnHeightV>>,
                Option::Some(rest) => Some(txnheights_view(out@) + rest),
            }),
        decreases n - i,
    {
        proof {
            assert(trv[i as int] == txrows@[i as int]@);
            assert(trv.skip(i as int)[0] == trv[i as int]);
            assert(trv.skip(i as int).drop_first() =~= trv.skip(i + 1));
        }
        match cache.get(&txrows[i].txid) {
            Option::Some(txn) => {
                let ghost pre = out@;
                let item = TxnHeight { txn, height: txrows[i].height };
                let ghost iv = item@;
                out.push(item);
                proof {
                    assert(txnheights_view(out@) =~= txnheights_view(pre).push(iv));
                    if load_txrow_list(trv.skip(i + 1), cache@) is Some {
                        let rest = load_txrow_list(trv.skip(i + 1), cache@)->Some_0;
                        assert(txnheights_view(pre) + (seq![iv] + rest) =~= txnheights_view(out@)
                            + rest);
                    }
                }
            },
            Option::None => {
                let txid = txrows[i].txid.clone();
                proof {
                    assert(txid@ =~= txrows@[i as int].txid@);
                }
                return Err(QueryError::TxMissing(txid));
            },
        }
        i = i + 1;
    }
    proof {
        assert(trv.skip(n as int).len() == 0);
        assert(txnheights_view(out@) + Seq::<TxnHeightV>::empty() =~= txnheights_view(out@));
    }
    Ok(out)
}

/// Materialize every candidate under a run of txid prefixes.
pub fn load_txns_by_prefix(store: &Store, cache: &TransactionCache, prefixes: &Vec<Vec<u8>>) -> (r:
    Result<Vec<TxnHeight>, QueryError>)
    requires
        cache.wf(),
    ensures
        match r {
            Ok(ts) => txns_for_prefixes(store@, cache@, vecs_view(prefixes@)) == Some(
                txnheights_view(ts@),
            ) && forall|k: int| 0 <= k < ts@.len() ==> (#[trigger] ts@[k]).txn.wf(),
            Err(e) => txns_for_prefixes(store@, cache@, vecs_view(prefixes@)) is None && (
            e is Corruption || e is TxMissing),
        },
{
    let ghost pv = vecs_view(prefixes@);
    let mut out: Vec<TxnHeight> = Vec::new();
    let n = prefixes.len();
    let mut i: usize = 0;
    proof {
        assert(pv.skip(0) =~= pv);
        assert(txnheights_view(out@) =~= Seq::<TxnHeightV>::empty());
    }
    while i < n
        invariant
            n == prefixes.len(),
            i <= n,
            cache.wf(),
            pv == vecs_view(prefixes@),
            pv.len() == n,
            forall|k: int| 0 <= k < out@.len() ==> (#[trigger] out@[k]).txn.wf(),
            txns_for_prefixes(store@, cache@, pv) == (match txns_for_prefixes(
                store@,
                cache@,
                pv.skip(i as int),
            ) {
                Option::None => None::<Seq<TxnHeightV>>,
                Option::Some(rest) => Some(txnheights_view(out@) + rest),
            }),
        decreases n - i,
    {
        proof {
            assert(pv[i as int] == prefixes@[i as int]@);
            assert(pv.skip(i as int)[0] == pv[i as int]);
            assert(pv.skip(i as int).drop_first() =~= pv.skip(i + 1));
        }
        let txrows = match txrows_by_prefix(store, &prefixes[i]) {
            Ok(ts) => ts,
            Err(e) => {
                return Err(e);
            },
        };
        let mut batch = match load_txrow_rows(cache, &txrows) {
            Ok(b) => b,
            Err(e) => {
                return Err(e);
            },
        };
        let ghost pre = out@;
        let ghost bv = txnheights_view(batch@);
        out.append(&mut batch);
        proof {
            assert(txnheights_view(out@) =~= txnheights_view(pre) + bv);
            if txns_for_prefixes(store@, cache@, pv.skip(i + 1)) is Some {
                let rest = txns_for_prefixes(store@, cache@, pv.skip(i + 1))->Some_0;
                assert(txnheights_view(pre) + (bv + rest) =~= txnheights_view(out@) + rest);
            }
        }
        i = i + 1;
    }
    proof {
        assert(pv.skip(n as int).len() == 0);
        assert(txnheights_view(out@) + Seq::<TxnHeightV>::empty() =~= txnheights_view(out@));
    }
    Ok(out)
}


/// The funding records one materialized candidate contributes: one per
/// output whose script hashes to the scripthash.
pub fn find_funding_outputs(t: &TxnHeight, script_hash: &Vec<u8>) -> (r: Vec<FundingOutput>)
    requires
        t.txn.wf(),
    ensures
        fundings_view(r@) == fundings_from(t@, script_hash@, 0),
{
    let mut out: Vec<FundingOutput> = Vec::new();
    let n = t.txn.outputs.len();
    let mut i: usize = 0;
    proof {
        assert(t@.txn.outputs.len() == n);
        assert(fundings_view(out@) =~= Seq::<FundingOutputV>::empty());
    }
    while i < n
        invariant
            n == t.txn.outputs.len(),
            i <= n,
            t.txn.wf(),
            t@.txn.outputs.len() == n,
            fundings_from(t@, script_hash@, 0) == fundings_view(out@) + fundings_from(
                t@,
                script_hash@,
                i as int,
            ),
        decreases n - i,
    {
        proof {
            assert(t@.txn.outputs[i as int] == t.txn.outputs@[i as int]@);
        }
        let hash = compute_script_hash(&t.txn.outputs[i].script_pubkey);
        if bytes_eq(&hash, script_hash) {
            let ghost pre = out@;
            let txn_id = t.txn.txid.clone();
            proof {
                assert(txn_id@ =~= t.txn.txid@);
            }
            let record = FundingOutput {
                txn_id,
                height: t.height,
                output_index: i as u32,
                value: amount_to_value(&t.txn.outputs[i].value),
            };
            let ghost rv = record@;
            out.push(record);
            proof {
                assert(fundings_view(out@) =~= fundings_view(pre).push(rv));
                assert(fundings_from(t@, script_hash@, i as int) == seq![rv] + fundings_from(
                    t@,
                    script_hash@,
                    i + 1,
                ));
                assert(fundings_view(pre) + (seq![rv] + fundings_from(t@, script_hash@, i + 1))
                    =~= fundings_view(out@) + fundings_from(t@, script_hash@, i + 1));
            }
        } else {
            proof {
                assert(fundings_from(t@, script_hash@, i as int) == fundings_from(
                    t@,
                    script_hash@,
                    i + 1,
                ));
            }
        }
        i = i + 1;
    }
    proof {
        assert(fundings_from(t@, script_hash@, n as int) == Seq::<FundingOutputV>::empty());
        assert(fundings_view(out@) + Seq::<FundingOutputV>::empty() =~= fundings_view(out@));
    }
    out
}

/// The input, if any, that spends one funding output, found through the
/// TxInRows of its outpoint; more than one survivor means the index
/// contradicts the chain and is reported as corruption.
pub fn find_spending_input(store: &Store, cache: &TransactionCache, funding: &FundingOutput) -> (r:
    Result<Option<SpendingInput>, QueryError>)
    requires
        cache.wf(),
    ensures
        match r {
            Ok(opt) => spending_for(store@, cache@, funding@) == (match opt {
                Option::Some(s) => Some(Some(s@)),
                Option::None => Some(None::<SpendingInputV>),
            }),
            Err(e) => spending_for(store@, cache@, funding@) is None && (e is Corruption
                || e is TxMissing),
        },
{
    let prefixes = match txids_by_funding_output(store, &funding.txn_id, funding.output_index) {
        Ok(ps) => ps,
        Err(e) => {
            return Err(e);
        },
    };
    let txns = match load_txns_by_prefix(store, cache, &prefixes) {
        Ok(ts) => ts,
        Err(e) => {
            return Err(e);
        },
    };
    let ghost tv = txnheights_view(txns@);
    let ghost fv = funding@;
    let mut matches: Vec<SpendingInput> = Vec::new();
    let n = txns.len();
    let mut i: usize = 0;
    proof {
        assert(tv.skip(0) =~= tv);
        assert(spendings_view(matches@) =~= Seq::<SpendingInputV>::empty());
    }
    while i < n
        invariant
            n == txns.len(),
            i <= n,
            tv == txnheights_view(txns@),
            tv.len() == n,
            fv == funding@,
            spend_matches(tv, fv) == spendings_view(matches@) + spend_matches(
                tv.skip(i as int),
                fv,
            ),
        decreases n - i,
    {
        proof {
            assert(tv[i as int] == txns@[i as int]@);
            assert(tv.skip(i as int)[0] == tv[i as int]);
            assert(tv.skip(i as int).drop_first() =~= tv.skip(i + 1));
        }
        let ghost t = tv[i as int];
        let m = txns[i].txn.inputs.len();
        let mut j: usize = 0;
        let ghost m0 = spendings_view(matches@);
        proof {
            assert(t.txn.inputs.len() == m);
        }
        while j < m
            invariant
                0 <= i < n,
                n == txns.len(),
                m == txns[i as int].txn.inputs.len(),
                j <= m,
                t == txns@[i as int]@,
                t.txn.inputs.len() == m,
                fv == funding@,
                m0 + spend_matches_in(t, fv, 0) == spendings_view(matches@) + spend_matches_in(
                    t,
                    fv,
                    j as int,
                ),
            decreases m - j,
        {
            proof {
                assert(t.txn.inputs[j as int] == txns@[i as int].txn.inputs@[j as int]@);
            }
            let hit = bytes_eq(&txns[i].txn.inputs[j].prev_txid, &funding.txn_id)
                && txns[i].txn.inputs[j].prev_vout == funding.output_index;
            if hit {
                let ghost pre = matches@;
                let txn_id = txns[i].txn.txid.clone();
                let funding_txid = funding.txn_id.clone();
                proof {
                    assert(txn_id@ =~= txns@[i as int].txn.txid@);
                    assert(funding_txid@ =~= funding.txn_id@);
                }
                let record = SpendingInput {
                    txn_id,
                    height: txns[i].height,
                    funding_txid,
                    funding_vout: funding.output_index,
                    value: funding.value,
                };
                let ghost rv = record@;
                matches.push(record);
                proof {
                    assert(spendings_view(matches@) =~= spendings_view(pre).push(rv));
                    assert(spend_matches_in(t, fv, j as int) == seq![rv] + spend_matches_in(
                        t,
                        fv,
                        j + 1,
                    ));
                    assert(spendings_view(pre) + (seq![rv] + spend_matches_in(t, fv, j + 1))
                        =~= spendings_view(matches@) + spend_matches_in(t, fv, j + 1));
                }
            } else {
                proof {
                    assert(spend_matches_in(t, fv, j as int) == spend_matches_in(t, fv, j + 1));
                }
            }
            j = j + 1;
        }
        proof {
            assert(spend_matches_in(t, fv, m as int) == Seq::<SpendingInputV>::empty());
            assert(spendings_view(matches@) + Seq::<SpendingInputV>::empty() =~= spendings_view(
                matches@,
            ));
            assert(spendings_view(matches@) == m0 + spend_matches_in(t, fv, 0));
            assert(spend_matches(tv.skip(i as int), fv) == spend_matches_in(t, fv, 0)
                + spend_matches(tv.skip(i + 1), fv));
            assert(m0 + (spend_matches_in(t, fv, 0) + spend_matches(tv.skip(i + 1), fv)) =~= (m0
                + spend_matches_in(t, fv, 0)) + spend_matches(tv.skip(i + 1), fv));
        }
        i = i + 1;
    }
    proof {
        assert(tv.skip(n as int).len() == 0);
        assert(spend_matches(tv.skip(n as int), fv) == Seq::<SpendingInputV>::empty());
        assert(spendings_view(matches@) + Seq::<SpendingInputV>::empty() =~= spendings_view(
            matches@,
        ));
    }
    if matches.len() == 0 {
        Ok(None)
    } else if matches.len() == 1 {
        let s = matches.remove(0);
        proof {
            assert(s@ == spend_matches(tv, fv)[0]);
        }
        Ok(Some(s))
    } else {
        Err(QueryError::Corruption)
    }
}


// ---------------------------------------------------------------------------
// One source's full answer
// ---------------------------------------------------------------------------

/// One source's funding outputs for the scripthash, and the spenders its
/// rows hold for those outputs and for `extra_funding` (the confirmed
/// outputs, when this runs over the mempool).
fn side_status(
    store: &Store,
    cache: &TransactionCache,
    script_hash: &Vec<u8>,
    extra_funding: &Vec<FundingOutput>,
) -> (r: Result<(Vec<FundingOutput>, Vec<SpendingInput>), QueryError>)
    requires
        cache.wf(),
    ensures
        match r {
            Ok(p) => side_status_spec(store@, cache@, script_hash@, fundings_view(extra_funding@))
                == Some((fundings_view(p.0@), spendings_view(p.1@))),
            Err(e) => side_status_spec(store@, cache@, script_hash@, fundings_view(extra_funding@))
                is None && (e is Corruption || e is TxMissing),
        },
{
    let prefixes = match txids_by_script_hash(store, script_hash) {
        Ok(ps) => ps,
        Err(e) => {
            return Err(e);
        },
    };
    let txns = match load_txns_by_prefix(store, cache, &prefixes) {
        Ok(ts) => ts,
        Err(e) => {
            return Err(e);
        },
    };
    let ghost tv = txnheights_view(txns@);
    let mut fundings: Vec<FundingOutput> = Vec::new();
    let n = txns.len();
    let mut i: usize = 0;
    proof {
        assert(tv.skip(0) =~= tv);
        assert(fundings_view(fundings@) =~= Seq::<FundingOutputV>::empty());
    }
    while i < n
        invariant
            n == txns.len(),
            i <= n,
            tv == txnheights_view(txns@),
            tv.len() == n,
            forall|k: int| 0 <= k < n ==> (#[trigger] txns@[k]).txn.wf(),
            fundings_of(tv, script_hash@) == fundings_view(fundings@) + fundings_of(
                tv.skip(i as int),
                script_hash@,
            ),
        decreases n - i,
    {
        proof {
            assert(tv[i as int] == txns@[i as int]@);
            assert(tv.skip(i as int)[0] == tv[i as int]);
            assert(tv.skip(i as int).drop_first() =~= tv.skip(i + 1));
        }
        let ghost pre = fundings@;
        let mut batch = find_funding_outputs(&txns[i], script_hash);
        let ghost bv = fundings_view(batch@);
        fundings.append(&mut batch);
        proof {
            assert(fundings_view(fundings@) =~= fundings_view(pre) + bv);
            assert(fundings_of(tv.skip(i as int), script_hash@) == fundings_from(
                tv[i as int],
                script_hash@,
                0,
            ) + fundings_of(tv.skip(i + 1), script_hash@));
            assert(fundings_view(pre) + (bv + fundings_of(tv.skip(i + 1), script_hash@))
                =~= fundings_view(fundings@) + fundings_of(tv.skip(i + 1), script_hash@));
        }
        i = i + 1;
    }
    proof {
        assert(tv.skip(n as int).len() == 0);
        assert(fundings_of(tv.skip(n as int), script_hash@) == Seq::<FundingOutputV>::empty());
        assert(fundings_view(fundings@) + Seq::<FundingOutputV>::empty() =~= fundings_view(
            fundings@,
        ));
    }
    // who spends them: this source's rows are asked about each funding
    // output found here, then about each extra one
    let ghost af = fundings_view(fundings@) + fundings_view(extra_funding@);
    let mut spendings: Vec<SpendingInput> = Vec::new();
    let nf = fundings.len();
    let mut k: usize = 0;
    proof {
        assert(af.skip(0) =~= af);
        assert(spendings_view(spendings@) =~= Seq::<SpendingInputV>::empty());
    }
    while k < nf
        invariant
            nf == fundings.len(),
            k <= nf,
            cache.wf(),
            af == fundings_view(fundings@) + fundings_view(extra_funding@),
            af.len() == nf + extra_funding@.len(),
            funding_spec(store@, cache@, script_hash@) == Some(fundings_view(fundings@)),
            spendings_for(store@, cache@, af) == (match spendings_for(
                store@,
                cache@,
                af.skip(k as int),
            ) {
                Option::None => None::<Seq<SpendingInputV>>,
                Option::Some(rest) => Some(spendings_view(spendings@) + rest),
            }),
        decreases nf - k,
    {
        proof {
            assert(af[k as int] == fundings_view(fundings@)[k as int]);
            assert(af[k as int] == fundings@[k as int]@);
            assert(af.skip(k as int)[0] == af[k as int]);
            assert(af.skip(k as int).drop_first() =~= af.skip(k + 1));
        }
        match find_spending_input(store, cache, &fundings[k]) {
            Ok(Some(s)) => {
                let ghost pre = spendings@;
                let ghost sv = s@;
                spendings.push(s);
                proof {
                    assert(spendings_view(spendings@) =~= spendings_view(pre).push(sv));
                    if spendings_for(store@, cache@, af.skip(k + 1)) is Some {
                        let rest = spendings_for(store@, cache@, af.skip(k + 1))->Some_0;
                        assert(spendings_view(pre) + (seq![sv] + rest) =~= spendings_view(
                            spendings@,
                        ) + rest);
                    }
                }
            },
            Ok(None) => {},
            Err(e) => {
                return Err(e);
            },
        }
        k = k + 1;
    }
    let ne = extra_funding.len();
    let mut k2: usize = 0;
    while k2 < ne
        invariant
            ne == extra_funding.len(),
            nf == fundings.len(),
            k2 <= ne,
            cache.wf(),
            af == fundings_view(fundings@) + fundings_view(extra_funding@),
            af.len() == nf + ne,
            funding_spec(store@, cache@, script_hash@) == Some(fundings_view(fundings@)),
            spendings_for(store@, cache@, af) == (match spendings_for(
                store@,
                cache@,
                af.skip(nf + k2 as int),
            ) {
                Option::None => None::<Seq<SpendingInputV>>,
                Option::Some(rest) => Some(spendings_view(spendings@) + rest),
            }),
        decreases ne - k2,
    {
        proof {
            assert(af[nf + k2 as int] == fundings_view(extra_funding@)[k2 as int]);
            assert(af[nf + k2 as int] == extra_funding@[k2 as int]@);
            assert(af.skip(nf + k2 as int)[0] == af[nf + k2 as int]);
            assert(af.skip(nf + k2 as int).drop_first() =~= af.skip(nf + k2 + 1));
        }
        match find_spending_input(store, cache, &extra_funding[k2]) {
            Ok(Some(s)) => {
                let ghost pre = spendings@;
                let ghost sv = s@;
                spendings.push(s);
                proof {
                    assert(spendings_view(spendings@) =~= spendings_view(pre).push(sv));
                    if spendings_for(store@, cache@, af.skip(nf + k2 + 1)) is Some {
                        let rest = spendings_for(store@, cache@, af.skip(nf + k2 + 1))->Some_0;
                        assert(spendings_view(pre) + (seq![sv] + rest) =~= spendings_view(
                            spendings@,
                        ) + rest);
                    }
                }
            },
            Ok(None) => {},
            Err(e) => {
                return Err(e);
            },
        }
        k2 = k2 + 1;
    }
    proof {
        assert(af.skip(nf + ne as int).len() == 0);
        assert(spendings_for(store@, cache@, af.skip(nf + ne as int)) == Some(
            Seq::<SpendingInputV>::empty(),
        ));
        assert(spendings_view(spendings@) + Seq::<SpendingInputV>::empty() =~= spendings_view(
            spendings@,
        ));
    }
    Ok((fundings, spendings))
}


// ---------------------------------------------------------------------------
// The query façade
// ---------------------------------------------------------------------------

/// Whether and where a transaction is confirmed.
pub struct TransactionStatus {
    pub confirmed: bool,
    pub block_height: Option<u32>,
    pub block_hash: Option<Vec<u8>>,
}

pub ghost struct TransactionStatusV {
    pub confirmed: bool,
    pub block_height: Option<u32>,
    pub block_hash: Option<Seq<u8>>,
}

impl View for TransactionStatus {
    type V = TransactionStatusV;

    open spec fn view(&self) -> TransactionStatusV {
        TransactionStatusV {
            confirmed: self.confirmed,
            block_height: self.block_height,
            block_hash: match self.block_hash {
                Option::Some(h) => Some(h@),
                Option::None => None,
            },
        }
    }
}

/// An unconfirmed transaction's status.
pub open spec fn tx_status_unconfirmed() -> TransactionStatusV {
    TransactionStatusV { confirmed: false, block_height: None, block_hash: None }
}

/// What the index and the header chain say about a txid: confirmed only
/// when its TxRow's recorded height is within the chain and the header
/// there still carries the recorded blockhash; in every other case -- no
/// TxRow, a height past the tip, or a reorged block -- unconfirmed.
/// Corruption for a TxRow value of the wrong shape.
pub open spec fn tx_status_spec(
    rows: Seq<RowV>,
    headers: Seq<crate::headers::HeaderEntryV>,
    txid: Seq<u8>,
) -> Result<TransactionStatusV, QueryError> {
    match crate::store::store_get(rows, crate::rows::tx_row_key(txid)) {
        Option::None => Ok(tx_status_unconfirmed()),
        Option::Some(value) => if value.len() != 36 {
            Err(QueryError::Corruption)
        } else {
            let height = crate::bytes::u32_from_le(value.subrange(0, 4));
            let blockhash = value.subrange(4, 36);
            if height >= headers.len() {
                Ok(tx_status_unconfirmed())
            } else if headers[height as int].hash == blockhash {
                Ok(
                    TransactionStatusV {
                        confirmed: true,
                        block_height: Some(height),
                        block_hash: Some(blockhash),
                    },
                )
            } else {
                Ok(tx_status_unconfirmed())
            }
        },
    }
}

/// Whether a block is on the best chain, and which block follows it there.
pub struct BlockStatus {
    pub in_best_chain: bool,
    pub next_best: Option<Vec<u8>>,
}

/// Block metadata stored beside the index, by blockhash: the decoded
/// metadata when the row is there, nothing when it is absent, and
/// corruption when a row is there but does not decode.
pub fn get_block_meta(store: &Store, blockhash: &Vec<u8>) -> (r: Result<
    Option<crate::rows::BlockMeta>,
    QueryError,
>)
    requires
        blockhash@.len() == 32,
    ensures
        match r {
            Ok(found) => (match crate::store::store_get(
                store@,
                crate::rows::block_meta_key(blockhash@),
            ) {
                Option::Some(v) => found matches Some(m) && crate::rows::parse_block_meta_value(v)
                    == Some((m.tx_count, m.size, m.weight)),
                Option::None => found is None,
            }),
            Err(e) => e is Corruption && (match crate::store::store_get(
                store@,
                crate::rows::block_meta_key(blockhash@),
            ) {
                Option::Some(v) => crate::rows::parse_block_meta_value(v) is None,
                Option::None => false,
            }),
        },
{
    let key = crate::rows::block_meta_filter_full(blockhash);
    match store.get(&key) {
        Option::Some(value) => match crate::rows::block_meta_decode(&value) {
            Option::Some(meta) => Ok(Some(meta)),
            Option::None => Err(QueryError::Corruption),
        },
        Option::None => Ok(None),
    }
}

/// The query core: the persisted index, the header chain, the mempool
/// tracker and the transaction cache, joined per scripthash on demand.
pub struct Query {
    pub store: Store,
    pub index: crate::headers::HeaderIndex,
    pub tracker: crate::tracker::Tracker,
    pub tx_cache: TransactionCache,
}

impl Query {
    pub open spec fn wf(&self) -> bool {
        &&& self.store.wf()
        &&& self.index.wf()
        &&& self.tracker.wf()
        &&& self.tx_cache.wf()
    }

    /// Assemble a query core over its sources, with an empty cache.
    pub fn new(
        store: Store,
        index: crate::headers::HeaderIndex,
        tracker: crate::tracker::Tracker,
    ) -> (r: Query)
        requires
            store.wf(),
            index.wf(),
            tracker.wf(),
        ensures
            r.wf(),
            r.store == store,
            r.index == index,
            r.tracker == tracker,
            r.tx_cache@ == Seq::<TransactionV>::empty(),
    {
        Query { store, index, tracker, tx_cache: TransactionCache::new() }
    }

    /// Remember a materialized transaction, fetched upstream after the
    /// engine reported it missing.
    pub fn cache_txn(&mut self, txn: Transaction)
        requires
            old(self).wf(),
            txn.wf(),
        ensures
            final(self).wf(),
            final(self).tx_cache@ == if txns_lookup(old(self).tx_cache@, txn@.txid) is None {
                old(self).tx_cache@.push(txn@)
            } else {
                old(self).tx_cache@
            },
            final(self).store == old(self).store,
            final(self).index == old(self).index,
            final(self).tracker == old(self).tracker,
    {
        self.tx_cache.insert(txn);
    }

    /// Replace the mempool view with a freshly built one.
    pub fn update_mempool(&mut self, tracker: crate::tracker::Tracker)
        requires
            old(self).wf(),
            tracker.wf(),
        ensures
            final(self).wf(),
            final(self).tracker == tracker,
            final(self).store == old(self).store,
            final(self).index == old(self).index,
            final(self).tx_cache == old(self).tx_cache,
    {
        self.tracker = tracker;
    }

    /// The status of a scripthash: its confirmed and mempool funding and
    /// spending records.  With the sources unchanged, the answer is a
    /// function of them and of the scripthash, so asking twice gives the
    /// same status.
    pub fn status(&self, script_hash: &Vec<u8>) -> (r: Result<Status, QueryError>)
        requires
            self.wf(),
        ensures
            match r {
                Ok(st) => status_spec(self.store@, self.tracker@.rows, self.tx_cache@, script_hash@)
                    == Some(st@),
                Err(e) => status_spec(self.store@, self.tracker@.rows, self.tx_cache@, script_hash@)
                    is None && (e is Corruption || e is TxMissing),
            },
    {
        let empty_extra: Vec<FundingOutput> = Vec::new();
        proof {
            assert(fundings_view(empty_extra@) =~= Seq::<FundingOutputV>::empty());
        }
        let confirmed = match side_status(&self.store, &self.tx_cache, script_hash, &empty_extra) {
            Ok(c) => c,
            Err(e) => {
                return Err(e);
            },
        };
        let (confirmed_funding, confirmed_spending) = confirmed;
        let mempool = match side_status(
            self.tracker.index(),
            &self.tx_cache,
            script_hash,
            &confirmed_funding,
        ) {
            Ok(m) => m,
            Err(e) => {
                return Err(e);
            },
        };
        let (mempool_funding, mempool_spending) = mempool;
        Ok(
            Status {
                confirmed_funding,
                confirmed_spending,
                mempool_funding,
                mempool_spending,
            },
        )
    }

    /// The materialized transaction for a txid: the persisted RawTxRow's
    /// bytes, decoded, win; a txid without one is looked up in the mempool.
    /// A stored copy that does not decode answers nothing.
    pub fn tx_get(&self, txid: &Vec<u8>) -> (r: Option<Transaction>)
        requires
            self.wf(),
            txid@.len() == 32,
        ensures
            match crate::store::store_get(self.store@, crate::rows::raw_tx_row_key(txid@)) {
                Option::Some(raw) => (match r {
                    Some(t) => crate::decode::tx_decode(raw) == Some(t@),
                    None => crate::decode::tx_decode(raw) is None,
                }),
                Option::None => (match r {
                    Some(t) => t.wf() && txns_lookup(self.tracker@.txns, txid@) == Some(t@),
                    None => txns_lookup(self.tracker@.txns, txid@) is None,
                }),
            },
    {
        let key = crate::rows::raw_tx_row_filter_full(txid);
        match self.store.get(&key) {
            Option::Some(raw) => crate::decode::decode_transaction(&raw),
            Option::None => self.tracker.get_txn(txid),
        }
    }

    /// The raw bytes of a transaction: from the persisted RawTxRow first,
    /// else from the mempool.
    pub fn tx_get_raw(&self, txid: &Vec<u8>) -> (r: Option<Vec<u8>>)
        requires
            self.wf(),
            txid@.len() == 32,
        ensures
            match r {
                Some(b) => (match crate::store::store_get(
                    self.store@,
                    crate::rows::raw_tx_row_key(txid@),
                ) {
                    Option::Some(v) => b@ == v,
                    Option::None => crate::tracker::raws_lookup(
                        self.tracker@.txns,
                        self.tracker@.raws,
                        txid@,
                    ) == Some(b@),
                }),
                None => crate::store::store_get(self.store@, crate::rows::raw_tx_row_key(txid@))
                    is None && crate::tracker::raws_lookup(
                    self.tracker@.txns,
                    self.tracker@.raws,
                    txid@,
                ) is None,
            },
    {
        let key = crate::rows::raw_tx_row_filter_full(txid);
        match self.store.get(&key) {
            Option::Some(v) => Some(v),
            Option::None => self.tracker.get_raw(txid),
        }
    }

    /// The block metadata stored for a blockhash; corruption when a row is
    /// there but does not decode.
    pub fn get_block_meta(&self, blockhash: &Vec<u8>) -> (r: Result<
        Option<crate::rows::BlockMeta>,
        QueryError,
    >)
        requires
            self.wf(),
            blockhash@.len() == 32,
        ensures
            match r {
                Ok(found) => (match crate::store::store_get(
                    self.store@,
                    crate::rows::block_meta_key(blockhash@),
                ) {
                    Option::Some(v) => found matches Some(m)
                        && crate::rows::parse_block_meta_value(v) == Some(
                        (m.tx_count, m.size, m.weight),
                    ),
                    Option::None => found is None,
                }),
                Err(e) => e is Corruption && (match crate::store::store_get(
                    self.store@,
                    crate::rows::block_meta_key(blockhash@),
                ) {
                    Option::Some(v) => crate::rows::parse_block_meta_value(v) is None,
                    Option::None => false,
                }),
            },
    {
        get_block_meta(&self.store, blockhash)
    }

    /// The header and the block metadata for a blockhash.  Missing-header
    /// exactly when the hash is not on the best chain; not-indexed when the
    /// header is there but no metadata row is; corruption when a metadata
    /// row is there but does not decode.
    pub fn get_block_header_with_meta(&self, blockhash: &Vec<u8>) -> (r: Result<
        (crate::headers::HeaderEntry, crate::rows::BlockMeta),
        QueryError,
    >)
        requires
            self.wf(),
            blockhash@.len() == 32,
        ensures
            match r {
                Ok(p) => p.0.wf() && p.0@.hash == blockhash@ && (exists|i: int|
                    0 <= i < self.index@.len() && (#[trigger] self.index@[i]) == p.0@) && (
                match crate::store::store_get(
                    self.store@,
                    crate::rows::block_meta_key(blockhash@),
                ) {
                    Option::Some(v) => crate::rows::parse_block_meta_value(v) == Some(
                        (p.1.tx_count, p.1.size, p.1.weight),
                    ),
                    Option::None => false,
                }),
                Err(e) => {
                    &&& (e is MissingHeader || e is NotIndexed || e is Corruption)
                    &&& (e is MissingHeader <==> forall|i: int|
                        0 <= i < self.index@.len() ==> (#[trigger] self.index@[i]).hash
                            != blockhash@)
                    &&& (e is NotIndexed ==> crate::store::store_get(
                        self.store@,
                        crate::rows::block_meta_key(blockhash@),
                    ) is None)
                    &&& (e is Corruption ==> match crate::store::store_get(
                        self.store@,
                        crate::rows::block_meta_key(blockhash@),
                    ) {
                        Option::Some(v) => crate::rows::parse_block_meta_value(v) is None,
                        Option::None => false,
                    })
                },
            },
    {
        let header = match self.index.header_by_hash(blockhash) {
            Option::Some(h) => h,
            Option::None => {
                return Err(QueryError::MissingHeader);
            },
        };
        let meta = match get_block_meta(&self.store, blockhash) {
            Ok(Some(m)) => m,
            Ok(None) => {
                return Err(QueryError::NotIndexed);
            },
            Err(e) => {
                return Err(e);
            },
        };
        Ok((header, meta))
    }

    /// The headers at the asked heights, skipping those past the tip.
    pub fn get_headers(&self, heights: &Vec<usize>) -> (r: Vec<crate::headers::HeaderEntry>)
        requires
            self.wf(),
        ensures
            crate::headers::headers_view(r@) == headers_at(self.index@, heights@),
    {
        let mut out: Vec<crate::headers::HeaderEntry> = Vec::new();
        let n = heights.len();
        let mut i: usize = 0;
        proof {
            assert(heights@.skip(0) =~= heights@);
            assert(crate::headers::headers_view(out@) =~= Seq::<
                crate::headers::HeaderEntryV,
            >::empty());
        }
        while i < n
            invariant
                n == heights.len(),
                i <= n,
                self.wf(),
                headers_at(self.index@, heights@) == crate::headers::headers_view(out@)
                    + headers_at(self.index@, heights@.skip(i as int)),
            decreases n - i,
        {
            proof {
                assert(heights@.skip(i as int)[0] == heights@[i as int]);
                assert(heights@.skip(i as int).drop_first() =~= heights@.skip(i + 1));
            }
            match self.index.header_by_height(heights[i]) {
                Option::Some(h) => {
                    let ghost pre = out@;
                    let ghost hv = h@;
                    out.push(h);
                    proof {
                        assert(crate::headers::headers_view(out@) =~= crate::headers::headers_view(
                            pre,
                        ).push(hv));
                        assert(crate::headers::headers_view(pre) + (seq![hv] + headers_at(
                            self.index@,
                            heights@.skip(i + 1),
                        )) =~= crate::headers::headers_view(out@) + headers_at(
                            self.index@,
                            heights@.skip(i + 1),
                        ));
                    }
                },
                Option::None => {},
            }
            i = i + 1;
        }
        proof {
            assert(heights@.skip(n as int).len() == 0);
            assert(headers_at(self.index@, heights@.skip(n as int)) == Seq::<
                crate::headers::HeaderEntryV,
            >::empty());
            assert(crate::headers::headers_view(out@) + Seq::<
                crate::headers::HeaderEntryV,
            >::empty() =~= crate::headers::headers_view(out@));
        }
        out
    }

    /// The header with this hash, if it is on the best chain.
    pub fn get_header_by_hash(&self, hash: &Vec<u8>) -> (r: Result<
        crate::headers::HeaderEntry,
        QueryError,
    >)
        requires
            self.wf(),
        ensures
            match r {
                Ok(h) => h.wf() && h@.hash == hash@ && exists|i: int|
                    0 <= i < self.index@.len() && (#[trigger] self.index@[i]) == h@,
                Err(e) => e is MissingHeader && forall|i: int|
                    0 <= i < self.index@.len() ==> (#[trigger] self.index@[i]).hash != hash@,
            },
    {
        match self.index.header_by_hash(hash) {
            Option::Some(h) => Ok(h),
            Option::None => Err(QueryError::MissingHeader),
        }
    }

    /// The tip's header.
    pub fn get_best_header(&self) -> (r: Result<crate::headers::HeaderEntry, QueryError>)
        requires
            self.wf(),
        ensures
            match r {
                Ok(h) => self.index@.len() > 0 && h@ == self.index@.last() && h.wf(),
                Err(e) => e is MissingHeader && self.index@.len() == 0,
            },
    {
        match self.index.best_header() {
            Option::Some(h) => Ok(h),
            Option::None => Err(QueryError::MissingHeader),
        }
    }

    /// The tip's hash.
    pub fn get_best_header_hash(&self) -> (r: Vec<u8>)
        requires
            self.wf(),
            self.index@.len() > 0,
        ensures
            r@ == self.index@.last().hash,
    {
        let h = match self.index.best_header() {
            Option::Some(h) => h,
            Option::None => vstd::pervasive::unreached(),
        };
        h.hash
    }

    /// The tip's height.
    pub fn get_best_height(&self) -> (r: usize)
        requires
            self.wf(),
            self.index@.len() > 0,
        ensures
            r == self.index@.len() - 1,
    {
        self.index.best_height()
    }

    /// Whether the block with this hash is on the best chain, and the hash
    /// of the block that follows it there.
    pub fn get_block_status(&self, hash: &Vec<u8>) -> (r: BlockStatus)
        requires
            self.wf(),
        ensures
            r.in_best_chain ==> exists|i: int|
                0 <= i < self.index@.len() && (#[trigger] self.index@[i]).hash == hash@ && (
                match r.next_best {
                    Option::Some(nb) => i + 1 < self.index@.len() && nb@ == self.index@[i
                        + 1].hash,
                    Option::None => i + 1 >= self.index@.len(),
                }),
            !r.in_best_chain ==> r.next_best is None && forall|i: int|
                0 <= i < self.index@.len() ==> (#[trigger] self.index@[i]).hash != hash@,
    {
        match self.index.header_by_hash(hash) {
            Option::Some(h) => {
                let ghost w = choose|i: int|
                    0 <= i < self.index@.len() && (#[trigger] self.index@[i]) == h@;
                let n = self.index.len();
                proof {
                    assert(self.index@[w].height == w);
                    assert(h@.height == w);
                    assert(w + 1 <= n <= usize::MAX);
                }
                let next_height = h.height as usize + 1;
                let next_best = match self.index.header_by_height(next_height) {
                    Option::Some(nh) => Some(nh.hash),
                    Option::None => None,
                };
                BlockStatus { in_best_chain: true, next_best }
            },
            Option::None => BlockStatus { in_best_chain: false, next_best: None },
        }
    }

    /// Whether a transaction is confirmed: it is iff its TxRow's recorded
    /// height is within the chain and the header there still carries the
    /// recorded blockhash; a height past the tip or a reorged block reads
    /// as unconfirmed.
    pub fn get_tx_status(&self, tx_hash: &Vec<u8>) -> (r: Result<TransactionStatus, QueryError>)
        requires
            self.wf(),
            tx_hash@.len() == 32,
        ensures
            match r {
                Ok(ts) => tx_status_spec(self.store@, self.index@, tx_hash@) == Ok::<
                    TransactionStatusV,
                    QueryError,
                >(ts@),
                Err(e) => tx_status_spec(self.store@, self.index@, tx_hash@) == Err::<
                    TransactionStatusV,
                    QueryError,
                >(e),
            },
    {
        let key = crate::rows::tx_row_filter_full(tx_hash);
        let value = match self.store.get(&key) {
            Option::Some(v) => v,
            Option::None => {
                return Ok(
                    TransactionStatus { confirmed: false, block_height: None, block_hash: None },
                );
            },
        };
        if value.len() != 36 {
            return Err(QueryError::Corruption);
        }
        let height = crate::bytes::read_u32_le(&value, 0);
        let blockhash = crate::bytes::slice_range(&value, 4, 36);
        let header = match self.index.header_by_height(height as usize) {
            Option::Some(h) => h,
            Option::None => {
                return Ok(
                    TransactionStatus { confirmed: false, block_height: None, block_hash: None },
                );
            },
        };
        if bytes_eq(&header.hash, &blockhash) {
            Ok(
                TransactionStatus {
                    confirmed: true,
                    block_height: Some(height),
                    block_hash: Some(blockhash),
                },
            )
        } else {
            Ok(TransactionStatus { confirmed: false, block_height: None, block_hash: None })
        }
    }

    /// The Merkle inclusion proof of a transaction among a block's txids:
    /// the sibling hashes from the bottom level up, and the transaction's
    /// position in the block.
    pub fn get_merkle_proof(&self, tx_hash: &Vec<u8>, block_txids: &Vec<Vec<u8>>) -> (r: Result<
        (Vec<Vec<u8>>, usize),
        QueryError,
    >)
        ensures
            match r {
                Ok(p) => ({
                    let txv = vecs_view(block_txids@);
                    &&& txv.len() >= 1
                    &&& p.1 < txv.len()
                    &&& txv[p.1 as int] == tx_hash@
                    &&& forall|q: int| 0 <= q < p.1 ==> (#[trigger] txv[q]) != tx_hash@
                    &&& vecs_view(p.0@) == crate::merkle::proof_siblings(txv, p.1 as nat)
                    &&& crate::merkle::fold_proof_path(tx_hash@, p.1 as nat, vecs_view(p.0@))
                        == crate::merkle::merkle_root(txv)
                }),
                Err(e) => e is NotInBlock && forall|q: int|
                    0 <= q < vecs_view(block_txids@).len() ==> (#[trigger] vecs_view(
                        block_txids@,
                    )[q]) != tx_hash@,
            },
    {
        crate::merkle::merkle_proof(block_txids, tx_hash)
    }

    /// The mempool's fee histogram: `(sat/vB, vsize)` buckets, highest rate
    /// first.
    pub fn get_fee_histogram(&self) -> (r: &Vec<(u64, u32)>)
        ensures
            r@ == self.tracker@.histogram,
    {
        self.tracker.fee_histogram()
    }

    /// The fee rate (sat/vB) estimated to confirm within `blocks` blocks;
    /// zero over an empty histogram.
    pub fn estimate_fee(&self, blocks: usize) -> (r: u64)
        ensures
            r == crate::fees::estimate_fee_rate(self.tracker@.histogram, blocks as int),
    {
        crate::fees::estimate_from_histogram(self.tracker.fee_histogram(), blocks)
    }
}

/// The headers at the asked heights, those past the tip skipped.
pub open spec fn headers_at(
    headers: Seq<crate::headers::HeaderEntryV>,
    heights: Seq<usize>,
) -> Seq<crate::headers::HeaderEntryV>
    decreases heights.len(),
{
    if heights.len() == 0 {
        Seq::<crate::headers::HeaderEntryV>::empty()
    } else {
        let first = if heights[0] < headers.len() {
            seq![headers[heights[0] as int]]
        } else {
            Seq::<crate::headers::HeaderEntryV>::empty()
        };
        first + headers_at(headers, heights.drop_first())
    }
}


/// Law: a scripthash with no TxOutRow in either source gets the empty
/// status: no funding, no spending, on both sides.
pub proof fn lemma_status_empty(
    rows: Seq<RowV>,
    mempool_rows: Seq<RowV>,
    cache: Seq<TransactionV>,
    script_hash: Seq<u8>,
)
    requires
        rows_with_prefix(rows, txout_scan_key(script_hash)) == Seq::<RowV>::empty(),
        rows_with_prefix(mempool_rows, txout_scan_key(script_hash)) == Seq::<RowV>::empty(),
    ensures
        status_spec(rows, mempool_rows, cache, script_hash) == Some(
            StatusV {
                confirmed_funding: Seq::<FundingOutputV>::empty(),
                confirmed_spending: Seq::<SpendingInputV>::empty(),
                mempool_funding: Seq::<FundingOutputV>::empty(),
                mempool_spending: Seq::<SpendingInputV>::empty(),
            },
        ),
{
    assert(parse_txout_prefixes(Seq::<RowV>::empty()) == Some(Seq::<Seq<u8>>::empty()));
    assert(txns_for_prefixes(rows, cache, Seq::<Seq<u8>>::empty()) == Some(
        Seq::<TxnHeightV>::empty(),
    ));
    assert(fundings_of(Seq::<TxnHeightV>::empty(), script_hash) == Seq::<FundingOutputV>::empty());
    assert(funding_spec(rows, cache, script_hash) == Some(Seq::<FundingOutputV>::empty()));
    assert(funding_spec(mempool_rows, cache, script_hash) == Some(Seq::<FundingOutputV>::empty()));
    assert(Seq::<FundingOutputV>::empty() + Seq::<FundingOutputV>::empty() =~= Seq::<
        FundingOutputV,
    >::empty());
    assert(spendings_for(rows, cache, Seq::<FundingOutputV>::empty()) == Some(
        Seq::<SpendingInputV>::empty(),
    ));
    assert(spendings_for(mempool_rows, cache, Seq::<FundingOutputV>::empty()) == Some(
        Seq::<SpendingInputV>::empty(),
    ));
}


// ---------------------------------------------------------------------------
// What the spending records carry
// ---------------------------------------------------------------------------

/// Every match against one funding output carries that output's outpoint
/// and value.
pub proof fn lemma_spend_matches_in_values(t: TxnHeightV, f: FundingOutputV, i: int)
    ensures
        forall|k: int|
            0 <= k < spend_matches_in(t, f, i).len() ==> (#[trigger] spend_matches_in(t, f, i)[
                k]).funding_txid == f.txn_id && spend_matches_in(t, f, i)[k].funding_vout
                == f.output_index && spend_matches_in(t, f, i)[k].value == f.value,
    decreases t.txn.inputs.len() - i,
{
    if 0 <= i < t.txn.inputs.len() {
        lemma_spend_matches_in_values(t, f, i + 1);
        let cur = spend_matches_in(t, f, i);
        let rest = spend_matches_in(t, f, i + 1);
        assert forall|k: int|
            0 <= k < cur.len() implies (#[trigger] cur[k]).funding_txid == f.txn_id
            && cur[k].funding_vout == f.output_index && cur[k].value == f.value by {
            if t.txn.inputs[i].prev_txid == f.txn_id && t.txn.inputs[i].prev_vout
                == f.output_index {
                if k > 0 {
                    assert(cur[k] == rest[k - 1]);
                }
            } else {
                assert(cur[k] == rest[k]);
            }
        }
    }
}

/// So does every match over a run of candidates.
pub proof fn lemma_spend_matches_values(ts: Seq<TxnHeightV>, f: FundingOutputV)
    ensures
        forall|k: int|
            0 <= k < spend_matches(ts, f).len() ==> (#[trigger] spend_matches(ts, f)[
                k]).funding_txid == f.txn_id && spend_matches(ts, f)[k].funding_vout
                == f.output_index && spend_matches(ts, f)[k].value == f.value,
    decreases ts.len(),
{
    if ts.len() > 0 {
        lemma_spend_matches_in_values(ts[0], f, 0);
        lemma_spend_matches_values(ts.drop_first(), f);
        let cur = spend_matches(ts, f);
        let head = spend_matches_in(ts[0], f, 0);
        let rest = spend_matches(ts.drop_first(), f);
        assert forall|k: int|
            0 <= k < cur.len() implies (#[trigger] cur[k]).funding_txid == f.txn_id
            && cur[k].funding_vout == f.output_index && cur[k].value == f.value by {
            if k < head.len() {
                assert(cur[k] == head[k]);
            } else {
                assert(cur[k] == rest[k - head.len()]);
            }
        }
    }
}

/// Whether a spending record consumes the outpoint of a funding record in
/// the list, at that record's value.
pub open spec fn spending_references(s: SpendingInputV, fs: Seq<FundingOutputV>) -> bool {
    exists|j: int|
        0 <= j < fs.len() && s.funding_txid == (#[trigger] fs[j]).txn_id && s.funding_vout
            == fs[j].output_index && s.value == fs[j].value
}

/// Law: every spending record the engine finds consumes one of the funding
/// outputs it was asked about, and carries that output's value.
pub proof fn lemma_spendings_reference_fundings(
    rows: Seq<RowV>,
    cache: Seq<TransactionV>,
    fs: Seq<FundingOutputV>,
    ss: Seq<SpendingInputV>,
)
    requires
        spendings_for(rows, cache, fs) == Some(ss),
    ensures
        forall|i: int| 0 <= i < ss.len() ==> spending_references(#[trigger] ss[i], fs),
    decreases fs.len(),
{
    if fs.len() > 0 {
        let opt = spending_for(rows, cache, fs[0])->Some_0;
        let rest = spendings_for(rows, cache, fs.drop_first())->Some_0;
        lemma_spendings_reference_fundings(rows, cache, fs.drop_first(), rest);
        assert forall|i: int| 0 <= i < ss.len() implies spending_references(
            #[trigger] ss[i],
            fs,
        ) by {
            match opt {
                Option::Some(s0) => {
                    assert(ss == seq![s0] + rest);
                    if i == 0 {
                        let ps = parse_txin_prefixes(
                            rows_with_prefix(rows, txin_scan_key(fs[0].txn_id, fs[0].output_index)),
                        )->Some_0;
                        let ts = txns_for_prefixes(rows, cache, ps)->Some_0;
                        lemma_spend_matches_values(ts, fs[0]);
                        assert(s0 == spend_matches(ts, fs[0])[0]);
                        assert(s0.funding_txid == fs[0].txn_id && s0.funding_vout
                            == fs[0].output_index && s0.value == fs[0].value);
                    } else {
                        assert(ss[i] == rest[i - 1]);
                        assert(spending_references(rest[i - 1], fs.drop_first()));
                        let j = choose|j: int|
                            0 <= j < fs.drop_first().len() && rest[i - 1].funding_txid == (
                            #[trigger] fs.drop_first()[j]).txn_id && rest[i - 1].funding_vout
                                == fs.drop_first()[j].output_index && rest[i - 1].value
                                == fs.drop_first()[j].value;
                        assert(fs.drop_first()[j] == fs[j + 1]);
                    }
                },
                Option::None => {
                    assert(ss == rest);
                    assert(spending_references(rest[i], fs.drop_first()));
                    let j = choose|j: int|
                        0 <= j < fs.drop_first().len() && rest[i].funding_txid == (
                        #[trigger] fs.drop_first()[j]).txn_id && rest[i].funding_vout
                            == fs.drop_first()[j].output_index && rest[i].value
                            == fs.drop_first()[j].value;
                    assert(fs.drop_first()[j] == fs[j + 1]);
                },
            }
        }
    }
}

/// Law: in any status the engine produces, every spending record consumes
/// the outpoint of one of the status's funding records, at that record's
/// value.  With the partition law over the unspent map, the funding
/// outpoints split exactly into the unspent ones and the spent ones.
pub proof fn lemma_status_spendings_funded(
    rows: Seq<RowV>,
    mempool_rows: Seq<RowV>,
    cache: Seq<TransactionV>,
    script_hash: Seq<u8>,
    st: StatusV,
)
    requires
        status_spec(rows, mempool_rows, cache, script_hash) == Some(st),
    ensures
        forall|i: int|
            0 <= i < st.spending().len() ==> spending_references(
                #[trigger] st.spending()[i],
                st.funding(),
            ),
{
    let cf = st.confirmed_funding;
    let mf = st.mempool_funding;
    lemma_spendings_reference_fundings(
        rows,
        cache,
        cf + Seq::<FundingOutputV>::empty(),
        st.confirmed_spending,
    );
    lemma_spendings_reference_fundings(mempool_rows, cache, mf + cf, st.mempool_spending);
    assert forall|i: int| 0 <= i < st.spending().len() implies spending_references(
        #[trigger] st.spending()[i],
        st.funding(),
    ) by {
        let all = st.funding();
        if i < st.confirmed_spending.len() {
            let s = st.confirmed_spending[i];
            assert(st.spending()[i] == s);
            let cfe = cf + Seq::<FundingOutputV>::empty();
            assert(spending_references(s, cfe));
            let j = choose|j: int|
                0 <= j < cfe.len() && s.funding_txid == (#[trigger] cfe[j]).txn_id
                    && s.funding_vout == cfe[j].output_index && s.value == cfe[j].value;
            assert(cfe[j] == cf[j]);
            assert(all[j] == cf[j]);
        } else {
            let s = st.mempool_spending[i - st.confirmed_spending.len()];
            assert(st.spending()[i] == s);
            assert(spending_references(s, mf + cf));
            let j = choose|j: int|
                0 <= j < (mf + cf).len() && s.funding_txid == (#[trigger] (mf + cf)[j]).txn_id
                    && s.funding_vout == (mf + cf)[j].output_index && s.value == (mf
                    + cf)[j].value;
            if j < mf.len() {
                assert((mf + cf)[j] == mf[j]);
                assert(all[cf.len() + j] == mf[j]);
            } else {
                assert((mf + cf)[j] == cf[j - mf.len()]);
                assert(all[j - mf.len()] == cf[j - mf.len()]);
            }
        }
    }
}


/// Law: in any status the engine produces, the funding outpoints split
/// exactly in two: those left in the unspent map, and those a spending
/// record consumes; no outpoint is in both.
pub proof fn lemma_status_partition(
    rows: Seq<RowV>,
    mempool_rows: Seq<RowV>,
    cache: Seq<TransactionV>,
    script_hash: Seq<u8>,
    st: StatusV,
)
    requires
        status_spec(rows, mempool_rows, cache, script_hash) == Some(st),
    ensures
        forall|k: (Seq<u8>, u32)|
            #[trigger] funding_map(st).contains_key(k) <==> (unspent_map(st).contains_key(k)
                || spends_key(st.spending(), k)),
        forall|k: (Seq<u8>, u32)|
            !(#[trigger] unspent_map(st).contains_key(k) && spends_key(st.spending(), k)),
{
    lemma_status_spendings_funded(rows, mempool_rows, cache, script_hash, st);
    lemma_outs_map_of_covers(Map::<(Seq<u8>, u32), FundingOutputV>::empty(), st.funding());
    assert forall|i: int| 0 <= i < st.spending().len() implies funding_map(st).contains_key(
        ((#[trigger] st.spending()[i]).funding_txid, st.spending()[i].funding_vout),
    ) by {
        let s = st.spending()[i];
        assert(spending_references(s, st.funding()));
        let j = choose|j: int|
            0 <= j < st.funding().len() && s.funding_txid == (#[trigger] st.funding()[j]).txn_id
                && s.funding_vout == st.funding()[j].output_index && s.value == st.funding()[
            j].value;
        assert(funding_map(st).contains_key(
            (st.funding()[j].txn_id, st.funding()[j].output_index),
        ));
    }
    lemma_unspent_partition(st);
}


/// Law: a transaction reads as confirmed exactly when its TxRow is present
/// and well formed, its recorded height is within the chain, and the header
/// at that height still carries the blockhash the row recorded.
pub proof fn lemma_tx_status_confirmed_iff(
    rows: Seq<RowV>,
    headers: Seq<crate::headers::HeaderEntryV>,
    txid: Seq<u8>,
)
    ensures
        (match tx_status_spec(rows, headers, txid) {
            Ok(ts) => ts.confirmed,
            Err(_) => false,
        }) <==> (match crate::store::store_get(rows, crate::rows::tx_row_key(txid)) {
            Option::Some(value) => value.len() == 36 && crate::bytes::u32_from_le(
                value.subrange(0, 4),
            ) < headers.len() && headers[crate::bytes::u32_from_le(
                value.subrange(0, 4),
            ) as int].hash == value.subrange(4, 36),
            Option::None => false,
        }),
{
}


/// Law: the structured and the raw transaction reads answer for the same
/// txids, as long as a stored raw copy decodes.  Both consult the RawTxRow
/// family first, where they share one row; past it, this says their mempool
/// fallbacks find an entry for the same txids.
pub proof fn lemma_tx_sources_agree(q: Query, txid: Seq<u8>)
    requires
        q.wf(),
    ensures
        crate::store::store_get(q.store@, crate::rows::raw_tx_row_key(txid)) is None ==> (
        txns_lookup(q.tracker@.txns, txid) is Some <==> crate::tracker::raws_lookup(
            q.tracker@.txns,
            q.tracker@.raws,
            txid,
        ) is Some),
{
    crate::tracker::lemma_tracker_lookups_agree(q.tracker@.txns, q.tracker@.raws, txid);
}


} // verus!
