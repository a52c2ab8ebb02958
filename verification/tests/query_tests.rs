//! End-to-end scenarios over the status engine and the derived views.
use chainquery::headers::{HeaderEntry, HeaderIndex};
use chainquery::hashes::compute_script_hash;
use chainquery::query::Query;
use chainquery::rows::{TxOutRow, TxRow};
use chainquery::store::Store;
use chainquery::tracker::Tracker;
use chainquery::txmodel::{Amount, Transaction, TxIn, TxOut};
use chainquery::errors::QueryError;

fn hash32(byte: u8) -> Vec<u8> {
    vec![byte; 32]
}

fn headers_up_to(best: u32) -> HeaderIndex {
    let mut index = HeaderIndex::new();
    let mut prev = vec![0u8; 32];
    for h in 0..=best {
        let mut hash = vec![0u8; 32];
        hash[0] = (h & 0xff) as u8;
        hash[1] = ((h >> 8) & 0xff) as u8;
        hash[31] = 0x80;
        index.push_header(HeaderEntry {
            height: h,
            hash: hash.clone(),
            prev_hash: prev,
            time: 1_500_000_000 + h,
            header_bytes: vec![],
        });
        prev = hash;
    }
    index
}

fn block_hash_at(height: u32) -> Vec<u8> {
    let mut hash = vec![0u8; 32];
    hash[0] = (height & 0xff) as u8;
    hash[1] = ((height >> 8) & 0xff) as u8;
    hash[31] = 0x80;
    hash
}

fn index_confirmed_tx(store: &mut Store, tx: &Transaction, height: u32) {
    let tx_row = TxRow {
        txid: tx.txid.clone(),
        height,
        blockhash: block_hash_at(height),
    };
    let row = tx_row.to_row();
    store.insert(row.key, row.value);
    for out in &tx.outputs {
        let out_row = TxOutRow {
            script_hash: compute_script_hash(&out.script_pubkey),
            txid_prefix: tx.txid[0..8].to_vec(),
        };
        let row = out_row.to_row();
        store.insert(row.key, row.value);
    }
    for input in &tx.inputs {
        let in_row = chainquery::rows::TxInRow {
            prev_txid: input.prev_txid.clone(),
            prev_vout: input.prev_vout,
            txid_prefix: tx.txid[0..8].to_vec(),
        };
        let row = in_row.to_row();
        store.insert(row.key, row.value);
    }
}

fn paying_tx(id: u8, script: &[u8], value: u64) -> Transaction {
    Transaction {
        txid: hash32(id),
        inputs: vec![],
        outputs: vec![TxOut {
            script_pubkey: script.to_vec(),
            value: Amount::Explicit(value),
        }],
    }
}

fn spending_tx(id: u8, prev: &Transaction, vout: u32) -> Transaction {
    Transaction {
        txid: hash32(id),
        inputs: vec![TxIn {
            prev_txid: prev.txid.clone(),
            prev_vout: vout,
        }],
        outputs: vec![],
    }
}

const SCRIPT: [u8; 3] = [0x51, 0x52, 0x53];

/// Block 100 holds T1 whose output 0 pays the script, value 500.
fn single_funding_query() -> (Query, Vec<u8>, Transaction) {
    let t1 = paying_tx(0x11, &SCRIPT, 500);
    let mut store = Store::new();
    index_confirmed_tx(&mut store, &t1, 100);
    let mut query = Query::new(store, headers_up_to(101), Tracker::new());
    query.cache_txn(t1.duplicate());
    let script_hash = compute_script_hash(&SCRIPT.to_vec());
    (query, script_hash, t1)
}

#[test]
fn confirmed_funding_is_reported() {
    let (query, script_hash, t1) = single_funding_query();
    let status = query.status(&script_hash).expect("status");
    assert_eq!(status.confirmed_funding.len(), 1);
    let f = &status.confirmed_funding[0];
    assert_eq!(f.txn_id, t1.txid);
    assert_eq!(f.height, 100);
    assert_eq!(f.output_index, 0);
    assert_eq!(f.value, 500);
    assert!(status.confirmed_spending.is_empty());
    assert!(status.mempool_funding.is_empty());
    assert!(status.mempool_spending.is_empty());
    assert_eq!(status.confirmed_balance(), 500);
    assert_eq!(status.mempool_balance(), 0);

    let history = status.history();
    assert_eq!(history, vec![(100, t1.txid.clone())]);

    let unspent = status.unspent();
    assert_eq!(unspent.len(), 1);
    assert_eq!(unspent[0].txn_id, t1.txid);
    assert_eq!(unspent[0].value, 500);

    assert!(status.hash().is_some());
}

#[test]
fn spending_in_next_block_empties_the_utxo() {
    let (mut query, script_hash, t1) = single_funding_query();
    let t2 = spending_tx(0x22, &t1, 0);
    index_confirmed_tx(&mut query.store, &t2, 101);
    query.cache_txn(t2.duplicate());

    let status = query.status(&script_hash).expect("status");
    assert_eq!(status.confirmed_funding.len(), 1);
    assert_eq!(status.confirmed_spending.len(), 1);
    let s = &status.confirmed_spending[0];
    assert_eq!(s.txn_id, t2.txid);
    assert_eq!(s.height, 101);
    assert_eq!(s.funding_txid, t1.txid);
    assert_eq!(s.funding_vout, 0);
    assert_eq!(s.value, 500);
    assert_eq!(status.confirmed_balance(), 0);

    let history = status.history();
    assert_eq!(history, vec![(100, t1.txid.clone()), (101, t2.txid.clone())]);
    assert!(status.unspent().is_empty());
}

#[test]
fn self_transfer_funds_and_spends_in_one_transaction() {
    let (query_base, script_hash, t1) = single_funding_query();
    let mut query = query_base;
    // T2 spends (T1, 0) and pays the script again, in the same transaction
    let t2 = Transaction {
        txid: hash32(0x22),
        inputs: vec![TxIn {
            prev_txid: t1.txid.clone(),
            prev_vout: 0,
        }],
        outputs: vec![TxOut {
            script_pubkey: SCRIPT.to_vec(),
            value: Amount::Explicit(500),
        }],
    };
    index_confirmed_tx(&mut query.store, &t2, 101);
    query.cache_txn(t2.duplicate());

    let status = query.status(&script_hash).expect("status");
    assert_eq!(status.confirmed_funding.len(), 2);
    assert_eq!(status.confirmed_spending.len(), 1);
    assert_eq!(status.confirmed_balance(), 500);
    // one history entry per txid
    let history = status.history();
    assert_eq!(history.len(), 2);
    // the funding outpoints split into the spent one and the unspent one
    let unspent = status.unspent();
    assert_eq!(unspent.len(), 1);
    assert_eq!(unspent[0].txn_id, t2.txid);
    assert_eq!(unspent[0].output_index, 0);
}

#[test]
fn mempool_funding_sorts_before_confirmed_history() {
    let (mut query, script_hash, t1) = single_funding_query();
    let t3 = paying_tx(0x33, &SCRIPT, 700);
    let mut tracker = Tracker::new();
    tracker.add_txn(t3.duplicate(), vec![0xca, 0xfe], false);
    query.update_mempool(tracker);
    query.cache_txn(t3.duplicate());

    let status = query.status(&script_hash).expect("status");
    assert_eq!(status.mempool_funding.len(), 1);
    assert_eq!(status.mempool_funding[0].value, 700);
    assert_eq!(status.mempool_funding[0].height, 0);
    assert_eq!(status.mempool_balance(), 700);
    assert_eq!(status.confirmed_balance(), 500);

    let history = status.history();
    assert_eq!(history, vec![(0, t3.txid.clone()), (100, t1.txid.clone())]);
}

#[test]
fn unconfirmed_parent_sorts_before_height_zero() {
    let (mut query, script_hash, t1) = single_funding_query();
    // T4 pays the script from confirmed parents; T3 pays it while spending
    // an unconfirmed parent, so it carries the synthetic height -1
    let t4 = paying_tx(0x44, &SCRIPT, 10);
    let t3 = paying_tx(0x33, &SCRIPT, 700);
    let mut tracker = Tracker::new();
    tracker.add_txn(t4.duplicate(), vec![], false);
    tracker.add_txn(t3.duplicate(), vec![], true);
    query.update_mempool(tracker);
    query.cache_txn(t3.duplicate());
    query.cache_txn(t4.duplicate());

    let status = query.status(&script_hash).expect("status");
    let history = status.history();
    assert_eq!(
        history,
        vec![
            (-1, t3.txid.clone()),
            (0, t4.txid.clone()),
            (100, t1.txid.clone())
        ]
    );
}

#[test]
fn status_is_deterministic_between_calls() {
    let (query, script_hash, _t1) = single_funding_query();
    let a = query.status(&script_hash).expect("status");
    let b = query.status(&script_hash).expect("status");
    assert_eq!(a.confirmed_funding.len(), b.confirmed_funding.len());
    assert_eq!(a.history(), b.history());
    assert_eq!(a.hash(), b.hash());
    assert_eq!(a.confirmed_balance(), b.confirmed_balance());
}

#[test]
fn unknown_script_hash_has_empty_status() {
    let (query, _script_hash, _t1) = single_funding_query();
    let other = hash32(0xEE);
    let status = query.status(&other).expect("status");
    assert!(status.confirmed_funding.is_empty());
    assert!(status.confirmed_spending.is_empty());
    assert!(status.mempool_funding.is_empty());
    assert!(status.mempool_spending.is_empty());
    assert_eq!(status.confirmed_balance(), 0);
    assert_eq!(status.mempool_balance(), 0);
    assert!(status.history().is_empty());
    assert!(status.unspent().is_empty());
    assert_eq!(status.hash(), None);
}

#[test]
fn status_hash_matches_reference_digest() {
    let (query, script_hash, t1) = single_funding_query();
    let status = query.status(&script_hash).expect("status");
    let digest = status.hash().expect("digest");
    // preimage: hex of the big-endian txid, colon, decimal height, colon
    let mut reversed = t1.txid.clone();
    reversed.reverse();
    let preimage = format!("{}:{}:", hex::encode(&reversed), 100);
    let expected_hash =
        <bitcoin::hashes::sha256::Hash as bitcoin::hashes::Hash>::hash(preimage.as_bytes());
    let expected =
        <bitcoin::hashes::sha256::Hash as bitcoin::hashes::Hash>::to_byte_array(expected_hash)
            .to_vec();
    assert_eq!(digest, expected);
}

#[test]
fn confidential_amounts_count_as_zero_but_appear_in_history() {
    let mut store = Store::new();
    let t1 = Transaction {
        txid: hash32(0x11),
        inputs: vec![],
        outputs: vec![TxOut {
            script_pubkey: SCRIPT.to_vec(),
            value: Amount::Confidential,
        }],
    };
    index_confirmed_tx(&mut store, &t1, 100);
    let mut query = Query::new(store, headers_up_to(100), Tracker::new());
    query.cache_txn(t1.duplicate());
    let script_hash = compute_script_hash(&SCRIPT.to_vec());
    let status = query.status(&script_hash).expect("status");
    assert_eq!(status.confirmed_funding.len(), 1);
    assert_eq!(status.confirmed_funding[0].value, 0);
    assert_eq!(status.confirmed_balance(), 0);
    assert_eq!(status.history().len(), 1);
}

#[test]
fn missing_cached_transaction_names_the_txid() {
    let t1 = paying_tx(0x11, &SCRIPT, 500);
    let mut store = Store::new();
    index_confirmed_tx(&mut store, &t1, 100);
    let query = Query::new(store, headers_up_to(100), Tracker::new());
    let script_hash = compute_script_hash(&SCRIPT.to_vec());
    match query.status(&script_hash) {
        Err(QueryError::TxMissing(txid)) => assert_eq!(txid, t1.txid),
        other => panic!("expected a missing-transaction error, got {:?}", other.is_ok()),
    }
}

#[test]
fn corrupt_row_fails_the_query() {
    let t1 = paying_tx(0x11, &SCRIPT, 500);
    let mut store = Store::new();
    index_confirmed_tx(&mut store, &t1, 100);
    let script_hash = compute_script_hash(&SCRIPT.to_vec());
    // a key in the scripthash's scan range that is no TxOutRow
    let mut bad_key = vec![b'O'];
    bad_key.extend_from_slice(&script_hash);
    bad_key.push(0xff);
    store.insert(bad_key, vec![]);
    let mut query = Query::new(store, headers_up_to(100), Tracker::new());
    query.cache_txn(t1.duplicate());
    match query.status(&script_hash) {
        Err(QueryError::Corruption) => {}
        other => panic!("expected corruption, got {:?}", other.is_ok()),
    }
}

#[test]
fn tx_status_tracks_the_best_chain() {
    let (query, _script_hash, t1) = single_funding_query();
    let status = query.get_tx_status(&t1.txid).expect("status");
    assert!(status.confirmed);
    assert_eq!(status.block_height, Some(100));
    assert_eq!(status.block_hash, Some(block_hash_at(100)));

    // an unindexed txid is unconfirmed
    let other = query.get_tx_status(&hash32(0x77)).expect("status");
    assert!(!other.confirmed);
    assert_eq!(other.block_height, None);
}

#[test]
fn tx_status_detects_a_reorged_block() {
    let t1 = paying_tx(0x11, &SCRIPT, 500);
    let mut store = Store::new();
    // recorded against a blockhash that is not the best block at height 100
    let tx_row = TxRow {
        txid: t1.txid.clone(),
        height: 100,
        blockhash: hash32(0xde),
    };
    let row = tx_row.to_row();
    store.insert(row.key, row.value);
    let query = Query::new(store, headers_up_to(100), Tracker::new());
    let status = query.get_tx_status(&t1.txid).expect("status");
    assert!(!status.confirmed);
}

#[test]
fn tx_status_past_the_tip_is_unconfirmed() {
    let t1 = paying_tx(0x11, &SCRIPT, 500);
    let mut store = Store::new();
    index_confirmed_tx(&mut store, &t1, 100);
    let query = Query::new(store, headers_up_to(50), Tracker::new());
    let status = query.get_tx_status(&t1.txid).expect("status");
    assert!(!status.confirmed);
    assert_eq!(status.block_height, None);
    assert_eq!(status.block_hash, None);
}

#[test]
fn block_status_names_the_next_block() {
    let (query, _s, _t) = single_funding_query();
    let status = query.get_block_status(&block_hash_at(100));
    assert!(status.in_best_chain);
    assert_eq!(status.next_best, Some(block_hash_at(101)));
    let tip = query.get_block_status(&block_hash_at(101));
    assert!(tip.in_best_chain);
    assert_eq!(tip.next_best, None);
    let unknown = query.get_block_status(&hash32(0xEE));
    assert!(!unknown.in_best_chain);
    assert_eq!(unknown.next_best, None);
}

#[test]
fn header_lookups_follow_the_index() {
    let (query, _s, _t) = single_funding_query();
    assert_eq!(query.get_best_height(), 101);
    assert_eq!(query.get_best_header_hash(), block_hash_at(101));
    let best = query.get_best_header().expect("best");
    assert_eq!(best.height, 101);
    let by_hash = query.get_header_by_hash(&block_hash_at(7)).expect("header");
    assert_eq!(by_hash.height, 7);
    let list = query.get_headers(&vec![3, 500, 9]);
    assert_eq!(list.len(), 2);
    assert_eq!(list[0].height, 3);
    assert_eq!(list[1].height, 9);
}

#[test]
fn raw_transactions_come_from_store_or_mempool() {
    let t1 = paying_tx(0x11, &SCRIPT, 500);
    let mut store = Store::new();
    let raw_row = chainquery::rows::RawTxRow {
        txid: t1.txid.clone(),
        rawtx: vec![0xaa, 0xbb],
    };
    let row = raw_row.to_row();
    store.insert(row.key, row.value);
    let t3 = paying_tx(0x33, &SCRIPT, 1);
    let mut tracker = Tracker::new();
    tracker.add_txn(t3.duplicate(), vec![0xcc, 0xdd], false);
    let query = Query::new(store, headers_up_to(1), tracker);

    assert_eq!(query.tx_get_raw(&t1.txid), Some(vec![0xaa, 0xbb]));
    assert_eq!(query.tx_get_raw(&t3.txid), Some(vec![0xcc, 0xdd]));
    assert_eq!(query.tx_get_raw(&hash32(0x55)), None);
    assert!(query.tx_get(&t3.txid).is_some());
    assert!(query.tx_get(&hash32(0x55)).is_none());
}

#[test]
fn block_meta_is_read_back() {
    let mut store = Store::new();
    let meta = chainquery::rows::BlockMeta {
        tx_count: 3,
        size: 900,
        weight: 3600,
    };
    let mut key = vec![b'M'];
    key.extend_from_slice(&block_hash_at(100));
    store.insert(key, chainquery::rows::block_meta_encode(&meta));
    let query = Query::new(store, headers_up_to(100), Tracker::new());
    let got = query
        .get_block_meta(&block_hash_at(100))
        .expect("readable")
        .expect("present");
    assert_eq!(got.tx_count, 3);
    assert_eq!(
        query
            .get_block_meta(&block_hash_at(99))
            .expect("readable")
            .map(|m| m.tx_count),
        None
    );
    let pair = query
        .get_block_header_with_meta(&block_hash_at(100))
        .expect("header with meta");
    assert_eq!(pair.0.height, 100);
    assert_eq!(pair.1.size, 900);
    match query.get_block_header_with_meta(&block_hash_at(99)) {
        Err(QueryError::NotIndexed) => {}
        other => panic!("expected not indexed, got {:?}", other.is_ok()),
    }
    match query.get_block_header_with_meta(&hash32(0xEE)) {
        Err(QueryError::MissingHeader) => {}
        other => panic!("expected missing header, got {:?}", other.is_ok()),
    }
}

#[test]
fn undecodable_block_meta_is_corruption() {
    let mut store = Store::new();
    let mut key = vec![b'M'];
    key.extend_from_slice(&block_hash_at(100));
    store.insert(key, vec![1, 2, 3]);
    let query = Query::new(store, headers_up_to(100), Tracker::new());
    match query.get_block_meta(&block_hash_at(100)) {
        Err(QueryError::Corruption) => {}
        other => panic!("expected corruption, got {:?}", other.is_ok()),
    }
    match query.get_block_header_with_meta(&block_hash_at(100)) {
        Err(QueryError::Corruption) => {}
        other => panic!("expected corruption, got {:?}", other.is_ok()),
    }
}

#[test]
fn unspent_orders_mempool_synthetic_heights_first() {
    let (mut query, script_hash, t1) = single_funding_query();
    // T3 pays the script from an unconfirmed parent: synthetic height -1,
    // which must sort before the confirmed funding at height 100
    let t3 = paying_tx(0x33, &SCRIPT, 700);
    let mut tracker = Tracker::new();
    tracker.add_txn(t3.duplicate(), vec![], true);
    query.update_mempool(tracker);
    query.cache_txn(t3.duplicate());

    let status = query.status(&script_hash).expect("status");
    let unspent = status.unspent();
    assert_eq!(unspent.len(), 2);
    assert_eq!(unspent[0].txn_id, t3.txid);
    assert_eq!(unspent[0].height, u32::MAX);
    assert_eq!(unspent[1].txn_id, t1.txid);
    assert_eq!(unspent[1].height, 100);
}

#[test]
fn tx_get_decodes_the_stored_raw_copy() {
    let stored_tx = elements::Transaction {
        version: 2,
        lock_time: elements::LockTime::ZERO,
        input: vec![],
        output: vec![],
    };
    let raw = elements::encode::serialize(&stored_tx);
    let txid_bytes =
        <elements::Txid as elements::hashes::Hash>::to_byte_array(stored_tx.txid()).to_vec();
    let mut store = Store::new();
    let raw_row = chainquery::rows::RawTxRow {
        txid: txid_bytes.clone(),
        rawtx: raw.clone(),
    };
    let row = raw_row.to_row();
    store.insert(row.key, row.value);
    let query = Query::new(store, HeaderIndex::new(), Tracker::new());

    let decoded = query.tx_get(&txid_bytes).expect("decoded");
    assert_eq!(decoded.txid, txid_bytes);
    assert!(decoded.inputs.is_empty());
    assert!(decoded.outputs.is_empty());
    assert_eq!(query.tx_get_raw(&txid_bytes), Some(raw));

    // a stored row whose bytes are not a transaction answers nothing
    let mut store = Store::new();
    let bad_row = chainquery::rows::RawTxRow {
        txid: hash32(0x66),
        rawtx: vec![0xff, 0x00],
    };
    let row = bad_row.to_row();
    store.insert(row.key, row.value);
    let query = Query::new(store, HeaderIndex::new(), Tracker::new());
    assert!(query.tx_get(&hash32(0x66)).is_none());
}
