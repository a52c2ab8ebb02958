//! Row codec round trips and store behavior.
use chainquery::rows::{
    block_meta_decode, block_meta_encode, block_meta_filter_full, BlockMeta, RawTxRow, TxInRow,
    TxOutRow, TxRow,
};
use chainquery::store::{Row, Store};

fn txid(byte: u8) -> Vec<u8> {
    vec![byte; 32]
}

#[test]
fn tx_row_round_trip() {
    let row = TxRow {
        txid: txid(0xab),
        height: 123_456,
        blockhash: txid(0xcd),
    };
    let encoded = row.to_row();
    assert_eq!(encoded.key.len(), 41);
    assert_eq!(encoded.key[0], b'T');
    assert_eq!(encoded.value.len(), 36);
    let decoded = TxRow::from_row(&encoded).expect("round trip");
    assert_eq!(decoded.txid, row.txid);
    assert_eq!(decoded.height, row.height);
    assert_eq!(decoded.blockhash, row.blockhash);
}

#[test]
fn raw_tx_row_round_trip() {
    let row = RawTxRow {
        txid: txid(0x01),
        rawtx: vec![9, 8, 7, 6],
    };
    let encoded = row.to_row();
    assert_eq!(encoded.key[0], b'R');
    let decoded = RawTxRow::from_row(&encoded).expect("round trip");
    assert_eq!(decoded.txid, row.txid);
    assert_eq!(decoded.rawtx, row.rawtx);
}

#[test]
fn tx_out_row_round_trip() {
    let row = TxOutRow {
        script_hash: txid(0x42),
        txid_prefix: vec![1, 2, 3, 4, 5, 6, 7, 8],
    };
    let encoded = row.to_row();
    assert_eq!(encoded.key[0], b'O');
    assert!(encoded.value.is_empty());
    let decoded = TxOutRow::from_row(&encoded).expect("round trip");
    assert_eq!(decoded.script_hash, row.script_hash);
    assert_eq!(decoded.txid_prefix, row.txid_prefix);
}

#[test]
fn tx_in_row_round_trip() {
    let row = TxInRow {
        prev_txid: txid(0x99),
        prev_vout: 7,
        txid_prefix: vec![8, 7, 6, 5, 4, 3, 2, 1],
    };
    let encoded = row.to_row();
    assert_eq!(encoded.key[0], b'I');
    assert_eq!(encoded.key.len(), 45);
    let decoded = TxInRow::from_row(&encoded).expect("round trip");
    assert_eq!(decoded.prev_txid, row.prev_txid);
    assert_eq!(decoded.prev_vout, row.prev_vout);
    assert_eq!(decoded.txid_prefix, row.txid_prefix);
}

#[test]
fn block_meta_round_trip() {
    let meta = BlockMeta {
        tx_count: 12,
        size: 34_567,
        weight: 138_268,
    };
    let value = block_meta_encode(&meta);
    assert_eq!(value.len(), 12);
    let decoded = block_meta_decode(&value).expect("round trip");
    assert_eq!(decoded.tx_count, meta.tx_count);
    assert_eq!(decoded.size, meta.size);
    assert_eq!(decoded.weight, meta.weight);
    assert_eq!(block_meta_decode(&vec![0; 11]).map(|m| m.tx_count), None);
    assert_eq!(block_meta_filter_full(&txid(2))[0], b'M');
}

#[test]
fn from_row_rejects_other_families() {
    let raw = RawTxRow {
        txid: txid(0x01),
        rawtx: vec![],
    };
    let encoded = raw.to_row();
    assert!(TxRow::from_row(&encoded).is_none());
    assert!(TxOutRow::from_row(&encoded).is_none());
    assert!(TxInRow::from_row(&encoded).is_none());
}

#[test]
fn store_orders_scans_and_replaces_on_equal_key() {
    let mut store = Store::new();
    store.insert(vec![2, 2], vec![20]);
    store.insert(vec![1], vec![10]);
    store.insert(vec![2, 1], vec![21]);
    store.insert(vec![2, 2], vec![22]);
    store.insert(vec![3], vec![30]);

    assert_eq!(store.get(&vec![2, 2]), Some(vec![22]));
    assert_eq!(store.get(&vec![9]), None);

    let all: Vec<Row> = store.scan(&vec![]);
    let keys: Vec<Vec<u8>> = all.iter().map(|r| r.key.clone()).collect();
    assert_eq!(keys, vec![vec![1], vec![2, 1], vec![2, 2], vec![3]]);

    let twos = store.scan(&vec![2]);
    assert_eq!(twos.len(), 2);
    assert_eq!(twos[0].key, vec![2, 1]);
    assert_eq!(twos[1].value, vec![22]);
}

#[test]
fn hex_and_decimal_render_as_text() {
    let bytes = vec![0x00, 0x1f, 0xab];
    assert_eq!(chainquery::hashes::hex_encode(&bytes), b"001fab".to_vec());
    assert_eq!(chainquery::hashes::dec_encode_i32(0), b"0".to_vec());
    assert_eq!(chainquery::hashes::dec_encode_i32(-1), b"-1".to_vec());
    assert_eq!(chainquery::hashes::dec_encode_i32(100), b"100".to_vec());
    assert_eq!(
        chainquery::hashes::reverse_bytes(&vec![1, 2, 3]),
        vec![3, 2, 1]
    );
}

#[test]
fn digest_wrappers_match_reference_hashes() {
    let data = vec![1u8, 2, 3, 4];
    let ours = chainquery::hashes::sha256(&data);
    let theirs_hash = <bitcoin::hashes::sha256::Hash as bitcoin::hashes::Hash>::hash(&data);
    let theirs =
        <bitcoin::hashes::sha256::Hash as bitcoin::hashes::Hash>::to_byte_array(theirs_hash)
            .to_vec();
    assert_eq!(ours, theirs);
    assert_ne!(ours, data);

    let left = vec![0xaau8; 32];
    let right = vec![0xbbu8; 32];
    let node = chainquery::hashes::merklize(&left, &right);
    let mut concat = left.clone();
    concat.extend_from_slice(&right);
    let expected_hash = <bitcoin::hashes::sha256d::Hash as bitcoin::hashes::Hash>::hash(&concat);
    let expected =
        <bitcoin::hashes::sha256d::Hash as bitcoin::hashes::Hash>::to_byte_array(expected_hash)
            .to_vec();
    assert_eq!(node, expected);
}
