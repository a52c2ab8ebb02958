//! Merkle proofs, fee estimation and script classification.
use chainquery::errors::QueryError;
use chainquery::headers::HeaderIndex;
use chainquery::query::Query;
use chainquery::script::{classify, ScriptType};
use chainquery::store::Store;
use chainquery::tracker::Tracker;

fn hash32(byte: u8) -> Vec<u8> {
    vec![byte; 32]
}

fn sha256d_pair(left: &[u8], right: &[u8]) -> Vec<u8> {
    let mut concat = left.to_vec();
    concat.extend_from_slice(right);
    let node = <bitcoin::hashes::sha256d::Hash as bitcoin::hashes::Hash>::hash(&concat);
    <bitcoin::hashes::sha256d::Hash as bitcoin::hashes::Hash>::to_byte_array(node).to_vec()
}

fn reference_root(mut level: Vec<Vec<u8>>) -> Vec<u8> {
    while level.len() > 1 {
        if level.len() % 2 == 1 {
            level.push(level.last().unwrap().clone());
        }
        level = level
            .chunks(2)
            .map(|pair| sha256d_pair(&pair[0], &pair[1]))
            .collect();
    }
    level[0].clone()
}

fn empty_query() -> Query {
    Query::new(Store::new(), HeaderIndex::new(), Tracker::new())
}

#[test]
fn merkle_proof_for_position_two_of_five() {
    let txids: Vec<Vec<u8>> = (1..=5).map(|i| hash32(i)).collect();
    let query = empty_query();
    let (proof, pos) = query
        .get_merkle_proof(&txids[2], &txids)
        .expect("proof");
    assert_eq!(pos, 2);
    assert_eq!(proof.len(), 3);
    // level 0 is padded to six txids; the sibling of position 2 is at 3
    assert_eq!(proof[0], txids[3]);
    // level 1 has three nodes, padded to four; position 1's sibling is 0
    let l1_0 = sha256d_pair(&txids[0], &txids[1]);
    assert_eq!(proof[1], l1_0);
    // level 2 has two nodes; position 0's sibling is 1
    let l1_2 = sha256d_pair(&txids[4], &txids[4]);
    let l2_1 = sha256d_pair(&l1_2, &l1_2);
    assert_eq!(proof[2], l2_1);

    // folding the siblings from the target reproduces the root
    let mut acc = txids[2].clone();
    let mut p = pos;
    for sibling in &proof {
        acc = if p % 2 == 0 {
            sha256d_pair(&acc, sibling)
        } else {
            sha256d_pair(sibling, &acc)
        };
        p /= 2;
    }
    assert_eq!(acc, reference_root(txids.clone()));
}

#[test]
fn merkle_proof_of_single_transaction_is_empty() {
    let txids = vec![hash32(9)];
    let query = empty_query();
    let (proof, pos) = query.get_merkle_proof(&txids[0], &txids).expect("proof");
    assert_eq!(pos, 0);
    assert!(proof.is_empty());
}

#[test]
fn odd_level_duplicates_its_last_node() {
    // three txids, target at the end: the bottom level pads to four by
    // repeating the last node, so the target's sibling is its own copy
    let txids: Vec<Vec<u8>> = (1..=3).map(|i| hash32(i)).collect();
    let query = empty_query();
    let (proof, pos) = query.get_merkle_proof(&txids[2], &txids).expect("proof");
    assert_eq!(pos, 2);
    assert_eq!(proof.len(), 2);
    assert_eq!(proof[0], txids[2]);
    assert_eq!(proof[1], sha256d_pair(&txids[0], &txids[1]));
    let l1 = vec![
        sha256d_pair(&txids[0], &txids[1]),
        sha256d_pair(&txids[2], &txids[2]),
    ];
    let root = sha256d_pair(&l1[0], &l1[1]);
    assert_eq!(reference_root(txids.clone()), root);
    // position 2 is even: the first fold keeps the target on the left
    let step1 = sha256d_pair(&txids[2], &proof[0]);
    let step2 = sha256d_pair(&proof[1], &step1);
    assert_eq!(step2, root);
}

#[test]
fn merkle_proof_rejects_a_foreign_txid() {
    let txids: Vec<Vec<u8>> = (1..=4).map(|i| hash32(i)).collect();
    let query = empty_query();
    match query.get_merkle_proof(&hash32(0xEE), &txids) {
        Err(QueryError::NotInBlock) => {}
        other => panic!("expected not-in-block, got {:?}", other.is_ok()),
    }
}

#[test]
fn fee_estimate_walks_the_histogram() {
    let mut tracker = Tracker::new();
    tracker.set_fee_histogram(vec![(100, 600_000), (50, 900_000), (10, 2_000_000)]);
    let query = Query::new(Store::new(), HeaderIndex::new(), tracker);
    // two blocks of 1,000,000 vbytes: the bucket that crosses 2,000,000
    // cumulative vsize carries rate 10 sat/vB
    assert_eq!(query.estimate_fee(2), 10);
    assert_eq!(query.estimate_fee(1), 50);
    // converted for Electrum: BTC/kB is the sat/vB rate scaled by 1e-5
    let btc_per_kb = (query.estimate_fee(2) as f32) * 1e-5;
    assert_eq!(btc_per_kb, 1e-4);
}

#[test]
fn empty_histogram_estimates_zero() {
    let query = empty_query();
    for blocks in 0..5 {
        assert_eq!(query.estimate_fee(blocks), 0);
        assert_eq!((query.estimate_fee(blocks) as f32) * 1e-5, 0.0);
    }
    assert!(query.get_fee_histogram().is_empty());
}

#[test]
fn script_templates_are_recognized() {
    assert_eq!(classify(&vec![]), ScriptType::Fee);
    assert_eq!(classify(&vec![0x6a, 1, 2]), ScriptType::OpReturn);
    let mut p2pk = vec![0x41];
    p2pk.extend_from_slice(&[2u8; 65]);
    p2pk.push(0xac);
    assert_eq!(classify(&p2pk), ScriptType::P2pk);
    let mut p2pkh = vec![0x76, 0xa9, 0x14];
    p2pkh.extend_from_slice(&[7u8; 20]);
    p2pkh.extend_from_slice(&[0x88, 0xac]);
    assert_eq!(classify(&p2pkh), ScriptType::P2pkh);
    let mut p2sh = vec![0xa9, 0x14];
    p2sh.extend_from_slice(&[7u8; 20]);
    p2sh.push(0x87);
    assert_eq!(classify(&p2sh), ScriptType::P2sh);
    let mut wpkh = vec![0x00, 0x14];
    wpkh.extend_from_slice(&[7u8; 20]);
    assert_eq!(classify(&wpkh), ScriptType::V0P2wpkh);
    let mut wsh = vec![0x00, 0x20];
    wsh.extend_from_slice(&[7u8; 32]);
    assert_eq!(classify(&wsh), ScriptType::V0P2wsh);
    assert_eq!(classify(&vec![0u8; 10001]), ScriptType::ProvablyUnspendable);
    assert_eq!(classify(&vec![0x01, 0x02]), ScriptType::Unknown);
}
