use bitcoin::blockdata::script::Script;
use bitcoin::blockdata::transaction::{OutPoint, TxIn, TxOut};
use bitcoin::util::psbt::serialize::Serialize;
use bitcoin::Transaction;
use mempool_sync::mempool::{mempool_from_hex_txs, mempool_from_raw_txs, short_id, Mempool, PopulateError};
use mempool_sync::oddsketch::Oddsketch;
use mempool_sync::transaction::Tx;

fn sample_tx(value: u64) -> Transaction {
    Transaction {
        version: 2,
        lock_time: 0,
        input: vec![TxIn {
            previous_output: OutPoint::null(),
            script_sig: Script::new(),
            sequence: 0xffff_ffff,
            witness: vec![],
        }],
        output: vec![TxOut { value, script_pubkey: Script::new() }],
    }
}

fn sample(value: u64) -> Tx {
    Tx::from_raw(sample_tx(value).serialize()).unwrap()
}

fn expected_short_id(tx: &Transaction) -> u64 {
    let txid = tx.txid();
    let mut first = [0u8; 8];
    first.copy_from_slice(&txid[0..8]);
    u64::from_be_bytes(first)
}

fn held_bytes(mempool: &Mempool, id: u64) -> Option<Vec<u8>> {
    mempool.txs().get(&id).map(|tx| tx.as_bytes().clone())
}

#[test]
fn short_id_reads_the_first_eight_bytes_big_endian() {
    assert_eq!(short_id(&[1, 2, 3, 4, 5, 6, 7, 8, 9, 10]), 0x0102_0304_0506_0708);
    assert_eq!(short_id(&[0xff; 8]), u64::MAX);
}

#[test]
fn insert_adds_a_new_transaction_once() {
    let mut mempool = Mempool::default();
    let tx = sample_tx(10);
    let id = expected_short_id(&tx);
    assert_eq!(mempool.insert(sample(10)), Some(id));
    assert_eq!(mempool.txs().len(), 1);
    assert_eq!(held_bytes(&mempool, id), Some(tx.serialize()));
    assert_eq!(*mempool.txs().get(&id).unwrap().transaction(), tx);
    assert_eq!(mempool.insert(sample(10)), None);
    assert_eq!(mempool.txs().len(), 1);

    let mut expected = Oddsketch::default();
    expected.insert(id);
    assert_eq!(mempool.oddsketch().as_bytes()[..], expected.as_bytes()[..]);
}

#[test]
fn insert_files_each_transaction_under_its_own_short_id() {
    let mut mempool = Mempool::default();
    for value in 1..6 {
        assert_eq!(mempool.insert(sample(value)), Some(expected_short_id(&sample_tx(value))));
    }
    assert_eq!(mempool.txs().len(), 5);
    for (id, tx) in mempool.txs() {
        assert_eq!(*id, short_id(&tx.txid()));
        assert_eq!(*id, expected_short_id(tx.transaction()));
    }
}

#[test]
fn remove_takes_the_transaction_out_of_the_sketch() {
    let mut mempool = Mempool::default();
    let tx = sample(11);
    let id = expected_short_id(&sample_tx(11));
    mempool.insert(tx.clone());
    let removed = mempool.remove(tx.txid());
    assert_eq!(removed, id);
    assert!(mempool.txs().is_empty());
    assert!(mempool.oddsketch().is_empty());
}

#[test]
fn remove_of_an_absent_id_still_flips_the_sketch() {
    let mut mempool = Mempool::default();
    let removed = mempool.remove(vec![0, 0, 0, 0, 0, 0, 0, 5, 99]);
    assert_eq!(removed, 5);
    assert!(mempool.txs().is_empty());
    assert_eq!(mempool.oddsketch().hamming_weight(), 1);
}

#[test]
fn insert_batch_reports_the_new_ids() {
    let mut mempool = Mempool::default();
    let a = sample_tx(1);
    let b = sample_tx(2);
    mempool.insert(sample(1));
    let added = mempool.insert_batch(vec![sample(1), sample(2), sample(2)]);
    assert_eq!(added, vec![expected_short_id(&b)]);
    assert_eq!(mempool.txs().len(), 2);
    assert_eq!(held_bytes(&mempool, expected_short_id(&b)), Some(b.serialize()));

    let mut expected = Oddsketch::default();
    expected.insert(expected_short_id(&a));
    expected.insert(expected_short_id(&b));
    assert_eq!(mempool.oddsketch().as_bytes()[..], expected.as_bytes()[..]);
}

#[test]
fn insert_batch_ends_where_inserts_in_turn_end() {
    let batch: Vec<u64> = vec![4, 1, 4, 7, 1, 9];
    let mut by_batch = Mempool::default();
    by_batch.insert(sample(7));
    let added = by_batch.insert_batch(batch.iter().map(|v| sample(*v)).collect());

    let mut in_turn = Mempool::default();
    in_turn.insert(sample(7));
    let mut added_in_turn = Vec::new();
    for value in &batch {
        if let Some(id) = in_turn.insert(sample(*value)) {
            added_in_turn.push(id);
        }
    }
    assert_eq!(added, added_in_turn);
    assert_eq!(by_batch.txs().len(), in_turn.txs().len());
    for (id, tx) in in_turn.txs() {
        assert_eq!(held_bytes(&by_batch, *id), Some(tx.as_bytes().clone()));
    }
    assert_eq!(by_batch.oddsketch().as_bytes()[..], in_turn.oddsketch().as_bytes()[..]);
}

#[test]
fn get_txs_returns_held_transactions_in_request_order() {
    let mut mempool = Mempool::default();
    let a = sample_tx(1);
    let b = sample_tx(2);
    mempool.insert(sample(1));
    mempool.insert(sample(2));
    let txs = mempool.get_txs(&[expected_short_id(&b), 77, expected_short_id(&a)]);
    let bytes: Vec<Vec<u8>> = txs.iter().map(|tx| tx.as_bytes().clone()).collect();
    assert_eq!(bytes, vec![b.serialize(), a.serialize()]);
    assert_eq!(*txs[0].transaction(), b);
}

#[test]
fn split_decoded_separates_excess_from_missing() {
    let mut mempool = Mempool::default();
    let a = sample_tx(1);
    mempool.insert(sample(1));
    let (excess, missing) = mempool.split_decoded(&[0, 9, expected_short_id(&a), 0, 12]);
    assert_eq!(excess.len(), 1);
    assert_eq!(*excess[0].as_bytes(), a.serialize());
    assert_eq!(missing, vec![9, 12]);
}

#[test]
fn sketches_of_two_mempools_combine_into_their_difference() {
    let a_tx = sample_tx(1);
    let b_tx = sample_tx(2);
    let mut a = Mempool::default();
    a.insert(sample(1));
    a.insert(sample(3));
    let mut b = Mempool::default();
    b.insert(sample(2));
    b.insert(sample(3));

    let mut expected = Oddsketch::default();
    expected.insert(expected_short_id(&a_tx));
    expected.insert(expected_short_id(&b_tx));
    let difference = a.oddsketch() ^ b.oddsketch();
    assert_eq!(difference.as_bytes()[..], expected.as_bytes()[..]);
    assert_eq!(difference.hamming_weight(), expected.hamming_weight());
}

#[test]
fn mempool_from_raw_txs_inserts_each_transaction() {
    let raws = vec![sample_tx(1).serialize(), sample_tx(2).serialize(), sample_tx(3).serialize()];
    let mempool = mempool_from_raw_txs(&raws).unwrap();
    assert_eq!(mempool.txs().len(), 3);
    let mut expected = Oddsketch::default();
    for value in 1..4 {
        let tx = sample_tx(value);
        let id = expected_short_id(&tx);
        assert_eq!(held_bytes(&mempool, id), Some(tx.serialize()));
        expected.insert(id);
    }
    assert_eq!(mempool.oddsketch().as_bytes()[..], expected.as_bytes()[..]);
}

#[test]
fn mempool_from_raw_txs_keeps_one_copy_of_a_repeated_transaction() {
    let raws = vec![sample_tx(5).serialize(), sample_tx(5).serialize()];
    let mempool = mempool_from_raw_txs(&raws).unwrap();
    assert_eq!(mempool.txs().len(), 1);
    assert_eq!(mempool.oddsketch().hamming_weight(), 1);
}

#[test]
fn mempool_from_raw_txs_of_nothing_is_empty() {
    let mempool = mempool_from_raw_txs(&vec![]).unwrap();
    assert!(mempool.txs().is_empty());
    assert!(mempool.oddsketch().is_empty());
}

#[test]
fn mempool_from_raw_txs_names_the_first_bytes_that_do_not_decode() {
    let raws = vec![sample_tx(1).serialize(), vec![1, 2, 3], vec![]];
    assert_eq!(mempool_from_raw_txs(&raws).err(), Some(1));
    let raws = vec![vec![], sample_tx(1).serialize()];
    assert_eq!(mempool_from_raw_txs(&raws).err(), Some(0));
}

#[test]
fn mempool_from_hex_txs_decodes_the_nodes_texts() {
    let lower = hex::encode(sample_tx(1).serialize()).into_bytes();
    let upper = hex::encode(sample_tx(2).serialize()).to_uppercase().into_bytes();
    let mempool = mempool_from_hex_txs(&vec![lower, upper]).unwrap();
    assert_eq!(mempool.txs().len(), 2);
    let id = expected_short_id(&sample_tx(2));
    assert_eq!(held_bytes(&mempool, id), Some(sample_tx(2).serialize()));
    let mut expected = Oddsketch::default();
    expected.insert(expected_short_id(&sample_tx(1)));
    expected.insert(id);
    assert_eq!(mempool.oddsketch().as_bytes()[..], expected.as_bytes()[..]);
}

#[test]
fn mempool_from_hex_txs_refuses_text_that_is_not_hexadecimal() {
    let good = hex::encode(sample_tx(1).serialize()).into_bytes();
    let texts = vec![good.clone(), b"zz".to_vec(), good.clone()];
    assert_eq!(mempool_from_hex_txs(&texts).err(), Some(PopulateError::InvalidHex(1)));
    let odd = vec![good.clone(), b"abc".to_vec()];
    assert_eq!(mempool_from_hex_txs(&odd).err(), Some(PopulateError::InvalidHex(1)));
}

#[test]
fn mempool_from_hex_txs_refuses_bytes_that_are_no_transaction() {
    let good = hex::encode(sample_tx(1).serialize()).into_bytes();
    let texts = vec![good.clone(), b"0102".to_vec(), b"xy".to_vec()];
    assert_eq!(mempool_from_hex_txs(&texts).err(), Some(PopulateError::InvalidTransaction(1)));
    let texts = vec![good, b"0102".to_vec(), good_text(3)];
    assert_eq!(mempool_from_hex_txs(&texts).err(), Some(PopulateError::InvalidTransaction(1)));
}

fn good_text(value: u64) -> Vec<u8> {
    hex::encode(sample_tx(value).serialize()).into_bytes()
}
