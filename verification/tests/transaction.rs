use bitcoin::blockdata::script::Script;
use bitcoin::blockdata::transaction::{OutPoint, TxIn, TxOut};
use bitcoin::util::psbt::serialize::Serialize;
use bitcoin::Transaction;
use mempool_sync::transaction::Tx;

fn sample_tx(value: u64) -> Transaction {
    Transaction {
        version: 1,
        lock_time: 7,
        input: vec![TxIn {
            previous_output: OutPoint::null(),
            script_sig: Script::new(),
            sequence: 0xffff_fffe,
            witness: vec![],
        }],
        output: vec![TxOut { value, script_pubkey: Script::new() }],
    }
}

#[test]
fn from_raw_keeps_the_bytes_and_decodes_them() {
    let tx = sample_tx(99);
    let raw = tx.serialize();
    let decoded = Tx::from_raw(raw.clone()).unwrap();
    assert_eq!(*decoded.as_bytes(), raw);
    assert_eq!(*decoded.transaction(), tx);
}

#[test]
fn from_raw_refuses_bytes_that_do_not_decode() {
    assert!(Tx::from_raw(vec![]).is_none());
    assert!(Tx::from_raw(vec![1, 2, 3]).is_none());
    let mut raw = sample_tx(1).serialize();
    raw.push(0);
    assert!(Tx::from_raw(raw).is_none());
}

#[test]
fn txid_is_the_transactions_txid() {
    let tx = sample_tx(5);
    let decoded = Tx::from_raw(tx.serialize()).unwrap();
    assert_eq!(decoded.txid(), tx.txid()[..].to_vec());
    assert_eq!(decoded.txid().len(), 32);
}

#[test]
fn clone_keeps_the_bytes() {
    let decoded = Tx::from_raw(sample_tx(6).serialize()).unwrap();
    let copy = decoded.clone();
    assert_eq!(copy.as_bytes(), decoded.as_bytes());
    assert_eq!(copy.transaction(), decoded.transaction());
}
