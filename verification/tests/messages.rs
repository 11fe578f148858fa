use bitcoin::blockdata::script::Script;
use bitcoin::blockdata::transaction::{OutPoint, TxIn, TxOut};
use bitcoin::util::psbt::serialize::Serialize;
use bitcoin::Transaction;
use mempool_sync::messages::{decode_frame, encode_frame, CodecError, Frame, Message, MessageCodec};
use mempool_sync::oddsketch::Oddsketch;
use mempool_sync::transaction::Tx;

fn sample_tx(value: u64) -> Transaction {
    Transaction {
        version: 1,
        lock_time: 0,
        input: vec![TxIn {
            previous_output: OutPoint::null(),
            script_sig: Script::new(),
            sequence: 0xffff_ffff,
            witness: vec![],
        }],
        output: vec![TxOut { value, script_pubkey: Script::new() }],
    }
}

fn sample(value: u64) -> Tx {
    Tx::from_raw(sample_tx(value).serialize()).unwrap()
}

fn encode(message: Message) -> Vec<u8> {
    let mut dst = Vec::new();
    MessageCodec.encode(message, &mut dst);
    dst
}

#[test]
fn encodes_an_oddsketch() {
    let mut oddsketch = Oddsketch::default();
    oddsketch.insert(9);
    let bytes = encode(Message::Oddsketch(oddsketch));
    assert_eq!(bytes.len(), 257);
    assert_eq!(bytes[0], 0);
    assert_eq!(bytes[1], 0);
    assert_eq!(bytes[2], 0b10);
    assert!(bytes[3..].iter().all(|b| *b == 0));
}

#[test]
fn encodes_a_minisketch() {
    assert_eq!(encode(Message::Minisketch(vec![7, 8, 9])), vec![1, 0, 3, 7, 8, 9]);
    let long = vec![5u8; 300];
    let bytes = encode(Message::Minisketch(long));
    assert_eq!(&bytes[..3], &[1, 1, 44]);
    assert_eq!(bytes.len(), 303);
}

#[test]
fn encodes_get_txs() {
    let bytes = encode(Message::GetTxs(vec![1, 0x0102_0304_0506_0708]));
    assert_eq!(
        bytes,
        vec![2, 0, 2, 0, 0, 0, 0, 0, 0, 0, 1, 1, 2, 3, 4, 5, 6, 7, 8]
    );
}

#[test]
fn encodes_txs_with_their_consensus_bytes() {
    let tx = sample_tx(50);
    let raw = tx.serialize();
    let bytes = encode(Message::Txs(vec![sample(50)]));
    let mut expected = vec![3, 0, 1, (raw.len() >> 8) as u8, raw.len() as u8];
    expected.extend_from_slice(&raw);
    assert_eq!(bytes, expected);
}

#[test]
fn lengths_keep_their_low_sixteen_bits() {
    let mut dst = Vec::new();
    encode_frame(&Frame::Minisketch(vec![0u8; 65537]), &mut dst);
    assert_eq!(&dst[..3], &[1, 0, 1]);
    assert_eq!(dst.len(), 3 + 65537);
}

#[test]
fn encoding_appends_to_what_is_there() {
    let mut dst = vec![0xaa, 0xbb];
    MessageCodec.encode(Message::GetTxs(vec![]), &mut dst);
    assert_eq!(dst, vec![0xaa, 0xbb, 2, 0, 0]);
}

#[test]
fn decodes_each_kind_back() {
    let mut oddsketch = Oddsketch::default();
    oddsketch.insert(1000);
    let mut stream = Vec::new();
    let mut codec = MessageCodec;
    codec.encode(Message::Oddsketch(oddsketch.clone()), &mut stream);
    codec.encode(Message::Minisketch(vec![4, 5, 6, 7]), &mut stream);
    codec.encode(Message::GetTxs(vec![42, u64::MAX]), &mut stream);
    let tx = sample_tx(12_345);
    codec.encode(Message::Txs(vec![sample(12_345), sample(1)]), &mut stream);
    stream.push(0xee);

    match codec.decode(&mut stream) {
        Ok(Some(Message::Oddsketch(o))) => assert_eq!(o.as_bytes()[..], oddsketch.as_bytes()[..]),
        _ => panic!("expected an oddsketch"),
    }
    match codec.decode(&mut stream) {
        Ok(Some(Message::Minisketch(raw))) => assert_eq!(raw, vec![4, 5, 6, 7]),
        _ => panic!("expected a minisketch"),
    }
    match codec.decode(&mut stream) {
        Ok(Some(Message::GetTxs(ids))) => assert_eq!(ids, vec![42, u64::MAX]),
        _ => panic!("expected ids"),
    }
    match codec.decode_checked(&mut stream) {
        Ok(Some(Message::Txs(txs))) => {
            assert_eq!(txs.len(), 2);
            assert_eq!(*txs[0].transaction(), tx);
            assert_eq!(*txs[0].as_bytes(), tx.serialize());
            assert_eq!(*txs[1].transaction(), sample_tx(1));
        }
        _ => panic!("expected transactions"),
    }
    assert_eq!(stream, vec![0xee]);
    assert_eq!(codec.decode(&mut stream).unwrap_err(), CodecError::InvalidTag);
    assert_eq!(stream, vec![0xee]);
}

#[test]
fn empty_stream_is_incomplete() {
    let mut stream: Vec<u8> = Vec::new();
    assert!(matches!(MessageCodec.decode(&mut stream), Ok(None)));
}

#[test]
fn partial_messages_wait_for_more_bytes() {
    let mut codec = MessageCodec;
    let mut full = Vec::new();
    codec.encode(Message::Txs(vec![sample(3), sample(4)]), &mut full);
    for k in 0..full.len() {
        let mut stream = full[..k].to_vec();
        assert!(matches!(codec.decode_checked(&mut stream), Ok(None)), "prefix {}", k);
        assert_eq!(stream, full[..k].to_vec());
    }
    let mut stream = vec![0u8; 256];
    assert!(matches!(codec.decode(&mut stream), Ok(None)));
    assert_eq!(stream.len(), 256);
    let mut stream = vec![2u8, 0, 2, 1, 2, 3, 4, 5, 6, 7, 8, 9];
    assert!(matches!(codec.decode(&mut stream), Ok(None)));
    let mut stream = vec![1u8, 0];
    assert!(matches!(codec.decode(&mut stream), Ok(None)));
}

#[test]
fn unknown_tag_is_an_error() {
    let mut stream = vec![4u8, 1, 2, 3];
    assert_eq!(MessageCodec.decode(&mut stream).unwrap_err(), CodecError::InvalidTag);
    assert_eq!(stream, vec![4, 1, 2, 3]);
    assert_eq!(decode_frame(&[255]).unwrap_err(), CodecError::InvalidTag);
}

#[test]
fn undecodable_transaction_is_reported() {
    let mut stream = vec![3u8, 0, 1, 0, 2, 0xde, 0xad, 9];
    assert_eq!(
        MessageCodec.decode_checked(&mut stream).unwrap_err(),
        CodecError::InvalidTransaction
    );
    assert_eq!(stream, vec![3u8, 0, 1, 0, 2, 0xde, 0xad, 9]);
}

#[test]
fn decode_frame_reports_consumed_bytes() {
    let bytes = [1u8, 0, 2, 9, 9, 7];
    match decode_frame(&bytes) {
        Ok(Some((Frame::Minisketch(raw), consumed))) => {
            assert_eq!(raw, vec![9, 9]);
            assert_eq!(consumed, 5);
        }
        _ => panic!("expected a minisketch frame"),
    }
    let bytes = [3u8, 0, 2, 0, 1, 0xaa, 0, 0, 5];
    match decode_frame(&bytes) {
        Ok(Some((Frame::Txs(raws), consumed))) => {
            assert_eq!(raws, vec![vec![0xaa], vec![]]);
            assert_eq!(consumed, 8);
        }
        _ => panic!("expected a txs frame"),
    }
}

#[test]
fn transaction_lists_come_back_with_the_same_bytes() {
    let txs = vec![sample(7), sample(8), sample(7)];
    let raws: Vec<Vec<u8>> = txs.iter().map(|t| t.as_bytes().clone()).collect();
    let mut stream = encode(Message::Txs(txs));
    match MessageCodec.decode(&mut stream) {
        Ok(Some(Message::Txs(back))) => {
            let back_raws: Vec<Vec<u8>> = back.iter().map(|t| t.as_bytes().clone()).collect();
            assert_eq!(back_raws, raws);
        }
        _ => panic!("expected transactions"),
    }
    assert!(stream.is_empty());
}
