use crate::endian::{
    be_value, law_be16_value, law_be64_value, lemma_be16_mod, be16, be64, copy_range, get_u16_be, get_u64_be, put_slice, put_u16_be, put_u64_be,
    read_be16, read_be64,
};
use crate::oddsketch::{Oddsketch, DEFAULT_LEN};
use crate::endian::byte_strings;
use crate::transaction::{deserialize_transaction, tx_parses, tx_views, Tx};
use vstd::prelude::*;

verus! {

/// What a message carries, as it travels on the wire.
pub enum MessageModel {
    /// The 256 bytes of an odd sketch.
    Oddsketch(Seq<u8>),
    /// A serialized minisketch.
    Minisketch(Seq<u8>),
    /// Short ids of requested transactions.
    GetTxs(Seq<u64>),
    /// Serialized transactions.
    Txs(Seq<Seq<u8>>),
}

/// Outcome of decoding the front of a byte stream.
pub enum Decoded {
    /// The stream holds only part of a message so far.
    Incomplete,
    /// The first byte names no message kind.
    InvalidTag,
    /// A whole message, and the number of bytes it takes.
    Complete(MessageModel, nat),
}

/// Errors of the codec.
#[derive(PartialEq, Eq, Debug, Clone, Copy, Structural)]
pub enum CodecError {
    /// The first byte of a message names no message kind.
    InvalidTag,
    /// A transaction of a `Txs` message does not decode.
    InvalidTransaction,
}

/// A message of the protocol, with its payloads in their wire form.
#[derive(Debug)]
pub enum Frame {
    /// `0 || oddsketch bytes`
    Oddsketch(Oddsketch),
    /// `1 || length (u16) || minisketch`
    Minisketch(Vec<u8>),
    /// `2 || n_ids (u16) || id || .. || id`
    GetTxs(Vec<u64>),
    /// `3 || n_txs (u16) || tx_len (u16) || tx || .. || tx_len (u16) || tx`
    Txs(Vec<Vec<u8>>),
}

impl View for Frame {
    type V = MessageModel;

    open spec fn view(&self) -> MessageModel {
        match self {
            Frame::Oddsketch(o) => MessageModel::Oddsketch(o@),
            Frame::Minisketch(raw) => MessageModel::Minisketch(raw@),
            Frame::GetTxs(ids) => MessageModel::GetTxs(ids@),
            Frame::Txs(txs) => MessageModel::Txs(byte_strings(txs@)),
        }
    }
}

/// A message of the protocol. A minisketch travels in its serialized form.
#[derive(Debug)]
pub enum Message {
    Oddsketch(Oddsketch),
    Minisketch(Vec<u8>),
    GetTxs(Vec<u64>),
    Txs(Vec<Tx>),
}

/// The payload that `m` carries.
pub open spec fn message_model(m: Message) -> MessageModel {
    match m {
        Message::Oddsketch(o) => MessageModel::Oddsketch(o@),
        Message::Minisketch(raw) => MessageModel::Minisketch(raw@),
        Message::GetTxs(ids) => MessageModel::GetTxs(ids@),
        Message::Txs(txs) => MessageModel::Txs(tx_views(txs@)),
    }
}

/// The big-endian bytes of a sequence of ids.
pub open spec fn ids_bytes(ids: Seq<u64>) -> Seq<u8>
    decreases ids.len(),
{
    if ids.len() == 0 {
        Seq::empty()
    } else {
        ids_bytes(ids.drop_last()) + be64(ids.last())
    }
}

/// Each transaction preceded by its length.
pub open spec fn tx_records(txs: Seq<Seq<u8>>) -> Seq<u8>
    decreases txs.len(),
{
    if txs.len() == 0 {
        Seq::empty()
    } else {
        tx_records(txs.drop_last()) + be16(txs.last().len()) + txs.last()
    }
}

/// The bytes of a message on the wire. Counts and lengths are written as
/// 16-bit numbers, keeping their low 16 bits.
pub open spec fn encoding(m: MessageModel) -> Seq<u8> {
    match m {
        MessageModel::Oddsketch(bytes) => seq![0u8] + bytes,
        MessageModel::Minisketch(raw) => seq![1u8] + be16(raw.len()) + raw,
        MessageModel::GetTxs(ids) => seq![2u8] + be16(ids.len()) + ids_bytes(ids),
        MessageModel::Txs(txs) => seq![3u8] + be16(txs.len()) + tx_records(txs),
    }
}

/// The `n` big-endian ids stored from `pos` on.
pub open spec fn read_ids(s: Seq<u8>, pos: int, n: nat) -> Seq<u64> {
    Seq::new(n, |k: int| read_be64(s, pos + 8 * k))
}

/// Reads `n` length-prefixed transactions from `pos` on: the transactions
/// and the position after them, or `None` when the stream ends first.
pub open spec fn read_tx_records(s: Seq<u8>, pos: int, n: nat) -> Option<(Seq<Seq<u8>>, int)>
    decreases n,
{
    if n == 0 {
        Some((Seq::empty(), pos))
    } else {
        match read_tx_records(s, pos, (n - 1) as nat) {
            None => None,
            Some((txs, p)) => {
                if s.len() - p < 2 {
                    None
                } else {
                    let len = read_be16(s, p) as int;
                    if s.len() - p - 2 < len {
                        None
                    } else {
                        Some((txs.push(s.subrange(p + 2, p + 2 + len)), p + 2 + len))
                    }
                }
            },
        }
    }
}

/// Decoding of the front of a byte stream.
pub open spec fn decode_spec(s: Seq<u8>) -> Decoded {
    if s.len() == 0 {
        Decoded::Incomplete
    } else if s[0] == 0 {
        if s.len() - 1 < 256 {
            Decoded::Incomplete
        } else {
            Decoded::Complete(MessageModel::Oddsketch(s.subrange(1, 257)), 257)
        }
    } else if s[0] == 1 {
        if s.len() - 1 < 2 {
            Decoded::Incomplete
        } else {
            let len = read_be16(s, 1) as int;
            if s.len() - 3 < len {
                Decoded::Incomplete
            } else {
                Decoded::Complete(MessageModel::Minisketch(s.subrange(3, 3 + len)), (3 + len) as nat)
            }
        }
    } else if s[0] == 2 {
        if s.len() - 1 < 2 {
            Decoded::Incomplete
        } else {
            let len = read_be16(s, 1) as int;
            if s.len() - 3 < len * 8 {
                Decoded::Incomplete
            } else {
                Decoded::Complete(MessageModel::GetTxs(read_ids(s, 3, len as nat)), (3 + len * 8) as nat)
            }
        }
    } else if s[0] == 3 {
        if s.len() - 1 < 2 {
            Decoded::Incomplete
        } else {
            match read_tx_records(s, 3, read_be16(s, 1)) {
                None => Decoded::Incomplete,
                Some((txs, end)) => Decoded::Complete(MessageModel::Txs(txs), end as nat),
            }
        }
    } else {
        Decoded::InvalidTag
    }
}

fn encode_minisketch(raw: &Vec<u8>, dst: &mut Vec<u8>)
    ensures
        final(dst)@ == old(dst)@ + encoding(MessageModel::Minisketch(raw@)),
{
    let length = raw.len();
    dst.push(1u8);
    put_u16_be(dst, (length % 65536) as u16);
    put_slice(dst, raw.as_slice());
    assert(final(dst)@ =~= old(dst)@ + encoding(MessageModel::Minisketch(raw@)));
}

fn encode_get_txs(vec_ids: &Vec<u64>, dst: &mut Vec<u8>)
    ensures
        final(dst)@ == old(dst)@ + encoding(MessageModel::GetTxs(vec_ids@)),
{
    let vec_len = vec_ids.len();
    dst.push(2u8);
    put_u16_be(dst, (vec_len % 65536) as u16);
    let ghost start = dst@;
    let mut i: usize = 0;
    while i < vec_len
        invariant
            i <= vec_len,
            vec_len == vec_ids@.len(),
            dst@ == start + ids_bytes(vec_ids@.take(i as int)),
        decreases vec_len - i,
    {
        put_u64_be(dst, vec_ids[i]);
        i = i + 1;
        assert(vec_ids@.take(i as int).drop_last() =~= vec_ids@.take(i - 1));
        assert(dst@ =~= start + ids_bytes(vec_ids@.take(i as int)));
    }
    assert(vec_ids@.take(vec_len as int) =~= vec_ids@);
    assert(final(dst)@ =~= old(dst)@ + encoding(MessageModel::GetTxs(vec_ids@)));
}

#[verifier::rlimit(40)]
fn encode_txs(vec_tx: &Vec<Vec<u8>>, dst: &mut Vec<u8>)
    ensures
        final(dst)@ == old(dst)@ + encoding(MessageModel::Txs(byte_strings(vec_tx@))),
{
    let vec_len = vec_tx.len();
    dst.push(3u8);
    put_u16_be(dst, (vec_len % 65536) as u16);
    let ghost start = dst@;
    let ghost txs = byte_strings(vec_tx@);
    let mut i: usize = 0;
    while i < vec_len
        invariant
            i <= vec_len,
            vec_len == vec_tx@.len(),
            txs == byte_strings(vec_tx@),
            dst@ == start + tx_records(txs.take(i as int)),
        decreases vec_len - i,
    {
        let raw = &vec_tx[i];
        let ghost before = dst@;
        put_u16_be(dst, (raw.len() % 65536) as u16);
        put_slice(dst, raw.as_slice());
        proof {
            lemma_be16_mod(raw@.len());
            assert(txs[i as int] == raw@);
            let prefix = txs.take(i + 1);
            assert(prefix.drop_last() =~= txs.take(i as int));
            assert(prefix.last() == raw@);
            assert(tx_records(prefix) == tx_records(txs.take(i as int)) + be16(raw@.len()) + raw@);
            assert(dst@ =~= start + tx_records(prefix));
        }
        i = i + 1;
    }
    assert(txs.take(vec_len as int) =~= txs);
    assert(final(dst)@ =~= old(dst)@ + encoding(MessageModel::Txs(txs)));
}

/// Appends the wire bytes of `frame` to `dst`.
pub fn encode_frame(frame: &Frame, dst: &mut Vec<u8>)
    ensures
        final(dst)@ == old(dst)@ + encoding(frame@),
{
    match frame {
        Frame::Oddsketch(oddsketch) => {
            let raw = oddsketch.as_bytes();
            dst.push(0u8);
            put_slice(dst, raw);
            assert(final(dst)@ =~= old(dst)@ + encoding(frame@));
        },
        Frame::Minisketch(raw) => encode_minisketch(raw, dst),
        Frame::GetTxs(vec_ids) => encode_get_txs(vec_ids, dst),
        Frame::Txs(vec_tx) => encode_txs(vec_tx, dst),
    }
}

/// Once the stream ends before a transaction, it ends before any later one.
proof fn lemma_records_none_persists(s: Seq<u8>, pos: int, m: nat, n: nat)
    requires
        m <= n,
        read_tx_records(s, pos, m) is None,
    ensures
        read_tx_records(s, pos, n) is None,
    decreases n,
{
    if m < n {
        lemma_records_none_persists(s, pos, m, (n - 1) as nat);
    }
}

/// Whether `res` is the outcome that `decode_spec` describes for `s`.
pub open spec fn decode_result_matches(s: Seq<u8>, res: Result<Option<(Frame, usize)>, CodecError>) -> bool {
    match decode_spec(s) {
        Decoded::Incomplete => res is Ok && res->Ok_0 is None,
        Decoded::InvalidTag => res is Err && res->Err_0 == CodecError::InvalidTag,
        Decoded::Complete(m, n) => res is Ok && res->Ok_0 is Some && res->Ok_0->Some_0.0@ == m
            && res->Ok_0->Some_0.1 == n,
    }
}

fn decode_oddsketch(src: &[u8]) -> (res: Option<(Frame, usize)>)
    requires
        src@.len() > 0,
        src@[0] == 0,
    ensures
        decode_result_matches(src@, Ok(res)),
{
    if src.len() - 1 < DEFAULT_LEN {
        return None;
    }
    let mut raw = [0u8; 256];
    let mut i: usize = 0;
    while i < 256
        invariant
            i <= 256,
            src@.len() >= 257,
            raw@.len() == 256,
            forall|j: int| 0 <= j < i ==> raw@[j] == src@[1 + j],
        decreases 256 - i,
    {
        raw[i] = src[1 + i];
        i = i + 1;
    }
    assert(raw@ =~= src@.subrange(1, 257));
    Some((Frame::Oddsketch(Oddsketch::new(raw)), DEFAULT_LEN + 1))
}

fn decode_minisketch(src: &[u8]) -> (res: Option<(Frame, usize)>)
    requires
        src@.len() > 0,
        src@[0] == 1,
    ensures
        decode_result_matches(src@, Ok(res)),
{
    if src.len() - 1 < 2 {
        return None;
    }
    let len = get_u16_be(src, 1) as usize;
    if src.len() - 3 < len {
        return None;
    }
    let raw = copy_range(src, 3, len);
    Some((Frame::Minisketch(raw), 3 + len))
}

fn decode_get_txs(src: &[u8]) -> (res: Option<(Frame, usize)>)
    requires
        src@.len() > 0,
        src@[0] == 2,
    ensures
        decode_result_matches(src@, Ok(res)),
{
    if src.len() - 1 < 2 {
        return None;
    }
    let len = get_u16_be(src, 1) as usize;
    if src.len() - 3 < len * 8 {
        return None;
    }
    let mut ids: Vec<u64> = Vec::with_capacity(len);
    let mut k: usize = 0;
    while k < len
        invariant
            k <= len,
            len <= 65535,
            3 + len * 8 <= src@.len(),
            ids@ == read_ids(src@, 3, k as nat),
        decreases len - k,
    {
        let id = get_u64_be(src, 3 + 8 * k);
        ids.push(id);
        k = k + 1;
        assert(ids@ =~= read_ids(src@, 3, k as nat));
    }
    Some((Frame::GetTxs(ids), 3 + len * 8))
}

fn decode_txs(src: &[u8]) -> (res: Option<(Frame, usize)>)
    requires
        src@.len() > 0,
        src@[0] == 3,
    ensures
        decode_result_matches(src@, Ok(res)),
{
    if src.len() - 1 < 2 {
        return None;
    }
    let vec_len = get_u16_be(src, 1) as usize;
    let mut vec_tx: Vec<Vec<u8>> = Vec::with_capacity(vec_len);
    let mut total_len: usize = 3;
    let mut k: usize = 0;
    while k < vec_len
        invariant
            k <= vec_len,
            vec_len == read_be16(src@, 1),
            src@[0] == 3,
            src@.len() >= 3,
            3 <= total_len <= src@.len(),
            read_tx_records(src@, 3, k as nat) == Some((byte_strings(vec_tx@), total_len as int)),
        decreases vec_len - k,
    {
        proof {
            reveal_with_fuel(read_tx_records, 2);
        }
        if src.len() - total_len < 2 {
            proof {
                assert(read_tx_records(src@, 3, (k + 1) as nat) is None);
                lemma_records_none_persists(src@, 3, (k + 1) as nat, vec_len as nat);
            }
            return None;
        }
        let tx_len = get_u16_be(src, total_len) as usize;
        if src.len() - total_len - 2 < tx_len {
            proof {
                assert(read_tx_records(src@, 3, (k + 1) as nat) is None);
                lemma_records_none_persists(src@, 3, (k + 1) as nat, vec_len as nat);
            }
            return None;
        }
        let raw_tx = copy_range(src, total_len + 2, tx_len);
        let ghost before = vec_tx@;
        vec_tx.push(raw_tx);
        proof {
            assert(byte_strings(vec_tx@) =~= byte_strings(before).push(raw_tx@));
        }
        total_len = total_len + 2 + tx_len;
        k = k + 1;
    }
    Some((Frame::Txs(vec_tx), total_len))
}

/// Decodes the message at the front of `src`: `Ok(None)` while it is
/// incomplete, the message and the number of bytes it takes once it is
/// whole, and an error when its first byte names no message kind.
pub fn decode_frame(src: &[u8]) -> (res: Result<Option<(Frame, usize)>, CodecError>)
    ensures
        decode_result_matches(src@, res),
{
    if src.len() == 0 {
        return Ok(None);
    }
    let tag = src[0];
    if tag == 0 {
        Ok(decode_oddsketch(src))
    } else if tag == 1 {
        Ok(decode_minisketch(src))
    } else if tag == 2 {
        Ok(decode_get_txs(src))
    } else if tag == 3 {
        Ok(decode_txs(src))
    } else {
        Err(CodecError::InvalidTag)
    }
}

/// A message whose counts and lengths fit in the 16 bits the wire gives them.
pub open spec fn well_formed(m: MessageModel) -> bool {
    match m {
        MessageModel::Oddsketch(bytes) => bytes.len() == 256,
        MessageModel::Minisketch(raw) => raw.len() <= 65535,
        MessageModel::GetTxs(ids) => ids.len() <= 65535,
        MessageModel::Txs(txs) => txs.len() <= 65535 && forall|i: int|
            0 <= i < txs.len() ==> #[trigger] txs[i].len() <= 65535,
    }
}

proof fn lemma_ids_bytes_len(ids: Seq<u64>)
    ensures
        ids_bytes(ids).len() == 8 * ids.len(),
    decreases ids.len(),
{
    if ids.len() > 0 {
        lemma_ids_bytes_len(ids.drop_last());
    }
}

proof fn lemma_ids_bytes(ids: Seq<u64>)
    ensures
        ids_bytes(ids).len() == 8 * ids.len(),
        forall|k: int|
            0 <= k < ids.len() ==> #[trigger] ids_bytes(ids).subrange(8 * k, 8 * k + 8) == be64(
                ids[k],
            ),
    decreases ids.len(),
{
    if ids.len() > 0 {
        let init = ids.drop_last();
        lemma_ids_bytes(init);
        let b = ids_bytes(ids);
        assert forall|k: int| 0 <= k < ids.len() implies #[trigger] b.subrange(8 * k, 8 * k + 8)
            == be64(ids[k]) by {
            if k < init.len() {
                assert(b.subrange(8 * k, 8 * k + 8) =~= ids_bytes(init).subrange(8 * k, 8 * k + 8));
            } else {
                assert(b.subrange(8 * k, 8 * k + 8) =~= be64(ids.last()));
            }
        }
    }
}

proof fn lemma_read_ids(s: Seq<u8>, pos: int, ids: Seq<u64>)
    requires
        0 <= pos,
        pos + 8 * ids.len() <= s.len(),
        s.subrange(pos, pos + 8 * ids.len()) == ids_bytes(ids),
    ensures
        read_ids(s, pos, ids.len()) == ids,
{
    lemma_ids_bytes(ids);
    assert forall|k: int| 0 <= k < ids.len() implies #[trigger] read_ids(s, pos, ids.len())[k]
        == ids[k] by {
        let w = ids_bytes(ids).subrange(8 * k, 8 * k + 8);
        assert(w == be64(ids[k]));
        assert forall|j: int| 0 <= j < 8 implies s[pos + 8 * k + j] == w[j] by {
            assert(s[pos + 8 * k + j] == s.subrange(pos, pos + 8 * ids.len())[8 * k + j]);
        }
        crate::endian::lemma_be64_roundtrip(ids[k]);
    }
    assert(read_ids(s, pos, ids.len()) =~= ids);
}

proof fn lemma_read_tx_records(s: Seq<u8>, pos: int, txs: Seq<Seq<u8>>)
    requires
        0 <= pos,
        pos + tx_records(txs).len() <= s.len(),
        s.subrange(pos, pos + tx_records(txs).len()) == tx_records(txs),
        forall|i: int| 0 <= i < txs.len() ==> #[trigger] txs[i].len() <= 65535,
    ensures
        read_tx_records(s, pos, txs.len()) == Some((txs, pos + tx_records(txs).len())),
    decreases txs.len(),
{
    if txs.len() > 0 {
        let init = txs.drop_last();
        let last = txs.last();
        let all = tx_records(txs);
        let li = tx_records(init).len() as int;
        assert(all == tx_records(init) + be16(last.len()) + last);
        assert(s.subrange(pos, pos + li) =~= all.subrange(0, li));
        assert(all.subrange(0, li) =~= tx_records(init));
        assert forall|i: int| 0 <= i < init.len() implies #[trigger] init[i].len() <= 65535 by {
            assert(init[i] == txs[i]);
        }
        lemma_read_tx_records(s, pos, init);
        let p = pos + li;
        assert(s[p] == all[li]);
        assert(s[p + 1] == all[li + 1]);
        crate::endian::lemma_be16_roundtrip(last.len(), last);
        assert((be16(last.len()) + last)[0] == all[li]);
        assert((be16(last.len()) + last)[1] == all[li + 1]);
        assert(read_be16(s, p) == last.len());
        assert(s.subrange(p + 2, p + 2 + last.len()) =~= last) by {
            assert forall|j: int| 0 <= j < last.len() implies s.subrange(p + 2, p + 2 + last.len())[j]
                == last[j] by {
                assert(s[p + 2 + j] == all[li + 2 + j]);
            }
        }
        assert(init.push(last) =~= txs);
    }
}

proof fn lemma_roundtrip_minisketch(raw: Seq<u8>, rest: Seq<u8>)
    requires
        raw.len() <= 65535,
    ensures
        decode_spec(encoding(MessageModel::Minisketch(raw)) + rest) == Decoded::Complete(
            MessageModel::Minisketch(raw),
            encoding(MessageModel::Minisketch(raw)).len(),
        ),
{
    let s = encoding(MessageModel::Minisketch(raw)) + rest;
    crate::endian::lemma_be16_roundtrip(raw.len(), raw + rest);
    assert(s =~= seq![1u8] + (be16(raw.len()) + raw + rest));
    assert(s.subrange(3, 3 + raw.len() as int) =~= raw);
}

proof fn lemma_roundtrip_get_txs(ids: Seq<u64>, rest: Seq<u8>)
    requires
        ids.len() <= 65535,
    ensures
        decode_spec(encoding(MessageModel::GetTxs(ids)) + rest) == Decoded::Complete(
            MessageModel::GetTxs(ids),
            encoding(MessageModel::GetTxs(ids)).len(),
        ),
{
    let body = ids_bytes(ids);
    let s = encoding(MessageModel::GetTxs(ids)) + rest;
    let n = ids.len();
    lemma_ids_bytes_len(ids);
    assert(s.len() == 3 + 8 * n + rest.len());
    assert(s[0] == 2u8);
    assert(read_be16(s, 1) == n) by {
        crate::endian::lemma_be16_roundtrip(n, body + rest);
        assert(s[1] == (be16(n) + (body + rest))[0]);
        assert(s[2] == (be16(n) + (body + rest))[1]);
    }
    assert(s.subrange(3, 3 + 8 * n as int) =~= body) by {
        assert forall|k: int| 0 <= k < 8 * n implies s.subrange(3, 3 + 8 * n as int)[k] == body[k] by {
            assert(s[3 + k] == body[k]);
        }
    }
    lemma_read_ids(s, 3, ids);
}

proof fn lemma_roundtrip_txs(txs: Seq<Seq<u8>>, rest: Seq<u8>)
    requires
        well_formed(MessageModel::Txs(txs)),
    ensures
        decode_spec(encoding(MessageModel::Txs(txs)) + rest) == Decoded::Complete(
            MessageModel::Txs(txs),
            encoding(MessageModel::Txs(txs)).len(),
        ),
{
    let s = encoding(MessageModel::Txs(txs)) + rest;
    crate::endian::lemma_be16_roundtrip(txs.len(), tx_records(txs) + rest);
    assert(s =~= seq![3u8] + (be16(txs.len()) + tx_records(txs) + rest));
    assert(s.subrange(3, 3 + tx_records(txs).len() as int) =~= tx_records(txs));
    lemma_read_tx_records(s, 3, txs);
}

proof fn lemma_be16_of_read(s: Seq<u8>, pos: int)
    requires
        0 <= pos,
        pos + 2 <= s.len(),
    ensures
        read_be16(s, pos) <= 65535,
        be16(read_be16(s, pos)) == s.subrange(pos, pos + 2),
{
    let a = s[pos] as int;
    let b = s[pos + 1] as int;
    assert((a * 256 + b) / 256 == a && (a * 256 + b) % 256 == b) by (nonlinear_arith)
        requires
            0 <= a < 256,
            0 <= b < 256,
    ;
    assert(be16(read_be16(s, pos)) =~= s.subrange(pos, pos + 2));
}

proof fn lemma_be64_of_read(s: Seq<u8>, pos: int)
    requires
        0 <= pos,
        pos + 8 <= s.len(),
    ensures
        be64(read_be64(s, pos)) == s.subrange(pos, pos + 8),
{
    let (b0, b1, b2, b3, b4, b5, b6, b7) = (
        s[pos],
        s[pos + 1],
        s[pos + 2],
        s[pos + 3],
        s[pos + 4],
        s[pos + 5],
        s[pos + 6],
        s[pos + 7],
    );
    let x = read_be64(s, pos);
    assert(x == crate::endian::u64_of_be(b0, b1, b2, b3, b4, b5, b6, b7));
    assert({
        let y = crate::endian::u64_of_be(b0, b1, b2, b3, b4, b5, b6, b7);
        &&& (y >> 56u64) as u8 == b0
        &&& (y >> 48u64) as u8 == b1
        &&& (y >> 40u64) as u8 == b2
        &&& (y >> 32u64) as u8 == b3
        &&& (y >> 24u64) as u8 == b4
        &&& (y >> 16u64) as u8 == b5
        &&& (y >> 8u64) as u8 == b6
        &&& y as u8 == b7
    }) by (bit_vector);
    assert(be64(x) =~= s.subrange(pos, pos + 8));
}

proof fn lemma_ids_bytes_of_read(s: Seq<u8>, pos: int, n: nat)
    requires
        0 <= pos,
        pos + 8 * n <= s.len(),
    ensures
        ids_bytes(read_ids(s, pos, n)) == s.subrange(pos, pos + 8 * n),
    decreases n,
{
    if n > 0 {
        let ids = read_ids(s, pos, n);
        lemma_ids_bytes_of_read(s, pos, (n - 1) as nat);
        assert(ids.drop_last() =~= read_ids(s, pos, (n - 1) as nat));
        lemma_be64_of_read(s, pos + 8 * (n - 1));
        assert(ids_bytes(ids) == ids_bytes(ids.drop_last()) + be64(ids.last()));
        assert(s.subrange(pos, pos + 8 * n) =~= s.subrange(pos, pos + 8 * (n - 1)) + s.subrange(
            pos + 8 * (n - 1),
            pos + 8 * n,
        ));
    }
}

proof fn lemma_records_of_read(s: Seq<u8>, pos: int, n: nat)
    requires
        0 <= pos <= s.len(),
        read_tx_records(s, pos, n) is Some,
    ensures
        ({
            let (txs, end) = read_tx_records(s, pos, n)->Some_0;
            &&& txs.len() == n
            &&& pos <= end <= s.len()
            &&& tx_records(txs) == s.subrange(pos, end)
            &&& forall|i: int| 0 <= i < txs.len() ==> #[trigger] txs[i].len() <= 65535
        }),
    decreases n,
{
    if n > 0 {
        lemma_records_of_read(s, pos, (n - 1) as nat);
        let (txs0, p) = read_tx_records(s, pos, (n - 1) as nat)->Some_0;
        let len = read_be16(s, p) as int;
        let (txs, end) = read_tx_records(s, pos, n)->Some_0;
        assert(txs == txs0.push(s.subrange(p + 2, p + 2 + len)));
        lemma_be16_of_read(s, p);
        assert(txs.drop_last() =~= txs0);
        assert(tx_records(txs) == tx_records(txs0) + be16(txs.last().len()) + txs.last());
        assert(s.subrange(pos, end) =~= s.subrange(pos, p) + s.subrange(p, p + 2) + s.subrange(
            p + 2,
            end,
        ));
        assert forall|i: int| 0 <= i < txs.len() implies #[trigger] txs[i].len() <= 65535 by {
            if i < txs0.len() {
                assert(txs[i] == txs0[i]);
            }
        }
    }
}

/// Only the tags 0 to 3 name messages: a stream whose first byte is any
/// other value is refused whatever follows, and an empty stream waits for
/// more bytes.
pub proof fn law_unknown_tag_refused(s: Seq<u8>)
    ensures
        s.len() == 0 ==> decode_spec(s) == Decoded::Incomplete,
        s.len() > 0 && s[0] > 3 ==> decode_spec(s) == Decoded::InvalidTag,
        s.len() > 0 && s[0] <= 3 ==> decode_spec(s) != Decoded::InvalidTag,
{
}

/// Decoding reads nothing but an encoding: a complete message that decodes
/// from a stream is well formed, and the bytes it takes are exactly the
/// wire bytes of that message.
pub proof fn law_decode_reads_an_encoding(s: Seq<u8>)
    ensures
        decode_spec(s) matches Decoded::Complete(m, n) ==> n <= s.len() && well_formed(m)
            && s.take(n as int) == encoding(m),
{
    if s.len() >= 3 {
        match decode_spec(s) {
            Decoded::Complete(m, n) => {
                lemma_be16_of_read(s, 1);
                let len = read_be16(s, 1);
                match m {
                    MessageModel::Oddsketch(bytes) => {
                        assert(s.take(257) =~= seq![0u8] + bytes);
                    },
                    MessageModel::Minisketch(raw) => {
                        assert(s.take(n as int) =~= seq![1u8] + s.subrange(1, 3) + raw);
                    },
                    MessageModel::GetTxs(ids) => {
                        lemma_ids_bytes_of_read(s, 3, len);
                        assert(s.take(n as int) =~= seq![2u8] + s.subrange(1, 3) + s.subrange(
                            3,
                            3 + 8 * len as int,
                        ));
                    },
                    MessageModel::Txs(txs) => {
                        lemma_records_of_read(s, 3, len);
                        assert(s.take(n as int) =~= seq![3u8] + s.subrange(1, 3) + s.subrange(
                            3,
                            n as int,
                        ));
                    },
                }
            },
            _ => {},
        }
    }
}

/// Round trip: a well-formed message, encoded and followed by any bytes,
/// decodes to itself and takes exactly the bytes of its encoding.
pub proof fn law_decode_encode(m: MessageModel, rest: Seq<u8>)
    requires
        well_formed(m),
    ensures
        decode_spec(encoding(m) + rest) == Decoded::Complete(m, encoding(m).len()),
{
    match m {
        MessageModel::Oddsketch(bytes) => {
            assert((encoding(m) + rest).subrange(1, 257) =~= bytes);
        },
        MessageModel::Minisketch(raw) => lemma_roundtrip_minisketch(raw, rest),
        MessageModel::GetTxs(ids) => lemma_roundtrip_get_txs(ids, rest),
        MessageModel::Txs(txs) => lemma_roundtrip_txs(txs, rest),
    }
}

/// Where the record of transaction `j` starts among the records of `txs`:
/// every earlier record takes two length bytes and its transaction's bytes.
pub open spec fn record_offset(txs: Seq<Seq<u8>>, j: int) -> int
    decreases j,
{
    if j <= 0 {
        0
    } else {
        record_offset(txs, j - 1) + 2 + txs[j - 1].len()
    }
}

proof fn lemma_record_offset_prefix(txs: Seq<Seq<u8>>, k: int, j: int)
    requires
        0 <= j <= k <= txs.len(),
    ensures
        record_offset(txs.take(k), j) == record_offset(txs, j),
        0 <= record_offset(txs, j) <= record_offset(txs, k),
    decreases j + k,
{
    if j > 0 {
        lemma_record_offset_prefix(txs, k, j - 1);
        assert(txs.take(k)[j - 1] == txs[j - 1]);
    }
    if k > j {
        lemma_record_offset_prefix(txs, k - 1, j);
    }
}

proof fn lemma_tx_records_len(txs: Seq<Seq<u8>>)
    ensures
        tx_records(txs).len() == record_offset(txs, txs.len() as int),
    decreases txs.len(),
{
    if txs.len() > 0 {
        let n = txs.len() as int;
        let init = txs.drop_last();
        lemma_tx_records_len(init);
        assert(init =~= txs.take(n - 1));
        lemma_record_offset_prefix(txs, n - 1, n - 1);
    }
}

proof fn lemma_tx_record_at(txs: Seq<Seq<u8>>, j: int)
    requires
        0 <= j < txs.len(),
    ensures
        0 <= record_offset(txs, j),
        record_offset(txs, j) + 2 + txs[j].len() <= tx_records(txs).len(),
        be_value(tx_records(txs).subrange(record_offset(txs, j), record_offset(txs, j) + 2))
            == txs[j].len() % 65536,
        tx_records(txs).subrange(record_offset(txs, j) + 2, record_offset(txs, j) + 2 + txs[j].len())
            == txs[j],
    decreases txs.len(),
{
    let n = txs.len() as int;
    let init = txs.drop_last();
    let last = txs.last();
    let r0 = tx_records(init);
    let r = tx_records(txs);
    assert(r == r0 + be16(last.len()) + last);
    lemma_tx_records_len(init);
    assert(init =~= txs.take(n - 1));
    lemma_record_offset_prefix(txs, n - 1, n - 1);
    lemma_record_offset_prefix(txs, n - 1, if j < n - 1 { j } else { n - 1 });
    let o = record_offset(txs, j);
    if j < n - 1 {
        lemma_tx_record_at(init, j);
        lemma_record_offset_prefix(txs, n - 1, j);
        assert(init[j] == txs[j]);
        assert(r.subrange(o, o + 2) =~= r0.subrange(o, o + 2));
        assert(r.subrange(o + 2, o + 2 + txs[j].len()) =~= r0.subrange(o + 2, o + 2 + txs[j].len()));
    } else {
        law_be16_value(last.len());
        assert(o == r0.len());
        assert(r.subrange(o, o + 2) =~= be16(last.len()));
        assert(r.subrange(o + 2, o + 2 + txs[j].len()) =~= last);
    }
}

/// The wire bytes of an odd sketch message: tag 0, then the sketch's bytes
/// as they are.
pub proof fn law_wire_oddsketch(bytes: Seq<u8>)
    ensures
        encoding(MessageModel::Oddsketch(bytes)).len() == 1 + bytes.len(),
        encoding(MessageModel::Oddsketch(bytes))[0] == 0,
        encoding(MessageModel::Oddsketch(bytes)).subrange(1, 1 + bytes.len() as int) == bytes,
{
    let e = encoding(MessageModel::Oddsketch(bytes));
    assert(e.subrange(1, 1 + bytes.len() as int) =~= bytes);
}

/// The wire bytes of a minisketch message: tag 1, the payload's length as
/// two base-256 digits (modulo 65536), then the payload as it is.
pub proof fn law_wire_minisketch(raw: Seq<u8>)
    ensures
        encoding(MessageModel::Minisketch(raw)).len() == 3 + raw.len(),
        encoding(MessageModel::Minisketch(raw))[0] == 1,
        be_value(encoding(MessageModel::Minisketch(raw)).subrange(1, 3)) == raw.len() % 65536,
        encoding(MessageModel::Minisketch(raw)).subrange(3, 3 + raw.len() as int) == raw,
{
    let e = encoding(MessageModel::Minisketch(raw));
    law_be16_value(raw.len());
    assert(e.subrange(1, 3) =~= be16(raw.len()));
    assert(e.subrange(3, 3 + raw.len() as int) =~= raw);
}

/// The wire bytes of a transaction request: tag 2, the number of ids as two
/// base-256 digits (modulo 65536), then each id as eight base-256 digits,
/// most significant first, in order.
pub proof fn law_wire_get_txs(ids: Seq<u64>)
    ensures
        encoding(MessageModel::GetTxs(ids)).len() == 3 + 8 * ids.len(),
        encoding(MessageModel::GetTxs(ids))[0] == 2,
        be_value(encoding(MessageModel::GetTxs(ids)).subrange(1, 3)) == ids.len() % 65536,
        forall|k: int|
            0 <= k < ids.len() ==> be_value(
                encoding(MessageModel::GetTxs(ids)).subrange(3 + 8 * k, 3 + 8 * k + 8),
            ) == #[trigger] ids[k],
{
    let e = encoding(MessageModel::GetTxs(ids));
    law_be16_value(ids.len());
    lemma_ids_bytes(ids);
    assert(e.subrange(1, 3) =~= be16(ids.len()));
    assert forall|k: int| 0 <= k < ids.len() implies be_value(
        e.subrange(3 + 8 * k, 3 + 8 * k + 8),
    ) == #[trigger] ids[k] by {
        assert(e.subrange(3 + 8 * k, 3 + 8 * k + 8) =~= ids_bytes(ids).subrange(8 * k, 8 * k + 8));
        law_be64_value(ids[k]);
    }
}

/// The wire bytes of a transaction list: tag 3, the number of transactions
/// as two base-256 digits (modulo 65536), then for each transaction in
/// order its length as two base-256 digits (modulo 65536) followed by its
/// bytes as they are.
pub proof fn law_wire_txs(txs: Seq<Seq<u8>>)
    ensures
        encoding(MessageModel::Txs(txs)).len() == 3 + record_offset(txs, txs.len() as int),
        encoding(MessageModel::Txs(txs))[0] == 3,
        be_value(encoding(MessageModel::Txs(txs)).subrange(1, 3)) == txs.len() % 65536,
        forall|j: int|
            0 <= j < txs.len() ==> be_value(
                encoding(MessageModel::Txs(txs)).subrange(
                    3 + record_offset(txs, j),
                    3 + record_offset(txs, j) + 2,
                ),
            ) == (#[trigger] txs[j]).len() % 65536 && encoding(MessageModel::Txs(txs)).subrange(
                3 + record_offset(txs, j) + 2,
                3 + record_offset(txs, j) + 2 + txs[j].len(),
            ) == txs[j],
{
    let e = encoding(MessageModel::Txs(txs));
    let r = tx_records(txs);
    law_be16_value(txs.len());
    lemma_tx_records_len(txs);
    assert(e == seq![3u8] + be16(txs.len()) + r);
    assert(e.subrange(1, 3) =~= be16(txs.len()));
    assert forall|j: int| 0 <= j < txs.len() implies be_value(
        e.subrange(3 + record_offset(txs, j), 3 + record_offset(txs, j) + 2),
    ) == (#[trigger] txs[j]).len() % 65536 && e.subrange(
        3 + record_offset(txs, j) + 2,
        3 + record_offset(txs, j) + 2 + txs[j].len(),
    ) == txs[j] by {
        let o = record_offset(txs, j);
        lemma_tx_record_at(txs, j);
        assert(e.subrange(3 + o, 3 + o + 2) =~= r.subrange(o, o + 2));
        assert(e.subrange(3 + o + 2, 3 + o + 2 + txs[j].len()) =~= r.subrange(
            o + 2,
            o + 2 + txs[j].len(),
        ));
    }
}

proof fn lemma_records_prefix_incomplete(s: Seq<u8>, pos: int, txs: Seq<Seq<u8>>)
    requires
        0 <= pos <= s.len() < pos + tx_records(txs).len(),
        s == (s.take(pos) + tx_records(txs)).take(s.len() as int),
        forall|i: int| 0 <= i < txs.len() ==> #[trigger] txs[i].len() <= 65535,
    ensures
        read_tx_records(s, pos, txs.len()) is None,
    decreases txs.len(),
{
    let init = txs.drop_last();
    let last = txs.last();
    let li = tx_records(init).len() as int;
    let all = tx_records(txs);
    assert(all == tx_records(init) + be16(last.len()) + last);
    assert forall|i: int| 0 <= i < init.len() implies #[trigger] init[i].len() <= 65535 by {
        assert(init[i] == txs[i]);
    }
    assert(init.push(last) =~= txs);
    if s.len() < pos + li {
        assert(s == (s.take(pos) + tx_records(init)).take(s.len() as int)) by {
            assert forall|j: int| 0 <= j < s.len() implies s[j] == (s.take(pos) + tx_records(
                init,
            ))[j] by {
                assert(s[j] == (s.take(pos) + all)[j]);
            }
            assert(s =~= (s.take(pos) + tx_records(init)).take(s.len() as int));
        }
        lemma_records_prefix_incomplete(s, pos, init);
    } else {
        assert(s.subrange(pos, pos + li) =~= tx_records(init)) by {
            assert forall|j: int| 0 <= j < li implies s.subrange(pos, pos + li)[j] == tx_records(
                init,
            )[j] by {
                assert(s[pos + j] == (s.take(pos) + all)[pos + j]);
            }
        }
        lemma_read_tx_records(s, pos, init);
        let p = pos + li;
        if s.len() - p >= 2 {
            crate::endian::lemma_be16_roundtrip(last.len(), last);
            assert(s[p] == all[li]);
            assert(s[p + 1] == all[li + 1]);
            assert((be16(last.len()) + last)[0] == all[li]);
            assert((be16(last.len()) + last)[1] == all[li + 1]);
            assert(read_be16(s, p) == last.len());
        }
    }
}

/// A stream holding only part of a well-formed message decodes as
/// incomplete: the decoder waits for the rest and consumes nothing.
pub proof fn law_prefix_incomplete(m: MessageModel, k: int)
    requires
        well_formed(m),
        0 <= k < encoding(m).len(),
    ensures
        decode_spec(encoding(m).take(k)) == Decoded::Incomplete,
{
    let e = encoding(m);
    let s = e.take(k);
    if k >= 3 {
        match m {
            MessageModel::Oddsketch(bytes) => {},
            MessageModel::Minisketch(raw) => {
                crate::endian::lemma_be16_roundtrip(raw.len(), raw);
                assert(s[1] == (be16(raw.len()) + raw)[0]);
                assert(s[2] == (be16(raw.len()) + raw)[1]);
            },
            MessageModel::GetTxs(ids) => {
                lemma_ids_bytes_len(ids);
                crate::endian::lemma_be16_roundtrip(ids.len(), ids_bytes(ids));
                assert(s[1] == (be16(ids.len()) + ids_bytes(ids))[0]);
                assert(s[2] == (be16(ids.len()) + ids_bytes(ids))[1]);
            },
            MessageModel::Txs(txs) => {
                crate::endian::lemma_be16_roundtrip(txs.len(), tx_records(txs));
                assert(s[1] == (be16(txs.len()) + tx_records(txs))[0]);
                assert(s[2] == (be16(txs.len()) + tx_records(txs))[1]);
                assert(e =~= s.take(3) + tx_records(txs)) by {
                    assert(e =~= seq![3u8] + (be16(txs.len()) + tx_records(txs)));
                }
                assert(s =~= (s.take(3) + tx_records(txs)).take(s.len() as int));
                lemma_records_prefix_incomplete(s, 3, txs);
            },
        }
    }
}

/// Reading transactions never runs past the end of the stream.
proof fn lemma_records_within(s: Seq<u8>, pos: int, n: nat)
    requires
        pos <= s.len(),
    ensures
        read_tx_records(s, pos, n) matches Some((txs, end)) ==> pos <= end <= s.len()
            && txs.len() == n,
    decreases n,
{
    if n > 0 {
        lemma_records_within(s, pos, (n - 1) as nat);
    }
}

/// A complete message never takes more bytes than the stream holds.
pub proof fn lemma_decoded_within(s: Seq<u8>)
    ensures
        decode_spec(s) matches Decoded::Complete(_, n) ==> n <= s.len(),
{
    if s.len() >= 3 && s[0] == 3 {
        lemma_records_within(s, 3, read_be16(s, 1));
    }
}

/// Every transaction of a complete `Txs` message at the front of `s`
/// decodes.
pub open spec fn txs_decodable(s: Seq<u8>) -> bool {
    match decode_spec(s) {
        Decoded::Complete(MessageModel::Txs(txs), _) => forall|i: int|
            0 <= i < txs.len() ==> #[trigger] tx_parses(txs[i]),
        _ => true,
    }
}

proof fn lemma_txs_decodable_elim(s: Seq<u8>, txs: Seq<Seq<u8>>, n: nat, j: int)
    requires
        decode_spec(s) == Decoded::Complete(MessageModel::Txs(txs), n),
        0 <= j < txs.len(),
    ensures
        txs_decodable(s) ==> tx_parses(txs[j]),
{
    if txs_decodable(s) {
        let d = decode_spec(s);
        assert(d is Complete);
        assert(d->Complete_0 == MessageModel::Txs(txs));
        assert(d->Complete_0->Txs_0 == txs);
        assert(tx_parses(txs[j]));
    }
}

/// A stream that begins with the encoding of a well-formed message whose
/// transactions all decode can be given to `MessageCodec::decode`: with the
/// round trip, the transactions that `encode` wrote come back with the same
/// bytes, in order.
pub proof fn law_encoded_txs_decodable(m: MessageModel, rest: Seq<u8>)
    requires
        well_formed(m),
        m matches MessageModel::Txs(raws) ==> forall|i: int|
            0 <= i < raws.len() ==> #[trigger] tx_parses(raws[i]),
    ensures
        txs_decodable(encoding(m) + rest),
        decode_spec(encoding(m) + rest) == Decoded::Complete(m, encoding(m).len()),
{
    law_decode_encode(m, rest);
}

/// `res` and the remaining stream `after` are what decoding the stream
/// `before` gives: nothing is consumed until a whole message is there, and
/// then exactly its bytes are.
pub open spec fn decoded_as(
    before: Seq<u8>,
    after: Seq<u8>,
    res: Result<Option<Message>, CodecError>,
) -> bool {
    match decode_spec(before) {
        Decoded::Incomplete => res is Ok && res->Ok_0 is None && after == before,
        Decoded::InvalidTag => res is Err && res->Err_0 == CodecError::InvalidTag && after
            == before,
        Decoded::Complete(m, n) => res is Ok && res->Ok_0 is Some && message_model(
            res->Ok_0->Some_0,
        ) == m && after == before.skip(n as int),
    }
}

/// The codec of the gadget protocol.
pub struct MessageCodec;

impl MessageCodec {
    /// Appends the wire bytes of `item` to `dst`. Transactions are written
    /// in their consensus serialization.
    pub fn encode(&mut self, item: Message, dst: &mut Vec<u8>)
        ensures
            final(dst)@ == old(dst)@ + encoding(message_model(item)),
            message_model(item) matches MessageModel::Txs(raws) ==> forall|i: int|
                0 <= i < raws.len() ==> #[trigger] tx_parses(raws[i]),
    {
        let ghost model = message_model(item);
        let frame = match item {
            Message::Oddsketch(oddsketch) => Frame::Oddsketch(oddsketch),
            Message::Minisketch(raw) => Frame::Minisketch(raw),
            Message::GetTxs(vec_ids) => Frame::GetTxs(vec_ids),
            Message::Txs(vec_tx) => {
                let mut raws: Vec<Vec<u8>> = Vec::with_capacity(vec_tx.len());
                let mut i: usize = 0;
                while i < vec_tx.len()
                    invariant
                        i <= vec_tx@.len(),
                        byte_strings(raws@) == tx_views(vec_tx@).take(i as int),
                        forall|k: int| 0 <= k < i ==> #[trigger] tx_parses(vec_tx@[k]@),
                    decreases vec_tx@.len() - i,
                {
                    let bytes = vec_tx[i].as_bytes();
                    let raw = copy_range(bytes.as_slice(), 0, bytes.len());
                    let ghost before = raws@;
                    raws.push(raw);
                    proof {
                        assert(raw@ =~= vec_tx@[i as int]@);
                        assert(byte_strings(raws@) =~= byte_strings(before).push(raw@));
                        assert(tx_views(vec_tx@).take(i + 1) =~= tx_views(vec_tx@).take(i as int).push(
                            vec_tx@[i as int]@,
                        ));
                    }
                    i = i + 1;
                }
                proof {
                    assert(tx_views(vec_tx@).take(vec_tx@.len() as int) =~= tx_views(vec_tx@));
                }
                Frame::Txs(raws)
            },
        };
        assert(frame@ == model);
        encode_frame(&frame, dst);
    }

    /// Decodes the message at the front of `src` and removes its bytes.
    /// Returns `Ok(None)`, leaving `src` as it is, while the message is
    /// incomplete, and an error when its first byte names no message kind.
    pub fn decode(&mut self, src: &mut Vec<u8>) -> (res: Result<Option<Message>, CodecError>)
        requires
            txs_decodable(old(src)@),
        ensures
            decoded_as(old(src)@, final(src)@, res),
    {
        let decoded = decode_frame(src.as_slice());
        match decoded {
            Err(e) => Err(e),
            Ok(None) => Ok(None),
            Ok(Some((frame, consumed))) => {
                let ghost m = frame@;
                assert(decode_spec(old(src)@) == Decoded::Complete(m, consumed as nat));
                let message = match frame {
                    Frame::Oddsketch(oddsketch) => Message::Oddsketch(oddsketch),
                    Frame::Minisketch(raw) => Message::Minisketch(raw),
                    Frame::GetTxs(ids) => Message::GetTxs(ids),
                    Frame::Txs(raws) => {
                        proof {
                            assert(m == MessageModel::Txs(byte_strings(raws@)));
                            assert forall|j: int| 0 <= j < raws@.len() implies #[trigger] tx_parses(
                                raws@[j]@,
                            ) by {
                                let t = byte_strings(raws@);
                                assert(t[j] == raws@[j]@);
                                assert(decode_spec(old(src)@) == Decoded::Complete(
                                    MessageModel::Txs(t),
                                    consumed as nat,
                                ));
                                lemma_txs_decodable_elim(old(src)@, t, consumed as nat, j);
                            }
                        }
                        let ghost rs = raws@;
                        let mut vec_tx: Vec<Tx> = Vec::with_capacity(raws.len());
                        for raw in it: raws
                            invariant
                                rs == it.seq(),
                                forall|j: int| 0 <= j < rs.len() ==> #[trigger] tx_parses(rs[j]@),
                                tx_views(vec_tx@) == byte_strings(rs).take(it.index() as int),
                        {
                            let ghost k = it.index() as int;
                            assert(raw == rs[k]);
                            assert(tx_parses(rs[k]@));
                            match Tx::from_raw(raw) {
                                Some(tx) => {
                                    let ghost before = vec_tx@;
                                    vec_tx.push(tx);
                                    proof {
                                        assert(tx_views(vec_tx@) =~= tx_views(before).push(rs[k]@));
                                        assert(byte_strings(rs).take(k + 1) =~= byte_strings(rs).take(k).push(
                                            rs[k]@,
                                        ));
                                    }
                                },
                                None => {
                                    return Err(CodecError::InvalidTransaction);
                                },
                            }
                        }
                        proof {
                            assert(byte_strings(rs).take(rs.len() as int) =~= byte_strings(rs));
                        }
                        Message::Txs(vec_tx)
                    },
                };
                proof {
                    lemma_decoded_within(old(src)@);
                }
                let rest = src.split_off(consumed);
                *src = rest;
                Ok(Some(message))
            },
        }
    }

    /// Like `decode`, but first checks that every transaction of a complete
    /// `Txs` message decodes; when one does not, returns
    /// `CodecError::InvalidTransaction` and leaves `src` as it is.
    pub fn decode_checked(&mut self, src: &mut Vec<u8>) -> (res: Result<
        Option<Message>,
        CodecError,
    >)
        ensures
            txs_decodable(old(src)@) ==> decoded_as(old(src)@, final(src)@, res),
            !txs_decodable(old(src)@) ==> res is Err && res->Err_0
                == CodecError::InvalidTransaction && final(src)@ == old(src)@,
    {
        let decoded = decode_frame(src.as_slice());
        match decoded {
            Ok(Some((Frame::Txs(raws), consumed))) => {
                let ghost txs = byte_strings(raws@);
                assert(decode_spec(src@) == Decoded::Complete(MessageModel::Txs(txs), consumed as nat));
                let mut i: usize = 0;
                while i < raws.len()
                    invariant
                        i <= raws@.len(),
                        txs == byte_strings(raws@),
                        decode_spec(src@) == Decoded::Complete(MessageModel::Txs(txs), consumed as nat),
                        forall|j: int| 0 <= j < i ==> #[trigger] tx_parses(txs[j]),
                    decreases raws@.len() - i,
                {
                    if deserialize_transaction(raws[i].as_slice()).is_err() {
                        proof {
                            assert(txs[i as int] == raws@[i as int]@);
                            assert(!tx_parses(txs[i as int]));
                            lemma_txs_decodable_elim(src@, txs, consumed as nat, i as int);
                        }
                        return Err(CodecError::InvalidTransaction);
                    }
                    assert(txs[i as int] == raws@[i as int]@);
                    i = i + 1;
                }
            },
            _ => {},
        }
        self.decode(src)
    }
}

} // verus!
