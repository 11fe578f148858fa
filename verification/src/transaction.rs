use bitcoin::consensus::encode::Error as EncodeError;
use bitcoin::util::psbt::serialize::Deserialize;
use bitcoin::Transaction;
use vstd::prelude::*;

verus! {

/// A bitcoin transaction, carried through the library as an opaque value.
#[verifier::external_type_specification]
#[verifier::external_body]
pub struct ExTransaction(bitcoin::Transaction);

/// The error of bitcoin's consensus decoding.
#[verifier::external_type_specification]
#[verifier::external_body]
pub struct ExEncodeError(bitcoin::consensus::encode::Error);

/// Whether bitcoin's consensus decoding of a transaction accepts `raw` as
/// the whole encoding of one transaction.
pub uninterp spec fn tx_parses(raw: Seq<u8>) -> bool;

/// The txid (the bytes of its double-SHA256 hash, in stored order) of the
/// transaction that bitcoin's consensus decoding makes of `raw`.
pub uninterp spec fn txid_of(raw: Seq<u8>) -> Seq<u8>;

/// Calls `<Transaction as Deserialize>::deserialize` (rust-bitcoin's
/// consensus decoding, which fails unless every byte is consumed). The
/// contract claims only that it succeeds exactly when `tx_parses` holds of
/// the bytes; the decoded transaction is opaque to Verus.
#[verifier::external_body]
pub(crate) fn deserialize_transaction(raw: &[u8]) -> (res: Result<Transaction, EncodeError>)
    ensures
        res is Ok <==> tx_parses(raw@),
{
    <Transaction as Deserialize>::deserialize(raw)
}

/// A transaction together with the consensus bytes it was decoded from.
/// Its view is those bytes. Rust-bitcoin's decoding is canonical (it
/// rejects non-minimal lengths and a segwit flag without witnesses), so
/// the bytes are also the transaction's consensus serialization.
#[derive(Debug)]
pub struct Tx {
    raw: Vec<u8>,
    tx: Transaction,
}

/// The consensus bytes of each transaction.
pub open spec fn tx_views(txs: Seq<Tx>) -> Seq<Seq<u8>> {
    txs.map_values(|t: Tx| t@)
}

impl View for Tx {
    type V = Seq<u8>;

    closed spec fn view(&self) -> Seq<u8> {
        self.raw@
    }
}

/// Calls `Transaction::txid` on the transaction that a `Tx` holds and
/// returns the hash's bytes in their stored order. A `Tx` is only made by
/// `Tx::from_raw`, which keeps the bytes beside the transaction that
/// `deserialize_transaction` decoded from them (or by cloning one), so the
/// claim is that the result is `txid_of` those bytes, 32 bytes long.
#[verifier::external_body]
fn transaction_txid(tx: &Tx) -> (id: Vec<u8>)
    ensures
        id@ == txid_of(tx@),
        id@.len() == 32,
{
    tx.tx.txid()[..].to_vec()
}

/// `Transaction::clone` (derived by rust-bitcoin). Nothing is claimed of
/// the copy: the transaction is opaque to Verus.
pub assume_specification[ <bitcoin::Transaction as Clone>::clone ](tx: &Transaction) -> Transaction;

impl Tx {
    #[verifier::type_invariant]
    pub(crate) closed spec fn wf(self) -> bool {
        tx_parses(self.raw@)
    }

    /// Decodes a transaction from its consensus bytes: `None` when they do
    /// not decode.
    pub fn from_raw(raw: Vec<u8>) -> (res: Option<Tx>)
        ensures
            res is Some <==> tx_parses(raw@),
            res matches Some(t) ==> t@ == raw@,
    {
        match deserialize_transaction(raw.as_slice()) {
            Ok(tx) => Some(Tx { raw, tx }),
            Err(_) => None,
        }
    }

    /// The consensus bytes of the transaction (which decode).
    pub fn as_bytes(&self) -> (res: &Vec<u8>)
        ensures
            res@ == self@,
            tx_parses(self@),
    {
        proof {
            use_type_invariant(self);
        }
        &self.raw
    }

    /// The decoded transaction.
    pub fn transaction(&self) -> &Transaction {
        &self.tx
    }

    /// The txid of the transaction, in the hash's stored byte order.
    pub fn txid(&self) -> (id: Vec<u8>)
        ensures
            id@ == txid_of(self@),
            id@.len() == 32,
    {
        transaction_txid(self)
    }
}

impl Clone for Tx {
    fn clone(&self) -> (res: Self)
        ensures
            res@ == self@,
    {
        proof {
            use_type_invariant(self);
        }
        let mut raw: Vec<u8> = Vec::with_capacity(self.raw.len());
        let mut i: usize = 0;
        while i < self.raw.len()
            invariant
                i <= self.raw@.len(),
                raw@ == self.raw@.take(i as int),
            decreases self.raw@.len() - i,
        {
            raw.push(self.raw[i]);
            i = i + 1;
            assert(raw@ =~= self.raw@.take(i as int));
        }
        assert(raw@ =~= self.raw@);
        Tx { raw, tx: self.tx.clone() }
    }
}

} // verus!
