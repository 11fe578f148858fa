use crate::endian::{be_value, byte_strings, copy_range, get_u64_be, law_read_be64_value, read_be64};
use crate::hex_text::{decode_hex, hex_decoded};
use crate::oddsketch::{
    bits, lemma_toggle_bits, law_sketch_of_empty, law_sketch_of_insert, law_sketch_of_remove, law_xor_sketches,
    sketch_of, toggled, toggled_all, xor_bytes, zero_bytes, Oddsketch,
};
use crate::transaction::{tx_parses, tx_views, txid_of, Tx};
use std::collections::HashMap;
use vstd::prelude::*;

verus! {

broadcast use vstd::std_specs::hash::group_hash_axioms;

/// The short id of a transaction id: its first eight bytes, read big-endian.
pub open spec fn short_id_of(tx_id: Seq<u8>) -> u64 {
    read_be64(tx_id, 0)
}

/// The short id of a transaction id: its first eight bytes, read big-endian.
pub fn short_id(tx_id: &[u8]) -> (res: u64)
    requires
        tx_id@.len() >= 8,
    ensures
        res == short_id_of(tx_id@),
        res == be_value(tx_id@.take(8)),
{
    proof {
        law_short_id_value(tx_id@);
    }
    get_u64_be(tx_id, 0)
}

/// A short id is the number that the first eight bytes of the transaction
/// id stand for in base 256, most significant byte first.
pub proof fn law_short_id_value(tx_id: Seq<u8>)
    requires
        tx_id.len() >= 8,
    ensures
        short_id_of(tx_id) == be_value(tx_id.take(8)),
{
    law_read_be64_value(tx_id, 0);
    assert(tx_id.subrange(0, 8) =~= tx_id.take(8));
}

/// The short id of the transaction with consensus bytes `raw`.
pub open spec fn tx_short_id(raw: Seq<u8>) -> u64 {
    short_id_of(txid_of(raw))
}

/// The pool `m` after inserting the transactions `raws` in turn: each is
/// filed under its short id unless a transaction is already held there.
pub open spec fn pool_after(m: Map<u64, Seq<u8>>, raws: Seq<Seq<u8>>) -> Map<u64, Seq<u8>>
    decreases raws.len(),
{
    if raws.len() == 0 {
        m
    } else {
        let p = pool_after(m, raws.drop_last());
        let id = tx_short_id(raws.last());
        if p.contains_key(id) {
            p
        } else {
            p.insert(id, raws.last())
        }
    }
}

/// The short ids that inserting `raws` in turn into `m` adds, in order.
pub open spec fn ids_added(m: Map<u64, Seq<u8>>, raws: Seq<Seq<u8>>) -> Seq<u64>
    decreases raws.len(),
{
    if raws.len() == 0 {
        Seq::empty()
    } else {
        let p = pool_after(m, raws.drop_last());
        let id = tx_short_id(raws.last());
        if p.contains_key(id) {
            ids_added(m, raws.drop_last())
        } else {
            ids_added(m, raws.drop_last()).push(id)
        }
    }
}

/// The transaction at position `j` of `raws` is the first of them with its
/// short id.
pub open spec fn first_of_its_id(raws: Seq<Seq<u8>>, j: int) -> bool {
    forall|i: int| 0 <= i < j ==> tx_short_id(#[trigger] raws[i]) != tx_short_id(raws[j])
}

/// `p` holds exactly the short ids of `raws`, each with the first of the
/// transactions that share it.
pub open spec fn filled_from(p: Map<u64, Seq<u8>>, raws: Seq<Seq<u8>>) -> bool {
    &&& forall|k: u64| #[trigger]
        p.contains_key(k) <==> exists|j: int| 0 <= j < raws.len() && tx_short_id(raws[j]) == k
    &&& forall|j: int|
        0 <= j < raws.len() && #[trigger] first_of_its_id(raws, j) ==> p[tx_short_id(raws[j])]
            == raws[j]
}

/// The ids of `ids` that `m` holds, in order.
pub open spec fn held_ids(ids: Seq<u64>, m: Map<u64, Seq<u8>>) -> Seq<u64> {
    ids.filter(|id: u64| m.contains_key(id))
}

/// The nonzero ids of `ids` that `m` holds, in order.
pub open spec fn held_nonzero_ids(ids: Seq<u64>, m: Map<u64, Seq<u8>>) -> Seq<u64> {
    ids.filter(|id: u64| id != 0 && m.contains_key(id))
}

/// The nonzero ids of `ids` that `m` does not hold, in order.
pub open spec fn missing_nonzero_ids(ids: Seq<u64>, m: Map<u64, Seq<u8>>) -> Seq<u64> {
    ids.filter(|id: u64| id != 0 && !m.contains_key(id))
}

/// `out[k]` has the bytes of the transaction that `m` holds under `ids[k]`.
pub open spec fn copies_of(out: Seq<Tx>, ids: Seq<u64>, m: Map<u64, Seq<u8>>) -> bool {
    &&& out.len() == ids.len()
    &&& forall|k: int| 0 <= k < ids.len() ==> #[trigger] out[k]@ == m[ids[k]]
}

/// Which raw transaction could not be used when filling a mempool.
#[derive(PartialEq, Eq, Debug, Clone, Copy, Structural)]
pub enum PopulateError {
    /// The text at this position is not hexadecimal.
    InvalidHex(usize),
    /// The bytes at this position do not decode as a transaction.
    InvalidTransaction(usize),
}

/// The gadget's view of the node's mempool: its transactions by short id,
/// and the odd sketch of those short ids.
pub struct Mempool {
    oddsketch: Oddsketch,
    txs: HashMap<u64, Tx>,
}

impl Default for Mempool {
    /// An empty mempool with an empty sketch.
    fn default() -> (res: Mempool)
        ensures
            res.tx_map() == Map::<u64, Tx>::empty(),
            res.sketch_bytes() == zero_bytes(),
            res.synced(),
            res.keyed(),
    {
        let res = Mempool { oddsketch: Oddsketch::default(), txs: HashMap::with_capacity(128) };
        proof {
            law_sketch_of_empty();
            assert(res.tx_map().dom() =~= Set::<u64>::empty());
        }
        res
    }
}

impl Mempool {
    /// The transactions, by short id.
    pub closed spec fn tx_map(&self) -> Map<u64, Tx> {
        self.txs@
    }

    /// The consensus bytes of the transactions, by short id.
    pub open spec fn pool(&self) -> Map<u64, Seq<u8>> {
        self.tx_map().map_values(|t: Tx| t@)
    }

    /// The bytes of the odd sketch.
    pub closed spec fn sketch_bytes(&self) -> Seq<u8> {
        self.oddsketch@
    }

    /// The odd sketch is the sketch of the short ids held.
    pub open spec fn synced(&self) -> bool {
        &&& self.sketch_bytes().len() == 256
        &&& bits(self.sketch_bytes()) == sketch_of(self.tx_map().dom())
    }

    /// Every transaction is held under its own short id.
    pub open spec fn keyed(&self) -> bool {
        forall|k: u64| #[trigger] self.tx_map().contains_key(k) ==> k == tx_short_id(self.tx_map()[k]@)
    }

    /// Files `tx` under `short_id` unless a transaction is already held
    /// there, inserting a new id into the odd sketch.
    fn file_under(&mut self, short_id: u64, tx: Tx) -> (added: bool)
        ensures
            added == !old(self).tx_map().contains_key(short_id),
            added ==> final(self).tx_map() == old(self).tx_map().insert(short_id, tx)
                && final(self).sketch_bytes() == toggled(old(self).sketch_bytes(), short_id),
            !added ==> final(self).tx_map() == old(self).tx_map() && final(self).sketch_bytes()
                == old(self).sketch_bytes(),
            old(self).synced() ==> final(self).synced(),
    {
        if self.txs.contains_key(&short_id) {
            return false;
        }
        proof {
            use_type_invariant(&self.oddsketch);
        }
        self.txs.insert(short_id, tx);
        self.oddsketch.insert(short_id);
        proof {
            if old(self).synced() {
                law_sketch_of_insert(old(self).tx_map().dom(), short_id);
                assert(self.tx_map().dom() =~= old(self).tx_map().dom().insert(short_id));
            }
        }
        true
    }

    /// Adds a transaction under its short id (the first eight bytes of its
    /// txid, read big-endian) unless one is already held under that id; a
    /// new id is inserted into the odd sketch. Returns the short id when the
    /// transaction was added.
    pub fn insert(&mut self, tx: Tx) -> (added: Option<u64>)
        ensures
            added == (if old(self).tx_map().contains_key(tx_short_id(tx@)) {
                None
            } else {
                Some(tx_short_id(tx@))
            }),
            final(self).tx_map() == (if old(self).tx_map().contains_key(tx_short_id(tx@)) {
                old(self).tx_map()
            } else {
                old(self).tx_map().insert(tx_short_id(tx@), tx)
            }),
            final(self).sketch_bytes() == (if old(self).tx_map().contains_key(tx_short_id(tx@)) {
                old(self).sketch_bytes()
            } else {
                toggled(old(self).sketch_bytes(), tx_short_id(tx@))
            }),
            old(self).synced() ==> final(self).synced(),
            old(self).keyed() ==> final(self).keyed(),
    {
        let tx_id = tx.txid();
        let short = short_id(tx_id.as_slice());
        let ghost raw = tx@;
        if self.file_under(short, tx) {
            proof {
                if old(self).keyed() {
                    assert forall|k: u64| #[trigger] self.tx_map().contains_key(k) implies k
                        == tx_short_id(self.tx_map()[k]@) by {
                        if k != short {
                            assert(old(self).tx_map().contains_key(k));
                        }
                    }
                }
            }
            Some(short)
        } else {
            None
        }
    }

    /// Inserts the transactions in turn. Returns the short ids of those that
    /// were added, in order.
    pub fn insert_batch(&mut self, txs: Vec<Tx>) -> (added: Vec<u64>)
        ensures
            final(self).pool() == pool_after(old(self).pool(), tx_views(txs@)),
            added@ == ids_added(old(self).pool(), tx_views(txs@)),
            final(self).sketch_bytes() == toggled_all(old(self).sketch_bytes(), added@),
            old(self).synced() ==> final(self).synced(),
            old(self).keyed() ==> final(self).keyed(),
    {
        let mut added: Vec<u64> = Vec::new();
        let ghost ts = txs@;
        let ghost vs = tx_views(ts);
        let ghost p0 = self.pool();
        for tx in it: txs
            invariant
                ts == it.seq(),
                vs == tx_views(ts),
                p0 == old(self).pool(),
                self.pool() == pool_after(p0, vs.take(it.index() as int)),
                added@ == ids_added(p0, vs.take(it.index() as int)),
                self.sketch_bytes() == toggled_all(old(self).sketch_bytes(), added@),
                old(self).synced() ==> self.synced(),
                old(self).keyed() ==> self.keyed(),
        {
            let ghost i = it.index() as int;
            let ghost prev_map = self.tx_map();
            let ghost prev_added = added@;
            proof {
                assert(tx == ts[i]);
                assert(vs.take(i + 1).drop_last() =~= vs.take(i));
                assert(vs.take(i + 1).last() == tx@);
            }
            let ghost raw = tx@;
            match self.insert(tx) {
                Some(id) => {
                    added.push(id);
                    proof {
                        assert(self.pool() =~= prev_map.map_values(|t: Tx| t@).insert(id, raw));
                        assert(added@.drop_last() =~= prev_added);
                    }
                },
                None => {},
            }
        }
        proof {
            assert(vs.take(vs.len() as int) =~= vs);
        }
        added
    }

    /// Removes the transaction held under the short id of `tx_id` (its first
    /// eight bytes), and inserts that short id into the odd sketch whether or
    /// not a transaction was held under it. Returns the short id.
    pub fn remove(&mut self, tx_id: Vec<u8>) -> (short: u64)
        requires
            tx_id@.len() >= 8,
        ensures
            short == short_id_of(tx_id@),
            final(self).tx_map() == old(self).tx_map().remove(short),
            final(self).sketch_bytes() == toggled(old(self).sketch_bytes(), short),
            old(self).synced() && old(self).tx_map().contains_key(short) ==> final(self).synced(),
            old(self).keyed() ==> final(self).keyed(),
    {
        let short = short_id(tx_id.as_slice());
        proof {
            use_type_invariant(&self.oddsketch);
        }
        self.txs.remove(&short);
        self.oddsketch.insert(short);
        proof {
            if old(self).synced() && old(self).tx_map().contains_key(short) {
                law_sketch_of_remove(old(self).tx_map().dom(), short);
                assert(self.tx_map().dom() =~= old(self).tx_map().dom().remove(short));
            }
            if old(self).keyed() {
                assert forall|k: u64| #[trigger] self.tx_map().contains_key(k) implies k
                    == tx_short_id(self.tx_map()[k]@) by {
                    assert(old(self).tx_map().contains_key(k));
                }
            }
        }
        short
    }

    /// The transactions, by short id.
    pub fn txs(&self) -> (res: &HashMap<u64, Tx>)
        ensures
            res@ == self.tx_map(),
    {
        &self.txs
    }

    /// A copy of the odd sketch.
    pub fn oddsketch(&self) -> (res: Oddsketch)
        ensures
            res@ == self.sketch_bytes(),
    {
        self.oddsketch.clone()
    }

    /// The transactions held under the requested ids, in the order of the
    /// requests; ids that are not held are skipped.
    pub fn get_txs(&self, ids: &[u64]) -> (res: Vec<Tx>)
        ensures
            copies_of(res@, held_ids(ids@, self.pool()), self.pool()),
    {
        let ghost m = self.pool();
        let mut res: Vec<Tx> = Vec::new();
        let mut i: usize = 0;
        while i < ids.len()
            invariant
                i <= ids@.len(),
                m == self.pool(),
                copies_of(res@, held_ids(ids@.take(i as int), m), m),
            decreases ids@.len() - i,
        {
            proof {
                reveal_with_fuel(Seq::filter, 1);
                assert(ids@.take(i + 1).drop_last() =~= ids@.take(i as int));
            }
            let id = ids[i];
            match self.txs.get(&id) {
                Some(tx) => {
                    res.push(tx.clone());
                },
                None => {},
            }
            i = i + 1;
        }
        proof {
            assert(ids@.take(ids@.len() as int) =~= ids@);
        }
        res
    }

    /// Sorts the ids decoded from a set difference: the transactions held
    /// under nonzero ids, which the peer lacks, and the nonzero ids not held,
    /// which this side lacks; zero ids are dropped. Both keep the order of
    /// `decoded`.
    pub fn split_decoded(&self, decoded: &[u64]) -> (res: (Vec<Tx>, Vec<u64>))
        ensures
            copies_of(res.0@, held_nonzero_ids(decoded@, self.pool()), self.pool()),
            res.1@ == missing_nonzero_ids(decoded@, self.pool()),
    {
        let ghost m = self.pool();
        let mut excess: Vec<Tx> = Vec::new();
        let mut missing: Vec<u64> = Vec::new();
        let mut i: usize = 0;
        while i < decoded.len()
            invariant
                i <= decoded@.len(),
                m == self.pool(),
                copies_of(excess@, held_nonzero_ids(decoded@.take(i as int), m), m),
                missing@ == missing_nonzero_ids(decoded@.take(i as int), m),
            decreases decoded@.len() - i,
        {
            proof {
                reveal_with_fuel(Seq::filter, 1);
                assert(decoded@.take(i + 1).drop_last() =~= decoded@.take(i as int));
            }
            let id = decoded[i];
            if id != 0 {
                match self.txs.get(&id) {
                    Some(tx) => {
                        excess.push(tx.clone());
                    },
                    None => {
                        missing.push(id);
                    },
                }
            }
            i = i + 1;
        }
        proof {
            assert(decoded@.take(decoded@.len() as int) =~= decoded@);
        }
        (excess, missing)
    }
}

/// Fills a new mempool with the transactions whose consensus bytes are
/// `raw_txs`, inserted in turn. Fails with the position of the first bytes
/// that do not decode.
pub fn mempool_from_raw_txs(raw_txs: &Vec<Vec<u8>>) -> (res: Result<Mempool, usize>)
    ensures
        match res {
            Ok(m) => {
                &&& forall|j: int| 0 <= j < raw_txs@.len() ==> #[trigger] tx_parses(raw_txs@[j]@)
                &&& m.pool() == pool_after(Map::empty(), byte_strings(raw_txs@))
                &&& filled_from(m.pool(), byte_strings(raw_txs@))
                &&& m.sketch_bytes() == toggled_all(
                    zero_bytes(),
                    ids_added(Map::empty(), byte_strings(raw_txs@)),
                )
                &&& m.synced()
                &&& m.keyed()
            },
            Err(j) => {
                &&& 0 <= j < raw_txs@.len()
                &&& !tx_parses(raw_txs@[j as int]@)
                &&& forall|i: int| 0 <= i < j ==> #[trigger] tx_parses(raw_txs@[i]@)
            },
        },
{
    let mut mempool = Mempool::default();
    let ghost rs = byte_strings(raw_txs@);
    let ghost empty = Map::<u64, Seq<u8>>::empty();
    let ghost mut added: Seq<u64> = Seq::empty();
    proof {
        assert(mempool.pool() =~= empty);
    }
    let mut j: usize = 0;
    while j < raw_txs.len()
        invariant
            j <= raw_txs@.len(),
            rs == byte_strings(raw_txs@),
            forall|i: int| 0 <= i < j ==> #[trigger] tx_parses(raw_txs@[i]@),
            mempool.pool() == pool_after(empty, rs.take(j as int)),
            added == ids_added(empty, rs.take(j as int)),
            mempool.sketch_bytes() == toggled_all(zero_bytes(), added),
            mempool.synced(),
            mempool.keyed(),
        decreases raw_txs@.len() - j,
    {
        let bytes = &raw_txs[j];
        let raw = copy_range(bytes.as_slice(), 0, bytes.len());
        proof {
            assert(raw@ =~= raw_txs@[j as int]@);
        }
        match Tx::from_raw(raw) {
            None => {
                return Err(j);
            },
            Some(tx) => {
                let ghost prev_map = mempool.tx_map();
                let ghost tv = tx@;
                proof {
                    assert(rs.take(j + 1).drop_last() =~= rs.take(j as int));
                    assert(rs.take(j + 1).last() == tv);
                }
                match mempool.insert(tx) {
                    Some(id) => {
                        proof {
                            assert(mempool.pool() =~= prev_map.map_values(|t: Tx| t@).insert(id, tv));
                            let new_added = added.push(id);
                            assert(new_added.drop_last() =~= added);
                            added = new_added;
                        }
                    },
                    None => {},
                }
            },
        }
        j = j + 1;
    }
    proof {
        assert(rs.take(rs.len() as int) =~= rs);
        law_filled_pool(rs);
    }
    Ok(mempool)
}

/// The bytes that each hexadecimal text stands for (where it stands for
/// some).
pub open spec fn hex_payloads(texts: Seq<Vec<u8>>) -> Seq<Seq<u8>> {
    texts.map_values(|t: Vec<u8>| hex_decoded(t@).unwrap())
}

/// Fills a new mempool with the transactions given as hexadecimal texts of
/// their consensus bytes (the node's raw transactions), inserted in turn.
/// Fails with the position of the first text that is not hexadecimal or
/// whose bytes do not decode, whichever comes first.
pub fn mempool_from_hex_txs(hex_txs: &Vec<Vec<u8>>) -> (res: Result<Mempool, PopulateError>)
    ensures
        match res {
            Ok(m) => {
                &&& forall|j: int| 0 <= j < hex_txs@.len() ==> #[trigger] hex_decoded(hex_txs@[j]@) is Some
                    && tx_parses(hex_decoded(hex_txs@[j]@).unwrap())
                &&& m.pool() == pool_after(Map::empty(), hex_payloads(hex_txs@))
                &&& filled_from(m.pool(), hex_payloads(hex_txs@))
                &&& m.sketch_bytes() == toggled_all(
                    zero_bytes(),
                    ids_added(Map::empty(), hex_payloads(hex_txs@)),
                )
                &&& m.synced()
                &&& m.keyed()
            },
            Err(PopulateError::InvalidHex(j)) => {
                &&& 0 <= j < hex_txs@.len()
                &&& hex_decoded(hex_txs@[j as int]@) is None
                &&& forall|i: int| 0 <= i < j ==> #[trigger] hex_decoded(hex_txs@[i]@) is Some
                    && tx_parses(hex_decoded(hex_txs@[i]@).unwrap())
            },
            Err(PopulateError::InvalidTransaction(j)) => {
                &&& 0 <= j < hex_txs@.len()
                &&& hex_decoded(hex_txs@[j as int]@) is Some
                &&& !tx_parses(hex_decoded(hex_txs@[j as int]@).unwrap())
                &&& forall|i: int| 0 <= i < j ==> #[trigger] hex_decoded(hex_txs@[i]@) is Some
                    && tx_parses(hex_decoded(hex_txs@[i]@).unwrap())
            },
        },
{
    let mut raws: Vec<Vec<u8>> = Vec::new();
    let mut j: usize = 0;
    while j < hex_txs.len()
        invariant
            j <= hex_txs@.len(),
            raws@.len() == j,
            forall|i: int| 0 <= i < j ==> #[trigger] hex_decoded(hex_txs@[i]@) is Some,
            byte_strings(raws@) == hex_payloads(hex_txs@).take(j as int),
        decreases hex_txs@.len() - j,
    {
        match decode_hex(hex_txs[j].as_slice()) {
            None => {
                proof {
                    assert forall|i: int| 0 <= i < j implies raws@[i]@ == hex_decoded(
                        hex_txs@[i]@,
                    ).unwrap() by {
                        assert(byte_strings(raws@)[i] == hex_payloads(hex_txs@).take(j as int)[i]);
                    }
                }
                let filled = mempool_from_raw_txs(&raws);
                match filled {
                    Err(i) => {
                        proof {
                            assert(raws@[i as int]@ == hex_decoded(hex_txs@[i as int]@).unwrap());
                            assert forall|k: int| 0 <= k < i implies #[trigger] hex_decoded(
                                hex_txs@[k]@,
                            ) is Some && tx_parses(hex_decoded(hex_txs@[k]@).unwrap()) by {
                                assert(raws@[k]@ == hex_decoded(hex_txs@[k]@).unwrap());
                                assert(tx_parses(raws@[k]@));
                            }
                        }
                        return Err(PopulateError::InvalidTransaction(i));
                    },
                    Ok(_) => {
                        proof {
                            assert forall|k: int| 0 <= k < j implies #[trigger] hex_decoded(
                                hex_txs@[k]@,
                            ) is Some && tx_parses(hex_decoded(hex_txs@[k]@).unwrap()) by {
                                assert(raws@[k]@ == hex_decoded(hex_txs@[k]@).unwrap());
                                assert(tx_parses(raws@[k]@));
                            }
                        }
                        return Err(PopulateError::InvalidHex(j));
                    },
                }
            },
            Some(raw) => {
                let ghost before = raws@;
                raws.push(raw);
                proof {
                    assert(byte_strings(raws@) =~= byte_strings(before).push(raw@));
                    assert(hex_payloads(hex_txs@).take(j + 1) =~= hex_payloads(hex_txs@).take(
                        j as int,
                    ).push(raw@));
                }
            },
        }
        j = j + 1;
    }
    proof {
        assert(hex_payloads(hex_txs@).take(j as int) =~= hex_payloads(hex_txs@));
        assert forall|i: int| 0 <= i < j implies raws@[i]@ == hex_decoded(hex_txs@[i]@).unwrap() by {
            assert(byte_strings(raws@)[i] == hex_payloads(hex_txs@)[i]);
        }
    }
    let filled = mempool_from_raw_txs(&raws);
    match filled {
        Err(i) => {
            proof {
                assert(raws@[i as int]@ == hex_decoded(hex_txs@[i as int]@).unwrap());
                assert forall|k: int| 0 <= k < i implies #[trigger] hex_decoded(hex_txs@[k]@) is Some
                    && tx_parses(hex_decoded(hex_txs@[k]@).unwrap()) by {
                    assert(raws@[k]@ == hex_decoded(hex_txs@[k]@).unwrap());
                    assert(tx_parses(raws@[k]@));
                }
            }
            Err(PopulateError::InvalidTransaction(i))
        },
        Ok(m) => {
            proof {
                assert(byte_strings(raws@) == hex_payloads(hex_txs@));
                assert forall|k: int| 0 <= k < hex_txs@.len() implies #[trigger] hex_decoded(
                    hex_txs@[k]@,
                ) is Some && tx_parses(hex_decoded(hex_txs@[k]@).unwrap()) by {
                    assert(raws@[k]@ == hex_decoded(hex_txs@[k]@).unwrap());
                    assert(tx_parses(raws@[k]@));
                }
            }
            Ok(m)
        },
    }
}

proof fn lemma_filter_holds(ids: Seq<u64>, pred: spec_fn(u64) -> bool, id: u64)
    ensures
        ids.filter(pred).contains(id) <==> ids.contains(id) && pred(id),
{
    broadcast use vstd::seq_lib::group_filter_ensures;

    if ids.filter(pred).contains(id) {
        ids.lemma_filter_contains_rev(pred, id);
        let i = choose|i: int| 0 <= i < ids.filter(pred).len() && ids.filter(pred)[i] == id;
        ids.lemma_filter_pred(pred, i);
    }
    if ids.contains(id) && pred(id) {
        let i = choose|i: int| 0 <= i < ids.len() && ids[i] == id;
        ids.lemma_filter_contains(pred, i);
    }
}

/// A request for transactions is answered with the requested ids that the
/// pool holds, and with no other.
pub proof fn law_requested_ids_answered(ids: Seq<u64>, m: Map<u64, Seq<u8>>, id: u64)
    ensures
        held_ids(ids, m).contains(id) <==> ids.contains(id) && m.contains_key(id),
{
    lemma_filter_holds(ids, |x: u64| m.contains_key(x), id);
}

/// Splitting the ids that a set reconciliation decoded sorts every nonzero
/// id into exactly one of two lists: those the pool holds, whose
/// transactions are sent, and those it lacks, which are requested. The id
/// zero is in neither.
pub proof fn law_split_sorts_each_id(ids: Seq<u64>, m: Map<u64, Seq<u8>>, id: u64)
    ensures
        held_nonzero_ids(ids, m).contains(id) <==> ids.contains(id) && id != 0 && m.contains_key(
            id,
        ),
        missing_nonzero_ids(ids, m).contains(id) <==> ids.contains(id) && id != 0
            && !m.contains_key(id),
{
    lemma_filter_holds(ids, |x: u64| x != 0 && m.contains_key(x), id);
    lemma_filter_holds(ids, |x: u64| x != 0 && !m.contains_key(x), id);
}

/// Inserting transactions in turn into the empty pool leaves it holding
/// exactly their short ids, each with the first of the transactions that
/// share it; every transaction is held under its own short id.
pub proof fn law_filled_pool(raws: Seq<Seq<u8>>)
    ensures
        filled_from(pool_after(Map::empty(), raws), raws),
        forall|k: u64| #[trigger]
            pool_after(Map::empty(), raws).contains_key(k) ==> k == tx_short_id(
                pool_after(Map::empty(), raws)[k],
            ),
    decreases raws.len(),
{
    let empty = Map::<u64, Seq<u8>>::empty();
    if raws.len() > 0 {
        let n = raws.len() - 1;
        let init = raws.drop_last();
        law_filled_pool(init);
        let p = pool_after(empty, init);
        let q = pool_after(empty, raws);
        let id = tx_short_id(raws[n]);
        assert forall|k: u64| #[trigger] q.contains_key(k) implies exists|j: int|
            0 <= j < raws.len() && tx_short_id(raws[j]) == k by {
            if p.contains_key(k) {
                let j = choose|j: int| 0 <= j < init.len() && tx_short_id(init[j]) == k;
                assert(raws[j] == init[j]);
            } else {
                assert(tx_short_id(raws[n]) == k);
            }
        }
        assert forall|k: u64| (exists|j: int| 0 <= j < raws.len() && tx_short_id(raws[j]) == k)
            implies #[trigger] q.contains_key(k) by {
            let j = choose|j: int| 0 <= j < raws.len() && tx_short_id(raws[j]) == k;
            if j < n {
                assert(init[j] == raws[j]);
                assert(p.contains_key(k));
            }
        }
        assert forall|j: int| 0 <= j < raws.len() && #[trigger] first_of_its_id(raws, j) implies q[tx_short_id(raws[j])] == raws[j] by {
            if j < n {
                assert forall|i: int| 0 <= i < j implies tx_short_id(#[trigger] init[i]) != tx_short_id(init[j]) by {
                    assert(init[i] == raws[i]);
                }
                assert(first_of_its_id(init, j));
                assert(init[j] == raws[j]);
                assert(p.contains_key(tx_short_id(init[j])));
            } else {
                if p.contains_key(id) {
                    let i = choose|i: int| 0 <= i < init.len() && tx_short_id(init[i]) == id;
                    assert(init[i] == raws[i]);
                    assert(tx_short_id(raws[i]) != tx_short_id(raws[j]));
                }
            }
        }
    }
}

/// Inserting transactions in turn keeps an odd sketch the sketch of the
/// pool's short ids: starting from a pool and its sketch, the sketch after
/// the ids that were added is the sketch of the pool after the inserts.
pub proof fn law_inserts_keep_sketch(m: Map<u64, Seq<u8>>, bytes: Seq<u8>, raws: Seq<Seq<u8>>)
    requires
        m.dom().finite(),
        bytes.len() == 256,
        bits(bytes) == sketch_of(m.dom()),
    ensures
        pool_after(m, raws).dom().finite(),
        toggled_all(bytes, ids_added(m, raws)).len() == 256,
        bits(toggled_all(bytes, ids_added(m, raws))) == sketch_of(pool_after(m, raws).dom()),
    decreases raws.len(),
{
    if raws.len() > 0 {
        let init = raws.drop_last();
        law_inserts_keep_sketch(m, bytes, init);
        let p = pool_after(m, init);
        let id = tx_short_id(raws.last());
        if !p.contains_key(id) {
            let before = toggled_all(bytes, ids_added(m, init));
            lemma_toggle_bits(before, id);
            law_sketch_of_insert(p.dom(), id);
            assert(pool_after(m, raws).dom() =~= p.dom().insert(id));
            let ids = ids_added(m, raws);
            assert(ids.drop_last() =~= ids_added(m, init));
        }
    }
}

/// Two synchronized mempools' odd sketches combine, by exclusive or, into
/// the sketch of the short ids that only one of them holds: the estimate of
/// their difference that peers exchange.
pub proof fn law_sketches_of_two_mempools(a: Mempool, b: Mempool)
    requires
        a.synced(),
        b.synced(),
    ensures
        bits(xor_bytes(a.sketch_bytes(), b.sketch_bytes())) == sketch_of(
            a.tx_map().dom().difference(b.tx_map().dom()) + b.tx_map().dom().difference(
                a.tx_map().dom(),
            ),
        ),
{
    law_xor_sketches(
        a.sketch_bytes(),
        b.sketch_bytes(),
        a.tx_map().dom(),
        b.tx_map().dom(),
    );
}

} // verus!
