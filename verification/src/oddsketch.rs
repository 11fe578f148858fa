use vstd::prelude::*;

verus! {

/// Number of bytes held by an odd sketch.
pub const DEFAULT_LEN: usize = 256;

/// An odd sketch: a fixed array of parity bits. Each inserted short id
/// flips the bit of its slot, so the sketch records, for every slot, the
/// parity of the number of inserted ids that fall into it.
#[derive(Debug)]
pub struct Oddsketch([u8; 256]);

/// The slot of a short id: its remainder modulo the number of bits.
pub open spec fn slot(id: u64) -> int {
    (id % 2048) as int
}

/// Bit `i` of a byte string, least significant bit of each byte first.
pub open spec fn bit(bytes: Seq<u8>, i: int) -> bool {
    (bytes[i / 8] >> ((i % 8) as u8)) & 1u8 == 1u8
}

/// The bits of a byte string, eight per byte, least significant first.
pub open spec fn bits(bytes: Seq<u8>) -> Seq<bool> {
    Seq::new(bytes.len() * 8, |i: int| bit(bytes, i))
}

/// The bytes of a sketch after the bit of `id`'s slot has been flipped.
pub open spec fn toggled(bytes: Seq<u8>, id: u64) -> Seq<u8> {
    let k = slot(id);
    bytes.update(k / 8, bytes[k / 8] ^ (1u8 << ((k % 8) as u8)))
}

/// The bytes of a sketch after inserting each of `ids` in turn.
pub open spec fn toggled_all(bytes: Seq<u8>, ids: Seq<u64>) -> Seq<u8>
    decreases ids.len(),
{
    if ids.len() == 0 {
        bytes
    } else {
        toggled(toggled_all(bytes, ids.drop_last()), ids.last())
    }
}

/// Byte-wise exclusive or of two byte strings of the same length.
pub open spec fn xor_bytes(a: Seq<u8>, b: Seq<u8>) -> Seq<u8> {
    Seq::new(a.len(), |i: int| a[i] ^ b[i])
}

/// The bytes of the empty sketch.
pub open spec fn zero_bytes() -> Seq<u8> {
    Seq::new(256, |i: int| 0u8)
}

/// Number of one bits of a byte.
pub open spec fn byte_ones(b: u8) -> nat {
    (((b >> 0u8) & 1u8) + ((b >> 1u8) & 1u8) + ((b >> 2u8) & 1u8) + ((b >> 3u8) & 1u8) + ((b
        >> 4u8) & 1u8) + ((b >> 5u8) & 1u8) + ((b >> 6u8) & 1u8) + ((b >> 7u8) & 1u8)) as nat
}

/// Number of one bits of a byte string.
pub open spec fn ones(bytes: Seq<u8>) -> nat
    decreases bytes.len(),
{
    if bytes.len() == 0 {
        0
    } else {
        ones(bytes.drop_last()) + byte_ones(bytes.last())
    }
}

/// The parity sketch of a finite set of short ids: slot `i` is set exactly
/// when an odd number of the ids fall into it.
pub open spec fn sketch_of(ids: Set<u64>) -> Seq<bool> {
    Seq::new(2048, |i: int| ids.filter(|x: u64| slot(x) == i).len() % 2 == 1)
}

impl View for Oddsketch {
    type V = Seq<u8>;

    closed spec fn view(&self) -> Seq<u8> {
        self.0@
    }
}

proof fn lemma_byte_ones_le8(b: u8)
    ensures
        byte_ones(b) <= 8,
{
    assert(((b >> 0u8) & 1u8) <= 1u8 && ((b >> 1u8) & 1u8) <= 1u8 && ((b >> 2u8) & 1u8) <= 1u8
        && ((b >> 3u8) & 1u8) <= 1u8 && ((b >> 4u8) & 1u8) <= 1u8 && ((b >> 5u8) & 1u8) <= 1u8
        && ((b >> 6u8) & 1u8) <= 1u8 && ((b >> 7u8) & 1u8) <= 1u8) by (bit_vector);
}

proof fn lemma_byte_ones_zero(b: u8)
    ensures
        byte_ones(b) == 0 <==> b == 0,
{
    assert((((b >> 0u8) & 1u8) == 0u8 && ((b >> 1u8) & 1u8) == 0u8 && ((b >> 2u8) & 1u8) == 0u8
        && ((b >> 3u8) & 1u8) == 0u8 && ((b >> 4u8) & 1u8) == 0u8 && ((b >> 5u8) & 1u8) == 0u8
        && ((b >> 6u8) & 1u8) == 0u8 && ((b >> 7u8) & 1u8) == 0u8) <==> b == 0) by (bit_vector);
}

proof fn lemma_ones_zero(bytes: Seq<u8>)
    ensures
        ones(bytes) == 0 <==> (forall|i: int| 0 <= i < bytes.len() ==> bytes[i] == 0),
    decreases bytes.len(),
{
    if bytes.len() > 0 {
        lemma_ones_zero(bytes.drop_last());
        lemma_byte_ones_zero(bytes.last());
        if ones(bytes) == 0 {
            assert forall|i: int| 0 <= i < bytes.len() implies bytes[i] == 0 by {
                if i < bytes.len() - 1 {
                    assert(bytes.drop_last()[i] == bytes[i]);
                }
            }
        }
        if forall|i: int| 0 <= i < bytes.len() ==> bytes[i] == 0 {
            assert forall|i: int| 0 <= i < bytes.drop_last().len() implies bytes.drop_last()[i]
                == 0 by {
                assert(bytes.drop_last()[i] == bytes[i]);
            }
        }
    }
}

/// Counts the one bits of a byte (the behaviour of `u8::count_ones`).
fn byte_count_ones(b: u8) -> (n: u32)
    ensures
        n == byte_ones(b),
{
    ((b >> 0u8) & 1u8) as u32 + ((b >> 1u8) & 1u8) as u32 + ((b >> 2u8) & 1u8) as u32 + ((b
        >> 3u8) & 1u8) as u32 + ((b >> 4u8) & 1u8) as u32 + ((b >> 5u8) & 1u8) as u32 + ((b
        >> 6u8) & 1u8) as u32 + ((b >> 7u8) & 1u8) as u32
}

/// Flipping the bit `1 << k` of a byte changes bit `k` and keeps the others.
proof fn lemma_byte_flip(b: u8, k: u8, j: u8)
    requires
        k < 8,
        j < 8,
    ensures
        (((b ^ (1u8 << k)) >> j) & 1u8 == 1u8) == (if j == k {
            (b >> j) & 1u8 != 1u8
        } else {
            (b >> j) & 1u8 == 1u8
        }),
{
    assert((((b ^ (1u8 << k)) >> j) & 1u8 == 1u8) == (if j == k {
        (b >> j) & 1u8 != 1u8
    } else {
        (b >> j) & 1u8 == 1u8
    })) by (bit_vector)
        requires
            k < 8,
            j < 8,
    ;
}

impl Oddsketch {
    /// A sketch whose bytes are `bytes`.
    pub fn new(bytes: [u8; 256]) -> (res: Oddsketch)
        ensures
            res@ == bytes@,
    {
        Oddsketch(bytes)
    }

    /// The bytes of the sketch.
    pub fn as_bytes(&self) -> (res: &[u8; 256])
        ensures
            res@ == self@,
    {
        &self.0
    }

    /// Flips the bit of the slot of `short_id`: inserting an id that is
    /// already represented removes it again.
    pub fn insert(&mut self, short_id: u64)
        ensures
            final(self)@ == toggled(old(self)@, short_id),
            final(self)@ == old(self)@.update(
                ((short_id % 2048) / 8) as int,
                old(self)@[((short_id % 2048) / 8) as int] ^ (1u8 << ((short_id % 8) as u8)),
            ),
            bits(final(self)@) == bits(old(self)@).update(
                slot(short_id),
                !bits(old(self)@)[slot(short_id)],
            ),
    {
        proof {
            use_type_invariant(&*self);
        }
        let os_index = (short_id % 2048) as usize;
        let byte_index = os_index / 8;
        let shift = (os_index % 8) as u8;
        self.0[byte_index] = self.0[byte_index] ^ (1u8 << shift);
        proof {
            lemma_toggle_bits(old(self)@, short_id);
            law_insert_flips_remainder_bit(old(self)@, short_id);
            assert(self@ =~= old(self)@.update(
                ((short_id % 2048) / 8) as int,
                old(self)@[((short_id % 2048) / 8) as int] ^ (1u8 << ((short_id % 8) as u8)),
            ));
        }
    }

    /// True when no bit of the sketch is set.
    pub fn is_empty(&self) -> (res: bool)
        ensures
            res == (self@ == zero_bytes()),
            res == (forall|i: int| 0 <= i < 2048 ==> !bits(self@)[i]),
            res == (ones(self@) == 0),
    {
        proof {
            use_type_invariant(self);
        }
        let mut i: usize = 0;
        while i < 256
            invariant
                i <= 256,
                self@.len() == 256,
                forall|j: int| 0 <= j < i ==> self@[j] == 0,
            decreases 256 - i,
        {
            if self.0[i] != 0 {
                proof {
                    lemma_zero_bytes_bits(self@);
                    lemma_ones_zero(self@);
                    assert(self@ != zero_bytes()) by {
                        assert(self@[i as int] != zero_bytes()[i as int]);
                    }
                }
                return false;
            }
            i = i + 1;
        }
        proof {
            assert(self@ =~= zero_bytes());
            lemma_zero_bytes_bits(self@);
            lemma_ones_zero(self@);
        }
        true
    }

    /// The number of set bits of the sketch.
    pub fn hamming_weight(&self) -> (res: u32)
        ensures
            res == ones(self@),
    {
        proof {
            use_type_invariant(self);
        }
        let mut total: u32 = 0;
        let mut i: usize = 0;
        while i < 256
            invariant
                i <= 256,
                self@.len() == 256,
                total == ones(self@.take(i as int)),
                total <= 8 * i,
            decreases 256 - i,
        {
            proof {
                assert(self@.take(i + 1).drop_last() =~= self@.take(i as int));
                lemma_byte_ones_le8(self@[i as int]);
            }
            total = total + byte_count_ones(self.0[i]);
            i = i + 1;
        }
        proof {
            assert(self@.take(256) =~= self@);
        }
        total
    }

    /// The sketch whose bytes are the exclusive or of the two sketches' bytes.
    pub fn xor(&self, rhs: &Oddsketch) -> (out: Oddsketch)
        ensures
            out@ == xor_bytes(self@, rhs@),
    {
        proof {
            use_type_invariant(self);
            use_type_invariant(rhs);
        }
        let mut out = [0u8; 256];
        let mut i: usize = 0;
        while i < 256
            invariant
                i <= 256,
                self@.len() == 256,
                rhs@.len() == 256,
                out@.len() == 256,
                forall|j: int| 0 <= j < i ==> out@[j] == self@[j] ^ rhs@[j],
            decreases 256 - i,
        {
            out[i] = self.0[i] ^ rhs.0[i];
            i = i + 1;
        }
        let res = Oddsketch(out);
        assert(res@ =~= xor_bytes(self@, rhs@));
        res
    }

    /// Replaces the sketch's bytes by their exclusive or with `rhs`'s.
    pub fn xor_assign(&mut self, rhs: &Oddsketch)
        ensures
            final(self)@ == xor_bytes(old(self)@, rhs@),
    {
        proof {
            use_type_invariant(&*self);
            use_type_invariant(rhs);
        }
        let mut i: usize = 0;
        while i < 256
            invariant
                i <= 256,
                old(self)@.len() == 256,
                self@.len() == 256,
                rhs@.len() == 256,
                forall|j: int| 0 <= j < i ==> self@[j] == old(self)@[j] ^ rhs@[j],
                forall|j: int| i <= j < 256 ==> self@[j] == old(self)@[j],
            decreases 256 - i,
        {
            self.0[i] = self.0[i] ^ rhs.0[i];
            i = i + 1;
        }
        assert(self@ =~= xor_bytes(old(self)@, rhs@));
    }

    #[verifier::type_invariant]
    pub(crate) closed spec fn wf(self) -> bool {
        self.0@.len() == 256
    }
}

/// The bits of a toggled sketch differ from the original in the id's slot only.
pub proof fn lemma_toggle_bits(bytes: Seq<u8>, id: u64)
    requires
        bytes.len() == 256,
    ensures
        bits(toggled(bytes, id)) == bits(bytes).update(slot(id), !bits(bytes)[slot(id)]),
{
    let t = toggled(bytes, id);
    let k = slot(id);
    assert forall|i: int| 0 <= i < 2048 implies #[trigger] bits(t)[i] == bits(bytes).update(
        k,
        !bits(bytes)[k],
    )[i] by {
        if i / 8 == k / 8 {
            lemma_byte_flip(bytes[k / 8], (k % 8) as u8, (i % 8) as u8);
        }
    }
    assert(bits(t) =~= bits(bytes).update(k, !bits(bytes)[k]));
}

proof fn lemma_zero_bytes_bits(bytes: Seq<u8>)
    requires
        bytes.len() == 256,
    ensures
        (bytes == zero_bytes()) == (forall|i: int| 0 <= i < 2048 ==> !bits(bytes)[i]),
        (bytes == zero_bytes()) == (forall|i: int| 0 <= i < 256 ==> bytes[i] == 0),
{
    if forall|i: int| 0 <= i < 256 ==> bytes[i] == 0 {
        assert(bytes =~= zero_bytes());
    }
    if bytes == zero_bytes() {
        assert forall|i: int| 0 <= i < 2048 implies !bits(bytes)[i] by {
            let b = bytes[i / 8];
            let j = (i % 8) as u8;
            assert(b == 0);
            assert((0u8 >> j) & 1u8 == 0u8) by (bit_vector);
        }
    }
    if forall|i: int| 0 <= i < 2048 ==> !bits(bytes)[i] {
        assert forall|n: int| 0 <= n < 256 implies bytes[n] == 0 by {
            let b = bytes[n];
            assert(!bits(bytes)[8 * n + 0]);
            assert(!bits(bytes)[8 * n + 1]);
            assert(!bits(bytes)[8 * n + 2]);
            assert(!bits(bytes)[8 * n + 3]);
            assert(!bits(bytes)[8 * n + 4]);
            assert(!bits(bytes)[8 * n + 5]);
            assert(!bits(bytes)[8 * n + 6]);
            assert(!bits(bytes)[8 * n + 7]);
            assert(((b >> 0u8) & 1u8 != 1u8 && (b >> 1u8) & 1u8 != 1u8 && (b >> 2u8) & 1u8 != 1u8
                && (b >> 3u8) & 1u8 != 1u8 && (b >> 4u8) & 1u8 != 1u8 && (b >> 5u8) & 1u8 != 1u8
                && (b >> 6u8) & 1u8 != 1u8 && (b >> 7u8) & 1u8 != 1u8) ==> b == 0) by (bit_vector);
        }
        assert(bytes =~= zero_bytes());
    }
}

/// The sketch whose bytes are the exclusive or of the bytes of `a` and `b`.
pub open spec fn xored(a: Oddsketch, b: Oddsketch) -> Oddsketch {
    choose|o: Oddsketch| o@ == xor_bytes(a@, b@)
}

/// Two sketches with the same bytes are the same sketch.
pub proof fn lemma_view_injective(a: Oddsketch, b: Oddsketch)
    requires
        a@ == b@,
    ensures
        a == b,
{
    assert(a.0 =~= b.0);
}

impl Default for Oddsketch {
    /// The empty sketch: every bit cleared.
    fn default() -> (res: Self)
        ensures
            res@ == zero_bytes(),
    {
        let res = Oddsketch([0u8; 256]);
        assert(res@ =~= zero_bytes());
        res
    }
}

impl Clone for Oddsketch {
    fn clone(&self) -> (res: Self)
        ensures
            res@ == self@,
    {
        Oddsketch(self.0)
    }
}

impl core::ops::BitXor for Oddsketch {
    type Output = Self;

    fn bitxor(self, rhs: Self) -> (out: Self)
        ensures
            out@ == xor_bytes(self@, rhs@),
    {
        let out = self.xor(&rhs);
        proof {
            let c = xored(self, rhs);
            assert(c@ == xor_bytes(self@, rhs@));
            lemma_view_injective(out, c);
        }
        out
    }
}

impl vstd::std_specs::ops::BitXorSpecImpl for Oddsketch {
    open spec fn obeys_bitxor_spec() -> bool {
        true
    }

    open spec fn bitxor_req(self, rhs: Self) -> bool {
        true
    }

    open spec fn bitxor_spec(self, rhs: Self) -> Self {
        xored(self, rhs)
    }
}

impl core::ops::BitXorAssign for Oddsketch {
    fn bitxor_assign(&mut self, rhs: Self)
        ensures
            final(self)@ == xor_bytes(old(self)@, rhs@),
    {
        self.xor_assign(&rhs)
    }
}

impl core::ops::Deref for Oddsketch {
    type Target = [u8; 256];

    fn deref(&self) -> (res: &[u8; 256])
        ensures
            res@ == self@,
    {
        &self.0
    }
}

/// Inserting a short id flips exactly one bit of the sketch: bit `id % 8`
/// of byte `(id % 2048) / 8`, that is bit number `id % 2048` counted from
/// the least significant bit of the first byte. Every other byte is kept.
pub proof fn law_insert_flips_remainder_bit(bytes: Seq<u8>, id: u64)
    requires
        bytes.len() == 256,
    ensures
        toggled(bytes, id).len() == 256,
        toggled(bytes, id)[((id % 2048) / 8) as int] == bytes[((id % 2048) / 8) as int] ^ (1u8
            << ((id % 8) as u8)),
        forall|j: int|
            0 <= j < 256 && j != (id % 2048) / 8 ==> #[trigger] toggled(bytes, id)[j] == bytes[j],
{
    assert((id % 2048) % 8 == id % 8) by (bit_vector);
    assert(slot(id) / 8 == (id % 2048) / 8);
    assert(slot(id) % 8 == id % 8);
}

/// Inserting the same id twice leaves a sketch unchanged.
pub proof fn law_insert_involution(bytes: Seq<u8>, id: u64)
    requires
        bytes.len() == 256,
    ensures
        toggled(toggled(bytes, id), id) == bytes,
{
    let b = bytes[slot(id) / 8];
    let k = (slot(id) % 8) as u8;
    assert((b ^ (1u8 << k)) ^ (1u8 << k) == b) by (bit_vector);
    assert(toggled(toggled(bytes, id), id) =~= bytes);
}

/// Insertions commute: the sketch does not depend on the order of insertion.
pub proof fn law_insert_commutes(bytes: Seq<u8>, x: u64, y: u64)
    requires
        bytes.len() == 256,
    ensures
        toggled(toggled(bytes, x), y) == toggled(toggled(bytes, y), x),
{
    let kx = (slot(x) % 8) as u8;
    let ky = (slot(y) % 8) as u8;
    if slot(x) / 8 == slot(y) / 8 {
        let b = bytes[slot(x) / 8];
        assert((b ^ (1u8 << kx)) ^ (1u8 << ky) == (b ^ (1u8 << ky)) ^ (1u8 << kx)) by (bit_vector);
    }
    assert(toggled(toggled(bytes, x), y) =~= toggled(toggled(bytes, y), x));
}

/// A sketch combined with itself by exclusive or is the empty sketch.
pub proof fn law_xor_self_is_empty(bytes: Seq<u8>)
    requires
        bytes.len() == 256,
    ensures
        xor_bytes(bytes, bytes) == zero_bytes(),
{
    assert forall|i: int| 0 <= i < 256 implies xor_bytes(bytes, bytes)[i] == 0u8 by {
        let b = bytes[i];
        assert(b ^ b == 0u8) by (bit_vector);
    }
    assert(xor_bytes(bytes, bytes) =~= zero_bytes());
}

/// The empty sketch is the identity of exclusive or.
pub proof fn law_xor_empty_identity(bytes: Seq<u8>)
    requires
        bytes.len() == 256,
    ensures
        xor_bytes(bytes, zero_bytes()) == bytes,
{
    assert forall|i: int| 0 <= i < 256 implies xor_bytes(bytes, zero_bytes())[i] == bytes[i] by {
        let b = bytes[i];
        assert(b ^ 0u8 == b) by (bit_vector);
    }
    assert(xor_bytes(bytes, zero_bytes()) =~= bytes);
}

/// Exclusive or of sketches is commutative.
pub proof fn law_xor_commutes(a: Seq<u8>, b: Seq<u8>)
    requires
        a.len() == 256,
        b.len() == 256,
    ensures
        xor_bytes(a, b) == xor_bytes(b, a),
{
    assert forall|i: int| 0 <= i < 256 implies xor_bytes(a, b)[i] == xor_bytes(b, a)[i] by {
        let x = a[i];
        let y = b[i];
        assert(x ^ y == y ^ x) by (bit_vector);
    }
    assert(xor_bytes(a, b) =~= xor_bytes(b, a));
}

/// Exclusive or of sketches is associative.
pub proof fn law_xor_associative(a: Seq<u8>, b: Seq<u8>, c: Seq<u8>)
    requires
        a.len() == 256,
        b.len() == 256,
        c.len() == 256,
    ensures
        xor_bytes(xor_bytes(a, b), c) == xor_bytes(a, xor_bytes(b, c)),
{
    assert forall|i: int| 0 <= i < 256 implies xor_bytes(xor_bytes(a, b), c)[i] == xor_bytes(
        a,
        xor_bytes(b, c),
    )[i] by {
        let x = a[i];
        let y = b[i];
        let z = c[i];
        assert((x ^ y) ^ z == x ^ (y ^ z)) by (bit_vector);
    }
    assert(xor_bytes(xor_bytes(a, b), c) =~= xor_bytes(a, xor_bytes(b, c)));
}

/// Inserting an id into one side of an exclusive or inserts it into the result.
pub proof fn law_xor_insert(a: Seq<u8>, b: Seq<u8>, id: u64)
    requires
        a.len() == 256,
        b.len() == 256,
    ensures
        xor_bytes(toggled(a, id), b) == toggled(xor_bytes(a, b), id),
{
    let n = slot(id) / 8;
    let k = (slot(id) % 8) as u8;
    let x = a[n];
    let y = b[n];
    assert((x ^ (1u8 << k)) ^ y == (x ^ y) ^ (1u8 << k)) by (bit_vector);
    assert(xor_bytes(toggled(a, id), b) =~= toggled(xor_bytes(a, b), id));
}

/// The bits of an exclusive or are the pairwise differences of the bits.
pub proof fn lemma_xor_bits(a: Seq<u8>, b: Seq<u8>)
    requires
        a.len() == 256,
        b.len() == 256,
    ensures
        forall|i: int|
            0 <= i < 2048 ==> #[trigger] bits(xor_bytes(a, b))[i] == (bits(a)[i] != bits(b)[i]),
{
    assert forall|i: int| 0 <= i < 2048 implies #[trigger] bits(xor_bytes(a, b))[i] == (bits(
        a,
    )[i] != bits(b)[i]) by {
        let x = a[i / 8];
        let y = b[i / 8];
        let j = (i % 8) as u8;
        assert((((x ^ y) >> j) & 1u8 == 1u8) == (((x >> j) & 1u8 == 1u8) != ((y >> j) & 1u8
            == 1u8))) by (bit_vector);
    }
}

/// Inserting an id changes the number of set bits by exactly one: down by one
/// when its slot was set, up by one otherwise.
pub proof fn law_insert_weight(bytes: Seq<u8>, id: u64)
    requires
        bytes.len() == 256,
    ensures
        bits(bytes)[slot(id)] ==> ones(toggled(bytes, id)) + 1 == ones(bytes),
        !bits(bytes)[slot(id)] ==> ones(toggled(bytes, id)) == ones(bytes) + 1,
{
    let n = slot(id) / 8;
    let k = (slot(id) % 8) as u8;
    let b = bytes[n];
    assert(((b >> k) & 1u8 == 1u8 ==> byte_ones(b ^ (1u8 << k)) + 1 == byte_ones(b)) && ((b >> k)
        & 1u8 != 1u8 ==> byte_ones(b ^ (1u8 << k)) == byte_ones(b) + 1)) by (bit_vector)
        requires
            k < 8,
    ;
    lemma_ones_update(bytes, n, b ^ (1u8 << k));
}

/// Replacing one byte changes the count of one bits by the difference of the
/// two bytes' counts.
proof fn lemma_ones_update(bytes: Seq<u8>, n: int, v: u8)
    requires
        0 <= n < bytes.len(),
    ensures
        ones(bytes.update(n, v)) + byte_ones(bytes[n]) == ones(bytes) + byte_ones(v),
    decreases bytes.len(),
{
    let u = bytes.update(n, v);
    if n == bytes.len() - 1 {
        assert(u.drop_last() =~= bytes.drop_last());
    } else {
        lemma_ones_update(bytes.drop_last(), n, v);
        assert(u.drop_last() =~= bytes.drop_last().update(n, v));
    }
}

/// The ids of a set that fall into slot `i`.
pub open spec fn in_slot(ids: Set<u64>, i: int) -> Set<u64> {
    ids.filter(|x: u64| slot(x) == i)
}

/// The empty set has the empty sketch.
pub proof fn law_sketch_of_empty()
    ensures
        sketch_of(Set::<u64>::empty()) == bits(zero_bytes()),
{
    assert forall|i: int| 0 <= i < 2048 implies sketch_of(Set::<u64>::empty())[i] == bits(
        zero_bytes(),
    )[i] by {
        assert(in_slot(Set::<u64>::empty(), i) =~= Set::<u64>::empty());
        let j = (i % 8) as u8;
        assert((0u8 >> j) & 1u8 == 0u8) by (bit_vector);
    }
    assert(sketch_of(Set::<u64>::empty()) =~= bits(zero_bytes()));
}

/// Adding a new id to a finite set flips the sketch bit of its slot.
pub proof fn law_sketch_of_insert(ids: Set<u64>, x: u64)
    requires
        ids.finite(),
        !ids.contains(x),
    ensures
        sketch_of(ids.insert(x)) == sketch_of(ids).update(slot(x), !sketch_of(ids)[slot(x)]),
{
    assert forall|i: int| 0 <= i < 2048 implies #[trigger] sketch_of(ids.insert(x))[i]
        == sketch_of(ids).update(slot(x), !sketch_of(ids)[slot(x)])[i] by {
        ids.lemma_len_filter(|y: u64| slot(y) == i);
        if slot(x) == i {
            assert(in_slot(ids.insert(x), i) =~= in_slot(ids, i).insert(x));
        } else {
            assert(in_slot(ids.insert(x), i) =~= in_slot(ids, i));
        }
    }
    assert(sketch_of(ids.insert(x)) =~= sketch_of(ids).update(slot(x), !sketch_of(ids)[slot(x)]));
}

/// Removing a present id from a finite set flips the sketch bit of its slot.
pub proof fn law_sketch_of_remove(ids: Set<u64>, x: u64)
    requires
        ids.finite(),
        ids.contains(x),
    ensures
        sketch_of(ids.remove(x)) == sketch_of(ids).update(slot(x), !sketch_of(ids)[slot(x)]),
{
    let r = ids.remove(x);
    law_sketch_of_insert(r, x);
    assert(r.insert(x) =~= ids);
    let s = sketch_of(r);
    assert(sketch_of(ids).update(slot(x), !sketch_of(ids)[slot(x)]) =~= s);
}

/// The exclusive or of two sets' sketches is the sketch of their symmetric
/// difference: the sketches of two mempools combine into a sketch of the
/// ids that only one of them holds.
pub proof fn law_sketch_symmetric_difference(a: Set<u64>, b: Set<u64>)
    requires
        a.finite(),
        b.finite(),
    ensures
        forall|i: int|
            0 <= i < 2048 ==> #[trigger] sketch_of(a.difference(b) + b.difference(a))[i] == (
            sketch_of(a)[i] != sketch_of(b)[i]),
{
    let d = a.difference(b) + b.difference(a);
    assert forall|i: int| 0 <= i < 2048 implies #[trigger] sketch_of(d)[i] == (sketch_of(a)[i]
        != sketch_of(b)[i]) by {
        let ai = in_slot(a, i);
        let bi = in_slot(b, i);
        a.lemma_len_filter(|y: u64| slot(y) == i);
        b.lemma_len_filter(|y: u64| slot(y) == i);
        assert(in_slot(d, i) =~= ai.difference(bi) + bi.difference(ai));
        vstd::set_lib::lemma_set_difference_len(ai, bi);
        vstd::set_lib::lemma_set_difference_len(bi, ai);
        vstd::set_lib::lemma_set_intersect_union_lens(ai, bi);
        vstd::set_lib::lemma_set_disjoint_lens(ai.difference(bi), bi.difference(ai));
        assert(ai.intersect(bi) =~= bi.intersect(ai));
    }
}

/// Sketch bytes whose bits are the sketches of two sets combine, by exclusive
/// or, into bytes whose bits are the sketch of the symmetric difference.
pub proof fn law_xor_sketches(a: Seq<u8>, b: Seq<u8>, sa: Set<u64>, sb: Set<u64>)
    requires
        a.len() == 256,
        b.len() == 256,
        sa.finite(),
        sb.finite(),
        bits(a) == sketch_of(sa),
        bits(b) == sketch_of(sb),
    ensures
        bits(xor_bytes(a, b)) == sketch_of(sa.difference(sb) + sb.difference(sa)),
{
    lemma_xor_bits(a, b);
    law_sketch_symmetric_difference(sa, sb);
    assert(bits(xor_bytes(a, b)) =~= sketch_of(sa.difference(sb) + sb.difference(sa)));
}

/// How many of `ids` fall into slot `r`.
pub open spec fn slot_count(ids: Seq<u64>, r: int) -> nat {
    ids.filter(|x: u64| slot(x) == r).len()
}

/// The slots into which an odd number of `ids` fall.
pub open spec fn odd_slots(ids: Seq<u64>) -> Set<int> {
    vstd::set_lib::set_int_range(0, 2048).filter(|r: int| slot_count(ids, r) % 2 == 1)
}

proof fn lemma_slot_count_push(ids: Seq<u64>, x: u64, r: int)
    ensures
        slot_count(ids.push(x), r) == slot_count(ids, r) + (if slot(x) == r {
            1nat
        } else {
            0nat
        }),
{
    reveal_with_fuel(Seq::filter, 1);
    assert(ids.push(x).drop_last() =~= ids);
}

proof fn lemma_toggled_all_len(bytes: Seq<u8>, ids: Seq<u64>)
    requires
        bytes.len() == 256,
    ensures
        toggled_all(bytes, ids).len() == 256,
    decreases ids.len(),
{
    if ids.len() > 0 {
        lemma_toggled_all_len(bytes, ids.drop_last());
    }
}

/// After inserting `ids` into the empty sketch, a slot's bit is set exactly
/// when an odd number of the ids fall into it.
pub proof fn law_inserts_bits(ids: Seq<u64>)
    ensures
        toggled_all(zero_bytes(), ids).len() == 256,
        forall|r: int|
            0 <= r < 2048 ==> #[trigger] bits(toggled_all(zero_bytes(), ids))[r] == (slot_count(ids, r)
                % 2 == 1),
    decreases ids.len(),
{
    lemma_toggled_all_len(zero_bytes(), ids);
    if ids.len() == 0 {
        assert forall|r: int| 0 <= r < 2048 implies #[trigger] bits(toggled_all(zero_bytes(), ids))[r]
            == (slot_count(ids, r) % 2 == 1) by {
            reveal_with_fuel(Seq::filter, 1);
            let j = (r % 8) as u8;
            assert((0u8 >> j) & 1u8 == 0u8) by (bit_vector);
        }
    } else {
        let init = ids.drop_last();
        let x = ids.last();
        law_inserts_bits(init);
        assert(init.push(x) =~= ids);
        lemma_toggle_bits(toggled_all(zero_bytes(), init), x);
        assert forall|r: int| 0 <= r < 2048 implies #[trigger] bits(toggled_all(zero_bytes(), ids))[r]
            == (slot_count(ids, r) % 2 == 1) by {
            lemma_slot_count_push(init, x, r);
        }
    }
}

/// The number of set bits after inserting `ids` into the empty sketch is
/// the number of slots into which an odd number of them fall; in
/// particular it is the number of ids when no two share a slot.
pub proof fn law_weight_of_inserts(ids: Seq<u64>)
    ensures
        odd_slots(ids).finite(),
        ones(toggled_all(zero_bytes(), ids)) == odd_slots(ids).len(),
    decreases ids.len(),
{
    vstd::set_lib::lemma_int_range(0, 2048);
    vstd::set_lib::set_int_range(0, 2048).lemma_len_filter(|r: int| slot_count(ids, r) % 2 == 1);
    if ids.len() == 0 {
        assert forall|r: int| !(#[trigger] odd_slots(ids).contains(r)) by {
            reveal_with_fuel(Seq::filter, 1);
        }
        assert(odd_slots(ids) =~= Set::<int>::empty());
        lemma_ones_zero(zero_bytes());
    } else {
        let init = ids.drop_last();
        let x = ids.last();
        law_weight_of_inserts(init);
        law_inserts_bits(init);
        assert(init.push(x) =~= ids);
        let before = toggled_all(zero_bytes(), init);
        law_insert_weight(before, x);
        let k = slot(x);
        assert forall|r: int| #[trigger] odd_slots(ids).contains(r) == (if r == k {
            !odd_slots(init).contains(r)
        } else {
            odd_slots(init).contains(r)
        }) by {
            lemma_slot_count_push(init, x, r);
        }
        if odd_slots(init).contains(k) {
            assert(odd_slots(ids) =~= odd_slots(init).remove(k));
        } else {
            assert(odd_slots(ids) =~= odd_slots(init).insert(k));
        }
    }
}

/// Combining by exclusive or the sketch of `xs` (inserted into `bytes`) and
/// the sketch of `ys` (inserted into the empty sketch) gives the sketch of
/// `xs` followed by `ys`: ids that occur in both cancel.
pub proof fn law_xor_of_inserts(bytes: Seq<u8>, xs: Seq<u64>, ys: Seq<u64>)
    requires
        bytes.len() == 256,
    ensures
        xor_bytes(toggled_all(bytes, xs), toggled_all(zero_bytes(), ys)) == toggled_all(bytes, xs + ys),
    decreases ys.len(),
{
    lemma_toggled_all_len(bytes, xs);
    if ys.len() == 0 {
        assert(xs + ys =~= xs);
        law_xor_empty_identity(toggled_all(bytes, xs));
    } else {
        let init = ys.drop_last();
        let y = ys.last();
        law_xor_of_inserts(bytes, xs, init);
        lemma_toggled_all_len(zero_bytes(), init);
        lemma_toggled_all_len(bytes, xs + init);
        let a = toggled_all(bytes, xs);
        let b = toggled_all(zero_bytes(), init);
        law_xor_commutes(a, toggled(b, y));
        law_xor_insert(b, a, y);
        law_xor_commutes(b, a);
        assert((xs + ys).drop_last() =~= xs + init);
        assert((xs + ys).last() == y);
    }
}

} // verus!
