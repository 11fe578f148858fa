use vstd::prelude::*;

verus! {

/// The contents of a sequence of byte vectors.
pub open spec fn byte_strings(v: Seq<Vec<u8>>) -> Seq<Seq<u8>> {
    v.map_values(|b: Vec<u8>| b@)
}

/// The two big-endian bytes of the low 16 bits of `n` (what `n as u16`
/// keeps).
pub open spec fn be16(n: nat) -> Seq<u8> {
    seq![((n / 256) % 256) as u8, (n % 256) as u8]
}

/// The eight big-endian bytes of `x`.
pub open spec fn be64(x: u64) -> Seq<u8> {
    seq![
        (x >> 56u64) as u8,
        (x >> 48u64) as u8,
        (x >> 40u64) as u8,
        (x >> 32u64) as u8,
        (x >> 24u64) as u8,
        (x >> 16u64) as u8,
        (x >> 8u64) as u8,
        x as u8,
    ]
}

/// The big-endian 16-bit number stored at `pos`.
pub open spec fn read_be16(s: Seq<u8>, pos: int) -> nat {
    (s[pos] as nat) * 256 + s[pos + 1] as nat
}

/// The big-endian 64-bit number made of eight bytes.
pub open spec fn u64_of_be(
    b0: u8,
    b1: u8,
    b2: u8,
    b3: u8,
    b4: u8,
    b5: u8,
    b6: u8,
    b7: u8,
) -> u64 {
    ((b0 as u64) << 56u64) | ((b1 as u64) << 48u64) | ((b2 as u64) << 40u64) | ((b3 as u64)
        << 32u64) | ((b4 as u64) << 24u64) | ((b5 as u64) << 16u64) | ((b6 as u64) << 8u64) | (b7
        as u64)
}

/// The big-endian 64-bit number stored at `pos`.
pub open spec fn read_be64(s: Seq<u8>, pos: int) -> u64 {
    u64_of_be(s[pos], s[pos + 1], s[pos + 2], s[pos + 3], s[pos + 4], s[pos + 5], s[pos + 6], s[pos + 7])
}

/// Reading back the bytes of `be16` gives the low 16 bits.
pub proof fn lemma_be16_roundtrip(n: nat, rest: Seq<u8>)
    ensures
        read_be16(be16(n) + rest, 0) == n % 65536,
{
    let s = be16(n) + rest;
    assert(s[0] == ((n / 256) % 256) as u8);
    assert(s[1] == (n % 256) as u8);
    assert((n / 256) % 256 * 256 + n % 256 == n % 65536) by (nonlinear_arith);
}

/// Only the low 16 bits of a number are written.
pub proof fn lemma_be16_mod(n: nat)
    ensures
        be16(n % 65536) == be16(n),
{
    assert((n % 65536) / 256 % 256 == (n / 256) % 256 && (n % 65536) % 256 == n % 256)
        by (nonlinear_arith);
}

/// Reading back the bytes of `be64` gives the number.
pub proof fn lemma_be64_roundtrip(x: u64)
    ensures
        u64_of_be(
            (x >> 56u64) as u8,
            (x >> 48u64) as u8,
            (x >> 40u64) as u8,
            (x >> 32u64) as u8,
            (x >> 24u64) as u8,
            (x >> 16u64) as u8,
            (x >> 8u64) as u8,
            x as u8,
        ) == x,
{
    assert(((((x >> 56u64) as u8) as u64) << 56u64) | ((((x >> 48u64) as u8) as u64) << 48u64) | (
    (((x >> 40u64) as u8) as u64) << 40u64) | ((((x >> 32u64) as u8) as u64) << 32u64) | ((((x
        >> 24u64) as u8) as u64) << 24u64) | ((((x >> 16u64) as u8) as u64) << 16u64) | ((((x
        >> 8u64) as u8) as u64) << 8u64) | ((x as u8) as u64) == x) by (bit_vector);
}

/// The number that a byte string stands for in base 256, most significant
/// byte first.
pub open spec fn be_value(b: Seq<u8>) -> nat
    decreases b.len(),
{
    if b.len() == 0 {
        0
    } else {
        be_value(b.drop_last()) * 256 + b.last() as nat
    }
}

/// The two bytes written for a 16-bit count are its base-256 digits: they
/// stand for the count modulo 65536.
pub proof fn law_be16_value(n: nat)
    ensures
        be16(n).len() == 2,
        be_value(be16(n)) == n % 65536,
{
    reveal_with_fuel(be_value, 3);
    let b = be16(n);
    assert(b.drop_last().drop_last() =~= Seq::<u8>::empty());
    assert(b.drop_last().last() == b[0]);
    assert((n / 256) % 256 * 256 + n % 256 == n % 65536) by (nonlinear_arith);
}

/// The eight bytes written for a 64-bit number are its base-256 digits,
/// most significant first.
pub proof fn law_be64_value(x: u64)
    ensures
        be64(x).len() == 8,
        be_value(be64(x)) == x,
{
    reveal_with_fuel(be_value, 9);
    let b = be64(x);
    assert(b.take(0) =~= Seq::<u8>::empty());
    assert(b.take(1).drop_last() =~= b.take(0));
    assert(b.take(2).drop_last() =~= b.take(1));
    assert(b.take(3).drop_last() =~= b.take(2));
    assert(b.take(4).drop_last() =~= b.take(3));
    assert(b.take(5).drop_last() =~= b.take(4));
    assert(b.take(6).drop_last() =~= b.take(5));
    assert(b.take(7).drop_last() =~= b.take(6));
    assert(b.drop_last() =~= b.take(7));
    assert(be_value(b.take(1)) == b[0]);
    assert(be_value(b.take(2)) == be_value(b.take(1)) * 256 + b[1]);
    assert(be_value(b.take(3)) == be_value(b.take(2)) * 256 + b[2]);
    assert(be_value(b.take(4)) == be_value(b.take(3)) * 256 + b[3]);
    assert(be_value(b.take(5)) == be_value(b.take(4)) * 256 + b[4]);
    assert(be_value(b.take(6)) == be_value(b.take(5)) * 256 + b[5]);
    assert(be_value(b.take(7)) == be_value(b.take(6)) * 256 + b[6]);
    assert(be_value(b) == be_value(b.take(7)) * 256 + b[7]);
    assert(x == ((((((((x >> 56u64) as u8) * 256 + ((x >> 48u64) as u8)) * 256 + ((x
        >> 40u64) as u8)) * 256 + ((x >> 32u64) as u8)) * 256 + ((x >> 24u64) as u8)) * 256
        + ((x >> 16u64) as u8)) * 256 + ((x >> 8u64) as u8)) * 256 + (x as u8)) by (bit_vector);
}

/// Reading a 64-bit number at `pos` gives the base-256 value of the eight
/// bytes there.
pub proof fn law_read_be64_value(s: Seq<u8>, pos: int)
    requires
        0 <= pos,
        pos + 8 <= s.len(),
    ensures
        read_be64(s, pos) == be_value(s.subrange(pos, pos + 8)),
{
    reveal_with_fuel(be_value, 9);
    let b = s.subrange(pos, pos + 8);
    assert(b.take(0) =~= Seq::<u8>::empty());
    assert(b.take(1).drop_last() =~= b.take(0));
    assert(b.take(2).drop_last() =~= b.take(1));
    assert(b.take(3).drop_last() =~= b.take(2));
    assert(b.take(4).drop_last() =~= b.take(3));
    assert(b.take(5).drop_last() =~= b.take(4));
    assert(b.take(6).drop_last() =~= b.take(5));
    assert(b.take(7).drop_last() =~= b.take(6));
    assert(b.drop_last() =~= b.take(7));
    assert(be_value(b.take(1)) == b[0]);
    assert(be_value(b.take(2)) == be_value(b.take(1)) * 256 + b[1]);
    assert(be_value(b.take(3)) == be_value(b.take(2)) * 256 + b[2]);
    assert(be_value(b.take(4)) == be_value(b.take(3)) * 256 + b[3]);
    assert(be_value(b.take(5)) == be_value(b.take(4)) * 256 + b[4]);
    assert(be_value(b.take(6)) == be_value(b.take(5)) * 256 + b[5]);
    assert(be_value(b.take(7)) == be_value(b.take(6)) * 256 + b[6]);
    assert(be_value(b) == be_value(b.take(7)) * 256 + b[7]);
    let (b0, b1, b2, b3, b4, b5, b6, b7) = (b[0], b[1], b[2], b[3], b[4], b[5], b[6], b[7]);
    assert(u64_of_be(b0, b1, b2, b3, b4, b5, b6, b7) == ((((((b0 * 256 + b1) * 256 + b2) * 256
        + b3) * 256 + b4) * 256 + b5) * 256 + b6) * 256 + b7) by (bit_vector);
}

/// Appends the big-endian bytes of `v`.
pub fn put_u16_be(dst: &mut Vec<u8>, v: u16)
    ensures
        final(dst)@ == old(dst)@ + be16(v as nat),
{
    dst.push((v / 256) as u8);
    dst.push((v % 256) as u8);
    assert(final(dst)@ =~= old(dst)@ + be16(v as nat));
}

/// Appends the big-endian bytes of `v`.
pub fn put_u64_be(dst: &mut Vec<u8>, v: u64)
    ensures
        final(dst)@ == old(dst)@ + be64(v),
{
    dst.push((v >> 56u64) as u8);
    dst.push((v >> 48u64) as u8);
    dst.push((v >> 40u64) as u8);
    dst.push((v >> 32u64) as u8);
    dst.push((v >> 24u64) as u8);
    dst.push((v >> 16u64) as u8);
    dst.push((v >> 8u64) as u8);
    dst.push(v as u8);
    assert(final(dst)@ =~= old(dst)@ + be64(v));
}

/// Appends all bytes of `src`.
pub fn put_slice(dst: &mut Vec<u8>, src: &[u8])
    ensures
        final(dst)@ == old(dst)@ + src@,
{
    let mut i: usize = 0;
    while i < src.len()
        invariant
            i <= src@.len(),
            dst@ == old(dst)@ + src@.take(i as int),
        decreases src@.len() - i,
    {
        dst.push(src[i]);
        i = i + 1;
        assert(dst@ =~= old(dst)@ + src@.take(i as int));
    }
    assert(src@.take(i as int) =~= src@);
}

/// The big-endian 16-bit number at `pos`.
pub fn get_u16_be(s: &[u8], pos: usize) -> (r: u16)
    requires
        pos + 2 <= s@.len(),
    ensures
        r == read_be16(s@, pos as int),
{
    (s[pos] as u16) * 256 + s[pos + 1] as u16
}

/// The big-endian 64-bit number at `pos`.
pub fn get_u64_be(s: &[u8], pos: usize) -> (r: u64)
    requires
        pos + 8 <= s@.len(),
    ensures
        r == read_be64(s@, pos as int),
{
    ((s[pos] as u64) << 56u64) | ((s[pos + 1] as u64) << 48u64) | ((s[pos + 2] as u64) << 40u64)
        | ((s[pos + 3] as u64) << 32u64) | ((s[pos + 4] as u64) << 24u64) | ((s[pos + 5] as u64)
        << 16u64) | ((s[pos + 6] as u64) << 8u64) | (s[pos + 7] as u64)
}

/// The bytes `s[start..start + len]` in a new vector.
pub fn copy_range(s: &[u8], start: usize, len: usize) -> (r: Vec<u8>)
    requires
        start + len <= s@.len(),
    ensures
        r@ == s@.subrange(start as int, start + len),
{
    let mut r: Vec<u8> = Vec::with_capacity(len);
    let mut i: usize = 0;
    while i < len
        invariant
            i <= len,
            start + len <= s.len(),
            r@ == s@.subrange(start as int, start + i),
        decreases len - i,
    {
        r.push(s[start + i]);
        i = i + 1;
        assert(r@ =~= s@.subrange(start as int, start + i));
    }
    r
}

} // verus!
