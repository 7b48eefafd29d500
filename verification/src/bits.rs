//! Bit-level view over bytes. Bit `0` of a byte is its least significant bit;
//! bit `j` of a buffer is bit `j % 8` of byte `j / 8`.

use vstd::prelude::*;

verus! {

/// Bit `i` of `byte`, counted from the least significant bit.
pub open spec fn bit_of(byte: u8, i: int) -> bool {
    (byte >> (i as u8)) & 1 == 1
}

/// The byte whose bit `i` is `f(i)` for each `i` in `0..8`.
pub open spec fn byte_from_bits(f: spec_fn(int) -> bool) -> u8 {
    (if f(0) { 1u8 } else { 0u8 })
        | (if f(1) { 2u8 } else { 0u8 })
        | (if f(2) { 4u8 } else { 0u8 })
        | (if f(3) { 8u8 } else { 0u8 })
        | (if f(4) { 16u8 } else { 0u8 })
        | (if f(5) { 32u8 } else { 0u8 })
        | (if f(6) { 64u8 } else { 0u8 })
        | (if f(7) { 128u8 } else { 0u8 })
}

/// The bits of `bytes` as one sequence, least significant bit of each byte first.
pub open spec fn bits_of(bytes: Seq<u8>) -> Seq<bool> {
    Seq::new(8 * bytes.len(), |j: int| bit_of(bytes[j / 8], j % 8))
}

/// The first `n` bytes that `bits` spell out, eight bits to a byte, least
/// significant bit first.
pub open spec fn bytes_of(bits: Seq<bool>, n: nat) -> Seq<u8> {
    Seq::new(n, |m: int| byte_from_bits(|i: int| bits[8 * m + i]))
}

/// `byte` with bit `i` replaced by `value`.
pub open spec fn with_bit_spec(byte: u8, i: int, value: bool) -> u8 {
    byte_from_bits(|b: int| if b == i { value } else { bit_of(byte, b) })
}

proof fn lemma_pack_bits(b0: bool, b1: bool, b2: bool, b3: bool, b4: bool, b5: bool, b6: bool, b7: bool, v: u8)
    by (bit_vector)
    requires
        v == (if b0 { 1u8 } else { 0u8 }) | (if b1 { 2u8 } else { 0u8 }) | (if b2 { 4u8 } else { 0u8 })
            | (if b3 { 8u8 } else { 0u8 }) | (if b4 { 16u8 } else { 0u8 }) | (if b5 { 32u8 } else { 0u8 })
            | (if b6 { 64u8 } else { 0u8 }) | (if b7 { 128u8 } else { 0u8 }),
    ensures
        ((v >> 0u8) & 1 == 1) == b0,
        ((v >> 1u8) & 1 == 1) == b1,
        ((v >> 2u8) & 1 == 1) == b2,
        ((v >> 3u8) & 1 == 1) == b3,
        ((v >> 4u8) & 1 == 1) == b4,
        ((v >> 5u8) & 1 == 1) == b5,
        ((v >> 6u8) & 1 == 1) == b6,
        ((v >> 7u8) & 1 == 1) == b7,
{
}

proof fn lemma_bits_determine_byte(a: u8, b: u8)
    by (bit_vector)
    requires
        (a >> 0u8) & 1 == (b >> 0u8) & 1,
        (a >> 1u8) & 1 == (b >> 1u8) & 1,
        (a >> 2u8) & 1 == (b >> 2u8) & 1,
        (a >> 3u8) & 1 == (b >> 3u8) & 1,
        (a >> 4u8) & 1 == (b >> 4u8) & 1,
        (a >> 5u8) & 1 == (b >> 5u8) & 1,
        (a >> 6u8) & 1 == (b >> 6u8) & 1,
        (a >> 7u8) & 1 == (b >> 7u8) & 1,
    ensures
        a == b,
{
}

proof fn lemma_bit_is_zero_or_one(a: u8, s: u8)
    by (bit_vector)
    ensures
        (a >> s) & 1 == 0 || (a >> s) & 1 == 1,
{
}

/// Bit `i` of `byte_from_bits(f)` is `f(i)`.
pub proof fn lemma_byte_from_bits_bit(f: spec_fn(int) -> bool, i: int)
    requires
        0 <= i < 8,
    ensures
        bit_of(byte_from_bits(f), i) == f(i),
{
    lemma_pack_bits(f(0), f(1), f(2), f(3), f(4), f(5), f(6), f(7), byte_from_bits(f));
}

/// Two bytes that agree on all eight bits are equal.
pub proof fn lemma_byte_ext(a: u8, b: u8)
    requires
        forall|i: int| 0 <= i < 8 ==> bit_of(a, i) == bit_of(b, i),
    ensures
        a == b,
{
    assert(bit_of(a, 0) == bit_of(b, 0));
    assert(bit_of(a, 1) == bit_of(b, 1));
    assert(bit_of(a, 2) == bit_of(b, 2));
    assert(bit_of(a, 3) == bit_of(b, 3));
    assert(bit_of(a, 4) == bit_of(b, 4));
    assert(bit_of(a, 5) == bit_of(b, 5));
    assert(bit_of(a, 6) == bit_of(b, 6));
    assert(bit_of(a, 7) == bit_of(b, 7));
    lemma_bit_is_zero_or_one(a, 0);
    lemma_bit_is_zero_or_one(a, 1);
    lemma_bit_is_zero_or_one(a, 2);
    lemma_bit_is_zero_or_one(a, 3);
    lemma_bit_is_zero_or_one(a, 4);
    lemma_bit_is_zero_or_one(a, 5);
    lemma_bit_is_zero_or_one(a, 6);
    lemma_bit_is_zero_or_one(a, 7);
    lemma_bit_is_zero_or_one(b, 0);
    lemma_bit_is_zero_or_one(b, 1);
    lemma_bit_is_zero_or_one(b, 2);
    lemma_bit_is_zero_or_one(b, 3);
    lemma_bit_is_zero_or_one(b, 4);
    lemma_bit_is_zero_or_one(b, 5);
    lemma_bit_is_zero_or_one(b, 6);
    lemma_bit_is_zero_or_one(b, 7);
    lemma_bits_determine_byte(a, b);
}

/// A byte whose bits are those that `f` gives is `byte_from_bits(f)`.
pub proof fn lemma_byte_from_bits_unique(v: u8, f: spec_fn(int) -> bool)
    requires
        forall|i: int| 0 <= i < 8 ==> bit_of(v, i) == f(i),
    ensures
        v == byte_from_bits(f),
{
    assert forall|i: int| 0 <= i < 8 implies bit_of(v, i) == bit_of(byte_from_bits(f), i) by {
        lemma_byte_from_bits_bit(f, i);
    }
    lemma_byte_ext(v, byte_from_bits(f));
}

/// Splitting bytes into bits and packing the bits again gives the bytes back.
pub proof fn lemma_bytes_of_bits_of(bytes: Seq<u8>)
    ensures
        bytes_of(bits_of(bytes), bytes.len()) == bytes,
{
    let bits = bits_of(bytes);
    assert forall|m: int| 0 <= m < bytes.len() implies bytes_of(bits, bytes.len())[m] == bytes[m] by {
        let f = |i: int| bits[8 * m + i];
        assert forall|i: int| 0 <= i < 8 implies bit_of(bytes[m], i) == f(i) by {
            assert((8 * m + i) / 8 == m && (8 * m + i) % 8 == i);
        }
        lemma_byte_from_bits_unique(bytes[m], f);
    }
    assert(bytes_of(bits, bytes.len()) =~= bytes);
}

/// Bits that start with the bits of `bytes` spell out `bytes` first.
pub proof fn lemma_bytes_of_prefix(bits: Seq<bool>, bytes: Seq<u8>, n: nat)
    requires
        n <= bytes.len(),
        8 * bytes.len() <= bits.len(),
        forall|j: int| 0 <= j < 8 * bytes.len() ==> bits[j] == bits_of(bytes)[j],
    ensures
        bytes_of(bits, n) == bytes.subrange(0, n as int),
{
    assert forall|m: int| 0 <= m < n implies bytes_of(bits, n)[m] == bytes[m] by {
        let f = |i: int| bits[8 * m + i];
        assert forall|i: int| 0 <= i < 8 implies bit_of(bytes[m], i) == f(i) by {
            assert((8 * m + i) / 8 == m && (8 * m + i) % 8 == i);
            assert(bits[8 * m + i] == bits_of(bytes)[8 * m + i]);
        }
        lemma_byte_from_bits_unique(bytes[m], f);
    }
    assert(bytes_of(bits, n) =~= bytes.subrange(0, n as int));
}

/// `byte` with bit `i` replaced by `value`.
pub fn with_bit(byte: u8, i: u8, value: bool) -> (r: u8)
    requires
        i < 8,
    ensures
        r == with_bit_spec(byte, i as int, value),
        forall|b: int| 0 <= b < 8 ==> bit_of(r, b) == if b == i { value } else { bit_of(byte, b) },
{
    let mask: u8 = 1u8 << i;
    let r: u8 = if value { byte | mask } else { byte & !mask };
    proof {
        let f = |b: int| if b == i { value } else { bit_of(byte, b) };
        assert forall|b: int| 0 <= b < 8 implies bit_of(r, b) == f(b) by {
            let s: u8 = b as u8;
            assert(((if value { byte | (1u8 << i) } else { byte & !(1u8 << i) }) >> s) & 1 == 1 <==> if s == i {
                value
            } else {
                (byte >> s) & 1 == 1
            }) by (bit_vector)
                requires
                    i < 8,
                    s < 8,
            ;
        }
        lemma_byte_from_bits_unique(r, f);
    }
    r
}

/// Bit `j` of `data`.
pub fn bit_at(data: &[u8], j: u64) -> (bit: bool)
    requires
        j < 8 * data@.len(),
    ensures
        bit == bits_of(data@)[j as int],
{
    let byte: u8 = data[(j / 8) as usize];
    let shift: u8 = (j % 8) as u8;
    (byte >> shift) & 1 == 1
}

/// Reads bit `idx` of `data`, or `None` when `idx` lies past the last byte.
pub fn get_bit(data: &[u8], idx: usize) -> (bit: Option<bool>)
    ensures
        bit == if idx < 8 * data@.len() {
            Some(bits_of(data@)[idx as int])
        } else {
            None
        },
{
    let byte_idx: usize = idx / 8;
    let bit_idx: u8 = (idx % 8) as u8;
    if byte_idx < data.len() {
        let byte: u8 = data[byte_idx];
        assert((byte & (1u8 << bit_idx) != 0) == ((byte >> bit_idx) & 1 == 1)) by (bit_vector)
            requires
                bit_idx < 8,
        ;
        Some(byte & (1u8 << bit_idx) != 0)
    } else {
        None
    }
}

/// Writes `value` to bit `idx` of `data`. Returns `false`, leaving `data` as it
/// was, when `idx` lies past the last byte.
pub fn set_bit(data: &mut Vec<u8>, idx: usize, value: bool) -> (written: bool)
    ensures
        written == (idx < 8 * old(data)@.len()),
        final(data)@.len() == old(data)@.len(),
        written ==> bits_of(final(data)@) == bits_of(old(data)@).update(idx as int, value),
        !written ==> final(data)@ == old(data)@,
{
    let byte_idx: usize = idx / 8;
    let bit_idx: u8 = (idx % 8) as u8;
    if byte_idx < data.len() {
        let byte: u8 = data[byte_idx];
        let updated: u8 = with_bit(byte, bit_idx, value);
        data.set(byte_idx, updated);
        proof {
            let before = bits_of(old(data)@);
            let after = bits_of(data@);
            assert forall|j: int| 0 <= j < after.len() implies after[j] == before.update(idx as int, value)[j] by {
                if j / 8 == byte_idx as int {
                    assert(bit_of(updated, j % 8) == if j % 8 == bit_idx { value } else { bit_of(byte, j % 8) });
                }
            }
            assert(after =~= before.update(idx as int, value));
        }
        true
    } else {
        false
    }
}

} // verus!
