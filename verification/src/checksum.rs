//! The CRC-32C checksum.
use vstd::prelude::*;

verus! {

/// The Castagnoli polynomial, bits reversed.
pub const POLYNOMIAL: u32 = 0x82f6_3b78;

/// One step of the division by the polynomial: the low bit leaves, and where it
/// was set the polynomial is taken away.
pub open spec fn divide_bit(crc: u32) -> u32 {
    if crc & 1 == 1 {
        (crc >> 1) ^ POLYNOMIAL
    } else {
        crc >> 1
    }
}

/// `count` steps of the division.
pub open spec fn divide_bits(crc: u32, count: nat) -> u32
    decreases count,
{
    if count == 0 {
        crc
    } else {
        divide_bit(divide_bits(crc, (count - 1) as nat))
    }
}

/// The register after taking in one more byte.
pub open spec fn absorb(crc: u32, byte: u8) -> u32 {
    divide_bits(crc ^ (byte as u32), 8)
}

/// The register after taking in all bytes, starting from all ones.
pub open spec fn register(bytes: Seq<u8>) -> u32
    decreases bytes.len(),
{
    if bytes.len() == 0 {
        0xffff_ffff
    } else {
        absorb(register(bytes.drop_last()), bytes.last())
    }
}

/// The CRC-32C of a byte string: the complement of the final register.
pub open spec fn checksum(bytes: Seq<u8>) -> u32 {
    !register(bytes)
}

/// Computes the CRC-32C of a byte string.
pub fn crc32c(bytes: &[u8]) -> (crc: u32)
    ensures
        crc == checksum(bytes@),
{
    let mut crc: u32 = 0xffff_ffff;
    let mut i: usize = 0;
    assert(bytes@.subrange(0, 0) =~= Seq::empty());
    while i < bytes.len()
        invariant
            i <= bytes.len(),
            crc == register(bytes@.subrange(0, i as int)),
        decreases bytes.len() - i,
    {
        let ghost before = crc;
        crc = crc ^ (bytes[i] as u32);
        let ghost start = crc;
        let mut bit: u32 = 0;
        while bit < 8
            invariant
                bit <= 8,
                crc == divide_bits(start, bit as nat),
            decreases 8 - bit,
        {
            crc = if crc & 1 == 1 {
                (crc >> 1) ^ POLYNOMIAL
            } else {
                crc >> 1
            };
            bit = bit + 1;
        }
        let ghost next = bytes@.subrange(0, i + 1);
        assert(next.drop_last() =~= bytes@.subrange(0, i as int));
        i = i + 1;
    }
    assert(bytes@.subrange(0, i as int) =~= bytes@);
    !crc
}

proof fn lemma_divide_bit_injective(a: u32, b: u32)
    requires
        divide_bit(a) == divide_bit(b),
    ensures
        a == b,
{
    assert(a == b) by (bit_vector)
        requires
            (if a & 1 == 1 {
                (a >> 1) ^ 0x82f6_3b78
            } else {
                a >> 1
            }) == (if b & 1 == 1 {
                (b >> 1) ^ 0x82f6_3b78
            } else {
                b >> 1
            }),
    ;
}

proof fn lemma_divide_bits_injective(a: u32, b: u32, count: nat)
    requires
        divide_bits(a, count) == divide_bits(b, count),
    ensures
        a == b,
    decreases count,
{
    if count > 0 {
        lemma_divide_bit_injective(
            divide_bits(a, (count - 1) as nat),
            divide_bits(b, (count - 1) as nat),
        );
        lemma_divide_bits_injective(a, b, (count - 1) as nat);
    }
}

proof fn lemma_register_suffix(a: Seq<u8>, b: Seq<u8>, common: int)
    requires
        a.len() == b.len(),
        0 <= common <= a.len(),
        forall|i: int| common <= i < a.len() ==> a[i] == b[i],
        register(a) == register(b),
    ensures
        register(a.subrange(0, common)) == register(b.subrange(0, common)),
    decreases a.len(),
{
    if common == a.len() {
        assert(a.subrange(0, common) =~= a);
        assert(b.subrange(0, common) =~= b);
    } else {
        let x = register(a.drop_last());
        let y = register(b.drop_last());
        let byte = a.last() as u32;
        lemma_divide_bits_injective(x ^ byte, y ^ byte, 8);
        assert(x == y) by (bit_vector)
            requires
                x ^ byte == y ^ byte,
        ;
        lemma_register_suffix(a.drop_last(), b.drop_last(), common);
        assert(a.drop_last().subrange(0, common) =~= a.subrange(0, common));
        assert(b.drop_last().subrange(0, common) =~= b.subrange(0, common));
    }
}

/// What is taken in above the bits that a step divides off comes out below them.
proof fn lemma_divide_bit_above(crc: u32, y: u32)
    requires
        y < 0x8000_0000,
    ensures
        divide_bit(crc ^ (y << 1)) == divide_bit(crc) ^ y,
{
    assert((if (crc ^ (y << 1)) & 1 == 1 {
        ((crc ^ (y << 1)) >> 1) ^ 0x82f6_3b78
    } else {
        (crc ^ (y << 1)) >> 1
    }) == (if crc & 1 == 1 {
        (crc >> 1) ^ 0x82f6_3b78
    } else {
        crc >> 1
    }) ^ y) by (bit_vector)
        requires
            y < 0x8000_0000,
    ;
}

proof fn lemma_divide_bits_above(crc: u32, y: u32, count: u32)
    requires
        count <= 24,
        y <= 0xffff_ffffu32 >> count,
    ensures
        divide_bits(crc ^ (y << count), count as nat) == divide_bits(crc, count as nat) ^ y,
    decreases count,
{
    if count == 0 {
        assert(y << 0 == y) by (bit_vector);
    } else {
        let less = (count - 1) as u32;
        assert((y << 1) << less == y << count && y << 1 <= 0xffff_ffffu32 >> less && y
            < 0x8000_0000) by (bit_vector)
            requires
                1 <= count <= 24,
                less == count - 1,
                y <= 0xffff_ffffu32 >> count,
        ;
        lemma_divide_bits_above(crc, y << 1, less);
        lemma_divide_bit_above(divide_bits(crc, less as nat), y);
    }
}

proof fn lemma_divide_bits_twice(crc: u32, a: nat, b: nat)
    ensures
        divide_bits(divide_bits(crc, a), b) == divide_bits(crc, a + b),
    decreases b,
{
    if b > 0 {
        lemma_divide_bits_twice(crc, a, (b - 1) as nat);
    }
}

/// Up to four bytes as one number, the first of them lowest.
spec fn word(bytes: Seq<u8>, count: nat) -> u32
    decreases count,
{
    if count == 0 {
        0
    } else {
        word(bytes, (count - 1) as nat) ^ ((bytes[count - 1] as u32) << (8 * (count - 1)) as u32)
    }
}

/// Taking in up to four bytes is taking in their number and dividing it off.
proof fn lemma_register_word(head: Seq<u8>, bytes: Seq<u8>, count: nat)
    requires
        count <= 4,
        count <= bytes.len(),
    ensures
        register(head + bytes.take(count as int)) == divide_bits(
            register(head) ^ word(bytes, count),
            8 * count,
        ),
    decreases count,
{
    let start = register(head);
    if count == 0 {
        assert(head + bytes.take(0) =~= head);
        assert(start ^ 0 == start) by (bit_vector);
    } else {
        let less = (count - 1) as nat;
        let shift = (8 * less) as u32;
        let byte = bytes[count - 1] as u32;
        let before = word(bytes, less);
        lemma_register_word(head, bytes, less);
        let whole = head + bytes.take(count as int);
        assert(whole.drop_last() =~= head + bytes.take(less as int));
        assert(byte <= 0xffff_ffffu32 >> shift) by (bit_vector)
            requires
                byte <= 0xff,
                shift <= 24,
        ;
        let z = start ^ before;
        lemma_divide_bits_above(z, byte, shift);
        lemma_divide_bits_twice(z ^ (byte << shift), 8 * less, 8);
        let placed = byte << shift;
        assert(start ^ (before ^ placed) == (start ^ before) ^ placed) by (bit_vector);
    }
}

/// Up to four bytes are known by their number.
proof fn lemma_word_injective(a: Seq<u8>, b: Seq<u8>, count: nat)
    requires
        count <= 4,
        count <= a.len(),
        count <= b.len(),
        word(a, count) == word(b, count),
    ensures
        a.take(count as int) == b.take(count as int),
{
    reveal_with_fuel(word, 5);
    let a0 = if count > 0 { a[0] as u32 } else { 0 };
    let a1 = if count > 1 { a[1] as u32 } else { 0 };
    let a2 = if count > 2 { a[2] as u32 } else { 0 };
    let a3 = if count > 3 { a[3] as u32 } else { 0 };
    let b0 = if count > 0 { b[0] as u32 } else { 0 };
    let b1 = if count > 1 { b[1] as u32 } else { 0 };
    let b2 = if count > 2 { b[2] as u32 } else { 0 };
    let b3 = if count > 3 { b[3] as u32 } else { 0 };
    let x = word(a, count);
    assert(0u32 << 8u32 == 0 && 0u32 << 16u32 == 0 && 0u32 << 24u32 == 0) by (bit_vector);
    assert(forall|w: u32| #[trigger] (w ^ 0) == w) by (bit_vector);
    assert(x == (((0 ^ (a0 << 0u32)) ^ (a1 << 8u32)) ^ (a2 << 16u32)) ^ (a3 << 24u32)) by {
        assert(0u32 << 0u32 == 0) by (bit_vector);
    }
    assert(x == (((0 ^ (b0 << 0u32)) ^ (b1 << 8u32)) ^ (b2 << 16u32)) ^ (b3 << 24u32)) by {
        assert(0u32 << 0u32 == 0) by (bit_vector);
    }
    assert(a0 == b0 && a1 == b1 && a2 == b2 && a3 == b3) by (bit_vector)
        requires
            x == (((0 ^ (a0 << 0u32)) ^ (a1 << 8u32)) ^ (a2 << 16u32)) ^ (a3 << 24u32),
            x == (((0 ^ (b0 << 0u32)) ^ (b1 << 8u32)) ^ (b2 << 16u32)) ^ (b3 << 24u32),
            a0 <= 0xff && a1 <= 0xff && a2 <= 0xff && a3 <= 0xff,
            b0 <= 0xff && b1 <= 0xff && b2 <= 0xff && b3 <= 0xff,
    ;
    assert(a.take(count as int) =~= b.take(count as int));
}

/// The checksum of nothing is zero.
pub proof fn law_empty_checksum_is_zero()
    ensures
        checksum(Seq::<u8>::empty()) == 0,
{
    assert(!0xffff_ffffu32 == 0) by (bit_vector);
}

/// The checksum exposes every corruption that is confined to four bytes in a row: two
/// byte strings of one length that differ, and only there, have different checksums.
pub proof fn law_checksum_exposes_a_burst(a: Seq<u8>, b: Seq<u8>, start: int)
    requires
        a.len() == b.len(),
        a != b,
        0 <= start,
        forall|i: int|
            0 <= i < a.len() && !(start <= i < start + 4) ==> #[trigger] a[i] == b[i],
    ensures
        checksum(a) != checksum(b),
{
    if checksum(a) == checksum(b) {
        let x = register(a);
        let y = register(b);
        assert(x == y) by (bit_vector)
            requires
                !x == !y,
        ;
        let from = if start <= a.len() {
            start
        } else {
            a.len() as int
        };
        let to = if start + 4 <= a.len() {
            start + 4
        } else {
            a.len() as int
        };
        let count = (to - from) as nat;
        let head = a.take(from);
        let u = a.subrange(from, to);
        let v = b.subrange(from, to);
        lemma_register_suffix(a, b, to);
        assert(a.subrange(0, to) =~= head + u.take(count as int));
        assert(b.subrange(0, to) =~= head + v.take(count as int));
        lemma_register_word(head, u, count);
        lemma_register_word(head, v, count);
        let state = register(head);
        let p = word(u, count);
        let q = word(v, count);
        lemma_divide_bits_injective(state ^ p, state ^ q, 8 * count);
        assert(p == q) by (bit_vector)
            requires
                state ^ p == state ^ q,
        ;
        lemma_word_injective(u, v, count);
        assert(u.take(count as int) =~= u && v.take(count as int) =~= v);
        assert forall|i: int| 0 <= i < a.len() implies a[i] == b[i] by {
            if from <= i < to {
                assert(u[i - from] == v[i - from]);
            }
        }
        assert(a =~= b);
    }
}

/// The checksum exposes every corruption that is confined to one byte: two byte
/// strings of one length that differ in exactly one place have different
/// checksums.
pub proof fn law_checksum_exposes_a_changed_byte(bytes: Seq<u8>, position: int, byte: u8)
    requires
        0 <= position < bytes.len(),
        byte != bytes[position],
    ensures
        checksum(bytes.update(position, byte)) != checksum(bytes),
{
    let other = bytes.update(position, byte);
    assert(other[position] != bytes[position]);
    law_checksum_exposes_a_burst(other, bytes, position);
}

} // verus!
