//! CRC-32 (IEEE 802.3, the polynomial of zlib and PNG).

use vstd::prelude::*;

verus! {

/// The reflected polynomial.
pub const POLY: u32 = 0xEDB8_8320;

/// One step of the register: a shift, with the polynomial added in where a one
/// falls out.
pub open spec fn crc_bit(c: u32) -> u32 {
    if c & 1 == 1 {
        0xEDB8_8320u32 ^ (c >> 1u32)
    } else {
        c >> 1u32
    }
}

/// `n` steps of the register.
pub open spec fn crc_bits(c: u32, n: nat) -> u32
    decreases n,
{
    if n == 0 {
        c
    } else {
        crc_bit(crc_bits(c, (n - 1) as nat))
    }
}

/// The register after `bytes`, fed bit by bit from the lowest.
pub open spec fn crc_register(bytes: Seq<u8>) -> u32
    decreases bytes.len(),
{
    if bytes.len() == 0 {
        0xFFFF_FFFF
    } else {
        crc_bits(crc_register(bytes.drop_last()) ^ (bytes.last() as u32), 8)
    }
}

/// The checksum of `bytes`.
pub open spec fn crc32(bytes: Seq<u8>) -> u32 {
    crc_register(bytes) ^ 0xFFFF_FFFFu32
}

/// A step is linear: what lies above the lowest bit only shifts.
proof fn lemma_bit(a: u32, b: u32)
    requires
        b & 1 == 0,
    ensures
        crc_bit(a ^ b) == crc_bit(a) ^ (b >> 1u32),
{
    assert((a ^ b) & 1 == a & 1) by (bit_vector)
        requires
            b & 1 == 0,
    ;
    assert((a ^ b) >> 1u32 == (a >> 1u32) ^ (b >> 1u32)) by (bit_vector);
    assert(0xEDB8_8320u32 ^ ((a >> 1u32) ^ (b >> 1u32)) == (0xEDB8_8320u32 ^ (a >> 1u32)) ^ (b
        >> 1u32)) by (bit_vector);
}

proof fn lemma_bits(a: u32, b: u32, n: nat)
    requires
        n <= 8,
        b & 0xff == 0,
    ensures
        crc_bits(a ^ b, n) == crc_bits(a, n) ^ (b >> (n as u32)),
    decreases n,
{
    if n == 0 {
        assert(b >> 0u32 == b) by (bit_vector);
    } else {
        let m = (n - 1) as nat;
        let k = m as u32;
        let k1 = n as u32;
        lemma_bits(a, b, m);
        assert((b >> k) & 1 == 0) by (bit_vector)
            requires
                b & 0xff == 0,
                k < 8,
        ;
        lemma_bit(crc_bits(a, m), b >> k);
        assert((b >> k) >> 1u32 == b >> k1) by (bit_vector)
            requires
                k < 8,
                k1 == k + 1,
        ;
    }
}

/// A byte's worth of steps is a table lookup and a shift.
proof fn lemma_byte(x: u32)
    ensures
        crc_bits(x, 8) == crc_bits(x & 0xff, 8) ^ (x >> 8u32),
{
    let lo = x & 0xff;
    let hi = x & 0xffff_ff00;
    assert(x == (x & 0xff) ^ (x & 0xffff_ff00)) by (bit_vector);
    assert((x & 0xffff_ff00) & 0xff == 0) by (bit_vector);
    assert((x & 0xffff_ff00) >> 8u32 == x >> 8u32) by (bit_vector);
    lemma_bits(lo, hi, 8);
}

fn crc_table() -> (t: Vec<u32>)
    ensures
        t.len() == 256,
        forall|i: int| 0 <= i < 256 ==> #[trigger] t@[i] == crc_bits(i as u32, 8),
{
    let mut t: Vec<u32> = Vec::new();
    let mut i: u32 = 0;
    while i < 256
        invariant
            i <= 256,
            t.len() == i,
            forall|j: int| 0 <= j < i ==> #[trigger] t@[j] == crc_bits(j as u32, 8),
        decreases 256 - i,
    {
        let mut c: u32 = i;
        let mut k: u32 = 0;
        while k < 8
            invariant
                k <= 8,
                c == crc_bits(i, k as nat),
            decreases 8 - k,
        {
            c = if c & 1 == 1 {
                POLY ^ (c >> 1)
            } else {
                c >> 1
            };
            k = k + 1;
        }
        t.push(c);
        i = i + 1;
    }
    t
}

/// The checksum of `bytes`.
pub fn crc32_ieee(bytes: &[u8]) -> (r: u32)
    ensures
        r == crc32(bytes@),
{
    let table = crc_table();
    let mut crc: u32 = 0xFFFF_FFFF;
    let mut i: usize = 0;
    while i < bytes.len()
        invariant
            i <= bytes.len(),
            table.len() == 256,
            forall|j: int| 0 <= j < 256 ==> #[trigger] table@[j] == crc_bits(j as u32, 8),
            crc == crc_register(bytes@.take(i as int)),
        decreases bytes.len() - i,
    {
        let b: u32 = bytes[i] as u32;
        let x: u32 = crc ^ b;
        proof {
            assert(x & 0xff < 256) by (bit_vector);
            lemma_byte(x);
            assert((crc ^ b) >> 8u32 == crc >> 8u32) by (bit_vector)
                requires
                    b < 256,
            ;
            assert(bytes@.take(i + 1).drop_last() =~= bytes@.take(i as int));
        }
        crc = table[(x & 0xff) as usize] ^ (crc >> 8);
        i = i + 1;
    }
    proof {
        assert(bytes@.take(i as int) =~= bytes@);
    }
    crc ^ 0xFFFF_FFFF
}

}
