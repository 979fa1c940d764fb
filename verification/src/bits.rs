//! Bit-addressable view of a byte window.
//!
//! A decode window is a byte slice read as a sequence of bits, most
//! significant bit of each byte first: bit 0 is the top bit of byte 0,
//! bit 7 its bottom bit, bit 8 the top bit of byte 1, and so on.  All
//! field decoding is defined in terms of this numbering.

use vstd::arithmetic::power2::*;
use vstd::prelude::*;

verus! {

/// The `i`-th bit of `bytes` in the most-significant-first numbering.
pub open spec fn bit_at(bytes: Seq<u8>, i: int) -> bool
    recommends
        0 <= i < bytes.len() * 8,
{
    (bytes[i / 8] >> ((7 - i % 8) as u8)) & 1 == 1
}

/// Value of the `width` bits starting at bit `start`, first bit most
/// significant (big-endian bit order).
pub open spec fn be_value(bytes: Seq<u8>, start: int, width: nat) -> nat
    decreases width,
{
    if width == 0 {
        0
    } else {
        be_value(bytes, start, (width - 1) as nat) * 2 + (if bit_at(
            bytes,
            start + width - 1,
        ) {
            1nat
        } else {
            0nat
        })
    }
}

/// Value of the `width` bits starting at bit `start`, first bit least
/// significant; this is the load order of the arbitrary-width scratch
/// buffer, where the `i`-th bit read carries weight `2^i`.
pub open spec fn lsb_value(bytes: Seq<u8>, start: int, width: nat) -> nat
    decreases width,
{
    if width == 0 {
        0
    } else {
        (if bit_at(bytes, start) {
            1nat
        } else {
            0nat
        }) + 2 * lsb_value(bytes, start + 1, (width - 1) as nat)
    }
}

/// Value of `nbytes` consecutive 8-bit groups starting at bit `start`,
/// reassembled in little-endian byte order: the first group is the least
/// significant byte of the result.
pub open spec fn le_value(bytes: Seq<u8>, start: int, nbytes: nat) -> nat
    decreases nbytes,
{
    if nbytes == 0 {
        0
    } else {
        be_value(bytes, start, 8) + 256 * le_value(bytes, start + 8, (nbytes - 1) as nat)
    }
}

/// `pow2(128)` is one more than `u128::MAX`, so any value below it fits
/// in a `u128`.
pub proof fn lemma_pow2_128()
    ensures
        pow2(128) == u128::MAX + 1,
{
    lemma2_to64();
    lemma_pow2_adds(64, 64);
}

proof fn lemma_be_bound(bytes: Seq<u8>, start: int, width: nat)
    ensures
        be_value(bytes, start, width) < pow2(width),
    decreases width,
{
    lemma_pow2_pos(width);
    if width > 0 {
        lemma_be_bound(bytes, start, (width - 1) as nat);
        lemma_pow2_unfold(width);
    }
}

proof fn lemma_lsb_bound(bytes: Seq<u8>, start: int, width: nat)
    ensures
        lsb_value(bytes, start, width) < pow2(width),
    decreases width,
{
    lemma_pow2_pos(width);
    if width > 0 {
        lemma_lsb_bound(bytes, start + 1, (width - 1) as nat);
        lemma_pow2_unfold(width);
    }
}

proof fn lemma_le_bound(bytes: Seq<u8>, start: int, nbytes: nat)
    ensures
        le_value(bytes, start, nbytes) < pow2(nbytes * 8),
    decreases nbytes,
{
    lemma_pow2_pos(nbytes * 8);
    if nbytes > 0 {
        lemma_le_bound(bytes, start + 8, (nbytes - 1) as nat);
        lemma_be_bound(bytes, start, 8);
        lemma_pow2_adds(8, ((nbytes - 1) * 8) as nat);
        lemma2_to64();
        assert(le_value(bytes, start, nbytes) == be_value(bytes, start, 8) + 256 * le_value(
            bytes,
            start + 8,
            (nbytes - 1) as nat,
        ));
        assert(nbytes * 8 == 8 + (nbytes - 1) * 8) by (nonlinear_arith);
    }
}

/// Reading eight bits at a byte boundary yields exactly that byte: the
/// bit numbering really is most-significant-first within each byte.
pub proof fn lemma_be_value_aligned_byte(bytes: Seq<u8>, k: int)
    requires
        0 <= k < bytes.len(),
    ensures
        be_value(bytes, 8 * k, 8) == bytes[k],
{
    reveal_with_fuel(be_value, 9);
    let b = bytes[k];
    assert((8 * k + 0) / 8 == k && (8 * k + 0) % 8 == 0 && (8 * k + 1) / 8 == k && (8 * k + 1) % 8
        == 1 && (8 * k + 2) / 8 == k && (8 * k + 2) % 8 == 2 && (8 * k + 3) / 8 == k && (8 * k + 3)
        % 8 == 3 && (8 * k + 4) / 8 == k && (8 * k + 4) % 8 == 4 && (8 * k + 5) / 8 == k && (8 * k
        + 5) % 8 == 5 && (8 * k + 6) / 8 == k && (8 * k + 6) % 8 == 6 && (8 * k + 7) / 8 == k && (8
        * k + 7) % 8 == 7) by (nonlinear_arith);
    assert(((b >> 7) & 1) <= 1 && ((b >> 6) & 1) <= 1 && ((b >> 5) & 1) <= 1 && ((b >> 4) & 1)
        <= 1 && ((b >> 3) & 1) <= 1 && ((b >> 2) & 1) <= 1 && ((b >> 1) & 1) <= 1 && ((b >> 0) & 1)
        <= 1) by (bit_vector);
    assert(((b >> 7) & 1) as nat * 128 + ((b >> 6) & 1) as nat * 64 + ((b >> 5) & 1) as nat * 32
        + ((b >> 4) & 1) as nat * 16 + ((b >> 3) & 1) as nat * 8 + ((b >> 2) & 1) as nat * 4 + ((b
        >> 1) & 1) as nat * 2 + ((b >> 0) & 1) as nat == b as nat) by (bit_vector);
}

/// Read one bit of the window.
pub fn read_bit(chunk: &[u8], i: usize) -> (b: bool)
    requires
        i < chunk@.len() * 8,
    ensures
        b == bit_at(chunk@, i as int),
{
    let byte: u8 = chunk[i / 8];
    let shift: u8 = 7 - ((i % 8) as u8);
    ((byte >> shift) & 1) == 1
}

/// Read `width` bits starting at `start` as a big-endian bit string.
pub fn read_be_bits(chunk: &[u8], start: usize, width: usize) -> (v: u128)
    requires
        width <= 128,
        start + width <= chunk@.len() * 8,
        start + width <= usize::MAX,
    ensures
        v == be_value(chunk@, start as int, width as nat),
        v < pow2(width as nat),
{
    proof {
        lemma_pow2_128();
        lemma2_to64();
    }
    let mut v: u128 = 0;
    let mut i: usize = 0;
    while i < width
        invariant
            i <= width <= 128,
            start + width <= chunk@.len() * 8,
            start + width <= usize::MAX,
            v == be_value(chunk@, start as int, i as nat),
            v < pow2(i as nat),
            pow2(128) == u128::MAX + 1,
        decreases width - i,
    {
        proof {
            lemma_pow2_unfold((i + 1) as nat);
            if i + 1 < 128 {
                lemma_pow2_strictly_increases((i + 1) as nat, 128);
            }
        }
        let b = read_bit(chunk, start + i);
        v = v * 2 + (if b {
            1
        } else {
            0
        });
        i = i + 1;
    }
    v
}

/// Read `width` bits starting at `start` with the first bit least
/// significant, as the arbitrary-width scratch buffer loads them.
pub fn read_lsb_bits(chunk: &[u8], start: usize, width: usize) -> (v: u128)
    requires
        width <= 128,
        start + width <= chunk@.len() * 8,
        start + width <= usize::MAX,
    ensures
        v == lsb_value(chunk@, start as int, width as nat),
        v < pow2(width as nat),
{
    proof {
        lemma_pow2_128();
        lemma2_to64();
        lemma_lsb_bound(chunk@, start as int, width as nat);
    }
    let mut v: u128 = 0;
    let mut i: usize = width;
    while i > 0
        invariant
            i <= width <= 128,
            start + width <= chunk@.len() * 8,
            start + width <= usize::MAX,
            v == lsb_value(chunk@, start + i as int, (width - i) as nat),
            v < pow2((width - i) as nat),
            pow2(128) == u128::MAX + 1,
        decreases i,
    {
        proof {
            lemma_pow2_unfold((width - i + 1) as nat);
            if width - i + 1 < 128 {
                lemma_pow2_strictly_increases((width - i + 1) as nat, 128);
            }
        }
        i = i - 1;
        let b = read_bit(chunk, start + i);
        v = (if b {
            1
        } else {
            0
        }) + 2 * v;
    }
    v
}

/// Read `nbytes` 8-bit groups starting at `start` and reassemble them in
/// little-endian byte order.
pub fn read_le_bytes(chunk: &[u8], start: usize, nbytes: usize) -> (v: u128)
    requires
        nbytes <= 16,
        start + nbytes * 8 <= chunk@.len() * 8,
        start + nbytes * 8 <= usize::MAX,
    ensures
        v == le_value(chunk@, start as int, nbytes as nat),
        v < pow2((nbytes * 8) as nat),
{
    proof {
        lemma_pow2_128();
        lemma2_to64();
        lemma_le_bound(chunk@, start as int, nbytes as nat);
    }
    let mut v: u128 = 0;
    let mut j: usize = nbytes;
    while j > 0
        invariant
            j <= nbytes <= 16,
            start + nbytes * 8 <= chunk@.len() * 8,
            start + nbytes * 8 <= usize::MAX,
            v == le_value(chunk@, start + 8 * j as int, (nbytes - j) as nat),
            v < pow2(((nbytes - j) * 8) as nat),
            pow2(128) == u128::MAX + 1,
        decreases j,
    {
        proof {
            lemma_pow2_adds(((nbytes - j) * 8) as nat, 8);
            lemma2_to64();
            assert(((nbytes - j) * 8 + 8) as nat == ((nbytes - j + 1) * 8) as nat)
                by (nonlinear_arith);
            if (nbytes - j + 1) * 8 < 128 {
                lemma_pow2_strictly_increases(((nbytes - j + 1) * 8) as nat, 128);
            } else {
                assert((nbytes - j + 1) * 8 <= 128) by (nonlinear_arith)
                    requires
                        j >= 1 && nbytes <= 16,
                ;
            }
        }
        j = j - 1;
        let g = read_be_bits(chunk, start + 8 * j, 8);
        proof {
            lemma2_to64();
        }
        v = v * 256 + g;
    }
    v
}

} // verus!
