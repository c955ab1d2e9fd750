//! Bit-level and little-endian byte-level readings of a file image.
//!
//! The physical strategies address their buffers down to single bits (packed
//! bitmaps, bit-packed integers) and reassemble fixed-width little-endian
//! values. The spec functions here say what a bit or a value at a position
//! is; the executable readers are proved against them.

use vstd::prelude::*;
use vstd::arithmetic::power2::pow2;

verus! {

/// 256 to the `n`.
pub open spec fn pow256(n: nat) -> nat
    decreases n,
{
    if n == 0 {
        1
    } else {
        256 * pow256((n - 1) as nat)
    }
}

/// `pow256` is positive and grows with its argument.
pub proof fn lemma_pow256_pos(n: nat)
    ensures
        pow256(n) >= 1,
    decreases n,
{
    if n > 0 {
        lemma_pow256_pos((n - 1) as nat);
    }
}

/// The values of `pow256` up to eight bytes.
pub proof fn lemma_pow256_values()
    ensures
        pow256(0) == 1,
        pow256(1) == 0x100,
        pow256(2) == 0x10000,
        pow256(3) == 0x1000000,
        pow256(4) == 0x100000000,
        pow256(5) == 0x10000000000,
        pow256(6) == 0x1000000000000,
        pow256(7) == 0x100000000000000,
        pow256(8) == 0x10000000000000000,
{
    assert(pow256(0) == 1);
    assert(pow256(1) == 0x100);
    assert(pow256(2) == 0x10000);
    assert(pow256(3) == 0x1000000);
    assert(pow256(4) == 0x100000000);
    assert(pow256(5) == 0x10000000000);
    assert(pow256(6) == 0x1000000000000);
    assert(pow256(7) == 0x100000000000000);
    assert(pow256(8) == 0x10000000000000000);
}

/// The little-endian value of a byte sequence: the first byte is the least
/// significant.
pub open spec fn le_value(bytes: Seq<u8>) -> nat
    decreases bytes.len(),
{
    if bytes.len() == 0 {
        0
    } else {
        (bytes[0] + 256 * le_value(bytes.drop_first())) as nat
    }
}

/// A little-endian value fits in as many bytes as were read.
pub proof fn lemma_le_value_bound(bytes: Seq<u8>)
    ensures
        le_value(bytes) < pow256(bytes.len()),
    decreases bytes.len(),
{
    if bytes.len() == 0 {
    } else {
        lemma_le_value_bound(bytes.drop_first());
        assert(le_value(bytes) == bytes[0] + 256 * le_value(bytes.drop_first()));
        assert(256 * le_value(bytes.drop_first()) <= 256 * (pow256((bytes.len() - 1) as nat) - 1))
            by (nonlinear_arith)
            requires
                le_value(bytes.drop_first()) <= pow256((bytes.len() - 1) as nat) - 1,
        ;
    }
}

/// The little-endian bytes of a value, least significant first.
pub open spec fn le_bytes(v: nat, width: nat) -> Seq<u8>
    decreases width,
{
    if width == 0 {
        Seq::empty()
    } else {
        seq![(v % 256) as u8] + le_bytes(v / 256, (width - 1) as nat)
    }
}

/// `le_bytes` yields as many bytes as were asked for.
pub proof fn lemma_le_bytes_len(v: nat, width: nat)
    ensures
        le_bytes(v, width).len() == width,
    decreases width,
{
    if width > 0 {
        lemma_le_bytes_len(v / 256, (width - 1) as nat);
    }
}

/// Read the `width`-byte little-endian value at `start`.
pub fn read_le_u64(data: &Vec<u8>, start: usize, width: usize) -> (r: u64)
    requires
        width <= 8,
        start + width <= data@.len(),
    ensures
        r as nat == le_value(data@.subrange(start as int, start + width)),
        (r as nat) < pow256(width as nat),
{
    let mut acc: u64 = 0;
    let mut k: usize = width;
    let data_len: usize = data.len();
    proof {
        lemma_pow256_values();
        assert(data@.subrange(start + width, start + width).len() == 0);
        lemma_le_value_bound(data@.subrange(start as int, start + width));
    }
    while k > 0
        invariant
            width <= 8,
            start + width <= data@.len(),
            data_len as nat == data@.len(),
            k <= width,
            acc as nat == le_value(data@.subrange(start + k, start + width)),
            (acc as nat) < pow256((width - k) as nat),
        decreases k,
    {
        let b = data[start + k - 1];
        proof {
            lemma_pow256_values();
            let whole = data@.subrange(start + k - 1, start + width);
            assert(whole.drop_first() =~= data@.subrange(start + k, start + width));
            assert(whole[0] == data@[start + k - 1]);
            assert(le_value(whole) == whole[0] + 256 * le_value(whole.drop_first()));
            assert(pow256((width - k + 1) as nat) == 256 * pow256((width - k) as nat));
            assert(256 * (acc as nat) <= 256 * (pow256((width - k) as nat) - 1))
                by (nonlinear_arith)
                requires
                    acc as nat <= pow256((width - k) as nat) - 1,
            ;
            assert(pow256((width - k + 1) as nat) <= pow256(8)) by {
                lemma_pow256_monotone((width - k + 1) as nat, 8);
            }
        }
        acc = b as u64 + 256 * acc;
        k = k - 1;
    }
    proof {
        lemma_le_value_bound(data@.subrange(start as int, start + width));
    }
    acc
}

/// `pow256` does not shrink as the exponent grows.
pub proof fn lemma_pow256_monotone(m: nat, n: nat)
    requires
        m <= n,
    ensures
        pow256(m) <= pow256(n),
    decreases n,
{
    if m < n {
        lemma_pow256_monotone(m, (n - 1) as nat);
        lemma_pow256_pos((n - 1) as nat);
    }
}

/// Append the `width`-byte little-endian form of a value.
pub fn push_le_bytes(out: &mut Vec<u8>, v: u64, width: usize) -> (nothing: ())
    requires
        width <= 8,
    ensures
        final(out)@ == old(out)@ + le_bytes(v as nat, width as nat),
{
    let mut rest: u64 = v;
    let mut k: usize = 0;
    proof {
        assert(old(out)@ + le_bytes(v as nat, 0nat) =~= old(out)@);
    }
    while k < width
        invariant
            width <= 8,
            k <= width,
            out@.len() == old(out)@.len() + k,
            old(out)@ + le_bytes(v as nat, width as nat) == out@ + le_bytes(
                rest as nat,
                (width - k) as nat,
            ),
        decreases width - k,
    {
        let b = (rest % 256) as u8;
        proof {
            let w_left = (width - k) as nat;
            assert(le_bytes(rest as nat, w_left) == seq![(rest as nat % 256) as u8] + le_bytes(
                rest as nat / 256,
                (w_left - 1) as nat,
            ));
            assert(out@ + le_bytes(rest as nat, w_left) =~= (out@.push(b)) + le_bytes(
                rest as nat / 256,
                (w_left - 1) as nat,
            ));
        }
        out.push(b);
        rest = rest / 256;
        k = k + 1;
    }
    proof {
        assert(le_bytes(rest as nat, 0nat) =~= Seq::<u8>::empty());
        assert(out@ + le_bytes(rest as nat, 0nat) =~= out@);
    }
}

/// Whether the bit at (byte) `offset` plus (bit) `bit` of the file is set.
/// Bits are counted least-significant first within each byte.
pub open spec fn file_bit(file: Seq<u8>, offset: int, bit: int) -> bool {
    ((file[offset + bit / 8] as nat) / pow2((bit % 8) as nat)) % 2 == 1
}

/// The value of `count` consecutive bits starting at (byte) `offset` plus
/// (bit) `bit_start`, least-significant bit first.
pub open spec fn bits_value(file: Seq<u8>, offset: int, bit_start: int, count: nat) -> nat
    decreases count,
{
    if count == 0 {
        0
    } else {
        (if file_bit(file, offset, bit_start) {
            1nat
        } else {
            0nat
        }) + 2 * bits_value(file, offset, bit_start + 1, (count - 1) as nat)
    }
}

/// A run of bits fits in as many bits as were read.
pub proof fn lemma_bits_value_bound(file: Seq<u8>, offset: int, bit_start: int, count: nat)
    ensures
        bits_value(file, offset, bit_start, count) < pow2(count),
    decreases count,
{
    if count == 0 {
        vstd::arithmetic::power2::lemma2_to64();
    } else {
        lemma_bits_value_bound(file, offset, bit_start + 1, (count - 1) as nat);
        assert(pow2(count) == 2 * pow2((count - 1) as nat)) by {
            vstd::arithmetic::power2::lemma_pow2_unfold(count);
        }
    }
}

/// Extending a run of bits by one adds the new bit at the top.
pub proof fn lemma_bits_value_snoc(file: Seq<u8>, offset: int, bit_start: int, count: nat)
    ensures
        bits_value(file, offset, bit_start, count + 1) == bits_value(
            file,
            offset,
            bit_start,
            count,
        ) + (if file_bit(file, offset, bit_start + count) {
            pow2(count)
        } else {
            0nat
        }),
    decreases count,
{
    if count == 0 {
        vstd::arithmetic::power2::lemma2_to64();
        assert(bits_value(file, offset, bit_start, 1nat) == (if file_bit(file, offset, bit_start) {
            1nat
        } else {
            0nat
        }) + 2 * bits_value(file, offset, bit_start + 1, 0nat));
    } else {
        lemma_bits_value_snoc(file, offset, bit_start + 1, (count - 1) as nat);
        assert(pow2(count) == 2 * pow2((count - 1) as nat)) by {
            vstd::arithmetic::power2::lemma_pow2_unfold(count);
        }
    }
}

/// 2 to the `k`, for exponents below 8.
pub fn pow2_u8(k: u8) -> (r: u8)
    requires
        k < 8,
    ensures
        r as nat == pow2(k as nat),
        r >= 1,
{
    proof {
        vstd::arithmetic::power2::lemma2_to64();
    }
    match k {
        0 => 1,
        1 => 2,
        2 => 4,
        3 => 8,
        4 => 16,
        5 => 32,
        6 => 64,
        _ => 128,
    }
}

/// 2 to the `k`, for exponents below 64.
pub fn pow2_u64(k: u64) -> (r: u64)
    requires
        k < 64,
    ensures
        r as nat == pow2(k as nat),
        r >= 1,
{
    let mut r: u64 = 1;
    let mut i: u64 = 0;
    proof {
        vstd::arithmetic::power2::lemma2_to64();
        vstd::arithmetic::power2::lemma2_to64_rest();
    }
    while i < k
        invariant
            i <= k,
            k < 64,
            r as nat == pow2(i as nat),
            r as nat <= pow2(63),
        decreases k - i,
    {
        proof {
            vstd::arithmetic::power2::lemma_pow2_unfold((i + 1) as nat);
            vstd::arithmetic::power2::lemma_pow2_strictly_increases(i as nat + 1, 64);
            vstd::arithmetic::power2::lemma2_to64();
            vstd::arithmetic::power2::lemma2_to64_rest();
            if i as nat + 1 < 63 {
                vstd::arithmetic::power2::lemma_pow2_strictly_increases(i as nat + 1, 63);
            }
        }
        r = r * 2;
        i = i + 1;
    }
    r
}

} // verus!
