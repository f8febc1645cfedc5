//! Bit sequences, the integers they spell, and their packing into bytes.
//!
//! A stream is a sequence of bits. In bytes, bit `i` of the stream is bit
//! `i % 8` of byte `i / 8`, counted from the least significant bit. A field of
//! several bits spells an integer either least significant bit first or most
//! significant bit first.

use vstd::prelude::*;
use vstd::arithmetic::power2::pow2;
use vstd::arithmetic::power2::lemma_pow2_pos;
use vstd::arithmetic::power2::lemma_pow2_unfold;
use vstd::arithmetic::power2::lemma_pow2_adds;
use vstd::arithmetic::power2::lemma2_to64;
use vstd::arithmetic::div_mod::lemma_div_denominator;
use vstd::arithmetic::div_mod::lemma_breakdown;
use vstd::arithmetic::div_mod::lemma_small_mod;
use vstd::arithmetic::div_mod::lemma_basic_div;
use vstd::bits::lemma_u16_shr_is_div;

verus! {

/// Bit `i` of the natural number `v`, bit 0 being the least significant.
pub open spec fn bit_at(v: nat, i: nat) -> bool {
    (v / pow2(i)) % 2 == 1
}

/// 1 for a set bit, 0 for a clear one.
pub open spec fn bit_weight(b: bool) -> nat {
    if b {
        1
    } else {
        0
    }
}

/// The low `n` bits of `v`, least significant first.
pub open spec fn lsb_bits(v: nat, n: nat) -> Seq<bool> {
    Seq::new(n, |i: int| bit_at(v, i as nat))
}

/// The low `n` bits of `v`, most significant first.
pub open spec fn msb_bits(v: nat, n: nat) -> Seq<bool> {
    Seq::new(n, |i: int| bit_at(v, (n - 1 - i) as nat))
}

/// The integer that `bits` spells when its first bit is the least significant.
pub open spec fn lsb_value(bits: Seq<bool>) -> nat
    decreases bits.len(),
{
    if bits.len() == 0 {
        0
    } else {
        bit_weight(bits[0]) + 2 * lsb_value(bits.skip(1))
    }
}

/// The integer that `bits` spells when its first bit is the most significant.
pub open spec fn msb_value(bits: Seq<bool>) -> nat
    decreases bits.len(),
{
    if bits.len() == 0 {
        0
    } else {
        2 * msb_value(bits.drop_last()) + bit_weight(bits.last())
    }
}

/// `n` clear bits.
pub open spec fn zero_bits(n: nat) -> Seq<bool> {
    Seq::new(n, |i: int| false)
}

/// The bits of a byte string in stream order: eight for each byte, least
/// significant first.
pub open spec fn bits_of_bytes(bytes: Seq<u8>) -> Seq<bool> {
    Seq::new((8 * bytes.len()) as nat, |i: int| bit_at(bytes[i / 8] as nat, (i % 8) as nat))
}

/// The bits from `8 * k` on that go into byte `k`: eight of them, or what is left.
pub open spec fn byte_chunk(bits: Seq<bool>, k: int) -> Seq<bool> {
    bits.subrange(8 * k, if 8 * k + 8 <= bits.len() { 8 * k + 8 } else { bits.len() as int })
}

/// The bytes that hold `bits` in stream order, the last one filled up with
/// clear bits.
pub open spec fn pack_bits(bits: Seq<bool>) -> Seq<u8> {
    Seq::new(((bits.len() + 7) / 8) as nat, |k: int| lsb_value(byte_chunk(bits, k)) as u8)
}

/// The number of clear bits that fill `len` bits up to whole bytes.
pub open spec fn padding_len(len: nat) -> nat {
    ((8 - len % 8) % 8) as nat
}

/// Bit `k` of `value`.
pub fn bit_of_u16(value: u16, k: u16) -> (r: bool)
    requires
        k < 16,
    ensures
        r == bit_at(value as nat, k as nat),
{
    let shifted: u16 = value >> k;
    proof {
        lemma_u16_shr_is_div(value, k);
        assert((shifted & 1 == 1) == (shifted % 2 == 1)) by (bit_vector);
    }
    shifted & 1 == 1
}

/// Two to the power `e`.
pub fn pow2_u32(e: u32) -> (r: u32)
    requires
        e <= 16,
    ensures
        r == pow2(e as nat),
        1 <= r <= 65536,
{
    let mut r: u32 = 1;
    let mut i: u32 = 0;
    proof {
        lemma_pow2_values(0);
    }
    while i < e
        invariant
            i <= e <= 16,
            r == pow2(i as nat),
        decreases e - i,
    {
        proof {
            lemma_pow2_values(i as nat);
            lemma_pow2_values((i + 1) as nat);
        }
        r = r * 2;
        i = i + 1;
    }
    proof {
        lemma_pow2_values(e as nat);
    }
    r
}

/// The powers of two up to `2^16`, written out.
pub proof fn lemma_pow2_values(k: nat)
    requires
        k <= 16,
    ensures
        pow2(k) == if k == 0 {
            1nat
        } else if k == 1 {
            2
        } else if k == 2 {
            4
        } else if k == 3 {
            8
        } else if k == 4 {
            16
        } else if k == 5 {
            32
        } else if k == 6 {
            64
        } else if k == 7 {
            128
        } else if k == 8 {
            256
        } else if k == 9 {
            512
        } else if k == 10 {
            1024
        } else if k == 11 {
            2048
        } else if k == 12 {
            4096
        } else if k == 13 {
            8192
        } else if k == 14 {
            16384
        } else if k == 15 {
            32768
        } else {
            65536
        },
{
    lemma2_to64();
}

/// Bit 0 of `v` says whether `v` is odd, and bit `i + 1` of `v` is bit `i` of `v / 2`.
pub proof fn lemma_bit_at_step(v: nat, i: nat)
    ensures
        bit_at(v, 0) == (v % 2 == 1),
        bit_at(v, i + 1) == bit_at(v / 2, i),
{
    lemma2_to64();
    lemma_pow2_pos(i);
    lemma_pow2_unfold(i + 1);
    lemma_div_denominator(v as int, 2, pow2(i) as int);
}

/// Bit `i` of `v / 2^k` is bit `i + k` of `v`.
pub proof fn lemma_bit_at_shifted(v: nat, k: nat, i: nat)
    ensures
        pow2(k) > 0,
        bit_at(v / pow2(k), i) == bit_at(v, i + k),
{
    lemma_pow2_pos(k);
    lemma_pow2_pos(i);
    lemma_pow2_adds(k, i);
    lemma_div_denominator(v as int, pow2(k) as int, pow2(i) as int);
}

/// A number below `2^n` has no set bit at `n` or above.
pub proof fn lemma_bit_at_high(v: nat, n: nat, i: nat)
    requires
        v < pow2(n),
        n <= i,
    ensures
        !bit_at(v, i),
{
    lemma_pow2_pos(n);
    lemma_pow2_pos((i - n) as nat);
    lemma_pow2_adds(n, (i - n) as nat);
    lemma_basic_div(v as int, pow2(n) as int);
    lemma_div_denominator(v as int, pow2(n) as int, pow2((i - n) as nat) as int);
    assert(0int / (pow2((i - n) as nat) as int) == 0) by {
        lemma_basic_div(0, pow2((i - n) as nat) as int);
    }
}

/// `bits` spells a number below two to its length, least significant bit first.
pub proof fn lemma_lsb_value_bound(bits: Seq<bool>)
    ensures
        lsb_value(bits) < pow2(bits.len()),
    decreases bits.len(),
{
    if bits.len() == 0 {
        lemma2_to64();
    } else {
        lemma_lsb_value_bound(bits.skip(1));
        lemma_pow2_unfold(bits.len());
    }
}

/// `bits` spells a number below two to its length, most significant bit first.
pub proof fn lemma_msb_value_bound(bits: Seq<bool>)
    ensures
        msb_value(bits) < pow2(bits.len()),
    decreases bits.len(),
{
    if bits.len() == 0 {
        lemma2_to64();
    } else {
        lemma_msb_value_bound(bits.drop_last());
        lemma_pow2_unfold(bits.len());
    }
}

/// A single bit spells its own weight, in either order.
pub proof fn lemma_value_of_one_bit(bits: Seq<bool>)
    requires
        bits.len() == 1,
    ensures
        msb_value(bits) == bit_weight(bits[0]),
        lsb_value(bits) == bit_weight(bits[0]),
{
    assert(bits.drop_last() =~= Seq::<bool>::empty());
    assert(bits.skip(1) =~= Seq::<bool>::empty());
    assert(msb_value(bits.drop_last()) == 0);
    assert(lsb_value(bits.skip(1)) == 0);
}

/// One more bit at the end doubles what the bits spell most significant bit
/// first, and adds the bit.
pub proof fn lemma_msb_value_push(bits: Seq<bool>, b: bool)
    ensures
        msb_value(bits.push(b)) == 2 * msb_value(bits) + bit_weight(b),
{
    assert(bits.push(b).drop_last() =~= bits);
}

/// One more bit at the end adds its weight, `2^len`, to what the bits spell
/// least significant bit first.
pub proof fn lemma_lsb_value_push(bits: Seq<bool>, b: bool)
    ensures
        lsb_value(bits.push(b)) == lsb_value(bits) + bit_weight(b) * pow2(bits.len()),
    decreases bits.len(),
{
    if bits.len() == 0 {
        lemma2_to64();
        assert(bits.push(b).skip(1) =~= Seq::<bool>::empty());
        assert(lsb_value(bits.push(b).skip(1)) == 0);
    } else {
        lemma_lsb_value_push(bits.skip(1), b);
        assert(bits.push(b).skip(1) =~= bits.skip(1).push(b));
        lemma_pow2_unfold(bits.len());
        assert(bit_weight(b) * pow2(bits.len()) == 2 * (bit_weight(b) * pow2(
            (bits.len() - 1) as nat,
        ))) by (nonlinear_arith)
            requires
                pow2(bits.len()) == 2 * pow2((bits.len() - 1) as nat),
        ;
    }
}

/// The low `n` bits of `v`, least significant first, spell `v` modulo `2^n`.
pub proof fn lemma_lsb_value_of_lsb_bits(v: nat, n: nat)
    ensures
        pow2(n) > 0,
        lsb_value(lsb_bits(v, n)) == v % pow2(n),
    decreases n,
{
    lemma_pow2_pos(n);
    lemma2_to64();
    if n == 0 {
    } else {
        let m = (n - 1) as nat;
        lemma_lsb_value_of_lsb_bits(v / 2, m);
        assert(lsb_bits(v, n).skip(1) =~= lsb_bits(v / 2, m)) by {
            assert forall|i: int| 0 <= i < m implies lsb_bits(v, n).skip(1)[i] == lsb_bits(
                v / 2,
                m,
            )[i] by {
                lemma_bit_at_step(v, i as nat);
            }
        }
        lemma_bit_at_step(v, 0);
        lemma_pow2_unfold(n);
        lemma_breakdown(v as int, 2, pow2(m) as int);
    }
}

/// The low `n` bits of `v`, most significant first, spell `v` modulo `2^n`.
pub proof fn lemma_msb_value_of_msb_bits(v: nat, n: nat)
    ensures
        pow2(n) > 0,
        msb_value(msb_bits(v, n)) == v % pow2(n),
    decreases n,
{
    lemma_pow2_pos(n);
    lemma2_to64();
    if n == 0 {
    } else {
        let m = (n - 1) as nat;
        lemma_msb_value_of_msb_bits(v / 2, m);
        assert(msb_bits(v, n).drop_last() =~= msb_bits(v / 2, m)) by {
            assert forall|i: int| 0 <= i < m implies msb_bits(v, n).drop_last()[i] == msb_bits(
                v / 2,
                m,
            )[i] by {
                lemma_bit_at_step(v, (m - 1 - i) as nat);
            }
        }
        lemma_bit_at_step(v, 0);
        lemma_pow2_unfold(n);
        lemma_breakdown(v as int, 2, pow2(m) as int);
    }
}

/// A number below `2^n` is what its low `n` bits spell, in either order.
pub proof fn lemma_value_of_bits(v: nat, n: nat)
    requires
        v < pow2(n),
    ensures
        lsb_value(lsb_bits(v, n)) == v,
        msb_value(msb_bits(v, n)) == v,
{
    lemma_lsb_value_of_lsb_bits(v, n);
    lemma_msb_value_of_msb_bits(v, n);
    lemma_small_mod(v, pow2(n));
}

/// The first `k` of the `n` bits of `v`, most significant first, are the `k`
/// bits of `v / 2^(n - k)`.
pub proof fn lemma_msb_bits_prefix(v: nat, n: nat, k: nat)
    requires
        k <= n,
    ensures
        pow2((n - k) as nat) > 0,
        msb_bits(v, n).take(k as int) == msb_bits(v / pow2((n - k) as nat), k),
{
    let d = (n - k) as nat;
    lemma_pow2_pos(d);
    assert(msb_bits(v, n).take(k as int) =~= msb_bits(v / pow2(d), k)) by {
        assert forall|i: int| 0 <= i < k implies msb_bits(v, n).take(k as int)[i] == msb_bits(
            v / pow2(d),
            k,
        )[i] by {
            lemma_bit_at_shifted(v, d, (k - 1 - i) as nat);
        }
    }
}

/// Bit `j` of what `bits` spells, least significant bit first, is `bits[j]`,
/// and clear beyond the end of `bits`.
pub proof fn lemma_bit_at_lsb_value(bits: Seq<bool>, j: nat)
    ensures
        bit_at(lsb_value(bits), j) == (j < bits.len() && bits[j as int]),
    decreases j,
{
    let v = lsb_value(bits);
    if bits.len() == 0 {
        lemma2_to64();
        lemma_bit_at_high(0, 0, j);
    } else {
        let rest = bits.skip(1);
        assert(v / 2 == lsb_value(rest));
        assert(v % 2 == bit_weight(bits[0]));
        if j == 0 {
            lemma_bit_at_step(v, 0);
        } else {
            lemma_bit_at_step(v, (j - 1) as nat);
            lemma_bit_at_lsb_value(rest, (j - 1) as nat);
        }
    }
}

/// Bit packing: bit `j` of byte `k` of the packed bytes is bit `8 * k + j` of
/// the stream, and the bits that fill up the last byte are clear.
pub proof fn lemma_pack_bits_bit(bits: Seq<bool>, k: int, j: int)
    requires
        0 <= k < pack_bits(bits).len(),
        0 <= j < 8,
    ensures
        bit_at(pack_bits(bits)[k] as nat, j as nat) == (8 * k + j < bits.len() && bits[8 * k + j]),
{
    let chunk = byte_chunk(bits, k);
    lemma_lsb_value_bound(chunk);
    lemma2_to64();
    assert(chunk.len() <= 8);
    assert(lsb_value(chunk) < 256) by {
        if chunk.len() < 8 {
            vstd::arithmetic::power2::lemma_pow2_strictly_increases(chunk.len(), 8);
        }
    }
    lemma_bit_at_lsb_value(chunk, j as nat);
}

/// Bit packing, read back: the bits of the packed bytes are the stream,
/// followed by the clear bits that fill up the last byte.
pub proof fn lemma_bits_of_packed(bits: Seq<bool>)
    ensures
        bits_of_bytes(pack_bits(bits)) == bits + zero_bits(padding_len(bits.len())),
{
    let packed = pack_bits(bits);
    let back = bits_of_bytes(packed);
    let want = bits + zero_bits(padding_len(bits.len()));
    assert(back.len() == want.len());
    assert forall|i: int| 0 <= i < back.len() implies back[i] == want[i] by {
        let k = i / 8;
        let j = i % 8;
        assert(i == 8 * k + j);
        assert(0 <= k < packed.len());
        lemma_pack_bits_bit(bits, k, j);
        assert(back[i] == bit_at(packed[k] as nat, j as nat));
        if i < bits.len() {
            assert(want[i] == bits[i]);
        } else {
            assert(want[i] == false);
        }
    }
    assert(back =~= want);
}

/// Packing the bits of a byte string gives the byte string back.
pub proof fn lemma_pack_of_bits_of_bytes(bytes: Seq<u8>)
    ensures
        pack_bits(bits_of_bytes(bytes)) == bytes,
{
    let bits = bits_of_bytes(bytes);
    let packed = pack_bits(bits);
    assert(packed.len() == bytes.len());
    assert forall|k: int| 0 <= k < bytes.len() implies packed[k] == bytes[k] by {
        let chunk = byte_chunk(bits, k);
        let v = bytes[k] as nat;
        assert(chunk =~= lsb_bits(v, 8)) by {
            assert forall|j: int| 0 <= j < 8 implies chunk[j] == lsb_bits(v, 8)[j] by {
                assert(chunk[j] == bits[8 * k + j]);
                assert((8 * k + j) / 8 == k);
                assert((8 * k + j) % 8 == j);
            }
        }
        lemma2_to64();
        lemma_value_of_bits(v, 8);
    }
    assert(packed =~= bytes);
}

/// Clear bits at the end change nothing in what bits spell least significant
/// bit first.
pub proof fn lemma_lsb_value_zero_padded(bits: Seq<bool>, n: nat)
    ensures
        lsb_value(bits + zero_bits(n)) == lsb_value(bits),
    decreases bits.len() + n,
{
    let padded = bits + zero_bits(n);
    if bits.len() > 0 {
        assert(padded.skip(1) =~= bits.skip(1) + zero_bits(n));
        lemma_lsb_value_zero_padded(bits.skip(1), n);
    } else if n > 0 {
        assert(padded.skip(1) =~= Seq::<bool>::empty() + zero_bits((n - 1) as nat));
        lemma_lsb_value_zero_padded(Seq::empty(), (n - 1) as nat);
    } else {
        assert(padded =~= Seq::<bool>::empty());
    }
}

/// Filling a stream up with clear bits to whole bytes changes nothing in the
/// bytes that it packs into.
pub proof fn lemma_pack_bits_padded(bits: Seq<bool>)
    ensures
        pack_bits(bits + zero_bits(padding_len(bits.len()))) == pack_bits(bits),
{
    let pad = zero_bits(padding_len(bits.len()));
    let padded = bits + pad;
    assert(pack_bits(padded).len() == pack_bits(bits).len());
    assert forall|k: int| 0 <= k < pack_bits(bits).len() implies pack_bits(padded)[k] == pack_bits(
        bits,
    )[k] by {
        let chunk = byte_chunk(bits, k);
        let wide = byte_chunk(padded, k);
        if 8 * k + 8 <= bits.len() {
            assert(wide =~= chunk);
        } else {
            assert(wide =~= chunk + pad);
            lemma_lsb_value_zero_padded(chunk, pad.len());
        }
    }
    assert(pack_bits(padded) =~= pack_bits(bits));
}

} // verus!
