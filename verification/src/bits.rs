//! A mathematical model of little-endian bit streams.
//!
//! A byte buffer is viewed as a stream of bits, least significant bit of each
//! byte first.  The codec's contracts are stated over this model: packing
//! appends the low bits of a value to the stream, and random-access reads
//! recover the value of a bit window.

use vstd::prelude::*;

verus! {

use vstd::arithmetic::power2::pow2;
use vstd::arithmetic::power2::lemma_pow2_adds;
use vstd::arithmetic::power2::lemma2_to64;
use vstd::arithmetic::power2::lemma_pow2_pos;
use vstd::arithmetic::div_mod::lemma_fundamental_div_mod;
use vstd::arithmetic::div_mod::lemma_div_denominator;

/// True when bit `i` (counting from the least significant end) of `v` is set.
pub open spec fn nth_bit(v: nat, i: nat) -> bool {
    v / pow2(i) % 2 == 1
}

/// Bit `i` of a byte buffer seen as a bit stream, least significant bit of
/// each byte first; bits past the end of the buffer read as zero.
pub open spec fn stream_bit(data: Seq<u8>, i: nat) -> bool {
    i < 8 * data.len() && nth_bit(data[i as int / 8] as nat, i % 8)
}

/// The whole byte buffer as a sequence of bits.
pub open spec fn bits_of(data: Seq<u8>) -> Seq<bool> {
    Seq::new(8 * data.len(), |i: int| stream_bit(data, i as nat))
}

/// `n` bits of the stream starting at bit `off`, zero-extended past the end
/// of the buffer.
pub open spec fn read_bits(data: Seq<u8>, off: nat, n: nat) -> Seq<bool> {
    Seq::new(n, |j: int| stream_bit(data, (off + j) as nat))
}

/// The low `n` bits of `v`, least significant first.
pub open spec fn nat_bits(v: nat, n: nat) -> Seq<bool> {
    Seq::new(n, |i: int| nth_bit(v, i as nat))
}

/// `n` zero bits.
pub open spec fn zero_bits(n: nat) -> Seq<bool> {
    Seq::new(n, |_i: int| false)
}

/// The value of a bit sequence, read as a little-endian binary number.
pub open spec fn bits_val(s: Seq<bool>) -> nat
    decreases s.len(),
{
    if s.len() == 0 {
        0
    } else {
        (if s[0] {
            1nat
        } else {
            0nat
        }) + 2 * bits_val(s.subrange(1, s.len() as int))
    }
}

/// How many zero bits take a stream of length `n` to the next byte boundary.
pub open spec fn pad_to_byte(n: nat) -> nat {
    ((8 - n % 8) % 8) as nat
}

/// The width actually delivered by an unaligned 64-bit window read of a
/// `nb`-bit slot starting at bit `off`: the slot is cut where the window ends.
pub open spec fn eff_width(nb: nat, off: nat) -> nat {
    if nb + off % 8 <= 64 {
        nb
    } else {
        (64 - off % 8) as nat
    }
}

/// Dividing a value below `8 * n` by eight lands below `n`.
pub proof fn lemma_div8_below(i: int, n: int)
    requires
        0 <= i < 8 * n,
    ensures
        0 <= i / 8 < n,
{
    lemma_fundamental_div_mod(i, 8);
}

/// A bit of the stream is a bit of any prefix that contains it.
pub proof fn lemma_stream_bit_prefix(data: Seq<u8>, n: int, i: nat)
    requires
        0 <= n <= data.len(),
        i < 8 * n,
    ensures
        stream_bit(data, i) == stream_bit(data.subrange(0, n), i),
{
    lemma_div8_below(i as int, n);
}

/// The low `n` bits of a value below `pow2(n)` read back as the value itself.
pub proof fn lemma_nat_bits_val(v: nat, n: nat)
    requires
        v < pow2(n),
    ensures
        bits_val(nat_bits(v, n)) == v,
    decreases n,
{
    lemma2_to64();
    if n == 0 {
    } else {
        let s = nat_bits(v, n);
        let tail = s.subrange(1, n as int);
        assert forall|i: int| 0 <= i < n - 1 implies tail[i] == nth_bit(v / 2, i as nat) by {
            lemma_pow2_adds(1, i as nat);
            lemma_pow2_pos(i as nat);
            lemma_div_denominator(v as int, 2, pow2(i as nat) as int);
            assert(v / pow2((i + 1) as nat) == (v / 2) / pow2(i as nat));
        }
        assert(tail =~= nat_bits(v / 2, (n - 1) as nat));
        lemma_pow2_adds(1, (n - 1) as nat);
        lemma_fundamental_div_mod(v as int, 2);
        assert(v / 2 < pow2((n - 1) as nat));
        lemma_nat_bits_val(v / 2, (n - 1) as nat);
        assert(pow2(0) == 1);
        assert(s[0] == nth_bit(v, 0));
        assert(nth_bit(v, 0) == (v % 2 == 1));
        assert(bits_val(s) == (if v % 2 == 1 { 1nat } else { 0nat }) + 2 * (v / 2));
    }
}

/// A byte buffer is determined by its bit stream: each byte is the value of
/// its own eight bits.
pub proof fn lemma_bits_of_injective(a: Seq<u8>, b: Seq<u8>)
    requires
        bits_of(a) == bits_of(b),
    ensures
        a == b,
{
    lemma2_to64();
    assert(bits_of(a).len() == 8 * a.len());
    assert(bits_of(b).len() == 8 * b.len());
    assert(a.len() == b.len());
    assert forall|k: int| 0 <= k < a.len() implies a[k] == b[k] by {
        assert forall|r: int| 0 <= r < 8 implies nat_bits(a[k] as nat, 8)[r] == nat_bits(
            b[k] as nat,
            8,
        )[r] by {
            let i = 8 * k + r;
            lemma_fundamental_div_mod(i, 8);
            assert(i / 8 == k && i % 8 == r) by {
                vstd::arithmetic::div_mod::lemma_div_multiples_vanish_fancy(k, r, 8);
                vstd::arithmetic::div_mod::lemma_mod_multiples_vanish(k, r, 8);
                vstd::arithmetic::div_mod::lemma_small_mod(r as nat, 8);
            }
            assert(i < 8 * a.len());
            assert(stream_bit(a, i as nat) == nth_bit(a[k] as nat, r as nat));
            assert(stream_bit(b, i as nat) == nth_bit(b[k] as nat, r as nat));
            assert(bits_of(a)[i] == stream_bit(a, i as nat));
            assert(bits_of(b)[i] == stream_bit(b, i as nat));
            assert(bits_of(a)[i] == bits_of(b)[i]);
            assert(nat_bits(a[k] as nat, 8)[r] == nth_bit(a[k] as nat, r as nat));
            assert(nat_bits(b[k] as nat, 8)[r] == nth_bit(b[k] as nat, r as nat));
        }
        assert(nat_bits(a[k] as nat, 8) =~= nat_bits(b[k] as nat, 8));
        lemma_nat_bits_val(a[k] as nat, 8);
        lemma_nat_bits_val(b[k] as nat, 8);
    }
    assert(a =~= b);
}

/// Equal bit sequences have equal values; stated for windows of a stream that
/// hold the low bits of a value.
pub proof fn lemma_read_back(data: Seq<u8>, off: nat, n: nat, v: nat)
    requires
        v < pow2(n),
        read_bits(data, off, n) =~= nat_bits(v, n),
    ensures
        bits_val(read_bits(data, off, n)) == v,
{
    lemma_nat_bits_val(v, n);
}

} // verus!
