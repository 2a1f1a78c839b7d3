//! Trusted interface to the bit-packing primitives of `tantivy_bitpacker`.
//!
//! The packer is modelled by `packer_bits`, the bits it has accepted but not
//! yet written out; the unpacker by `unpacker_width`, the bit width it was
//! built with.  Every contract below states, over the bit-stream model of
//! `bits`, what the named function of `tantivy_bitpacker` does.

use vstd::prelude::*;

verus! {

use vstd::arithmetic::power2::pow2;
use vstd::arithmetic::power2::lemma_pow2_adds;
use vstd::arithmetic::power2::lemma2_to64;
use vstd::arithmetic::div_mod::lemma_fundamental_div_mod;
use crate::bits::bits_of;
use crate::bits::read_bits;
use crate::bits::nat_bits;
use crate::bits::zero_bits;
use crate::bits::bits_val;
use crate::bits::eff_width;
use crate::bits::pad_to_byte;

/// The least width able to represent `n`: the smallest `w` with `n < pow2(w)`.
pub open spec fn spec_min_width(n: nat) -> nat
    decreases n,
{
    if n == 0 {
        0
    } else {
        1 + spec_min_width(n / 2)
    }
}

/// The block bit width chosen for an amplitude `n`: its least width, pushed
/// up to 64 when above 56, so that a packed slot never crosses more than one
/// aligned 8-byte window.
pub open spec fn spec_num_bits(n: nat) -> nat {
    if spec_min_width(n) <= 56 {
        spec_min_width(n)
    } else {
        64
    }
}

pub proof fn lemma_min_width_bound(n: nat)
    ensures
        n < pow2(spec_min_width(n)),
    decreases n,
{
    lemma2_to64();
    if n > 0 {
        lemma_min_width_bound(n / 2);
        lemma_pow2_adds(1, spec_min_width(n / 2));
        lemma_fundamental_div_mod(n as int, 2);
    }
}

/// What the chosen block width guarantees: it represents the amplitude, is at
/// most 64, never falls in the unreadable 57..=63 range, and is zero exactly
/// for a zero amplitude.
pub proof fn lemma_num_bits(n: u64)
    ensures
        (n as nat) < pow2(spec_num_bits(n as nat)),
        spec_num_bits(n as nat) <= 56 || spec_num_bits(n as nat) == 64,
        spec_num_bits(n as nat) <= 64,
        n == 0 ==> spec_num_bits(n as nat) == 0,
{
    lemma2_to64();
    lemma_min_width_bound(n as nat);
    if spec_min_width(n as nat) > 56 {
        assert((n as nat) < pow2(64));
    }
}

#[verifier::external_type_specification]
#[verifier::external_body]
pub struct ExBitPacker(tantivy_bitpacker::BitPacker);

#[verifier::external_type_specification]
#[verifier::external_body]
pub struct ExBitUnpacker(tantivy_bitpacker::BitUnpacker);

/// The bits a packer has accepted but not yet written to its output.  `new`,
/// `write` and `flush` keep every bit of the internal buffer above that count
/// zero and the count below 64, so for every packer these wrappers can
/// produce, the contracts below describe `tantivy_bitpacker`'s behaviour;
/// a state that breaks that shape is mapped to a sequence of length 64,
/// which every `requires` below excludes.
pub uninterp spec fn packer_bits(p: tantivy_bitpacker::BitPacker) -> Seq<bool>;

/// The bit width an unpacker was built with, together with the matching low
/// mask; a state whose mask does not match its width is mapped to 65, which
/// the `requires` of `unpacker_get` excludes.
pub uninterp spec fn unpacker_width(u: tantivy_bitpacker::BitUnpacker) -> nat;

/// Relies on `tantivy_bitpacker::compute_num_bits`: the least width able to
/// represent `n`, pushed up to 64 when above 56.
#[verifier::external_body]
pub(crate) fn num_bits_for(n: u64) -> (r: u8)
    ensures
        r as nat == spec_num_bits(n as nat),
{
    tantivy_bitpacker::compute_num_bits(n)
}

/// Relies on `tantivy_bitpacker::BitPacker::new`: a fresh packer holds no
/// pending bits.
#[verifier::external_body]
pub(crate) fn packer_new() -> (p: tantivy_bitpacker::BitPacker)
    ensures
        packer_bits(p) == Seq::<bool>::empty(),
{
    tantivy_bitpacker::BitPacker::new()
}

/// Relies on `tantivy_bitpacker::BitPacker::write`: appends the low
/// `num_bits` bits of `value` to the stream formed by the bytes already in
/// `out` followed by the pending bits, moving a whole 64-bit word to `out`
/// whenever one fills.  Writing to a `Vec<u8>` cannot fail.
#[verifier::external_body]
pub(crate) fn packer_write(
    p: &mut tantivy_bitpacker::BitPacker,
    out: &mut Vec<u8>,
    value: u64,
    num_bits: u8,
)
    requires
        num_bits <= 64,
        (value as nat) < pow2(num_bits as nat),
        packer_bits(*old(p)).len() < 64,
        old(out)@.len() + 8 <= usize::MAX,
    ensures
        bits_of(final(out)@) + packer_bits(*final(p)) == bits_of(old(out)@) + packer_bits(
            *old(p),
        ) + nat_bits(value as nat, num_bits as nat),
        packer_bits(*final(p)).len() == (packer_bits(*old(p)).len() + num_bits) % 64,
{
    let _ = p.write(value, num_bits, out);
}

/// Relies on `tantivy_bitpacker::BitPacker::flush`: writes the pending bits
/// out, padded with zero bits to the next byte boundary, and leaves the
/// packer empty.  Writing to a `Vec<u8>` cannot fail.
#[verifier::external_body]
pub(crate) fn packer_flush(p: &mut tantivy_bitpacker::BitPacker, out: &mut Vec<u8>)
    requires
        packer_bits(*old(p)).len() < 64,
        old(out)@.len() + 8 <= usize::MAX,
    ensures
        packer_bits(*final(p)) == Seq::<bool>::empty(),
        bits_of(final(out)@) == bits_of(old(out)@) + packer_bits(*old(p)) + zero_bits(
            pad_to_byte(packer_bits(*old(p)).len()),
        ),
{
    let _ = p.flush(out);
}

/// Relies on `tantivy_bitpacker::BitPacker::close`: same as `flush`.
#[verifier::external_body]
pub(crate) fn packer_close(p: &mut tantivy_bitpacker::BitPacker, out: &mut Vec<u8>)
    requires
        packer_bits(*old(p)).len() < 64,
        old(out)@.len() + 8 <= usize::MAX,
    ensures
        packer_bits(*final(p)) == Seq::<bool>::empty(),
        bits_of(final(out)@) == bits_of(old(out)@) + packer_bits(*old(p)) + zero_bits(
            pad_to_byte(packer_bits(*old(p)).len()),
        ),
{
    let _ = p.close(out);
}

/// Relies on `tantivy_bitpacker::BitUnpacker::new`, which refuses widths in
/// 57..=63 and above 64 because a slot could span two 8-byte windows.
#[verifier::external_body]
pub(crate) fn unpacker_new(num_bits: u8) -> (u: tantivy_bitpacker::BitUnpacker)
    requires
        num_bits <= 56 || num_bits == 64,
    ensures
        unpacker_width(u) == num_bits as nat,
{
    tantivy_bitpacker::BitUnpacker::new(num_bits)
}

/// Relies on `tantivy_bitpacker::BitUnpacker::get`: loads the 8-byte window
/// holding bit `idx * width` of the stream that starts at byte `from`
/// (reading bytes past the end of the buffer as zero), shifts the slot down
/// and masks it to `width` bits; a slot cut by the end of its window is
/// zero-extended.
#[verifier::external_body]
pub(crate) fn unpacker_get(
    u: &tantivy_bitpacker::BitUnpacker,
    idx: u32,
    data: &[u8],
    from: usize,
) -> (r: u64)
    requires
        unpacker_width(*u) <= 64,
        from <= data@.len(),
        idx as nat * unpacker_width(*u) <= usize::MAX,
        from + (idx as nat * unpacker_width(*u)) / 8 <= data@.len(),
    ensures
        r as nat == bits_val(
            read_bits(
                data@,
                (8 * from + idx as nat * unpacker_width(*u)) as nat,
                eff_width(
                    unpacker_width(*u),
                    (8 * from + idx as nat * unpacker_width(*u)) as nat,
                ),
            ),
        ),
{
    u.get(idx, &data[from..])
}

} // verus!
