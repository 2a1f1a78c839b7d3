//! The encoder, the applicability test and the compression-ratio estimator.

use vstd::prelude::*;

verus! {

use vstd::arithmetic::power2::pow2;
use vstd::arithmetic::div_mod::lemma_add_mod_noop;
use vstd::arithmetic::div_mod::lemma_mod_mod;
use vstd::arithmetic::div_mod::lemma_fundamental_div_mod;
use vstd::bytes::spec_u32_to_le_bytes;
use crate::bits::bits_of;
use crate::bits::nat_bits;
use crate::bits::zero_bits;
use crate::bits::pad_to_byte;
use crate::format::BLOCK_SIZE;
use crate::format::FastFieldStats;
use crate::format::BlockMetadata;
use crate::format::FORFooter;
use crate::format::spec_num_blocks;
use crate::format::spec_block_of;
use crate::format::spec_meta_of;
use crate::format::spec_metas_of;
use crate::format::spec_block_seg;
use crate::format::spec_region_bits;
use crate::format::spec_region_bits_upto;
use crate::format::spec_footer_bytes;
use crate::format::seq_min;
use crate::format::seq_max;
use crate::format::vals_bits;
use crate::format::lemma_seq_min_max;
use crate::format::lemma_vals_bits_len;
use crate::format::lemma_metas_bytes_len;
use crate::pack::spec_num_bits;
use crate::pack::lemma_num_bits;
use crate::pack::packer_bits;
use crate::pack::packer_new;
use crate::pack::packer_write;
use crate::pack::packer_flush;
use crate::pack::packer_close;
use crate::pack::num_bits_for;

/// The factor applied to the first block's largest distance before
/// estimating a bit width, guarding against an unrepresentative first block.
pub const ESTIMATE_SAFETY_FACTOR: u64 = 3;

/// Metadata bytes each block adds to the footer: eight for its minimum and
/// one for its bit width.
pub const METADATA_BYTES_PER_BLOCK: u64 = 9;

/// The statistics describe the column: the length matches and every value
/// lies between the global bounds.
pub open spec fn spec_stats_ok(stats: FastFieldStats, data: Seq<u64>) -> bool {
    &&& stats.num_vals == data.len()
    &&& forall|i: int|
        0 <= i < data.len() ==> stats.min_value <= data[i] && data[i] <= stats.max_value
}

/// What `bytes` holds after encoding `data` with statistics `stats`: the
/// data region's bits, then the footer's bytes, then the footer's length.
pub open spec fn spec_encoded(stats: FastFieldStats, data: Seq<u64>, bytes: Seq<u8>) -> bool {
    let region = spec_region_bits(data);
    let dlen = region.len() / 8;
    let ms = spec_metas_of(data);
    let fb = spec_footer_bytes(stats.num_vals, stats.min_value, stats.max_value, ms);
    &&& region.len() % 8 == 0
    &&& bytes.len() == dlen + fb.len() + 4
    &&& bits_of(bytes.subrange(0, dlen as int)) == region
    &&& bytes.subrange(dlen as int, (dlen + fb.len()) as int) == fb
    &&& bytes.subrange(bytes.len() - 4, bytes.len() as int) == spec_u32_to_le_bytes(
        (28 + 9 * ms.len()) as u32,
    )
}

/// The estimator's bit total: the width fitting three times the sampled
/// distance, for every value, plus the footer metadata of the full blocks.
pub open spec fn spec_estimated_bits(stats: FastFieldStats, sample: Seq<u64>) -> nat
    recommends
        sample.len() > 0,
{
    let dist = (seq_max(sample) - stats.min_value) as u64;
    let tripled: u64 = if dist <= u64::MAX / 3 {
        (3 * dist) as u64
    } else {
        u64::MAX
    };
    (spec_num_bits(tripled as nat) * stats.num_vals + 9 * (stats.num_vals as nat / 128)) as nat
}

/// The block-wise frame-of-reference encoder.
pub struct FORFastFieldSerializer {}

impl FORFastFieldSerializer {
    /// Encodes the column: packs each block of 128 values as offsets from
    /// the block's minimum, flushes each block to a byte boundary, then
    /// appends the footer and its length.
    #[verifier::loop_isolation(false)]
    #[verifier::rlimit(100)]
    pub fn serialize(stats: FastFieldStats, data: &Vec<u64>) -> (out: Vec<u8>)
        requires
            spec_stats_ok(stats, data@),
            28 + 9 * spec_num_blocks(data@.len()) <= u32::MAX,
            9 * data@.len() + 64 <= usize::MAX,
        ensures
            spec_encoded(stats, data@, out@),
    {
        let mut out: Vec<u8> = Vec::new();
        let mut packer = packer_new();
        let mut metas: Vec<BlockMetadata> = Vec::new();
        let mut pos: usize = 0;
        proof {
            assert(bits_of(out@) =~= spec_region_bits_upto(data@, 0));
        }
        while pos < data.len()
            invariant
                pos <= data@.len(),
                pos % 128 == 0 || pos == data@.len(),
                metas@ =~= spec_metas_of(data@).take(spec_num_blocks(pos as nat) as int),
                packer_bits(packer) == Seq::<bool>::empty(),
                bits_of(out@) == spec_region_bits_upto(data@, spec_num_blocks(pos as nat)),
                out@.len() <= 8 * pos,
            decreases data@.len() - pos,
        {
            let ghost b = spec_num_blocks(pos as nat);
            proof {
                assert(pos % 128 == 0);
                lemma_fundamental_div_mod(pos as int, 128);
                assert(pos == 128 * b) by {
                    assert(b == (pos + 127) / 128);
                    assert((pos + 127) / 128 == pos / 128) by {
                        lemma_fundamental_div_mod(pos + 127, 128);
                    }
                }
            }
            let remaining = data.len() - pos;
            let block_len: usize = if remaining < 128 {
                remaining
            } else {
                128
            };
            let ghost blockvals = data@.subrange(pos as int, (pos + block_len) as int);
            proof {
                assert(blockvals =~= spec_block_of(data@, b));
            }
            // Scan the block for its minimum and maximum.
            let mut bmin = data[pos];
            let mut bmax = data[pos];
            let mut i: usize = pos + 1;
            proof {
                assert(data@.subrange(pos as int, pos + 1) =~= seq![data@[pos as int]]);
            }
            while i < pos + block_len
                invariant
                    pos < i <= pos + block_len,
                    bmin == seq_min(data@.subrange(pos as int, i as int)),
                    bmax == seq_max(data@.subrange(pos as int, i as int)),
                decreases pos + block_len - i,
            {
                let v = data[i];
                proof {
                    let pre = data@.subrange(pos as int, i as int);
                    let cur = data@.subrange(pos as int, i + 1);
                    assert(cur.drop_last() =~= pre);
                    assert(cur.last() == data@[i as int]);
                }
                if v < bmin {
                    bmin = v;
                }
                if v > bmax {
                    bmax = v;
                }
                i = i + 1;
            }
            proof {
                lemma_seq_min_max(blockvals);
            }
            let amplitude = bmax - bmin;
            let nb = num_bits_for(amplitude);
            proof {
                lemma_num_bits(amplitude);
                lemma_vals_bits_len(blockvals, bmin, nb as nat);
            }
            let ghost head_bits = spec_region_bits_upto(data@, b);
            // Pack each value of the block as its offset from the minimum.
            let mut j: usize = pos;
            proof {
                assert(head_bits.len() == 8 * out@.len());
                assert(head_bits.len() <= 64 * pos);
                assert(blockvals.take(0) =~= Seq::<u64>::empty());
                assert(bits_of(out@) + packer_bits(packer) =~= head_bits + vals_bits(
                    blockvals.take(0),
                    bmin,
                    nb as nat,
                ));
            }
            while j < pos + block_len
                invariant
                    pos <= j <= pos + block_len,
                    head_bits.len() <= 64 * pos,
                    bits_of(out@) + packer_bits(packer) == head_bits + vals_bits(
                        blockvals.take(j - pos),
                        bmin,
                        nb as nat,
                    ),
                    packer_bits(packer).len() == ((j - pos) * nb) % 64,
                decreases pos + block_len - j,
            {
                let v = data[j];
                proof {
                    assert(blockvals[j - pos] == data@[j as int]);
                    assert(bmin <= v && v <= bmax);
                    assert(((v - bmin) as nat) < pow2(nb as nat));
                    lemma_vals_bits_len(blockvals.take(j - pos), bmin, nb as nat);
                    assert((j - pos) * nb <= (j - pos) * 64 && (j - pos) * 64 <= 64 * (
                    data@.len() as int)) by (nonlinear_arith)
                        requires
                            nb <= 64,
                            0 <= j - pos,
                            j < data@.len(),
                    ;
                    assert(8 * out@.len() + packer_bits(packer).len() == head_bits.len() + (j - pos)
                        * nb);
                    assert(out@.len() + 8 <= usize::MAX);
                }
                packer_write(&mut packer, &mut out, v - bmin, nb);
                proof {
                    let pre = blockvals.take(j - pos);
                    let cur = blockvals.take(j + 1 - pos);
                    assert(cur.drop_last() =~= pre);
                    assert(cur.last() == blockvals[j - pos]);
                    assert(vals_bits(cur, bmin, nb as nat) == vals_bits(pre, bmin, nb as nat)
                        + nat_bits((v - bmin) as nat, nb as nat));
                    assert(bits_of(out@) + packer_bits(packer) =~= head_bits + vals_bits(
                        cur,
                        bmin,
                        nb as nat,
                    ));
                    lemma_add_mod_noop((j - pos) * nb, nb as int, 64);
                    assert((j - pos) * nb + nb == (j + 1 - pos) * nb) by (nonlinear_arith);
                    assert(packer_bits(packer).len() == ((j + 1 - pos) * nb) % 64);
                }
                j = j + 1;
            }
            proof {
                assert(blockvals.take(block_len as int) =~= blockvals);
                lemma_vals_bits_len(blockvals, bmin, nb as nat);
                assert(8 * out@.len() + packer_bits(packer).len() == head_bits.len() + block_len
                    * nb);
                assert(block_len * nb <= 128 * 64) by (nonlinear_arith)
                    requires
                        block_len <= 128,
                        nb <= 64,
                ;
                assert(out@.len() + 8 <= usize::MAX);
            }
            let ghost body = vals_bits(blockvals, bmin, nb as nat);
            let ghost pend = packer_bits(packer);
            let ghost out_pre = out@;
            packer_flush(&mut packer, &mut out);
            metas.push(BlockMetadata { min: bmin, num_bits: nb });
            proof {
                // The bits flushed are exactly the tail of the block's body,
                // so the output now ends at the block's padded boundary.
                assert(bits_of(out_pre) + pend == head_bits + body);
                assert(bits_of(out@) == bits_of(out_pre) + pend + zero_bits(
                    pad_to_byte(pend.len()),
                ));
                lemma_mod_mod(block_len * nb, 8, 8);
                assert(pend.len() % 8 == (block_len * nb) % 8);
                assert(pad_to_byte(pend.len()) == pad_to_byte(body.len()));
                assert(spec_meta_of(blockvals) == BlockMetadata { min: bmin, num_bits: nb });
                assert(spec_block_seg(data@, b) == body + zero_bits(pad_to_byte(body.len())));
                assert(bits_of(out@) =~= head_bits + spec_block_seg(data@, b));
                assert(bits_of(out@) == spec_region_bits_upto(data@, (b + 1) as nat));
                // One more block done.
                assert(spec_num_blocks((pos + block_len) as nat) == b + 1) by {
                    if block_len == 128 {
                        lemma_fundamental_div_mod(pos + 128 + 127, 128);
                        lemma_fundamental_div_mod(pos + 127, 128);
                        assert((128 * b + 255) / 128 == b + 1) by (nonlinear_arith);
                        assert((128 * b + 127) / 128 == b) by (nonlinear_arith);
                    } else {
                        assert(pos + block_len == data@.len());
                        assert((128 * b + block_len + 127) / 128 == b + 1) by (nonlinear_arith)
                            requires
                                0 < block_len < 128,
                                pos == 128 * b,
                        ;
                    }
                }
                assert((pos + block_len) % 128 == 0 || pos + block_len == data@.len()) by {
                    if block_len == 128 {
                        assert((128 * b + 128) % 128 == 0) by (nonlinear_arith);
                    }
                }
                assert(metas@ =~= spec_metas_of(data@).take(b as int + 1));
                // Output stays within the byte budget.
                assert(8 * out@.len() == head_bits.len() + body.len() + pad_to_byte(body.len()));
                assert(body.len() + pad_to_byte(body.len()) <= 64 * block_len) by {
                    if nb == 64 {
                        assert((block_len * 64) % 8 == 0) by (nonlinear_arith);
                        assert(pad_to_byte(body.len()) == 0);
                    } else {
                        assert(nb <= 56);
                        assert(block_len * nb + 7 <= 64 * block_len) by (nonlinear_arith)
                            requires
                                nb <= 56,
                                1 <= block_len,
                        ;
                        assert(pad_to_byte(body.len()) <= 7);
                    }
                }
                assert(out@.len() <= 8 * (pos + block_len));
            }
            pos = pos + block_len;
        }
        proof {
            assert(spec_num_blocks(pos as nat) == spec_num_blocks(data@.len()));
            assert(metas@ =~= spec_metas_of(data@));
            assert(bits_of(out@) == spec_region_bits(data@));
        }
        let ghost data_region = out@;
        packer_close(&mut packer, &mut out);
        proof {
            assert(zero_bits(pad_to_byte(0)) =~= Seq::<bool>::empty());
            assert(bits_of(out@) =~= bits_of(data_region));
            crate::bits::lemma_bits_of_injective(out@, data_region);
        }
        let footer = FORFooter {
            num_vals: stats.num_vals,
            min_value: stats.min_value,
            max_value: stats.max_value,
            block_metadatas: metas,
        };
        footer.serialize(&mut out);
        proof {
            let region = spec_region_bits(data@);
            let ms = spec_metas_of(data@);
            let fb = spec_footer_bytes(stats.num_vals, stats.min_value, stats.max_value, ms);
            lemma_metas_bytes_len(ms);
            vstd::bytes::lemma_auto_spec_u64_to_from_le_bytes();
            vstd::bytes::lemma_auto_spec_u32_to_from_le_bytes();
            assert(fb.len() == 28 + 9 * ms.len());
            assert(region.len() == 8 * data_region.len());
            assert(region.len() % 8 == 0) by {
                lemma_fundamental_div_mod(region.len() as int, 8);
                assert(8 * data_region.len() % 8 == 0) by (nonlinear_arith);
            }
            let dlen = region.len() / 8;
            assert(dlen == data_region.len()) by {
                assert(8 * data_region.len() / 8 == data_region.len()) by (nonlinear_arith);
            }
            assert(out@.subrange(0, dlen as int) =~= data_region);
            assert(out@.subrange(dlen as int, (dlen + fb.len()) as int) =~= fb);
            assert(out@.subrange(out@.len() - 4, out@.len() as int) =~= spec_u32_to_le_bytes(
                (28 + 9 * ms.len()) as u32,
            ));
        }
        out
    }

    /// The codec pays nine footer bytes per block, so it only applies to
    /// columns longer than one full block.
    pub fn is_applicable(stats: FastFieldStats) -> (r: bool)
        ensures
            r == (stats.num_vals > 128),
    {
        stats.num_vals > BLOCK_SIZE
    }

    /// Estimates the compression ratio from the first block alone, without
    /// encoding: the largest sampled distance from the global minimum,
    /// widened by the safety factor, gives a bit width; the estimate charges
    /// that width for every value plus nine bytes of footer metadata per
    /// full block.  Returns the estimated bit total and the uncompressed bit
    /// total; their quotient is the estimated ratio.
    #[verifier::loop_isolation(false)]
    pub fn estimate_compression_ratio(stats: FastFieldStats, first_block: &Vec<u64>) -> (r: (
        u64,
        u64,
    ))
        requires
            stats.num_vals >= 1,
            stats.num_vals <= u64::MAX / 65,
            first_block@.len() == if stats.num_vals < 128 {
                stats.num_vals as nat
            } else {
                128nat
            },
            forall|i: int| 0 <= i < first_block@.len() ==> stats.min_value <= first_block@[i],
        ensures
            r.0 as nat == spec_estimated_bits(stats, first_block@),
            r.1 == 64 * stats.num_vals,
            r.1 > 0,
    {
        let mut max_distance: u64 = first_block[0] - stats.min_value;
        let mut i: usize = 1;
        proof {
            assert(first_block@.subrange(0, 1) =~= seq![first_block@[0]]);
        }
        while i < first_block.len()
            invariant
                1 <= i <= first_block@.len(),
                max_distance == seq_max(first_block@.subrange(0, i as int)) - stats.min_value,
            decreases first_block@.len() - i,
        {
            proof {
                let pre = first_block@.subrange(0, i as int);
                let cur = first_block@.subrange(0, i + 1);
                assert(cur.drop_last() =~= pre);
                assert(cur.last() == first_block@[i as int]);
                lemma_seq_min_max(pre);
            }
            let d = first_block[i] - stats.min_value;
            if d > max_distance {
                max_distance = d;
            }
            i = i + 1;
        }
        proof {
            assert(first_block@.subrange(0, first_block@.len() as int) =~= first_block@);
        }
        let tripled: u64 = if max_distance <= u64::MAX / ESTIMATE_SAFETY_FACTOR {
            max_distance * ESTIMATE_SAFETY_FACTOR
        } else {
            u64::MAX
        };
        let nb = num_bits_for(tripled);
        proof {
            lemma_num_bits(tripled);
            assert(nb as u64 * stats.num_vals + METADATA_BYTES_PER_BLOCK * (stats.num_vals / 128)
                <= u64::MAX) by (nonlinear_arith)
                requires
                    nb <= 64,
                    stats.num_vals <= u64::MAX / 65,
            ;
        }
        let estimated = nb as u64 * stats.num_vals + METADATA_BYTES_PER_BLOCK * (stats.num_vals
            / BLOCK_SIZE);
        (estimated, 64 * stats.num_vals)
    }
}

} // verus!
