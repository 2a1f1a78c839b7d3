//! The codec's data model: column statistics, per-block metadata, the block
//! geometry of the data region, and the self-describing footer format.
//!
//! Byte layout of an encoded column:
//! data region (one byte-aligned segment per block of 128 values), then the
//! footer (`num_vals`, `min_value`, `max_value` as little-endian `u64`, the
//! block count as little-endian `u32`, then one `(min: u64, num_bits: u8)`
//! pair per block), then the footer's byte length as a little-endian `u32`.

use vstd::prelude::*;

verus! {

use vstd::bytes::spec_u64_to_le_bytes;
use vstd::bytes::spec_u64_from_le_bytes;
use vstd::bytes::spec_u32_to_le_bytes;
use vstd::bytes::spec_u32_from_le_bytes;
use vstd::bytes::lemma_auto_spec_u64_to_from_le_bytes;
use vstd::bytes::lemma_auto_spec_u32_to_from_le_bytes;
use vstd::bytes::u64_from_le_bytes;
use vstd::bytes::u32_from_le_bytes;
use vstd::bytes::u64_to_le_bytes;
use vstd::bytes::u32_to_le_bytes;
use vstd::slice::slice_subrange;
use vstd::slice::slice_index_get;
use crate::bits::nat_bits;
use crate::bits::zero_bits;
use crate::bits::pad_to_byte;
use crate::pack::spec_num_bits;

/// Values per block; the last block of a column may be shorter.
pub const BLOCK_SIZE: u64 = 128;

/// Global statistics of a column: its length and value bounds.
#[derive(Clone, Copy, Debug)]
pub struct FastFieldStats {
    pub num_vals: u64,
    pub min_value: u64,
    pub max_value: u64,
}

/// One block's reference value and the bit width of its packed offsets.
#[derive(Clone, Copy, Debug)]
pub struct BlockMetadata {
    pub min: u64,
    pub num_bits: u8,
}

/// Why a byte buffer was rejected when opening it.
#[derive(Clone, Copy, Debug, PartialEq, Eq, Structural)]
pub enum FormatError {
    /// The buffer is too short to hold the trailing footer length.
    Truncated,
    /// The trailing footer length reaches before the start of the buffer.
    FooterOutOfBounds,
    /// The footer region is too short for its own fields, or a block's bit
    /// width is one no unpacker accepts.
    MalformedFooter,
}

/// The footer written after the data region: global statistics plus one
/// metadata entry per block, in block order.
pub struct FORFooter {
    pub num_vals: u64,
    pub min_value: u64,
    pub max_value: u64,
    pub block_metadatas: Vec<BlockMetadata>,
}

/// The mathematical image of a footer.
pub struct FooterModel {
    pub num_vals: u64,
    pub min_value: u64,
    pub max_value: u64,
    pub metas: Seq<BlockMetadata>,
}

impl View for FORFooter {
    type V = FooterModel;

    open spec fn view(&self) -> FooterModel {
        FooterModel {
            num_vals: self.num_vals,
            min_value: self.min_value,
            max_value: self.max_value,
            metas: self.block_metadatas@,
        }
    }
}

// ---------------------------------------------------------------------------
// Block geometry of the data region.
// ---------------------------------------------------------------------------
/// How many blocks a column of `n` values occupies.
pub open spec fn spec_num_blocks(n: nat) -> nat {
    (n + 127) / 128
}

/// The values of block `b`.
pub open spec fn spec_block_of(data: Seq<u64>, b: nat) -> Seq<u64> {
    data.subrange(
        128 * b as int,
        if 128 * (b + 1) <= data.len() {
            128 * (b + 1) as int
        } else {
            data.len() as int
        },
    )
}

/// The least element of a non-empty sequence.
pub open spec fn seq_min(s: Seq<u64>) -> u64
    recommends
        s.len() > 0,
    decreases s.len(),
{
    if s.len() <= 1 {
        s[0]
    } else {
        let m = seq_min(s.drop_last());
        if s.last() < m {
            s.last()
        } else {
            m
        }
    }
}

/// The greatest element of a non-empty sequence.
pub open spec fn seq_max(s: Seq<u64>) -> u64
    recommends
        s.len() > 0,
    decreases s.len(),
{
    if s.len() <= 1 {
        s[0]
    } else {
        let m = seq_max(s.drop_last());
        if s.last() > m {
            s.last()
        } else {
            m
        }
    }
}

pub proof fn lemma_seq_min_max(s: Seq<u64>)
    requires
        s.len() > 0,
    ensures
        forall|i: int| 0 <= i < s.len() ==> seq_min(s) <= s[i] && s[i] <= seq_max(s),
        seq_min(s) <= seq_max(s),
    decreases s.len(),
{
    if s.len() > 1 {
        lemma_seq_min_max(s.drop_last());
        assert forall|i: int| 0 <= i < s.len() implies seq_min(s) <= s[i] && s[i] <= seq_max(
            s,
        ) by {
            if i < s.len() - 1 {
                assert(s.drop_last()[i] == s[i]);
            }
        }
    }
}

/// The metadata the encoder records for a block: its minimum, and the block
/// width chosen for its amplitude.
pub open spec fn spec_meta_of(vals: Seq<u64>) -> BlockMetadata
    recommends
        vals.len() > 0,
{
    BlockMetadata {
        min: seq_min(vals),
        num_bits: spec_num_bits((seq_max(vals) - seq_min(vals)) as nat) as u8,
    }
}

/// The metadata sequence of a whole column.
pub open spec fn spec_metas_of(data: Seq<u64>) -> Seq<BlockMetadata> {
    Seq::new(spec_num_blocks(data.len()), |b: int| spec_meta_of(spec_block_of(data, b as nat)))
}

/// The byte offset of block `b`'s segment in the data region: every earlier
/// block holds exactly 128 values flushed to a byte boundary, so occupies
/// `num_bits * 16` bytes.
pub open spec fn spec_offset_of(ms: Seq<BlockMetadata>, b: nat) -> nat
    decreases b,
{
    if b == 0 {
        0
    } else {
        (spec_offset_of(ms, (b - 1) as nat) + ms[b - 1].num_bits * 16) as nat
    }
}

/// The packed bits of `vals`, each stored as its offset from `min` in `nb`
/// bits, in value order.
pub open spec fn vals_bits(vals: Seq<u64>, min: u64, nb: nat) -> Seq<bool>
    decreases vals.len(),
{
    if vals.len() == 0 {
        Seq::empty()
    } else {
        vals_bits(vals.drop_last(), min, nb) + nat_bits((vals.last() - min) as nat, nb)
    }
}

pub proof fn lemma_vals_bits_len(vals: Seq<u64>, min: u64, nb: nat)
    ensures
        vals_bits(vals, min, nb).len() == vals.len() * nb,
    decreases vals.len(),
{
    if vals.len() > 0 {
        lemma_vals_bits_len(vals.drop_last(), min, nb);
        assert(vals.len() * nb == (vals.len() - 1) * nb + nb) by (nonlinear_arith);
    }
}

/// One block's segment of the data region: its packed bits, zero-padded to
/// the next byte boundary.
pub open spec fn spec_block_seg(data: Seq<u64>, b: nat) -> Seq<bool> {
    let vals = spec_block_of(data, b);
    let m = spec_meta_of(vals);
    let body = vals_bits(vals, m.min, m.num_bits as nat);
    body + zero_bits(pad_to_byte(body.len()))
}

/// The data region's bits up to (not including) block `b`.
pub open spec fn spec_region_bits_upto(data: Seq<u64>, b: nat) -> Seq<bool>
    decreases b,
{
    if b == 0 {
        Seq::empty()
    } else {
        spec_region_bits_upto(data, (b - 1) as nat) + spec_block_seg(data, (b - 1) as nat)
    }
}

/// The whole data region as a bit stream.
pub open spec fn spec_region_bits(data: Seq<u64>) -> Seq<bool> {
    spec_region_bits_upto(data, spec_num_blocks(data.len()))
}

// ---------------------------------------------------------------------------
// Footer bytes.
// ---------------------------------------------------------------------------
/// The nine bytes of one metadata entry.
pub open spec fn spec_meta_bytes(m: BlockMetadata) -> Seq<u8> {
    spec_u64_to_le_bytes(m.min) + seq![m.num_bits]
}

/// The concatenated metadata entries, in block order.
pub open spec fn spec_metas_bytes(ms: Seq<BlockMetadata>) -> Seq<u8>
    decreases ms.len(),
{
    if ms.len() == 0 {
        Seq::empty()
    } else {
        spec_metas_bytes(ms.drop_last()) + spec_meta_bytes(ms.last())
    }
}

/// The full footer: global statistics, block count, then the entries.
pub open spec fn spec_footer_bytes(
    num_vals: u64,
    min_value: u64,
    max_value: u64,
    ms: Seq<BlockMetadata>,
) -> Seq<u8> {
    spec_u64_to_le_bytes(num_vals) + spec_u64_to_le_bytes(min_value) + spec_u64_to_le_bytes(
        max_value,
    ) + spec_u32_to_le_bytes(ms.len() as u32) + spec_metas_bytes(ms)
}

pub proof fn lemma_metas_bytes_len(ms: Seq<BlockMetadata>)
    ensures
        spec_metas_bytes(ms).len() == 9 * ms.len(),
    decreases ms.len(),
{
    lemma_auto_spec_u64_to_from_le_bytes();
    if ms.len() > 0 {
        lemma_metas_bytes_len(ms.drop_last());
    }
}

pub proof fn lemma_metas_bytes_index(ms: Seq<BlockMetadata>, i: int)
    requires
        0 <= i < ms.len(),
    ensures
        spec_metas_bytes(ms).subrange(9 * i, 9 * i + 9) =~= spec_meta_bytes(ms[i]),
    decreases ms.len(),
{
    lemma_metas_bytes_len(ms);
    lemma_metas_bytes_len(ms.drop_last());
    if i == ms.len() - 1 {
    } else {
        lemma_metas_bytes_index(ms.drop_last(), i);
    }
}

// ---------------------------------------------------------------------------
// Parsing.
// ---------------------------------------------------------------------------
/// The metadata entry whose nine bytes start at `off` in `region`.
pub open spec fn spec_parse_meta(region: Seq<u8>, off: int) -> BlockMetadata {
    BlockMetadata {
        min: spec_u64_from_le_bytes(region.subrange(off, off + 8)),
        num_bits: region[off + 8],
    }
}

/// Parsing a footer region: the three statistics, the block count, then that
/// many entries; bytes past the entries are ignored.  Fails only when the
/// region is too short.
pub open spec fn spec_parse_footer(region: Seq<u8>) -> Option<FooterModel> {
    if region.len() < 28 {
        None
    } else {
        let cnt = spec_u32_from_le_bytes(region.subrange(24, 28)) as nat;
        if 28 + 9 * cnt > region.len() {
            None
        } else {
            Some(
                FooterModel {
                    num_vals: spec_u64_from_le_bytes(region.subrange(0, 8)),
                    min_value: spec_u64_from_le_bytes(region.subrange(8, 16)),
                    max_value: spec_u64_from_le_bytes(region.subrange(16, 24)),
                    metas: Seq::new(cnt, |i: int| spec_parse_meta(region, 28 + 9 * i)),
                },
            )
        }
    }
}

/// Widths an unpacker can be built for.
pub open spec fn spec_widths_ok(ms: Seq<BlockMetadata>) -> bool {
    forall|i: int| 0 <= i < ms.len() ==> ms[i].num_bits <= 56 || ms[i].num_bits == 64
}

/// Locating and parsing the footer of a whole buffer: the last four bytes
/// give the footer's length `l`; the footer occupies the `l` bytes before
/// them.  Fails when the buffer cannot hold the trailer, when `l` overruns
/// the buffer, when the footer region is malformed, or when an entry holds a
/// width no unpacker accepts.
pub open spec fn spec_open_footer(bytes: Seq<u8>) -> Option<FooterModel> {
    if bytes.len() < 4 {
        None
    } else {
        let l = spec_u32_from_le_bytes(bytes.subrange(bytes.len() - 4, bytes.len() as int)) as nat;
        if l + 4 > bytes.len() {
            None
        } else {
            match spec_parse_footer(bytes.subrange(bytes.len() - 4 - l, bytes.len() - 4)) {
                Option::None => Option::None,
                Option::Some(f) => if spec_widths_ok(f.metas) {
                    Option::Some(f)
                } else {
                    Option::None
                },
            }
        }
    }
}

/// Footer bytes parse back to exactly what was written.
pub proof fn lemma_parse_footer_inverts(
    num_vals: u64,
    min_value: u64,
    max_value: u64,
    ms: Seq<BlockMetadata>,
)
    requires
        28 + 9 * ms.len() <= u32::MAX,
    ensures
        spec_parse_footer(spec_footer_bytes(num_vals, min_value, max_value, ms)) == Some(
            FooterModel { num_vals, min_value, max_value, metas: ms },
        ),
{
    lemma_auto_spec_u64_to_from_le_bytes();
    lemma_auto_spec_u32_to_from_le_bytes();
    lemma_metas_bytes_len(ms);
    let fb = spec_footer_bytes(num_vals, min_value, max_value, ms);
    assert(fb.subrange(0, 8) =~= spec_u64_to_le_bytes(num_vals));
    assert(fb.subrange(8, 16) =~= spec_u64_to_le_bytes(min_value));
    assert(fb.subrange(16, 24) =~= spec_u64_to_le_bytes(max_value));
    assert(fb.subrange(24, 28) =~= spec_u32_to_le_bytes(ms.len() as u32));
    let cnt = spec_u32_from_le_bytes(fb.subrange(24, 28)) as nat;
    assert(cnt == ms.len());
    let parsed = spec_parse_footer(fb).unwrap();
    assert forall|i: int| 0 <= i < ms.len() implies parsed.metas[i] == ms[i] by {
        lemma_metas_bytes_index(ms, i);
        assert(fb.subrange(28 + 9 * i, 28 + 9 * i + 9) =~= spec_metas_bytes(ms).subrange(
            9 * i,
            9 * i + 9,
        ));
        let mb = spec_meta_bytes(ms[i]);
        assert(fb.subrange(28 + 9 * i, 28 + 9 * i + 8) =~= mb.subrange(0, 8));
        assert(mb.subrange(0, 8) =~= spec_u64_to_le_bytes(ms[i].min));
        assert(fb[28 + 9 * i + 8] == mb[8]);
    }
    assert(parsed.metas =~= ms);
}

// ---------------------------------------------------------------------------
// Executable footer serialization and parsing.
// ---------------------------------------------------------------------------
impl BlockMetadata {
    /// Appends the entry's nine bytes: the minimum, then the bit width.
    pub fn serialize(&self, out: &mut Vec<u8>)
        requires
            old(out)@.len() + 9 <= usize::MAX,
        ensures
            final(out)@ == old(out)@ + spec_meta_bytes(*self),
    {
        let mut tmp = u64_to_le_bytes(self.min);
        out.append(&mut tmp);
        out.push(self.num_bits);
        proof {
            assert(final(out)@ =~= old(out)@ + spec_meta_bytes(*self));
        }
    }

    /// Reads the entry whose nine bytes start at `off` in `region`.
    pub fn deserialize(region: &[u8], off: usize) -> (r: BlockMetadata)
        requires
            off + 9 <= region@.len(),
        ensures
            r == spec_parse_meta(region@, off as int),
    {
        let rlen = region.len();
        proof {
            assert(off + 9 <= rlen);
        }
        let min = u64_from_le_bytes(slice_subrange(region, off, off + 8));
        let num_bits = *slice_index_get(region, off + 8);
        BlockMetadata { min, num_bits }
    }
}

impl FORFooter {
    /// Appends the footer's bytes to `out`, then the footer's byte length as
    /// four little-endian bytes, exactly as the decoder expects to find them
    /// at the end of the buffer.
    pub fn serialize(&self, out: &mut Vec<u8>)
        requires
            28 + 9 * self.block_metadatas@.len() <= u32::MAX,
            old(out)@.len() + 32 + 9 * self.block_metadatas@.len() <= usize::MAX,
        ensures
            final(out)@ == old(out)@ + spec_footer_bytes(
                self.num_vals,
                self.min_value,
                self.max_value,
                self.block_metadatas@,
            ) + spec_u32_to_le_bytes((28 + 9 * self.block_metadatas@.len()) as u32),
    {
        proof {
            lemma_metas_bytes_len(self.block_metadatas@);
        }
        let ghost base = out@;
        let start = out.len();
        let mut tmp = u64_to_le_bytes(self.num_vals);
        out.append(&mut tmp);
        let mut tmp = u64_to_le_bytes(self.min_value);
        out.append(&mut tmp);
        let mut tmp = u64_to_le_bytes(self.max_value);
        out.append(&mut tmp);
        let count = self.block_metadatas.len() as u32;
        let mut tmp = u32_to_le_bytes(count);
        out.append(&mut tmp);
        let ghost head = out@;
        let mut i: usize = 0;
        while i < self.block_metadatas.len()
            invariant
                i <= self.block_metadatas@.len(),
                28 + 9 * self.block_metadatas@.len() <= u32::MAX,
                head.len() == base.len() + 28,
                base.len() + 32 + 9 * self.block_metadatas@.len() <= usize::MAX,
                out@ == head + spec_metas_bytes(self.block_metadatas@.take(i as int)),
            decreases self.block_metadatas@.len() - i,
        {
            proof {
                lemma_metas_bytes_len(self.block_metadatas@.take(i as int));
            }
            let m = self.block_metadatas[i];
            m.serialize(out);
            proof {
                let pre = self.block_metadatas@.take(i as int);
                let cur = self.block_metadatas@.take(i + 1);
                assert(cur.drop_last() =~= pre);
                assert(cur.last() == self.block_metadatas@[i as int]);
                assert(spec_metas_bytes(cur) == spec_metas_bytes(pre) + spec_meta_bytes(
                    self.block_metadatas@[i as int],
                ));
                assert(out@ =~= head + spec_metas_bytes(cur));
            }
            i = i + 1;
        }
        proof {
            assert(self.block_metadatas@.take(self.block_metadatas@.len() as int)
                =~= self.block_metadatas@);
            lemma_metas_bytes_len(self.block_metadatas@);
        }
        let footer_len = (out.len() - start) as u32;
        let mut tmp = u32_to_le_bytes(footer_len);
        out.append(&mut tmp);
        proof {
            assert(final(out)@ =~= base + spec_footer_bytes(
                self.num_vals,
                self.min_value,
                self.max_value,
                self.block_metadatas@,
            ) + spec_u32_to_le_bytes((28 + 9 * self.block_metadatas@.len()) as u32));
        }
    }

    /// Parses a footer from the start of `region`; bytes after the metadata
    /// entries are ignored, as a reader of a sliced footer region ignores
    /// them.
    pub fn deserialize(region: &[u8]) -> (r: Result<FORFooter, FormatError>)
        ensures
            r is Ok <==> spec_parse_footer(region@) is Some,
            r matches Ok(f) ==> Some(f@) == spec_parse_footer(region@),
            r matches Err(e) ==> e == FormatError::MalformedFooter,
    {
        if region.len() < 28 {
            return Err(FormatError::MalformedFooter);
        }
        let num_vals = u64_from_le_bytes(slice_subrange(region, 0, 8));
        let min_value = u64_from_le_bytes(slice_subrange(region, 8, 16));
        let max_value = u64_from_le_bytes(slice_subrange(region, 16, 24));
        let count = u32_from_le_bytes(slice_subrange(region, 24, 28)) as usize;
        if count > (region.len() - 28) / 9 {
            return Err(FormatError::MalformedFooter);
        }
        let ghost model = spec_parse_footer(region@).unwrap();
        let mut metas: Vec<BlockMetadata> = Vec::new();
        let mut i: usize = 0;
        while i < count
            invariant
                i <= count,
                28 + 9 * count <= region@.len(),
                region@.len() <= usize::MAX,
                spec_parse_footer(region@) is Some,
                model == spec_parse_footer(region@).unwrap(),
                model.metas.len() == count,
                metas@ =~= model.metas.take(i as int),
            decreases count - i,
        {
            let off = 28 + 9 * i;
            metas.push(BlockMetadata::deserialize(region, off));
            proof {
                assert(metas@ =~= model.metas.take(i + 1));
            }
            i = i + 1;
        }
        proof {
            assert(metas@ =~= model.metas);
        }
        Ok(FORFooter { num_vals, min_value, max_value, block_metadatas: metas })
    }
}

} // verus!
