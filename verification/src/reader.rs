//! The decoder: locates and parses the footer at the tail of an encoded
//! buffer, derives each block's byte offset, and answers random-access reads
//! in constant time.

use vstd::prelude::*;

verus! {

use vstd::bytes::u32_from_le_bytes;
use vstd::bytes::spec_u32_from_le_bytes;
use vstd::slice::slice_subrange;
use vstd::arithmetic::div_mod::lemma_fundamental_div_mod;
use crate::bits::read_bits;
use crate::bits::bits_val;
use crate::bits::eff_width;
use crate::format::BLOCK_SIZE;
use crate::format::BlockMetadata;
use crate::format::FORFooter;
use crate::format::FormatError;
use crate::format::spec_parse_footer;
use crate::format::spec_open_footer;
use crate::format::spec_widths_ok;
use crate::format::spec_offset_of;
use crate::pack::unpacker_new;
use crate::pack::unpacker_get;
use crate::pack::unpacker_width;

/// The value packed in slot `pos` of the block whose segment starts at byte
/// `start`: the bits of the slot's 64-bit window, zero-extended where the
/// window or the buffer ends.
pub open spec fn block_slot_val(m: BlockMetadata, start: nat, data: Seq<u8>, pos: nat) -> nat {
    let off = (8 * start + pos * m.num_bits) as nat;
    bits_val(read_bits(data, off, eff_width(m.num_bits as nat, off)))
}

/// One block's decode state: its metadata, the byte offset of its segment,
/// and an unpacker built for its width.
pub struct BlockReader {
    pub metadata: BlockMetadata,
    pub start_offset: u64,
    pub bit_unpacker: tantivy_bitpacker::BitUnpacker,
}

impl BlockReader {
    /// The unpacker matches the metadata's width, and the width is one an
    /// unpacker can be built for.
    pub open spec fn wf(&self) -> bool {
        &&& unpacker_width(self.bit_unpacker) == self.metadata.num_bits as nat
        &&& self.metadata.num_bits <= 56 || self.metadata.num_bits == 64
    }

    /// What reading slot `pos` of this block returns: the slot's packed
    /// offset, shifted back up by the block's minimum.
    pub open spec fn spec_get(&self, data: Seq<u8>, pos: nat) -> int {
        self.metadata.min + block_slot_val(self.metadata, self.start_offset as nat, data, pos)
    }

    fn new(metadata: BlockMetadata, start_offset: u64) -> (r: Self)
        requires
            metadata.num_bits <= 56 || metadata.num_bits == 64,
        ensures
            r.metadata == metadata,
            r.start_offset == start_offset,
            r.wf(),
    {
        BlockReader { bit_unpacker: unpacker_new(metadata.num_bits), metadata, start_offset }
    }

    fn get_u64(&self, block_pos: u32, data: &[u8]) -> (r: u64)
        requires
            self.wf(),
            block_pos < 128,
            self.start_offset as nat + (block_pos as nat * self.metadata.num_bits as nat) / 8
                <= data@.len(),
            self.spec_get(data@, block_pos as nat) <= u64::MAX,
        ensures
            r == self.spec_get(data@, block_pos as nat),
    {
        let dlen = data.len();
        proof {
            assert(block_pos as nat * unpacker_width(self.bit_unpacker) <= 127 * 64)
                by (nonlinear_arith)
                requires
                    block_pos < 128,
                    unpacker_width(self.bit_unpacker) <= 64,
            ;
            assert(self.start_offset as nat <= dlen);
        }
        let from = self.start_offset as usize;
        let diff = unpacker_get(&self.bit_unpacker, block_pos, data, from);
        proof {
            assert(unpacker_width(self.bit_unpacker) == self.metadata.num_bits as nat);
            assert((8 * from + block_pos as nat * unpacker_width(self.bit_unpacker)) as nat == (8
                * (self.start_offset as nat) + block_pos as nat
                * self.metadata.num_bits) as nat);
            assert(diff as nat == block_slot_val(
                self.metadata,
                self.start_offset as nat,
                data@,
                block_pos as nat,
            ));
        }
        self.metadata.min + diff
    }
}

/// The decoder: global statistics plus one `BlockReader` per block, derived
/// once from the footer; `get_u64` then reads any index without scanning.
pub struct FORFastFieldReader {
    pub num_vals: u64,
    pub min_value: u64,
    pub max_value: u64,
    pub block_readers: Vec<BlockReader>,
}

impl FORFastFieldReader {
    pub open spec fn wf(&self) -> bool {
        forall|b: int| 0 <= b < self.block_readers@.len() ==> self.block_readers@[b].wf()
    }

    /// The trailing footer length a buffer claims.
    pub open spec fn spec_trailer_len(bytes: Seq<u8>) -> nat
        recommends
            bytes.len() >= 4,
    {
        spec_u32_from_le_bytes(bytes.subrange(bytes.len() - 4, bytes.len() as int)) as nat
    }

    /// Opens an encoded buffer: reads the trailing four bytes as the footer
    /// length, parses the footer just before them, and lays the blocks out
    /// at their cumulative byte offsets.
    #[verifier::loop_isolation(false)]
    pub fn open_from_bytes(bytes: &[u8]) -> (r: Result<Self, FormatError>)
        ensures
            r is Ok <==> spec_open_footer(bytes@) is Some,
            (r matches Ok(rd) ==> {
                let f = spec_open_footer(bytes@).unwrap();
                &&& rd.wf()
                &&& rd.num_vals == f.num_vals
                &&& rd.min_value == f.min_value
                &&& rd.max_value == f.max_value
                &&& rd.block_readers@.len() == f.metas.len()
                &&& forall|b: int|
                    0 <= b < f.metas.len() ==> rd.block_readers@[b].metadata == f.metas[b]
                        && rd.block_readers@[b].start_offset as nat == spec_offset_of(
                        f.metas,
                        b as nat,
                    )
            }),
            bytes@.len() < 4 ==> (r matches Err(e) && e == FormatError::Truncated),
            bytes@.len() >= 4 && Self::spec_trailer_len(bytes@) + 4 > bytes@.len() ==> (r matches Err(e)
                && e == FormatError::FooterOutOfBounds),
            r is Err && bytes@.len() >= 4 && Self::spec_trailer_len(bytes@) + 4 <= bytes@.len()
                ==> (r matches Err(e) && e == FormatError::MalformedFooter),
    {
        if bytes.len() < 4 {
            return Err(FormatError::Truncated);
        }
        let footer_len_u32 = u32_from_le_bytes(slice_subrange(bytes, bytes.len() - 4, bytes.len()));
        let footer_len = footer_len_u32 as usize;
        if footer_len > bytes.len() - 4 {
            return Err(FormatError::FooterOutOfBounds);
        }
        let region = slice_subrange(bytes, bytes.len() - 4 - footer_len, bytes.len() - 4);
        proof {
            assert(Self::spec_trailer_len(bytes@) == footer_len as nat);
            assert(region@ == bytes@.subrange(
                bytes@.len() - 4 - footer_len,
                bytes@.len() - 4,
            ));
        }
        let footer = match FORFooter::deserialize(region) {
            Ok(f) => f,
            Err(_) => {
                return Err(FormatError::MalformedFooter);
            },
        };
        let ghost metas = footer@.metas;
        proof {
            assert(spec_parse_footer(region@) == Some(footer@));
            assert(28 + 9 * metas.len() <= region@.len());
            assert(region@.len() == footer_len);
        }
        let mut block_readers: Vec<BlockReader> = Vec::new();
        let mut current_data_offset: u64 = 0;
        let mut i: usize = 0;
        while i < footer.block_metadatas.len()
            invariant
                i <= metas.len(),
                footer@.metas == metas,
                footer.block_metadatas@.len() == metas.len(),
                9 * metas.len() <= u32::MAX,
                spec_widths_ok(metas.take(i as int)),
                block_readers@.len() == i,
                forall|b: int|
                    0 <= b < i ==> #[trigger] block_readers@[b].wf() && block_readers@[b].metadata
                        == metas[b] && block_readers@[b].start_offset as nat == spec_offset_of(
                        metas,
                        b as nat,
                    ),
                current_data_offset as nat == spec_offset_of(metas, i as nat),
                current_data_offset <= 1024 * (i as u64),
            decreases metas.len() - i,
        {
            let m = footer.block_metadatas[i];
            if !(m.num_bits <= 56 || m.num_bits == 64) {
                proof {
                    assert(metas[i as int].num_bits == m.num_bits);
                    assert(!spec_widths_ok(metas));
                }
                return Err(FormatError::MalformedFooter);
            }
            block_readers.push(BlockReader::new(m, current_data_offset));
            proof {
                assert(1024 * (i as u64 + 1) == 1024 * (i as u64) + 1024);
                assert(metas.take(i + 1).drop_last() =~= metas.take(i as int));
            }
            current_data_offset = current_data_offset + (m.num_bits as u64) * 16;
            i = i + 1;
        }
        proof {
            assert(metas.take(metas.len() as int) =~= metas);
            assert(spec_widths_ok(metas));
            assert(spec_open_footer(bytes@) == Some(footer@));
        }
        Ok(
            FORFastFieldReader {
                num_vals: footer.num_vals,
                min_value: footer.min_value,
                max_value: footer.max_value,
                block_readers,
            },
        )
    }

    /// What reading index `idx` returns, over the block geometry.
    pub open spec fn spec_get(&self, data: Seq<u8>, idx: u64) -> int {
        self.block_readers@[idx as int / 128].spec_get(data, idx as nat % 128)
    }

    /// The caller's contract for `get_u64`: the index is in range, its block
    /// exists and is well formed, the read stays inside the buffer, and the
    /// decoded value fits a `u64`.  Opening an encoded buffer and reading it
    /// with any `idx < num_vals` satisfies all of this.
    pub open spec fn can_get(&self, data: Seq<u8>, idx: u64) -> bool {
        let b = idx as int / 128;
        &&& idx < self.num_vals
        &&& b < self.block_readers@.len()
        &&& self.block_readers@[b].wf()
        &&& self.block_readers@[b].start_offset as nat + ((idx as nat % 128)
            * self.block_readers@[b].metadata.num_bits as nat) / 8 <= data.len()
        &&& self.spec_get(data, idx) <= u64::MAX
    }

    /// Reads the value at `idx` in constant time: finds its block, unpacks
    /// the slot at the block's byte offset, and adds the block's minimum.
    pub fn get_u64(&self, idx: u64, data: &[u8]) -> (r: u64)
        requires
            self.can_get(data@, idx),
        ensures
            r == self.spec_get(data@, idx),
    {
        proof {
            lemma_fundamental_div_mod(idx as int, 128);
        }
        let nblocks = self.block_readers.len();
        proof {
            assert((idx / BLOCK_SIZE) as int == idx as int / 128);
            assert(idx as int / 128 < nblocks);
        }
        let block_idx = (idx / BLOCK_SIZE) as usize;
        let block_pos = (idx - block_idx as u64 * BLOCK_SIZE) as u32;
        proof {
            assert(block_idx as int == idx as int / 128);
            assert(block_pos as nat == idx as nat % 128);
            assert(block_pos < 128);
        }
        self.block_readers[block_idx].get_u64(block_pos, data)
    }

    /// The stored global minimum.
    pub fn min_value(&self) -> (r: u64)
        ensures
            r == self.min_value,
    {
        self.min_value
    }

    /// The stored global maximum.
    pub fn max_value(&self) -> (r: u64)
        ensures
            r == self.max_value,
    {
        self.max_value
    }
}

} // verus!
