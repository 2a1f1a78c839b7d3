//! The laws the codec obeys, proved against the contracts of `serializer`
//! and `reader`: an encoded buffer's footer describes itself, and decoding
//! any index returns exactly the value that was encoded.

use vstd::prelude::*;

verus! {

use vstd::arithmetic::power2::pow2;
use vstd::arithmetic::div_mod::lemma_fundamental_div_mod;
use vstd::arithmetic::div_mod::lemma_mod_multiples_vanish;
use vstd::arithmetic::div_mod::lemma_mod_multiples_basic;
use vstd::bytes::lemma_auto_spec_u32_to_from_le_bytes;
use crate::bits::bits_of;
use crate::bits::stream_bit;
use crate::bits::read_bits;
use crate::bits::nat_bits;
use crate::bits::eff_width;
use crate::bits::pad_to_byte;
use crate::bits::lemma_stream_bit_prefix;
use crate::bits::lemma_read_back;
use crate::format::FastFieldStats;
use crate::format::FooterModel;
use crate::format::spec_num_blocks;
use crate::format::spec_block_of;
use crate::format::spec_meta_of;
use crate::format::spec_metas_of;
use crate::format::spec_offset_of;
use crate::format::spec_block_seg;
use crate::format::spec_region_bits;
use crate::format::spec_region_bits_upto;
use crate::format::spec_footer_bytes;
use crate::format::spec_open_footer;
use crate::format::spec_widths_ok;
use crate::format::seq_min;
use crate::format::seq_max;
use crate::format::vals_bits;
use crate::format::lemma_seq_min_max;
use crate::format::lemma_vals_bits_len;
use crate::format::lemma_metas_bytes_len;
use crate::format::lemma_parse_footer_inverts;
use crate::pack::lemma_num_bits;
use crate::serializer::spec_stats_ok;
use crate::serializer::spec_encoded;
use crate::reader::block_slot_val;
use crate::reader::FORFastFieldReader;

/// The footer an encode of `data` under `stats` records.
pub open spec fn spec_footer_model(stats: FastFieldStats, data: Seq<u64>) -> FooterModel {
    FooterModel {
        num_vals: stats.num_vals,
        min_value: stats.min_value,
        max_value: stats.max_value,
        metas: spec_metas_of(data),
    }
}

/// A column an encoder accepts: consistent statistics and a block count
/// whose footer length fits the 32-bit trailer.
pub open spec fn spec_encodable(stats: FastFieldStats, data: Seq<u64>) -> bool {
    &&& spec_stats_ok(stats, data)
    &&& 28 + 9 * spec_num_blocks(data.len()) <= u32::MAX
}

/// Every block before the last holds exactly 128 values.
proof fn lemma_block_shape(data: Seq<u64>, b: nat)
    requires
        b < spec_num_blocks(data.len()),
    ensures
        spec_block_of(data, b).len() > 0,
        128 * b + spec_block_of(data, b).len() <= data.len(),
        b + 1 < spec_num_blocks(data.len()) ==> spec_block_of(data, b).len() == 128,
{
    let n = data.len() as int;
    lemma_fundamental_div_mod(n + 127, 128);
    assert(128 * b < n) by (nonlinear_arith)
        requires
            b < (n + 127) / 128,
            128 * ((n + 127) / 128) <= n + 127,
            0 <= b,
    ;
    if b + 1 < spec_num_blocks(data.len()) {
        assert(128 * (b + 1) < n) by (nonlinear_arith)
            requires
                b + 1 < (n + 127) / 128,
                128 * ((n + 127) / 128) <= n + 127,
                0 <= b,
        ;
    }
}

/// A full block's padded segment holds exactly `128 * num_bits` bits, and
/// any block's segment length is a multiple of eight.
proof fn lemma_seg_len(data: Seq<u64>, b: nat)
    requires
        b < spec_num_blocks(data.len()),
    ensures
        spec_block_seg(data, b).len() % 8 == 0,
        b + 1 < spec_num_blocks(data.len()) ==> spec_block_seg(data, b).len() == 128
            * spec_metas_of(data)[b as int].num_bits,
{
    let vals = spec_block_of(data, b);
    let m = spec_meta_of(vals);
    let nb = m.num_bits as nat;
    lemma_block_shape(data, b);
    lemma_vals_bits_len(vals, m.min, nb);
    let body = vals_bits(vals, m.min, nb);
    assert(body.len() == vals.len() * nb);
    lemma_fundamental_div_mod(body.len() as int, 8);
    assert(spec_block_seg(data, b).len() == body.len() + pad_to_byte(body.len()));
    assert((body.len() + pad_to_byte(body.len())) % 8 == 0) by {
        let rm = body.len() % 8;
        if rm == 0 {
        } else {
            lemma_mod_multiples_vanish(
                body.len() as int / 8,
                (body.len() + pad_to_byte(body.len())) as int - 8 * (body.len() as int / 8),
                8,
            );
        }
    }
    if b + 1 < spec_num_blocks(data.len()) {
        assert(vals.len() == 128);
        assert(body.len() == 128 * nb) by (nonlinear_arith)
            requires
                body.len() == vals.len() * nb,
                vals.len() == 128,
        ;
        assert((128 * nb) % 8 == 0) by {
            assert(128 * nb == (16 * nb) * 8) by (nonlinear_arith);
            lemma_mod_multiples_basic(16 * nb as int, 8);
        }
        assert(pad_to_byte(body.len()) == 0);
    }
}

/// The byte offsets the decoder computes agree with where each block's
/// segment actually starts in the region's bit stream.
proof fn lemma_upto_len(data: Seq<u64>, b: nat)
    requires
        b < spec_num_blocks(data.len()),
    ensures
        spec_region_bits_upto(data, b).len() == 8 * spec_offset_of(spec_metas_of(data), b),
    decreases b,
{
    if b > 0 {
        lemma_upto_len(data, (b - 1) as nat);
        lemma_seg_len(data, (b - 1) as nat);
        assert(spec_region_bits_upto(data, b) == spec_region_bits_upto(data, (b - 1) as nat)
            + spec_block_seg(data, (b - 1) as nat));
        let nb = spec_metas_of(data)[b - 1].num_bits;
        assert(128 * nb == 8 * (nb * 16)) by (nonlinear_arith);
    }
}

/// Block `b`'s segment sits unchanged inside the bits of any longer prefix
/// of the region.
proof fn lemma_upto_decompose(data: Seq<u64>, b: nat, cap: nat)
    requires
        b < cap,
        cap <= spec_num_blocks(data.len()),
    ensures
        spec_region_bits_upto(data, b).len() + spec_block_seg(data, b).len()
            <= spec_region_bits_upto(data, cap).len(),
        forall|t: int|
            0 <= t < spec_block_seg(data, b).len() ==> spec_region_bits_upto(data, cap)[
                spec_region_bits_upto(data, b).len() + t] == spec_block_seg(data, b)[t],
    decreases cap,
{
    if cap == b + 1 {
        assert(spec_region_bits_upto(data, cap) == spec_region_bits_upto(data, b)
            + spec_block_seg(data, b));
    } else {
        lemma_upto_decompose(data, b, (cap - 1) as nat);
        assert(spec_region_bits_upto(data, cap) == spec_region_bits_upto(data, (cap - 1) as nat)
            + spec_block_seg(data, (cap - 1) as nat));
    }
}

/// Slot `pos` of a packed block holds exactly the bits of that value's
/// offset from the block minimum.
proof fn lemma_vals_bits_index(vals: Seq<u64>, min: u64, nb: nat, pos: int)
    requires
        0 <= pos < vals.len(),
    ensures
        forall|r: int|
            0 <= r < nb ==> vals_bits(vals, min, nb)[pos * nb + r] == #[trigger] nat_bits(
                (vals[pos] - min) as nat,
                nb,
            )[r],
    decreases vals.len(),
{
    lemma_vals_bits_len(vals, min, nb);
    lemma_vals_bits_len(vals.drop_last(), min, nb);
    if pos == vals.len() - 1 {
        assert(vals_bits(vals, min, nb) == vals_bits(vals.drop_last(), min, nb) + nat_bits(
            (vals.last() - min) as nat,
            nb,
        ));
        assert(vals.drop_last().len() * nb == pos * nb);
    } else {
        lemma_vals_bits_index(vals.drop_last(), min, nb, pos);
        assert(vals.drop_last()[pos] == vals[pos]);
        assert forall|r: int| 0 <= r < nb implies vals_bits(vals, min, nb)[pos * nb + r]
            == #[trigger] nat_bits((vals[pos] - min) as nat, nb)[r] by {
            assert(pos * nb + r < vals.drop_last().len() * nb) by (nonlinear_arith)
                requires
                    0 <= r < nb,
                    0 <= pos < vals.drop_last().len(),
            ;
            assert(vals_bits(vals, min, nb)[pos * nb + r] == vals_bits(
                vals.drop_last(),
                min,
                nb,
            )[pos * nb + r]);
        }
    }
}

/// The footer describes itself: the four trailing bytes of an encoded
/// buffer give exactly the footer region's length, and that region parses
/// back to the footer of the encode.
pub proof fn lemma_footer_self_description(stats: FastFieldStats, data: Seq<u64>, bytes: Seq<u8>)
    requires
        spec_encodable(stats, data),
        spec_encoded(stats, data, bytes),
    ensures
        bytes.len() >= 4,
        FORFastFieldReader::spec_trailer_len(bytes) == 28 + 9 * spec_num_blocks(data.len()),
        FORFastFieldReader::spec_trailer_len(bytes) + 4 <= bytes.len(),
        bytes.subrange(
            bytes.len() - 4 - FORFastFieldReader::spec_trailer_len(bytes),
            bytes.len() - 4,
        ) == spec_footer_bytes(stats.num_vals, stats.min_value, stats.max_value, spec_metas_of(data)),
        spec_open_footer(bytes) == Some(spec_footer_model(stats, data)),
{
    let ms = spec_metas_of(data);
    let fb = spec_footer_bytes(stats.num_vals, stats.min_value, stats.max_value, ms);
    let region = spec_region_bits(data);
    let dlen = region.len() / 8;
    lemma_metas_bytes_len(ms);
    vstd::bytes::lemma_auto_spec_u64_to_from_le_bytes();
    lemma_auto_spec_u32_to_from_le_bytes();
    assert(ms.len() == spec_num_blocks(data.len()));
    assert(fb.len() == 28 + 9 * ms.len());
    let flen = (28 + 9 * ms.len()) as u32;
    assert(bytes.subrange(bytes.len() - 4, bytes.len() as int) == vstd::bytes::spec_u32_to_le_bytes(
        flen,
    ));
    assert(vstd::bytes::spec_u32_to_le_bytes(flen).len() == 4);
    assert(vstd::bytes::spec_u32_from_le_bytes(vstd::bytes::spec_u32_to_le_bytes(flen)) == flen);
    assert(FORFastFieldReader::spec_trailer_len(bytes) == flen as nat);
    assert(bytes.subrange(bytes.len() - 4 - flen as nat, bytes.len() - 4) =~= bytes.subrange(
        dlen as int,
        (dlen + fb.len()) as int,
    ));
    lemma_parse_footer_inverts(stats.num_vals, stats.min_value, stats.max_value, ms);
    assert(spec_widths_ok(ms)) by {
        assert forall|i: int| 0 <= i < ms.len() implies ms[i].num_bits <= 56 || ms[i].num_bits
            == 64 by {
            let vals = spec_block_of(data, i as nat);
            let amp = (seq_max(vals) - seq_min(vals)) as u64;
            lemma_num_bits(amp);
            assert(ms[i] == spec_meta_of(vals));
        }
    }
}

/// Round trip: reading any index of an encoded buffer through the block
/// geometry the footer describes returns exactly the value that was
/// encoded, and the read stays inside the buffer.
pub proof fn lemma_round_trip(stats: FastFieldStats, data: Seq<u64>, bytes: Seq<u8>, idx: u64)
    requires
        spec_encodable(stats, data),
        spec_encoded(stats, data, bytes),
        idx < data.len(),
    ensures
        spec_open_footer(bytes) == Some(spec_footer_model(stats, data)),
        ({
            let ms = spec_metas_of(data);
            let b = idx as int / 128;
            let m = ms[b];
            let start = spec_offset_of(ms, b as nat);
            let pos = idx as nat % 128;
            &&& 0 <= b < ms.len()
            &&& start + (pos * m.num_bits as nat) / 8 <= bytes.len()
            &&& m.min + block_slot_val(m, start, bytes, pos) == data[idx as int]
        }),
{
    lemma_footer_self_description(stats, data, bytes);
    let ms = spec_metas_of(data);
    let b = (idx as nat) / 128;
    let pos = idx as nat % 128;
    lemma_fundamental_div_mod(idx as int, 128);
    assert(b < spec_num_blocks(data.len())) by {
        lemma_fundamental_div_mod(data.len() as int + 127, 128);
        assert(idx as int / 128 < (data.len() as int + 127) / 128) by (nonlinear_arith)
            requires
                0 <= idx < data.len(),
                idx as int / 128 * 128 + idx as int % 128 == idx as int,
                0 <= idx as int % 128 < 128,
                ((data.len() as int + 127) / 128) * 128 + (data.len() as int + 127) % 128
                    == data.len() as int + 127,
                0 <= (data.len() as int + 127) % 128 < 128,
        ;
    }
    lemma_block_shape(data, b);
    let vals = spec_block_of(data, b);
    let m = spec_meta_of(vals);
    assert(ms[b as int] == m);
    let nb = m.num_bits as nat;
    let amp = (seq_max(vals) - seq_min(vals)) as u64;
    lemma_num_bits(amp);
    lemma_seq_min_max(vals);
    // The value and its packed offset.
    assert(pos < vals.len()) by {
        assert(128 * b + vals.len() <= data.len());
        assert(idx as int == 128 * b + pos);
    }
    let v = vals[pos as int];
    assert(v == data[idx as int]);
    let d = (v - m.min) as nat;
    assert(d < pow2(nb)) by {
        assert(m.min <= v && v <= seq_max(vals));
    }
    // Where the slot lives in the region's bit stream.
    lemma_upto_len(data, b);
    lemma_upto_decompose(data, b, spec_num_blocks(data.len()));
    let start = spec_offset_of(ms, b as nat);
    let seg_base = spec_region_bits_upto(data, b).len();
    let off = 8 * start + pos * nb;
    let body = vals_bits(vals, m.min, nb);
    lemma_vals_bits_len(vals, m.min, nb);
    lemma_vals_bits_index(vals, m.min, nb, pos as int);
    assert((pos + 1) * nb <= vals.len() * nb) by (nonlinear_arith)
        requires
            0 <= pos < vals.len(),
            0 <= nb,
    ;
    let region = spec_region_bits(data);
    let dlen = region.len() / 8;
    assert(8 * dlen == region.len()) by {
        lemma_fundamental_div_mod(region.len() as int, 8);
        lemma_region_mult_of_8(data, spec_num_blocks(data.len()));
    }
    // Each bit of the slot window is the matching bit of the value.
    assert forall|r: int| 0 <= r < nb implies stream_bit(bytes, (off + r) as nat) == nat_bits(
        d,
        nb,
    )[r] by {
        assert(pos * nb + r < body.len()) by (nonlinear_arith)
            requires
                0 <= r < nb,
                0 <= pos,
                (pos + 1) * nb <= body.len(),
        ;
        assert(spec_block_seg(data, b)[pos * nb + r] == body[pos * nb + r]);
        assert(region[seg_base + (pos * nb + r)] == spec_block_seg(data, b)[pos * nb + r]);
        assert(seg_base + (pos * nb + r) == off + r);
        assert(off + r < region.len());
        lemma_stream_bit_prefix(bytes, dlen as int, (off + r) as nat);
        assert(bits_of(bytes.subrange(0, dlen as int))[off + r] == region[off + r]);
        assert(stream_bit(bytes, (off + r) as nat) == stream_bit(
            bytes.subrange(0, dlen as int),
            (off + r) as nat,
        ));
    }
    // The window is not cut: the chosen widths keep every slot inside one
    // aligned 8-byte window.
    assert(eff_width(nb, off) == nb) by {
        assert(off % 8 == (pos * nb) % 8) by {
            lemma_mod_multiples_vanish(start as int, (pos * nb) as int, 8);
        }
        if m.num_bits == 64 {
            assert((pos * 64) % 8 == 0) by {
                assert(pos * 64 == (pos * 8) * 8) by (nonlinear_arith);
                lemma_mod_multiples_basic((pos * 8) as int, 8);
            }
        } else {
            assert(nb <= 56);
            assert((pos * nb) % 8 < 8);
        }
    }
    assert(read_bits(bytes, off as nat, nb) =~= nat_bits(d, nb));
    lemma_read_back(bytes, off as nat, nb, d);
    assert(block_slot_val(m, start, bytes, pos) == d);
    // The read stays inside the buffer.
    assert(off + nb <= region.len()) by {
        assert(seg_base + body.len() <= region.len());
        assert(pos * nb + nb <= body.len()) by (nonlinear_arith)
            requires
                0 <= pos,
                (pos + 1) * nb <= body.len(),
        ;
    }
    assert(start + (pos * nb) / 8 <= bytes.len()) by {
        lemma_fundamental_div_mod((pos * nb) as int, 8);
        assert(dlen <= bytes.len());
    }
}

/// Round trip through a decoder: any reader whose state matches the footer
/// of an encode — as `open_from_bytes` guarantees of its result — can read
/// every index of the encoded buffer, and gets back exactly the value that
/// was encoded.
pub proof fn lemma_reader_round_trip(
    stats: FastFieldStats,
    data: Seq<u64>,
    bytes: Seq<u8>,
    rd: FORFastFieldReader,
    idx: u64,
)
    requires
        spec_encodable(stats, data),
        spec_encoded(stats, data, bytes),
        idx < data.len(),
        rd.wf(),
        rd.num_vals == spec_footer_model(stats, data).num_vals,
        rd.block_readers@.len() == spec_metas_of(data).len(),
        forall|b: int|
            0 <= b < spec_metas_of(data).len() ==> #[trigger] rd.block_readers@[b].metadata
                == spec_metas_of(data)[b] && rd.block_readers@[b].start_offset as nat
                == spec_offset_of(spec_metas_of(data), b as nat),
    ensures
        rd.can_get(bytes, idx),
        rd.spec_get(bytes, idx) == data[idx as int],
{
    lemma_round_trip(stats, data, bytes, idx);
    lemma_fundamental_div_mod(idx as int, 128);
    let ms = spec_metas_of(data);
    let b = idx as int / 128;
    assert(rd.block_readers@[b].metadata == ms[b]);
    assert(rd.block_readers@[b].start_offset as nat == spec_offset_of(ms, b as nat));
}

/// Order independence of correctness: a buffer that encodes the reversed
/// column decodes, at each index, to the original column read backwards —
/// the round trip does not depend on the order of the values.
pub proof fn lemma_round_trip_reversed(
    stats: FastFieldStats,
    data: Seq<u64>,
    bytes: Seq<u8>,
    idx: u64,
)
    requires
        spec_encodable(stats, data),
        spec_encoded(stats, data.reverse(), bytes),
        idx < data.len(),
    ensures
        spec_open_footer(bytes) == Some(spec_footer_model(stats, data.reverse())),
        ({
            let rev = data.reverse();
            let ms = spec_metas_of(rev);
            let b = idx as int / 128;
            let m = ms[b];
            let start = spec_offset_of(ms, b as nat);
            let pos = idx as nat % 128;
            m.min + block_slot_val(m, start, bytes, pos) == data[data.len() - 1 - idx]
        }),
{
    let rev = data.reverse();
    assert(spec_stats_ok(stats, rev)) by {
        assert forall|i: int| 0 <= i < rev.len() implies stats.min_value <= rev[i] && rev[i]
            <= stats.max_value by {
            assert(rev[i] == data[data.len() - 1 - i]);
        }
    }
    lemma_round_trip(stats, rev, bytes, idx);
    assert(rev[idx as int] == data[data.len() - 1 - idx]);
}

proof fn lemma_const_min_max(s: Seq<u64>)
    requires
        s.len() > 0,
        forall|i: int| 0 <= i < s.len() ==> #[trigger] s[i] == s[0],
    ensures
        seq_min(s) == s[0],
        seq_max(s) == s[0],
    decreases s.len(),
{
    if s.len() > 1 {
        lemma_const_min_max(s.drop_last());
        assert(s.drop_last()[0] == s[0]);
    }
}

/// Degenerate blocks: a column whose values are all equal is encoded with a
/// bit width of zero in every block — each block stores only its reference
/// value, and the round trip above still holds.
pub proof fn lemma_constant_column(data: Seq<u64>)
    requires
        data.len() > 0,
        forall|i: int| 0 <= i < data.len() ==> #[trigger] data[i] == data[0],
    ensures
        forall|b: int|
            0 <= b < spec_metas_of(data).len() ==> #[trigger] spec_metas_of(data)[b].num_bits == 0,
{
    assert forall|b: int| 0 <= b < spec_metas_of(data).len() implies #[trigger] spec_metas_of(
        data,
    )[b].num_bits == 0 by {
        let vals = spec_block_of(data, b as nat);
        lemma_block_shape(data, b as nat);
        assert(forall|i: int| 0 <= i < vals.len() ==> #[trigger] vals[i] == data[128 * b + i]);
        assert(vals[0] == data[128 * b]);
        assert forall|i: int| 0 <= i < vals.len() implies #[trigger] vals[i] == vals[0] by {
            assert(data[128 * b + i] == data[0]);
            assert(data[128 * b] == data[0]);
        }
        lemma_const_min_max(vals);
        lemma_num_bits(0);
        assert(spec_metas_of(data)[b] == spec_meta_of(vals));
    }
}

/// The bits of a data region always fill whole bytes.
proof fn lemma_region_mult_of_8(data: Seq<u64>, b: nat)
    requires
        b <= spec_num_blocks(data.len()),
    ensures
        spec_region_bits_upto(data, b).len() % 8 == 0,
    decreases b,
{
    if b > 0 {
        lemma_region_mult_of_8(data, (b - 1) as nat);
        lemma_seg_len(data, (b - 1) as nat);
        let x = spec_region_bits_upto(data, (b - 1) as nat).len();
        let y = spec_block_seg(data, (b - 1) as nat).len();
        vstd::arithmetic::div_mod::lemma_add_mod_noop(x as int, y as int, 8);
    }
}

} // verus!
