//! End-to-end tests of the codec: encode real columns, reopen the buffer,
//! and read every index back.

use for_codec::format::FORFooter;
use for_codec::format::FastFieldStats;
use for_codec::format::FormatError;
use for_codec::reader::FORFastFieldReader;
use for_codec::serializer::FORFastFieldSerializer;

fn stats_from(data: &[u64]) -> FastFieldStats {
    let mut min_value = u64::MAX;
    let mut max_value = 0u64;
    for &v in data {
        if v < min_value {
            min_value = v;
        }
        if v > max_value {
            max_value = v;
        }
    }
    if data.is_empty() {
        min_value = 0;
    }
    FastFieldStats { num_vals: data.len() as u64, min_value, max_value }
}

fn create_and_validate(data: &[u64], name: &str) -> (f32, f32) {
    let stats = stats_from(data);
    if !FORFastFieldSerializer::is_applicable(stats) {
        return (f32::MAX, 0.0);
    }
    let sample: Vec<u64> = data[..data.len().min(128)].to_vec();
    let (estimated_bits, uncompressed_bits) =
        FORFastFieldSerializer::estimate_compression_ratio(stats, &sample);
    let estimation = estimated_bits as f32 / uncompressed_bits as f32;
    let owned: Vec<u64> = data.to_vec();
    let out = FORFastFieldSerializer::serialize(stats, &owned);
    let actual_compression = out.len() as f32 / (data.len() as f32 * 8.0);
    let reader = FORFastFieldReader::open_from_bytes(&out).unwrap();
    for (doc, orig_val) in data.iter().enumerate() {
        let val = reader.get_u64(doc as u64, &out);
        assert_eq!(
            val, *orig_val,
            "inconsistent value at doc id {} for codec test {}",
            doc, name
        );
    }
    (estimation, actual_compression)
}

#[test]
fn test_compression() {
    let data = (10..=6_000_u64).collect::<Vec<_>>();
    let (estimate, actual_compression) = create_and_validate(&data, "simple monotonically large");
    println!("{}", actual_compression);
    assert!(actual_compression < 0.2);
    assert!(actual_compression > 0.006);
    assert!(estimate < 0.20);
}

#[test]
fn test_with_codec_data_sets() {
    let mut data_sets: Vec<(Vec<u64>, &str)> = Vec::new();
    data_sets.push(((10..=20_u64).collect(), "simple monotonically increasing"));
    data_sets.push((vec![5, 6, 7, 8, 9, 10, 99, 100], "offset values"));
    data_sets.push((vec![5, 50, 3, 13, 1, 1000, 35], "rand small"));
    data_sets.push((vec![10], "single value"));
    data_sets.push((
        (0..500).map(|i| if i % 3 == 0 { 40 } else { i }).collect(),
        "mixed repeated and increasing",
    ));
    data_sets.push((
        (0..300).map(|i| i * i).collect(),
        "quadratically increasing",
    ));
    let mut extremes = Vec::new();
    for i in 0..300u64 {
        extremes.push(if i % 2 == 0 { u64::MAX - i } else { i });
    }
    data_sets.push((extremes, "extremes"));
    for (mut data, name) in data_sets {
        create_and_validate(&data, name);
        data.reverse();
        create_and_validate(&data, name);
    }
}

#[test]
fn test_simple() {
    let data = (10..=20_u64).collect::<Vec<_>>();
    create_and_validate(&data, "simple monotonically");
}

#[test]
fn border_cases_1() {
    let data = (0..1024).collect::<Vec<_>>();
    create_and_validate(&data, "border case");
}

#[test]
fn border_case_2() {
    let data = (0..1025).collect::<Vec<_>>();
    create_and_validate(&data, "border case");
}

#[test]
fn rand() {
    for _ in 0..10 {
        let mut data = (5_000..20_000)
            .map(|_| rand::random::<u32>() as u64)
            .collect::<Vec<_>>();
        let (estimate, actual_compression) = create_and_validate(&data, "random");
        println!("estimate {} actual {}", estimate, actual_compression);

        data.reverse();
        create_and_validate(&data, "random");
    }
}

#[test]
fn degenerate_blocks_use_zero_bits() {
    // 200 equal values: two blocks, both with num_bits = 0, so the data
    // region is empty and the buffer is footer plus trailer alone:
    // 28 + 9 * 2 footer bytes and the 4-byte trailer.
    let data = vec![42u64; 200];
    create_and_validate(&data, "all equal");
    let out = FORFastFieldSerializer::serialize(stats_from(&data), &data);
    assert_eq!(out.len(), 28 + 9 * 2 + 4);
}

#[test]
fn footer_describes_itself() {
    let data = (10..=600_u64).collect::<Vec<_>>();
    let out = FORFastFieldSerializer::serialize(stats_from(&data), &data);
    let trailer: [u8; 4] = out[out.len() - 4..].try_into().unwrap();
    let footer_len = u32::from_le_bytes(trailer) as usize;
    // 591 values make 5 blocks; the footer holds 28 fixed bytes plus 9 per
    // block.
    assert_eq!(footer_len, 28 + 9 * 5);
    let region = &out[out.len() - 4 - footer_len..out.len() - 4];
    let footer: FORFooter = FORFooter::deserialize(region).unwrap();
    assert_eq!(footer.num_vals, 591);
    assert_eq!(footer.min_value, 10);
    assert_eq!(footer.max_value, 600);
    assert_eq!(footer.block_metadatas.len(), 5);
    assert_eq!(footer.block_metadatas[0].min, 10);
}

#[test]
fn open_rejects_short_buffer() {
    assert_eq!(
        FORFastFieldReader::open_from_bytes(&[]).err().unwrap(),
        FormatError::Truncated
    );
    assert_eq!(
        FORFastFieldReader::open_from_bytes(&[1, 2, 3]).err().unwrap(),
        FormatError::Truncated
    );
}

#[test]
fn open_rejects_overlong_footer_length() {
    // The trailer claims a footer longer than the whole buffer.
    let bytes = [0xffu8, 0xff, 0xff, 0xff];
    assert_eq!(
        FORFastFieldReader::open_from_bytes(&bytes).err().unwrap(),
        FormatError::FooterOutOfBounds
    );
}

#[test]
fn open_rejects_short_footer_region() {
    // The trailer points at a 10-byte footer region, too short for the
    // footer's own fixed fields.
    let mut bytes = vec![0u8; 10];
    bytes.extend_from_slice(&10u32.to_le_bytes());
    assert_eq!(
        FORFastFieldReader::open_from_bytes(&bytes).err().unwrap(),
        FormatError::MalformedFooter
    );
}

#[test]
fn open_rejects_unreadable_bit_width() {
    // A syntactically well-formed footer whose single block claims a bit
    // width of 60, which no unpacker accepts.
    let mut region = Vec::new();
    region.extend_from_slice(&1u64.to_le_bytes()); // num_vals
    region.extend_from_slice(&0u64.to_le_bytes()); // min_value
    region.extend_from_slice(&0u64.to_le_bytes()); // max_value
    region.extend_from_slice(&1u32.to_le_bytes()); // block count
    region.extend_from_slice(&0u64.to_le_bytes()); // block min
    region.push(60); // block num_bits
    let mut bytes = region.clone();
    bytes.extend_from_slice(&(region.len() as u32).to_le_bytes());
    assert_eq!(
        FORFastFieldReader::open_from_bytes(&bytes).err().unwrap(),
        FormatError::MalformedFooter
    );
}

#[test]
fn applicability_threshold() {
    let stats = |num_vals: u64| FastFieldStats { num_vals, min_value: 0, max_value: 1 };
    assert!(!FORFastFieldSerializer::is_applicable(stats(0)));
    assert!(!FORFastFieldSerializer::is_applicable(stats(1)));
    assert!(!FORFastFieldSerializer::is_applicable(stats(128)));
    assert!(FORFastFieldSerializer::is_applicable(stats(129)));
    assert!(FORFastFieldSerializer::is_applicable(stats(1 << 40)));
}

#[test]
fn estimate_exact_value() {
    // 10..=6000: the first block samples 10..=137, so the largest distance
    // is 127; tripled it needs 9 bits.  The estimate charges 9 bits per
    // value plus 9 bytes of metadata for each of the 46 full blocks.
    let data = (10..=6_000_u64).collect::<Vec<_>>();
    let stats = stats_from(&data);
    let sample: Vec<u64> = data[..128].to_vec();
    let (estimated_bits, uncompressed_bits) =
        FORFastFieldSerializer::estimate_compression_ratio(stats, &sample);
    assert_eq!(estimated_bits, 9 * 5991 + 9 * (5991 / 128));
    assert_eq!(uncompressed_bits, 64 * 5991);
}

#[test]
fn reader_reports_global_bounds() {
    let data = (10..=600_u64).collect::<Vec<_>>();
    let out = FORFastFieldSerializer::serialize(stats_from(&data), &data);
    let reader = FORFastFieldReader::open_from_bytes(&out).unwrap();
    assert_eq!(reader.min_value(), 10);
    assert_eq!(reader.max_value(), 600);
}

#[test]
fn full_u64_range_round_trips() {
    // Wide amplitudes force the 64-bit block width; narrow blocks sit next
    // to them.
    let mut data = Vec::new();
    for i in 0..400u64 {
        if i % 2 == 0 {
            data.push(u64::MAX - i);
        } else {
            data.push(i * 7);
        }
    }
    create_and_validate(&data, "full range alternating");
}

#[test]
fn empty_column_serializes_to_bare_footer() {
    // No blocks: the buffer is the 28-byte footer plus the 4-byte trailer,
    // and opening it yields a reader with no values.
    let data: Vec<u64> = Vec::new();
    let out = FORFastFieldSerializer::serialize(stats_from(&data), &data);
    assert_eq!(out.len(), 32);
    let reader = FORFastFieldReader::open_from_bytes(&out).unwrap();
    assert_eq!(reader.min_value(), 0);
    assert_eq!(reader.max_value(), 0);
}
