use tether::memory_budget::MemoryBudget;
use tether::stream::block_reader::BlockReader;
use tether::entropy::AdaptiveTable;
use tether::{compress_i64, decompress, decompress_f64_bits, decompress_i64, PredictorMode,
    StreamDataType};

fn header(data_type: u8, rem: u8) -> Vec<u8> {
    vec![84, 84, 72, 49, 2, data_type, rem]
}

#[test]
fn test_decompress_header_errors() {
    assert_eq!(decompress(&[84, 84, 72, 49, 2, 1]), Err("Payload too short for Tether header"));
    assert_eq!(decompress(&[84, 84, 72, 50, 2, 1, 0]), Err("Invalid Tether magic bytes"));
    assert_eq!(decompress(&header(3, 0)), Err("Unknown stream data type"));
    assert_eq!(decompress(&header(0, 0)), Ok(vec![]));
    assert_eq!(decompress_i64(&[1, 2]), Err("Payload too short for Tether header"));
    assert_eq!(decompress_f64_bits(&[0; 7]), Err("Invalid Tether magic bytes"));
}

#[test]
fn test_decompress_block_errors() {
    let mut c = header(1, 0);
    c.push(9);
    assert_eq!(decompress(&c), Err("Unknown predictor mode"));

    let mut c = header(1, 0);
    c.extend_from_slice(&[0, 1]);
    assert_eq!(decompress(&c), Err("Truncated raw block header"));

    let mut c = header(1, 0);
    c.extend_from_slice(&[0, 2, 0, 1, 2, 3]);
    assert_eq!(decompress(&c), Err("Truncated raw block payload"));

    let mut c = header(1, 0);
    c.extend_from_slice(&[1, 4, 0, 4, 0]);
    assert_eq!(decompress(&c), Err("Truncated delta block header"));

    let mut c = header(1, 0);
    c.extend_from_slice(&[1, 4, 0, 5, 0, 0, 0, 4, 0]);
    c.extend_from_slice(&[0; 8]);
    c.extend_from_slice(&[0; 4]);
    assert_eq!(decompress(&c), Err("Decoded residual count does not match block sample count"));

    let mut c = header(1, 0);
    c.extend_from_slice(&[1, 4, 0, 4, 0, 0, 0, 3, 0]);
    c.extend_from_slice(&[0; 8]);
    c.extend_from_slice(&[0; 3]);
    assert_eq!(decompress(&c), Err("Payload too short for rANS state"));

    let mut c = header(1, 0);
    c.extend_from_slice(&[3, 4, 0, 4, 0, 0, 0, 4, 0]);
    c.extend_from_slice(&[0; 8]);
    assert_eq!(decompress(&c), Err("Truncated adaptive FIR block header"));

    let mut c = header(1, 0);
    c.extend_from_slice(&[2, 4, 0, 4, 0, 0, 0, 9, 0]);
    c.extend_from_slice(&[0; 8]);
    assert_eq!(decompress(&c), Err("Truncated XOR block payloads"));
}

#[test]
fn test_read_block_error_offsets() {
    // A truncated raw payload is found after the mode byte and the count.
    let mut c = header(1, 0);
    c.extend_from_slice(&[0, 2, 0, 1, 2, 3]);
    let mut offset = 7usize;
    let mut table = AdaptiveTable::new_skewed();
    let mut out = vec![11u64];
    let r = BlockReader::read_block_u64(&c, &mut offset, &mut table, &mut out);
    assert_eq!(r, Err("Truncated raw block payload"));
    assert_eq!(offset, 10);
    assert_eq!(out, vec![11]);

    // An unknown mode is found after its byte.
    let mut offset = 0usize;
    let r = BlockReader::read_block_u64(&[42, 0, 0], &mut offset, &mut table, &mut out);
    assert_eq!(r, Err("Unknown predictor mode"));
    assert_eq!(offset, 1);

    // A residual count that does not match is found after the whole block,
    // once its symbols were observed.
    let mut c = vec![1, 4, 0, 5, 0, 0, 0, 4, 0];
    c.extend_from_slice(&[0; 8]);
    c.extend_from_slice(&[0; 4]);
    let mut offset = 0usize;
    let mut table = AdaptiveTable::new_skewed();
    let fresh = AdaptiveTable::new_skewed();
    let r = BlockReader::read_block_u64(&c, &mut offset, &mut table, &mut out);
    assert_eq!(r, Err("Decoded residual count does not match block sample count"));
    assert_eq!(offset, c.len());
    assert_eq!(table.total_raw, fresh.total_raw + 5);
    assert_eq!(out, vec![11]);
    let mut end = c.len();
    assert_eq!(BlockReader::read_block_u64(&c, &mut end, &mut table, &mut out), Ok(false));
}

#[test]
fn test_constant_and_repeat_blocks_read() {
    // A constant block: [4][count][value].
    let mut c = header(1, 0);
    c.extend_from_slice(&[4, 3, 0]);
    c.extend_from_slice(&(-5i64).to_le_bytes());
    assert_eq!(decompress_i64(&c), Ok(vec![-5, -5, -5]));

    // A linear ramp: [6][count][start][delta].
    let mut c = header(1, 0);
    c.extend_from_slice(&[6, 4, 0]);
    c.extend_from_slice(&10i64.to_le_bytes());
    c.extend_from_slice(&3i64.to_le_bytes());
    assert_eq!(decompress_i64(&c), Ok(vec![10, 13, 16, 19]));

    // A repeat of history: [7][count][distance].
    let mut c = header(1, 0);
    c.extend_from_slice(&[4, 1, 0]);
    c.extend_from_slice(&1i64.to_le_bytes());
    c.extend_from_slice(&[4, 1, 0]);
    c.extend_from_slice(&2i64.to_le_bytes());
    c.extend_from_slice(&[7, 5, 0, 2, 0]);
    assert_eq!(decompress_i64(&c), Ok(vec![1, 2, 1, 2, 1, 2, 1]));

    let mut c = header(1, 0);
    c.extend_from_slice(&[7, 5, 0, 1, 0]);
    assert_eq!(decompress_i64(&c), Err("Invalid history repeat distance"));
}

#[test]
fn test_trailing_bytes_kept() {
    let mut c = header(0, 3);
    c.extend_from_slice(&[7, 8, 9]);
    assert_eq!(decompress(&c), Ok(vec![7, 8, 9]));
}

#[test]
fn test_truncations_never_panic() {
    let data: Vec<i64> = (0..700).map(|i| (i * i) as i64).collect();
    let comp = compress_i64(&data, MemoryBudget::micro_4kb());
    for n in 0..comp.len() {
        let _ = decompress_i64(&comp[..n]);
    }
    assert_eq!(decompress_i64(&comp).unwrap(), data);
}

#[test]
fn test_mode_and_type_codes() {
    assert_eq!(PredictorMode::from_u8(0), Some(PredictorMode::Raw));
    assert_eq!(PredictorMode::from_u8(3), Some(PredictorMode::AdaptiveLinear));
    assert_eq!(PredictorMode::from_u8(8), Some(PredictorMode::DecimalFloat));
    assert_eq!(PredictorMode::from_u8(9), None);
    assert_eq!(StreamDataType::from_u8(2), Some(StreamDataType::F64));
    assert_eq!(StreamDataType::from_u8(3), None);
}

#[test]
fn test_decimal_float_blocks() {
    let mut c = header(2, 0);
    c.extend_from_slice(&[8, 0, 1, 0]);
    assert_eq!(decompress_f64_bits(&c), Err("Truncated decimal float block header"));

    let mut base = header(2, 0);
    base.push(8);
    base.push(9);
    base.extend_from_slice(&[1, 0, 1, 0, 0, 0, 4, 0]);
    base.extend_from_slice(&[0; 8]);
    let mut c = base.clone();
    c.extend_from_slice(&[0; 3]);
    assert_eq!(decompress_f64_bits(&c), Err("Truncated decimal float block payloads"));
    let mut c = base.clone();
    c.extend_from_slice(&[0; 4]);
    assert_eq!(decompress_f64_bits(&c), Err("Invalid decimal float scale code"));
    c[8] = 2;
    assert_eq!(decompress_f64_bits(&c), Err("Decimal float blocks need floating-point conversion"));
}

#[test]
fn test_short_block_headers() {
    let cases: [(u8, &str); 7] = [
        (4, "Truncated constant block header"),
        (5, "Truncated delta-of-delta block header"),
        (6, "Truncated linear ramp block header"),
        (7, "Truncated repeat history block header"),
        (1, "Truncated delta block header"),
        (2, "Truncated XOR block header"),
        (3, "Truncated adaptive FIR block header"),
    ];
    for (mode, msg) in cases {
        let mut c = header(1, 0);
        c.extend_from_slice(&[mode, 1, 0]);
        assert_eq!(decompress(&c), Err(msg), "mode {}", mode);
    }
    let payload_cases: [(u8, usize, &str); 3] = [
        (1, 8, "Truncated delta block payloads"),
        (5, 16, "Truncated delta-of-delta block payloads"),
        (3, 24, "Truncated adaptive FIR block payloads"),
    ];
    for (mode, seed, msg) in payload_cases {
        let mut c = header(1, 0);
        c.extend_from_slice(&[mode, 1, 0, 1, 0, 0, 0, 4, 0]);
        c.extend(std::iter::repeat(0u8).take(seed + 3));
        assert_eq!(decompress(&c), Err(msg), "mode {}", mode);
    }
}

#[test]
fn test_read_decimal_block_values() {
    let values: Vec<i64> = vec![2150, 2151, 2151, 2151, 2149, 2160];
    let mut symbols = Vec::new();
    let mut writer = tether::stream::bitstream::BitWriter::new();
    tether::predictor::delta_xor::encode_delta_i64_block(&values, 2150, &mut symbols, &mut writer);
    let extra = writer.finish();
    let enc_table = AdaptiveTable::new_skewed();
    let mut rans = tether::entropy::RansEncoder::new();
    rans.encode_block(&symbols, &enc_table);
    let payload = rans.finish();
    let mut block = vec![8u8, 2];
    block.extend_from_slice(&(values.len() as u16).to_le_bytes());
    block.extend_from_slice(&(symbols.len() as u16).to_le_bytes());
    block.extend_from_slice(&(extra.len() as u16).to_le_bytes());
    block.extend_from_slice(&(payload.len() as u16).to_le_bytes());
    block.extend_from_slice(&2150i64.to_le_bytes());
    block.extend_from_slice(&extra);
    block.extend_from_slice(&payload);

    let mut table = AdaptiveTable::new_skewed();
    let mut offset = 0;
    let mut out = Vec::new();
    assert_eq!(BlockReader::read_decimal_block(&block, &mut offset, &mut table, &mut out), Ok(2));
    assert_eq!(out, values);
    assert_eq!(offset, block.len());

    let mut table = AdaptiveTable::new_skewed();
    let mut offset = 0;
    let mut words = Vec::new();
    assert_eq!(
        BlockReader::read_block_u64(&block, &mut offset, &mut table, &mut words),
        Err("Decimal float blocks need floating-point conversion")
    );
    assert_eq!(offset, block.len());
    assert!(words.is_empty());
}
