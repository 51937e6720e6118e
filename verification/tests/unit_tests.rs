use tether::entropy::{AdaptiveTable, RansDecoder, RansEncoder};
use tether::predictor::adaptive_linear::{decode_adaptive_fir_block, encode_adaptive_fir_block,
    AdaptiveLinearPredictor};
use tether::predictor::delta_xor::{classify_residual_u64, decode_delta_i64_block,
    decode_xor_u64_block, encode_delta_i64_block, encode_xor_u64_block, reconstruct_residual_u64,
    zigzag_decode_i32, zigzag_decode_i64, zigzag_encode_i32, zigzag_encode_i64};
use tether::stream::bitstream::{BitReader, BitWriter};

#[test]
fn test_zigzag_values() {
    assert_eq!(zigzag_encode_i64(0), 0);
    assert_eq!(zigzag_encode_i64(-1), 1);
    assert_eq!(zigzag_encode_i64(1), 2);
    assert_eq!(zigzag_encode_i64(i64::MIN), u64::MAX);
    assert_eq!(zigzag_encode_i32(-2), 3);
    assert_eq!(zigzag_encode_i32(i32::MAX), u32::MAX - 1);
    for v in [0i64, 5, -5, i64::MAX, i64::MIN, 123456789] {
        assert_eq!(zigzag_decode_i64(zigzag_encode_i64(v)), v);
    }
    for v in [0i32, 7, -7, i32::MAX, i32::MIN] {
        assert_eq!(zigzag_decode_i32(zigzag_encode_i32(v)), v);
    }
}

#[test]
fn test_classify_and_reconstruct() {
    assert_eq!(classify_residual_u64(5), (5, 0, 0));
    assert_eq!(classify_residual_u64(127), (127, 0, 0));
    assert_eq!(classify_residual_u64(128), (136, 7, 0));
    assert_eq!(classify_residual_u64(300), (137, 8, 44));
    assert_eq!(classify_residual_u64(u64::MAX), (192, 63, u64::MAX >> 1));
    let mut w = BitWriter::new();
    w.write_bits(44, 8);
    let bytes = w.finish();
    assert_eq!(bytes, vec![44]);
    let mut r = BitReader::new(&bytes);
    assert_eq!(reconstruct_residual_u64(137, &mut r), 300);
    let mut r = BitReader::new(&[]);
    assert_eq!(reconstruct_residual_u64(42, &mut r), 42);
    assert_eq!(reconstruct_residual_u64(128, &mut r), 0);
}

#[test]
fn test_bit_writer_reader() {
    let mut w = BitWriter::with_capacity(4);
    w.write_bits(0b101, 3);
    w.write_bits(0xff, 4);
    w.write_bits(0x1234_5678_9abc_def0, 64);
    let bytes = w.finish();
    assert_eq!(bytes.len(), 9);
    assert_eq!(bytes[0], 0b1111_1101 & 0x7f | ((0xf0u8 & 1) << 7));
    let mut r = BitReader::new(&bytes);
    assert_eq!(r.read_bits(3), 0b101);
    assert_eq!(r.read_bits(4), 0xf);
    assert_eq!(r.read_bits(64), 0x1234_5678_9abc_def0);
    assert_eq!(r.read_bits(8), 0);
}

#[test]
fn test_predictor_blocks_roundtrip() {
    let samples: Vec<i64> = vec![5, 9, -3, 1000, 1000, i64::MAX, i64::MIN, 0];
    let mut syms = Vec::new();
    let mut w = BitWriter::new();
    encode_delta_i64_block(&samples, 2, &mut syms, &mut w);
    assert_eq!(&syms[0..3], &[6, 8, 23]);
    let bytes = w.finish();
    let mut r = BitReader::new(&bytes);
    let mut out = vec![77];
    decode_delta_i64_block(&syms, 2, &mut r, &mut out);
    assert_eq!(&out[1..], &samples[..]);

    let words: Vec<u64> = vec![1, 1, 3, u64::MAX, 0];
    let mut syms = Vec::new();
    let mut w = BitWriter::new();
    encode_xor_u64_block(&words, 1, &mut syms, &mut w);
    assert_eq!(&syms[0..2], &[193, 2]);
    let bytes = w.finish();
    let mut r = BitReader::new(&bytes);
    let mut out = Vec::new();
    decode_xor_u64_block(&syms, 1, &mut r, &mut out);
    assert_eq!(out, words);

    let ramp: Vec<i64> = (0..50).map(|i| 7 * i + 3).collect();
    let mut syms = Vec::new();
    let mut w = BitWriter::new();
    let h = encode_adaptive_fir_block(&ramp, [3 - 7, 3 - 14, 3 - 21], &mut syms, &mut w);
    assert_eq!(syms, vec![241]);
    let bytes = w.finish();
    let mut r = BitReader::new(&bytes);
    let mut out = Vec::new();
    let h2 = decode_adaptive_fir_block(&syms, [3 - 7, 3 - 14, 3 - 21], &mut r, &mut out);
    assert_eq!(out, ramp);
    assert_eq!(h, h2);
    assert_eq!(h, [346, 339, 332]);
}

#[test]
fn test_adaptive_linear_predictor_steps() {
    let mut p = AdaptiveLinearPredictor::new([10, 8, 6]);
    assert_eq!(p.predict(), 12);
    p.update(12, 12);
    assert_eq!(p.history, [12, 10, 8]);
    assert_eq!(p.coeffs, [512, -256, 0]);
    p.update(20, 14);
    assert_eq!(p.coeffs, [513, -255, 1]);
    assert_eq!(p.history, [20, 12, 10]);
}

#[test]
fn test_rans_encoder_reset_and_symbols() {
    let table = AdaptiveTable::new_skewed();
    let mut enc = RansEncoder::new();
    enc.encode_block(&[1, 2, 3], &table);
    enc.reset();
    for &s in [9u8, 0, 255].iter().rev() {
        enc.encode_symbol(s, &table);
    }
    let payload = enc.finish();
    let mut dec = RansDecoder::new(&payload).unwrap();
    assert_eq!(dec.decode_symbol(&table), 9);
    assert_eq!(dec.decode_symbol(&table), 0);
    assert_eq!(dec.decode_symbol(&table), 255);
    assert!(RansDecoder::new(&[1, 2, 3]).is_err());
}

#[test]
fn test_table_normalization() {
    let table = AdaptiveTable::new_uniform();
    assert!(table.freq.iter().all(|&f| f == 4));
    assert_eq!(table.cum[256], 1024);
    let mut counts = [0u32; 256];
    counts[3] = 1000;
    let t = AdaptiveTable::from_counts(&counts);
    assert_eq!(t.freq.iter().map(|&f| f as u32).sum::<u32>(), 1024);
    assert_eq!(t.lut[0], 0);
    assert_eq!(t.lut[1023], 255);
    let mut t2 = AdaptiveTable::default();
    for _ in 0..3000 {
        t2.observe(7);
    }
    assert_eq!(t2.freq.iter().map(|&f| f as u32).sum::<u32>(), 1024);
    assert!(t2.freq[7] > 500);
}

#[test]
fn test_delta_block_packs_zero_runs() {
    let mut symbols = Vec::new();
    let mut writer = tether::stream::bitstream::BitWriter::new();
    tether::predictor::delta_xor::encode_delta_i64_block(&[5, 3, 3, 3, 3], 4, &mut symbols, &mut writer);
    assert_eq!(symbols, vec![2, 3, 194]);
    let extra = writer.finish();
    assert!(extra.is_empty());
    let mut reader = tether::stream::bitstream::BitReader::new(&extra);
    let mut out = Vec::new();
    tether::predictor::delta_xor::decode_delta_i64_block(&symbols, 4, &mut reader, &mut out);
    assert_eq!(out, vec![5, 3, 3, 3, 3]);
}

#[test]
fn test_zero_run_of_sixty_four_and_more() {
    let mut packed = Vec::new();
    let units = vec![0u8; 70];
    tether::predictor::zero_run::pack_zero_runs(&units, &mut packed);
    assert_eq!(packed, vec![255, 197]);
    assert_eq!(tether::predictor::zero_run::expand_zero_runs(&packed), units);
    let mut single = Vec::new();
    tether::predictor::zero_run::pack_zero_runs(&[0, 7, 0, 0], &mut single);
    assert_eq!(single, vec![0, 7, 193]);
}

#[test]
fn test_constant_block_is_eleven_bytes() {
    let mut table = tether::AdaptiveTable::new_skewed();
    let mut out = Vec::new();
    let samples = vec![42i64; 100];
    let (last, hist) = tether::BlockWriter::write_auto_i64_block(&samples, 0, [0, 0, 0], &mut table, &mut out);
    let mut expect = vec![4u8];
    expect.extend_from_slice(&100u16.to_le_bytes());
    expect.extend_from_slice(&42i64.to_le_bytes());
    assert_eq!(out, expect);
    assert_eq!(last, 42);
    assert_eq!(hist, [42, 42, 42]);
}

#[test]
fn test_linear_ramp_block_reads_back() {
    let mut table = tether::AdaptiveTable::new_skewed();
    let mut out = Vec::new();
    let samples: Vec<i64> = (0..50).map(|i| -20 + 3 * i).collect();
    tether::BlockWriter::write_auto_i64_block(&samples, 0, [0, 0, 0], &mut table, &mut out);
    assert_eq!(out.len(), 19);
    assert_eq!(out[0], 6);
    let mut dec_table = tether::AdaptiveTable::new_skewed();
    let mut offset = 0;
    let mut words = Vec::new();
    assert_eq!(tether::BlockReader::read_block_u64(&out, &mut offset, &mut dec_table, &mut words), Ok(true));
    let back: Vec<i64> = words.iter().map(|w| *w as i64).collect();
    assert_eq!(back, samples);
}

#[test]
fn test_delta_of_delta_wins_on_accelerating_samples() {
    let samples: Vec<i64> = (0..64).map(|i| (i * i) as i64 * 5).collect();
    let mode = tether::predictor::selector::PredictorSelector::select_block_mode(&samples, 0, [0, 0, 0]);
    assert_eq!(mode, tether::PredictorMode::DeltaOfDelta);
    let mut table = tether::AdaptiveTable::new_skewed();
    let mut out = Vec::new();
    tether::BlockWriter::write_auto_i64_block(&samples, 0, [0, 0, 0], &mut table, &mut out);
    assert_eq!(out[0], 5);
    let mut dec_table = tether::AdaptiveTable::new_skewed();
    let mut offset = 0;
    let mut words = Vec::new();
    assert_eq!(tether::BlockReader::read_block_u64(&out, &mut offset, &mut dec_table, &mut words), Ok(true));
    let back: Vec<i64> = words.iter().map(|w| *w as i64).collect();
    assert_eq!(back, samples);
    assert_eq!(offset, out.len());
}

#[test]
fn test_selector_prefers_fir_at_exactly_five_percent() {
    let mode = tether::predictor::selector::PredictorSelector::select_integer_mode(&[20], 0, [1, 1, 1]);
    assert_eq!(mode, tether::PredictorMode::AdaptiveLinear);
    let tie = tether::predictor::selector::PredictorSelector::select_integer_mode(&[0, 0], 0, [0, 0, 0]);
    assert_eq!(tie, tether::PredictorMode::Delta);
}

#[test]
fn test_memory_bound_error_messages() {
    let b = tether::MemoryBudget::micro_4kb();
    assert_eq!(b.check_encoder_bound(5000), Err("Encoder working set exceeded configured MemoryBudget ceiling"));
    assert_eq!(b.check_decoder_bound(5000), Err("Decoder working set exceeded configured MemoryBudget ceiling"));
    assert_eq!(b.check_encoder_bound(4096), Ok(()));
}

#[test]
fn test_compress_short_input_with_zero_block_size() {
    let mut budget = tether::MemoryBudget::embedded_32kb();
    budget.block_samples = 0;
    let c = tether::compress(&[1, 2, 3], budget);
    assert_eq!(tether::decompress(&c).unwrap(), vec![1, 2, 3]);
    let e = tether::compress_i64(&[], budget);
    assert_eq!(tether::decompress_i64(&e).unwrap(), Vec::<i64>::new());
}

#[test]
fn test_bit_writer_complete_bytes() {
    let mut w = BitWriter::new();
    w.write_bits(0b101, 3);
    assert!(w.bytes.is_empty());
    w.write_bits(0xFFF6, 5);
    assert_eq!(w.bytes, vec![0xB5]);
    w.write_bits(0x3FF, 10);
    assert_eq!(w.bytes, vec![0xB5, 0xFF]);
    let bytes = w.finish();
    assert_eq!(bytes, vec![0xB5, 0xFF, 0x03]);
    let mut r = BitReader::new(&bytes);
    assert_eq!(r.read_bits(3), 0b101);
    assert_eq!(r.read_bits(5), 0b10110);
    assert_eq!(r.read_bits(10), 0x3FF);
    assert_eq!(r.read_bits(7), 0);
    assert_eq!(r.read_bits(64), 0);
}

#[test]
fn test_normalize_with_zero_counts() {
    let mut t = AdaptiveTable::new_skewed();
    t.raw_counts = [0u16; 256];
    t.raw_counts[5] = 10;
    t.raw_counts[200] = 30;
    t.total_raw = 40;
    t.normalize();
    assert_eq!(t.freq.iter().map(|&f| f as u32).sum::<u32>(), 1024);
    assert!(t.freq.iter().all(|&f| f >= 1));
    assert_eq!(t.freq[5], 1 + 192);
    assert_eq!(t.freq[200], 1 + 576);
    assert_eq!(t.cum[256], 1024);
}
