use tether::memory_budget::{MemoryBudget, MemoryProfile};
use tether::streaming::TetherWriter;
use tether::{compress, compress_f64_bits, compress_i64, decompress, decompress_f64_bits,
    decompress_i64, MAGIC};

fn lcg(seed: &mut u64) -> u64 {
    *seed = seed.wrapping_mul(6364136223846793005).wrapping_add(1442695040888963407);
    *seed
}

fn custom_budget(block_samples: usize) -> MemoryBudget {
    let mut b = MemoryBudget::embedded_32kb();
    b.block_samples = block_samples;
    b
}

#[test]
fn test_compress_roundtrip_any_length() {
    let mut seed = 7u64;
    for len in [0usize, 1, 7, 8, 9, 15, 16, 17, 100, 1001, 4099] {
        let mut data = Vec::with_capacity(len);
        let mut v = 0u64;
        for i in 0..len {
            if i % 8 == 0 {
                v = v.wrapping_add(lcg(&mut seed) % 16);
            }
            data.push((v >> ((i % 8) * 8)) as u8);
        }
        for budget in [MemoryBudget::micro_4kb(), MemoryBudget::desktop_64kb(), custom_budget(1),
            custom_budget(8192)] {
            let c = compress(&data, budget);
            assert_eq!(decompress(&c).unwrap(), data, "length {}", len);
        }
    }
}

#[test]
fn test_compress_empty_is_header_only() {
    let c = compress(&[], MemoryBudget::embedded_32kb());
    assert_eq!(c, vec![84, 84, 72, 49, 2, 1, 0]);
    assert_eq!(&c[0..4], &MAGIC[..]);
    let c = compress(&[1, 2, 3], MemoryBudget::micro_4kb());
    assert_eq!(c, vec![84, 84, 72, 49, 0, 1, 3, 1, 2, 3]);
    assert_eq!(decompress(&c).unwrap(), vec![1, 2, 3]);
}

#[test]
fn test_compress_raw_block_layout() {
    // Three words of unrelated bits do not compress: a raw block of three samples.
    let mut data = Vec::new();
    data.extend_from_slice(&0x0123_4567_89ab_cdefu64.to_le_bytes());
    data.extend_from_slice(&0xfedc_ba98_7654_3210u64.to_le_bytes());
    data.extend_from_slice(&0x0f1e_2d3c_4b5a_6978u64.to_le_bytes());
    let c = compress(&data, MemoryBudget::desktop_64kb());
    let mut expected = vec![84, 84, 72, 49, 3, 1, 0, 0, 3, 0];
    expected.extend_from_slice(&data);
    assert_eq!(c, expected);
    assert_eq!(decompress(&c).unwrap(), data);
}

#[test]
fn test_compress_single_word_is_constant_block() {
    // One word is a block of equal samples: an 11-byte constant block.
    let data = 0x0123_4567_89ab_cdefu64.to_le_bytes();
    let c = compress(&data, MemoryBudget::desktop_64kb());
    let mut expected = vec![84, 84, 72, 49, 3, 1, 0, 4, 1, 0];
    expected.extend_from_slice(&data);
    assert_eq!(c, expected);
    assert_eq!(decompress(&c).unwrap(), data.to_vec());
}

#[test]
fn test_i64_roundtrip_block_sizes() {
    let mut seed = 99u64;
    let samples: Vec<i64> = (0..3000).map(|i| (i as i64) * 3 + (lcg(&mut seed) % 5) as i64).collect();
    for bs in [1usize, 2, 3, 255, 256, 257, 8192] {
        let c = compress_i64(&samples, custom_budget(bs));
        assert_eq!(decompress_i64(&c).unwrap(), samples, "block size {}", bs);
    }
    let c = compress_i64(&[], MemoryBudget::micro_4kb());
    assert_eq!(decompress_i64(&c).unwrap(), Vec::<i64>::new());
}

#[test]
fn test_f64_bits_roundtrip() {
    let mut seed = 5u64;
    let bits: Vec<u64> = (0..777).map(|i| (20.0f64 + (i / 7) as f64 * 0.25).to_bits() ^ (lcg(&mut seed) & 1)).collect();
    for bs in [1usize, 100, 256, 8192] {
        let c = compress_f64_bits(&bits, custom_budget(bs));
        assert_eq!(c[5], 2);
        assert_eq!(decompress_f64_bits(&c).unwrap(), bits);
    }
    let c = compress_f64_bits(&[], MemoryBudget::embedded_16kb());
    assert_eq!(c, vec![84, 84, 72, 49, 1, 2, 0]);
    assert_eq!(decompress_f64_bits(&c).unwrap(), Vec::<u64>::new());
}

fn run_writer(budget: MemoryBudget, samples: &[i64], flush_every: usize) -> Vec<u8> {
    let mut w = TetherWriter::new(budget);
    let mut out = Vec::new();
    for (i, &s) in samples.iter().enumerate() {
        out.extend(w.write_sample(s));
        if flush_every > 0 && i % flush_every == flush_every - 1 {
            out.extend(w.flush_block());
        }
    }
    out.extend(w.finish());
    out
}

#[test]
fn test_writer_roundtrip() {
    let mut seed = 31u64;
    let samples: Vec<i64> = (0..2000)
        .map(|i| if i % 300 == 299 { 0 } else { 1000 + (lcg(&mut seed) % 50) as i64 })
        .collect();
    for budget in [MemoryBudget::micro_4kb(), MemoryBudget::embedded_32kb(), custom_budget(0),
        custom_budget(1), custom_budget(8192)] {
        for flush_every in [0usize, 1, 77] {
            let out = run_writer(budget, &samples, flush_every);
            assert_eq!(decompress_i64(&out).unwrap(), samples);
        }
    }
}

#[test]
fn test_writer_matches_compress_i64_without_zero_seed() {
    let samples: Vec<i64> = (1..=600).map(|i| i * 11).collect();
    let budget = MemoryBudget::embedded_32kb();
    let out = run_writer(budget, &samples, 0);
    assert_eq!(out, compress_i64(&samples, budget));
}

#[test]
fn test_writer_empty_stream_is_header() {
    let w = TetherWriter::new(MemoryBudget::desktop_64kb());
    assert_eq!(w.finish(), vec![84, 84, 72, 49, 3, 1, 0]);
    let mut w = TetherWriter::new(MemoryBudget::micro_4kb());
    assert_eq!(w.flush_block(), Vec::<u8>::new());
    let first = w.write_samples(&[5, 6, 7]);
    assert_eq!(first, vec![84, 84, 72, 49, 0, 1, 0]);
    let rest = w.finish();
    let mut all = first.clone();
    all.extend(rest);
    assert_eq!(decompress_i64(&all).unwrap(), vec![5, 6, 7]);
}

#[test]
fn test_memory_budget_bounds() {
    let b = MemoryBudget::micro_4kb();
    assert_eq!(b.profile, MemoryProfile::Micro4KB);
    assert!(b.check_encoder_bound(4096).is_ok());
    assert_eq!(b.check_encoder_bound(4097),
        Err("Encoder working set exceeded configured MemoryBudget ceiling"));
    assert!(b.check_decoder_bound(0).is_ok());
    assert_eq!(b.check_decoder_bound(5000),
        Err("Decoder working set exceeded configured MemoryBudget ceiling"));
    let d = MemoryBudget::default();
    assert_eq!(d.block_samples, 256);
    assert_eq!(d.max_encoder_bytes, 32768);
}

#[test]
fn test_large_blocks_with_wide_residuals_roundtrip() {
    // Residuals of about 2^40 need five extra bytes each: with 20000-sample
    // blocks the coded form would not fit its 16-bit length fields, so such a
    // block is written raw and still reads back.
    let mut seed = 5u64;
    let mut v = 0i64;
    let samples: Vec<i64> = (0..40000)
        .map(|_| {
            v = v.wrapping_add((lcg(&mut seed) >> 24) as i64 - (1i64 << 39));
            v
        })
        .collect();
    let budget = custom_budget(20000);
    let c = compress_i64(&samples, budget);
    assert_eq!(decompress_i64(&c).unwrap(), samples);
}

#[test]
fn test_idle_flush_changes_nothing() {
    let samples: Vec<i64> = (0..512).map(|i| (i * i % 97) as i64).collect();
    let budget = MemoryBudget::embedded_32kb();
    let mut a = TetherWriter::new(budget);
    let mut b = TetherWriter::new(budget);
    let mut out_a = a.write_samples(&samples[..256]);
    let mut out_b = b.write_samples(&samples[..256]);
    assert_eq!(b.flush_block(), Vec::<u8>::new());
    out_a.extend(a.write_samples(&samples[256..]));
    out_b.extend(b.write_samples(&samples[256..]));
    out_a.extend(a.finish());
    out_b.extend(b.finish());
    assert_eq!(out_a, out_b);
    assert_eq!(decompress_i64(&out_a).unwrap(), samples);
}

#[test]
fn test_repeat_block_layout() {
    // The second block repeats the first, eight samples back: a 5-byte repeat block.
    let mut samples: Vec<i64> = vec![3, 1, 4, 1, 5, 9, 2, 6];
    samples.extend_from_slice(&[3, 1, 4, 1, 5, 9, 2, 6]);
    let c = compress_i64(&samples, custom_budget(8));
    assert_eq!(&c[c.len() - 5..], &[7, 8, 0, 8, 0]);
    assert_eq!(decompress_i64(&c).unwrap(), samples);
}
