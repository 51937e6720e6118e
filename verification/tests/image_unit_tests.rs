use tether::image::spatial_predictor::{med_predict, pack_8bit_residuals, paeth_predict,
    plane_predict, unpack_8bit_residuals};
use tether::image::{compress_image, compress_image_grayscale, compress_image_rgb, decompress_image,
    decompress_image_grayscale, decompress_image_rgb, filter_row, select_best_filter, unfilter_row,
    FilterType};
use tether::stream::bitstream::{BitReader, BitWriter};

#[test]
fn test_predictor_values() {
    assert_eq!(paeth_predict(10, 20, 15), 15);
    assert_eq!(paeth_predict(10, 20, 12), 20);
    assert_eq!(paeth_predict(10, 20, 30), 10);
    assert_eq!(med_predict(10, 20, 5), 20);
    assert_eq!(med_predict(10, 20, 25), 10);
    assert_eq!(med_predict(10, 20, 15), 15);
    assert_eq!(plane_predict(200, 100, 50), 250);
    assert_eq!(plane_predict(10, 20, 40), 246);
    assert_eq!(plane_predict(250, 250, 0), 244);
}

#[test]
fn test_filter_values_and_roundtrip() {
    let prev = vec![10u8, 20, 30, 40, 250];
    let curr = vec![12u8, 18, 33, 41, 3];
    let mut sub = Vec::new();
    filter_row(&curr, &prev, FilterType::Sub, &mut sub);
    assert_eq!(sub, vec![12, 6, 15, 8, 218]);
    let mut up = Vec::new();
    filter_row(&curr, &prev, FilterType::Up, &mut up);
    assert_eq!(up, vec![2, 254, 3, 1, 9]);
    let filters = [FilterType::NoFilter, FilterType::Sub, FilterType::Up, FilterType::Average,
        FilterType::Paeth, FilterType::Plane, FilterType::Med, FilterType::Raw];
    for f in filters {
        for p in [&prev[..], &[][..]] {
            let mut res = Vec::new();
            filter_row(&curr, p, f, &mut res);
            let mut back = vec![99u8];
            unfilter_row(&res, p, f, &mut back);
            assert_eq!(&back[1..], &curr[..]);
        }
    }
}

#[test]
fn test_select_best_filter_picks_lowest_cost() {
    let ramp: Vec<u8> = (0..40).map(|i| (i * 3) as u8).collect();
    assert_eq!(select_best_filter(&ramp, &[]), FilterType::Sub);
    let prev: Vec<u8> = (0..40).map(|i| (i * 7 % 251) as u8).collect();
    assert_eq!(select_best_filter(&prev, &prev), FilterType::Up);
    assert_eq!(select_best_filter(&[0, 0, 0], &[]), FilterType::NoFilter);
}

#[test]
fn test_pack_values_and_roundtrip() {
    let residuals = vec![0u8, 0, 0, 5, 200, 0, 129, 127];
    let mut symbols = Vec::new();
    let mut w = BitWriter::new();
    pack_8bit_residuals(&residuals, &mut symbols, &mut w);
    assert_eq!(symbols, vec![193, 5, 164, 0, 128, 127]);
    let extra = w.finish();
    assert_eq!(extra, vec![2]);
    let mut r = BitReader::new(&extra);
    let mut out = Vec::new();
    assert_eq!(unpack_8bit_residuals(&symbols, &mut r, residuals.len(), &mut out), Ok(()));
    assert_eq!(out, residuals);

    let zeros = vec![0u8; 200];
    let mut symbols = Vec::new();
    let mut w = BitWriter::new();
    pack_8bit_residuals(&zeros, &mut symbols, &mut w);
    assert_eq!(symbols, vec![255, 255, 255, 195]);
    let extra = w.finish();
    let mut r = BitReader::new(&extra);
    let mut out = Vec::new();
    assert_eq!(unpack_8bit_residuals(&symbols, &mut r, 200, &mut out), Ok(()));
    assert_eq!(out, zeros);
}

#[test]
fn test_unpack_errors() {
    let mut r = BitReader::new(&[]);
    let mut out = Vec::new();
    assert_eq!(unpack_8bit_residuals(&[255], &mut r, 10, &mut out),
        Err("Zero-run length exceeds target pixel count"));
    assert!(out.is_empty());
    let mut out = Vec::new();
    assert_eq!(unpack_8bit_residuals(&[1, 2], &mut r, 3, &mut out),
        Err("Decoded image residual count does not match expected row width"));
    assert_eq!(out, vec![1, 2]);
}

#[test]
fn test_image_roundtrips_and_palette() {
    // Two colors: the palette form is chosen when it is not longer.
    let (w, h) = (40u32, 30u32);
    let pixels: Vec<u8> = (0..w * h).map(|i| if (i / 7) % 3 == 0 { 200 } else { 17 }).collect();
    let c = compress_image_grayscale(w, h, &pixels).unwrap();
    assert_eq!(&c[0..4], b"TTHI");
    assert!(c[12] == 1 || c[12] == 0x81);
    assert_eq!(decompress_image_grayscale(&c).unwrap(), (w, h, pixels.clone()));
    assert_eq!(decompress_image(&c).unwrap(), (w, h, 1, pixels));

    let rgb: Vec<u8> = (0..w * h * 3).map(|i| (i % 97) as u8).collect();
    let c = compress_image_rgb(w, h, &rgb).unwrap();
    assert_eq!(c[12], 3);
    assert_eq!(decompress_image_rgb(&c).unwrap(), (w, h, rgb.clone()));
    assert_eq!(decompress_image(&c).unwrap(), (w, h, 3, rgb));

    let empty = compress_image(0, 0, 1, &[]).unwrap();
    assert_eq!(empty, vec![84, 84, 72, 73, 0, 0, 0, 0, 0, 0, 0, 0, 1]);
    assert_eq!(decompress_image(&empty).unwrap(), (0, 0, 1, vec![]));
}

#[test]
fn test_repeated_rows_use_runs() {
    let (w, h) = (16u32, 10u32);
    let mut pixels = Vec::new();
    for y in 0..h {
        for x in 0..w {
            pixels.push(if y < 2 { (x * 9) as u8 } else { (x * 9) as u8 });
        }
    }
    let c = compress_image_grayscale(w, h, &pixels).unwrap();
    // The first row is coded, the nine repeats take one run row of 5 bytes.
    assert_eq!(&c[c.len() - 5..], &[7, 9, 0, 0, 0]);
    assert_eq!(decompress_image_grayscale(&c).unwrap(), (w, h, pixels));
}

#[test]
fn test_image_errors() {
    assert_eq!(compress_image(2, 2, 2, &[0; 8]), Err("Unsupported channel count (only 1 or 3 supported)"));
    assert_eq!(compress_image_grayscale(2, 2, &[0; 3]), Err("Pixel buffer length does not match width * height"));
    assert_eq!(compress_image_rgb(2, 2, &[0; 4]), Err("Pixel buffer length does not match width * height * 3"));
    assert_eq!(decompress_image(b"TTHI"), Err("Invalid Tether Image magic header"));
    let mut hdr = b"TTHI".to_vec();
    hdr.extend_from_slice(&1u32.to_le_bytes());
    hdr.extend_from_slice(&1u32.to_le_bytes());
    let mut c = hdr.clone();
    c.push(2);
    assert_eq!(decompress_image(&c), Err("Unsupported channel count in header"));
    let mut c = hdr.clone();
    c.push(3);
    assert_eq!(decompress_image_grayscale(&c), Err("Expected 1-channel grayscale image"));
    let mut c = hdr.clone();
    c.push(1);
    assert_eq!(decompress_image_rgb(&c), Err("Expected 3-channel RGB image"));
    assert_eq!(decompress_image_grayscale(&c), Err("Truncated image row header"));
    let mut c = hdr.clone();
    c.push(0x81);
    assert_eq!(decompress_image_grayscale(&c), Err("Truncated palette header"));
    c.push(4);
    c.push(9);
    assert_eq!(decompress_image_grayscale(&c), Err("Truncated palette entries"));
    let mut c = hdr.clone();
    c.extend_from_slice(&[1, 10, 0, 0, 0, 0]);
    assert_eq!(decompress_image_grayscale(&c), Err("Invalid filter type"));
    let mut c = hdr.clone();
    c.extend_from_slice(&[1, 7, 0, 0, 0, 0]);
    assert_eq!(decompress_image_grayscale(&c), Err("RepeatPrev on first row or mismatched width"));
    let mut c = hdr.clone();
    c.extend_from_slice(&[1, 9, 2, 0, 0, 0, 5]);
    assert_eq!(decompress_image_grayscale(&c), Err("Truncated or invalid raw row payload"));
    let mut c = hdr.clone();
    c.extend_from_slice(&[1, 8, 1, 0, 0, 0]);
    assert_eq!(decompress_image_grayscale(&c), Err("Truncated constant row payload"));
    let mut c = hdr.clone();
    c.extend_from_slice(&[1, 8, 1, 0, 0, 0, 42]);
    assert_eq!(decompress_image_grayscale(&c), Ok((1, 1, vec![42])));
    let mut c = hdr.clone();
    c.extend_from_slice(&[1, 1, 3, 0, 0, 0, 1, 0, 0]);
    assert_eq!(decompress_image_grayscale(&c), Err("Invalid row payload length"));
    let mut c = hdr.clone();
    c.extend_from_slice(&[1, 1, 9, 0, 0, 0, 1, 0, 0]);
    assert_eq!(decompress_image_grayscale(&c), Err("Truncated image row payload"));
    let mut c = hdr.clone();
    c.extend_from_slice(&[1, 1, 4, 0, 0, 0, 1, 0, 1, 0]);
    assert_eq!(decompress_image_grayscale(&c), Err("Corrupted extra bits length in row payload"));
    let mut c = hdr.clone();
    c.extend_from_slice(&[0x81, 1, 5, 8, 1, 0, 0, 0, 3]);
    assert_eq!(decompress_image_grayscale(&c), Err("Palette index out of bounds"));
}

#[test]
fn test_unpack_other_count_fails() {
    let residuals = vec![0u8, 0, 0, 5, 200, 0, 129, 127];
    let mut symbols = Vec::new();
    let mut w = BitWriter::new();
    pack_8bit_residuals(&residuals, &mut symbols, &mut w);
    let extra = w.finish();
    for target in [0usize, 1, 5, 7, 9, 20] {
        let mut r = BitReader::new(&extra);
        let mut out = Vec::new();
        assert!(unpack_8bit_residuals(&symbols, &mut r, target, &mut out).is_err(), "target {}", target);
    }
}
