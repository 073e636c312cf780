use ocr_triage::jpeg_dc::decode_dc_thumbnail;

#[test]
fn rejects_empty_input() {
    assert!(decode_dc_thumbnail(&[]).is_none());
}

#[test]
fn rejects_non_jpeg() {
    assert!(decode_dc_thumbnail(b"not a jpeg at all at all at all").is_none());
}

#[test]
fn rejects_jpeg_missing_sof() {
    // Just an SOI, no structure.
    assert!(decode_dc_thumbnail(&[0xFF, 0xD8, 0xFF, 0xD9]).is_none());
}

fn encode_gray_jpeg(w: u32, h: u32, f: impl Fn(u32, u32) -> u8) -> Vec<u8> {
    let img = image::GrayImage::from_fn(w, h, |x, y| image::Luma([f(x, y)]));
    let mut buf = Vec::new();
    let enc = image::codecs::jpeg::JpegEncoder::new_with_quality(&mut buf, 95);
    img.write_with_encoder(enc).unwrap();
    buf
}

fn encode_rgb_jpeg(w: u32, h: u32, f: impl Fn(u32, u32) -> [u8; 3]) -> Vec<u8> {
    let img = image::RgbImage::from_fn(w, h, |x, y| image::Rgb(f(x, y)));
    let mut buf = Vec::new();
    let enc = image::codecs::jpeg::JpegEncoder::new_with_quality(&mut buf, 95);
    img.write_with_encoder(enc).unwrap();
    buf
}

#[test]
fn gray_baseline_thumbnail_is_one_eighth_scale() {
    let jpg = encode_gray_jpeg(64, 40, |_, _| 200);
    let t = decode_dc_thumbnail(&jpg).expect("baseline grayscale JPEG decodes");
    assert_eq!(t.width, 8);
    assert_eq!(t.height, 5);
    assert_eq!(t.gray.len(), 40);
    for &p in &t.gray {
        assert!((p as i32 - 200).abs() <= 3, "pixel {} far from 200", p);
    }
}

#[test]
fn thumbnail_rounds_partial_blocks_up() {
    let jpg = encode_gray_jpeg(20, 9, |_, _| 50);
    let t = decode_dc_thumbnail(&jpg).expect("decodes");
    assert_eq!((t.width, t.height), (3, 2));
    assert_eq!(t.gray.len(), 6);
}

#[test]
fn dc_values_follow_block_means() {
    // Left half black, right half white: the thumbnail keeps the split.
    let jpg = encode_gray_jpeg(32, 16, |x, _| if x < 16 { 0 } else { 255 });
    let t = decode_dc_thumbnail(&jpg).expect("decodes");
    assert_eq!((t.width, t.height), (4, 2));
    for row in 0..2 {
        assert!(t.gray[row * 4] < 20);
        assert!(t.gray[row * 4 + 1] < 20);
        assert!(t.gray[row * 4 + 2] > 235);
        assert!(t.gray[row * 4 + 3] > 235);
    }
}

#[test]
fn color_baseline_uses_luma() {
    let jpg = encode_rgb_jpeg(48, 48, |_, _| [255, 255, 255]);
    let t = decode_dc_thumbnail(&jpg).expect("YCbCr JPEG decodes");
    assert_eq!((t.width, t.height), (6, 6));
    assert!(t.gray.iter().all(|&p| p > 245));
}

#[test]
fn truncated_scan_is_rejected() {
    let jpg = encode_gray_jpeg(64, 64, |x, y| ((x * 7 + y * 3) % 256) as u8);
    let cut = &jpg[..jpg.len() / 2];
    assert!(decode_dc_thumbnail(cut).is_none());
}

#[test]
fn extended_sequential_frame_is_rejected() {
    // SOI, SOF1 (extended): refused before anything else is read.
    let bytes = [0xFF, 0xD8, 0xFF, 0xC1, 0x00, 0x0B, 0x08, 0x00, 0x10, 0x00, 0x10, 0x01, 0x01, 0x11, 0x00];
    assert!(decode_dc_thumbnail(&bytes).is_none());
}

#[test]
fn sixteen_bit_precision_is_rejected() {
    let bytes = [
        0xFF, 0xD8, 0xFF, 0xC0, 0x00, 0x0B, 0x10, 0x00, 0x10, 0x00, 0x10, 0x01, 0x01, 0x11, 0x00,
        0xFF, 0xDA,
    ];
    assert!(decode_dc_thumbnail(&bytes).is_none());
}

#[test]
fn adversarial_bytes_do_not_panic() {
    let mut seed: u32 = 12345;
    for len in 0..300usize {
        let mut v = vec![0xFFu8, 0xD8];
        for _ in 0..len {
            seed = seed.wrapping_mul(1103515245).wrapping_add(12345);
            v.push((seed >> 16) as u8);
        }
        let _ = decode_dc_thumbnail(&v);
    }
}

/// A 16x8 grayscale JPEG built by hand: DC quantizer 8, a DC table whose codes `00`
/// and `01` stand for size categories 4 and 0, an AC table whose only code `0` is EOB.
fn tiny_jpeg(sof: u8, dri: Option<u16>, sos_tail: [u8; 3], data: &[u8]) -> Vec<u8> {
    let mut v = vec![0xFF, 0xD8];
    v.extend_from_slice(&[0xFF, 0xDB, 0x00, 0x43, 0x00, 8]);
    v.extend_from_slice(&[1u8; 63]);
    v.extend_from_slice(&[0xFF, sof, 0x00, 0x0B, 0x08, 0x00, 0x08, 0x00, 0x10, 0x01, 0x01, 0x11, 0x00]);
    let mut dc = vec![0xFF, 0xC4, 0x00, 0x15, 0x00, 0, 2];
    dc.extend_from_slice(&[0u8; 14]);
    dc.extend_from_slice(&[0x04, 0x00]);
    v.extend_from_slice(&dc);
    let mut ac = vec![0xFF, 0xC4, 0x00, 0x14, 0x10, 1];
    ac.extend_from_slice(&[0u8; 15]);
    ac.push(0x00);
    v.extend_from_slice(&ac);
    if let Some(n) = dri {
        v.extend_from_slice(&[0xFF, 0xDD, 0x00, 0x04, (n >> 8) as u8, n as u8]);
    }
    v.extend_from_slice(&[0xFF, 0xDA, 0x00, 0x08, 0x01, 0x01, 0x00]);
    v.extend_from_slice(&sos_tail);
    v.extend_from_slice(data);
    v.extend_from_slice(&[0xFF, 0xD9]);
    v
}

#[test]
fn baseline_pixels_follow_dc_formula() {
    // Block 1: DC difference +10; block 2: -10 (predictor back to 0).
    // Bits: 00 1010 0 | 00 0101 0 | padding 11.
    let jpg = tiny_jpeg(0xC0, None, [0x00, 0x3F, 0x00], &[0x28, 0x2B]);
    let t = decode_dc_thumbnail(&jpg).expect("hand-built baseline JPEG decodes");
    assert_eq!((t.width, t.height), (2, 1));
    // 10 * 8 / 8 + 128 and 0 * 8 / 8 + 128.
    assert_eq!(t.gray, vec![138, 128]);
}

#[test]
fn restart_marker_resets_dc_predictor() {
    // Restart interval 1: each block in its own interval, predictors at 0 after RST0.
    // Bits: 00 1010 0 + pad 1 | RST0 | 00 0101 0 + pad 1.
    let jpg = tiny_jpeg(0xC0, Some(1), [0x00, 0x3F, 0x00], &[0x29, 0xFF, 0xD0, 0x15]);
    let t = decode_dc_thumbnail(&jpg).expect("JPEG with restart markers decodes");
    assert_eq!(t.gray, vec![138, 118]);
}

#[test]
fn missing_restart_marker_is_rejected() {
    let jpg = tiny_jpeg(0xC0, Some(1), [0x00, 0x3F, 0x00], &[0x29, 0x15]);
    assert!(decode_dc_thumbnail(&jpg).is_none());
}

#[test]
fn progressive_dc_scan_applies_point_transform() {
    // First DC scan with Al = 1: DC values are shifted left by one.
    // Bits: 00 1010 | 00 0101 | padding 1111.
    let jpg = tiny_jpeg(0xC2, None, [0x00, 0x00, 0x01], &[0x28, 0x5F]);
    let t = decode_dc_thumbnail(&jpg).expect("progressive DC scan decodes");
    assert_eq!((t.width, t.height), (2, 1));
    assert_eq!(t.gray, vec![148, 128]);
}

#[test]
fn data_ending_in_lone_ff_is_rejected() {
    let mut jpg = tiny_jpeg(0xC0, None, [0x00, 0x3F, 0x00], &[0x28, 0x2B]);
    jpg.truncate(jpg.len() - 2);
    jpg.push(0xFF);
    assert!(decode_dc_thumbnail(&jpg).is_none());
}

#[test]
fn huffman_lookup_table_holds_every_short_code() {
    // Canonical codes 00 -> 5, 01 -> 6, 100 -> 7.
    let mut bits = vec![0u8; 16];
    bits[1] = 2;
    bits[2] = 1;
    let t = ocr_triage::jpeg_dc::huffman::HuffTable::build(&bits, &vec![5, 6, 7]);
    assert_eq!(t.max_code[1], 1);
    assert_eq!(t.max_code[2], 4);
    assert_eq!(t.val_offset[1], 0);
    assert_eq!(t.val_offset[2], -2);
    for i in 0..256usize {
        let expected = if i < 64 {
            (5, 2)
        } else if i < 128 {
            (6, 2)
        } else if i < 160 {
            (7, 3)
        } else {
            (0, 0)
        };
        assert_eq!(t.fast[i], expected, "entry {}", i);
    }
}

#[test]
fn fill_reads_stuffed_bytes_and_stops_at_a_marker() {
    let data = [0xFF, 0x00, 0x12, 0xFF, 0xD3];
    let mut br = ocr_triage::jpeg_dc::bits::BitReader::new(&data);
    br.fill();
    assert_eq!(br.bit_count, 16);
    assert_eq!(br.bit_buf >> 48, 0xFF12);
    assert_eq!(br.bit_buf & 0xFFFF_FFFF_FFFF, 0);
    assert_eq!(br.marker, Some(0xD3));
    assert_eq!(br.pos, 3);
    assert!(!br.error);
}

#[test]
fn get_bits_takes_the_top_bits_of_the_buffer() {
    let data = [0xA5, 0x3C];
    let mut br = ocr_triage::jpeg_dc::bits::BitReader::new(&data);
    assert_eq!(br.get_bits(4), Some(0xA));
    assert_eq!(br.bit_count, 12);
    assert_eq!(br.bit_buf >> 52, 0x53C);
    assert_eq!(br.bit_buf & 0xF_FFFF_FFFF_FFFF, 0);
    assert_eq!(br.get_bits(12), Some(0x53C));
    assert_eq!(br.bit_count, 0);
    assert_eq!(br.bit_buf, 0);
    assert_eq!(br.get_bits(1), None);
}

/// The bytes of a bit string (most significant first), zero-padded to whole bytes,
/// with a 0x00 stuffed after each 0xFF.
fn entropy_bytes(bits: &[u8]) -> Vec<u8> {
    let mut out = Vec::new();
    for chunk in bits.chunks(8) {
        let mut b = 0u8;
        for (i, &bit) in chunk.iter().enumerate() {
            b |= bit << (7 - i);
        }
        out.push(b);
        if b == 0xFF {
            out.push(0x00);
        }
    }
    out
}

/// The standard luminance DC table: code lengths 2 (one code), 3 (five), then one
/// each of 4..=9 bits, for the symbols 0..=11.
fn dc_luma_counts() -> Vec<u8> {
    let mut bits = vec![0u8; 16];
    bits[1] = 1;
    bits[2] = 5;
    for l in 3..9 {
        bits[l] = 1;
    }
    bits
}

fn dc_luma_codes() -> Vec<Vec<u8>> {
    let text = [
        "00", "010", "011", "100", "101", "110", "1110", "11110", "111110", "1111110", "11111110",
        "111111110",
    ];
    text.iter().map(|t| t.bytes().map(|c| c - b'0').collect()).collect()
}

#[test]
fn huffman_codes_round_trip() {
    let t = ocr_triage::jpeg_dc::huffman::HuffTable::build(&dc_luma_counts(), &(0..12).collect());
    for (sym, code) in dc_luma_codes().iter().enumerate() {
        // The code, then a marker bit that must be the next one read.
        let mut bits = code.clone();
        bits.push(1);
        let data = entropy_bytes(&bits);
        let mut br = ocr_triage::jpeg_dc::bits::BitReader::new(&data);
        assert_eq!(br.decode_huff(&t), Some(sym as u8), "code {:?}", code);
        assert_eq!(br.get_bits(1), Some(1), "code {:?}", code);
    }
}

#[test]
fn huffman_code_past_the_symbol_list_decodes_to_none() {
    // Symbols for the codes of up to 8 bits only: the 9-bit code has none.
    let t = ocr_triage::jpeg_dc::huffman::HuffTable::build(&dc_luma_counts(), &(0..11).collect());
    let codes = dc_luma_codes();
    let data = entropy_bytes(&codes[10]);
    let mut br = ocr_triage::jpeg_dc::bits::BitReader::new(&data);
    assert_eq!(br.decode_huff(&t), Some(10));
    let data = entropy_bytes(&codes[11]);
    let mut br = ocr_triage::jpeg_dc::bits::BitReader::new(&data);
    assert_eq!(br.decode_huff(&t), None);
}

#[test]
fn huffman_table_takes_a_longer_symbol_list() {
    let mut symbols: Vec<u8> = (0..12).collect();
    symbols.extend_from_slice(&[99, 98]);
    let t = ocr_triage::jpeg_dc::huffman::HuffTable::build(&dc_luma_counts(), &symbols);
    let data = entropy_bytes(&dc_luma_codes()[11]);
    let mut br = ocr_triage::jpeg_dc::bits::BitReader::new(&data);
    assert_eq!(br.decode_huff(&t), Some(11));
}

#[test]
fn scan_naming_a_missing_table_is_rejected() {
    let good = tiny_jpeg(0xC0, None, [0x00, 0x3F, 0x00], &[0x28, 0x2B]);
    let sos = good.windows(2).position(|w| w == [0xFF, 0xDA]).unwrap();
    // The scan component asks for DC table 1 and AC table 1; neither was defined.
    let mut jpg = good.clone();
    jpg[sos + 6] = 0x11;
    assert!(decode_dc_thumbnail(&jpg).is_none());
    // DC table 0, AC table 1.
    let mut jpg = good.clone();
    jpg[sos + 6] = 0x01;
    assert!(decode_dc_thumbnail(&jpg).is_none());
    // The progressive DC scan reads no AC data: a missing AC table does not matter.
    let good = tiny_jpeg(0xC2, None, [0x00, 0x00, 0x01], &[0x28, 0x5F]);
    let sos = good.windows(2).position(|w| w == [0xFF, 0xDA]).unwrap();
    let mut jpg = good.clone();
    jpg[sos + 6] = 0x01;
    assert!(decode_dc_thumbnail(&jpg).is_some());
    jpg[sos + 6] = 0x10;
    assert!(decode_dc_thumbnail(&jpg).is_none());
}

#[test]
fn frame_naming_a_missing_quantization_table_is_rejected() {
    let mut jpg = tiny_jpeg(0xC0, None, [0x00, 0x3F, 0x00], &[0x28, 0x2B]);
    let sof = jpg.windows(2).position(|w| w == [0xFF, 0xC0]).unwrap();
    // Component 1's quantization table: 1 instead of 0.
    jpg[sof + 12] = 0x01;
    assert!(decode_dc_thumbnail(&jpg).is_none());
}

#[test]
fn color_thumbnail_is_one_eighth_of_an_odd_size_rounded_up() {
    let jpg = encode_rgb_jpeg(50, 30, |x, _| [(x * 5) as u8, 100, 200]);
    let t = decode_dc_thumbnail(&jpg).expect("YCbCr JPEG decodes");
    assert_eq!((t.width, t.height), (7, 4));
    assert_eq!(t.gray.len(), 28);
}

#[test]
fn restart_after_unread_bytes_follows_the_reader_look_ahead() {
    // Two stray bytes before RST0 are buffered along with the block (the reader looks
    // 32 bits ahead and stops at the marker), so the marker is found.
    let jpg = tiny_jpeg(0xC0, Some(1), [0x00, 0x3F, 0x00], &[0x29, 0x00, 0x00, 0xFF, 0xD0, 0x15]);
    let t = decode_dc_thumbnail(&jpg).expect("marker within the look-ahead");
    assert_eq!(t.gray, vec![138, 118]);
    // Five stray bytes: the reader stops short of the marker, and the scan is refused.
    let jpg = tiny_jpeg(
        0xC0,
        Some(1),
        [0x00, 0x3F, 0x00],
        &[0x29, 0x00, 0x00, 0x00, 0x00, 0x00, 0xFF, 0xD0, 0x15],
    );
    assert!(decode_dc_thumbnail(&jpg).is_none());
}
