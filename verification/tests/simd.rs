use ocr_triage::simd::{active_isa, binarize, count_transitions, sum_u8, xor_sum};

fn scalar_binarize(gray: &[u8], threshold: u8, below_is_fg: bool) -> Vec<u8> {
    gray.iter()
        .map(|&g| if below_is_fg { (g <= threshold) as u8 } else { (g > threshold) as u8 })
        .collect()
}

fn count_transitions_scalar(row: &[u8]) -> u32 {
    let mut edges = 0u32;
    for x in 0..row.len() - 1 {
        if row[x] != row[x + 1] {
            edges += 1;
        }
    }
    edges
}

fn sum_u8_scalar(buf: &[u8]) -> u32 {
    buf.iter().map(|&b| b as u32).sum()
}

#[test]
fn binarize_matches_scalar_various_lengths() {
    for &n in &[0usize, 1, 7, 15, 16, 17, 31, 32, 33, 63, 64, 65, 127, 256, 1000, 4096, 65_537] {
        let gray: Vec<u8> = (0..n).map(|i| ((i * 37) % 256) as u8).collect();
        for &thr in &[0u8, 1, 64, 127, 128, 200, 255] {
            for &below in &[true, false] {
                let expected = scalar_binarize(&gray, thr, below);
                let mut actual = vec![0u8; n];
                binarize(&gray, &mut actual, thr, below);
                assert_eq!(actual, expected, "binarize mismatch n={} thr={} below={}", n, thr, below);
            }
        }
    }
}

#[test]
fn count_transitions_matches_scalar() {
    for &n in &[0usize, 1, 2, 16, 17, 31, 32, 33, 63, 64, 65, 1000, 65_537] {
        // Binary input only.
        let row: Vec<u8> = (0..n).map(|i| ((i * 5 + 1) & 1) as u8).collect();
        let expected = if n < 2 { 0 } else { count_transitions_scalar(&row) };
        let actual = count_transitions(&row);
        assert_eq!(actual, expected, "count_transitions mismatch n={}", n);
    }
}

#[test]
fn sum_u8_matches_scalar() {
    for &n in &[0usize, 1, 15, 16, 17, 31, 32, 33, 100, 1000, 65_537] {
        let buf: Vec<u8> = (0..n).map(|i| ((i * 13 + 7) % 256) as u8).collect();
        let expected = sum_u8_scalar(&buf);
        let actual = sum_u8(&buf);
        assert_eq!(actual, expected, "sum_u8 mismatch n={}", n);
    }
}

#[test]
fn active_isa_is_known() {
    for bits in 0..16u8 {
        let isa = active_isa(bits & 1 != 0, bits & 2 != 0, bits & 4 != 0, bits & 8 != 0);
        assert!(matches!(isa, "avx2" | "sse2" | "neon" | "scalar"));
    }
}

#[test]
fn active_isa_prefers_the_widest_extension() {
    assert_eq!(active_isa(true, true, true, false), "avx2");
    assert_eq!(active_isa(true, false, true, false), "sse2");
    assert_eq!(active_isa(true, false, false, false), "scalar");
    assert_eq!(active_isa(false, true, true, true), "neon");
    assert_eq!(active_isa(false, false, false, false), "scalar");
}

#[test]
fn binarize_is_zero_one() {
    let gray: Vec<u8> = (0..=255u8).collect();
    let mut out = vec![7u8; 256];
    binarize(&gray, &mut out, 100, true);
    assert!(out.iter().all(|&b| b <= 1));
    assert_eq!(out.iter().filter(|&&b| b == 1).count(), 101);
    binarize(&gray, &mut out, 100, false);
    assert_eq!(out.iter().filter(|&&b| b == 1).count(), 155);
}

#[test]
fn count_transitions_exact_values() {
    assert_eq!(count_transitions(&[0, 1, 1, 0, 0, 1]), 3);
    assert_eq!(count_transitions(&[1]), 0);
    assert_eq!(count_transitions(&[]), 0);
}

#[test]
fn xor_sum_counts_mismatches_on_binary_rows() {
    assert_eq!(xor_sum(&[0, 1, 1, 0], &[1, 1, 0, 0]), 2);
    assert_eq!(xor_sum(&[], &[]), 0);
    assert_eq!(xor_sum(&[0b1010], &[0b0110]), 0b1100);
}
