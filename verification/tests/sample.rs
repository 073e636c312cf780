use ocr_triage::sample::{
    gray_sample, luma_of, rgb_sample, rgb_to_gray_subsampled, subsample_gray, subsample_stride,
};

#[test]
fn stride_brings_short_edge_to_target() {
    assert_eq!(subsample_stride(2480, 3508, 256), 9);
    assert_eq!(subsample_stride(256, 256, 256), 1);
    assert_eq!(subsample_stride(100, 50, 256), 1);
    assert_eq!(subsample_stride(0, 0, 0), 1);
    assert_eq!(subsample_stride(1000, 600, 0), 600);
}

#[test]
fn luma_formula() {
    assert_eq!(luma_of(10, 20, 30), 18);
    assert_eq!(luma_of(255, 255, 255), 255);
    assert_eq!(luma_of(0, 0, 0), 0);
    assert_eq!(luma_of(255, 0, 0), 76);
}

#[test]
fn subsample_gray_picks_grid_pixels() {
    let gray: Vec<u8> = (0..30u8).collect(); // 6 x 5
    let (out, w, h) = subsample_gray(&gray, 6, 5, 2);
    assert_eq!((w, h), (3, 2));
    assert_eq!(out, vec![0, 2, 4, 12, 14, 16]);
}

#[test]
fn rgb_subsample_converts_to_luma() {
    // 2 x 2 RGB, stride 2: only the top-left pixel.
    let rgb = [10u8, 20, 30, 255, 255, 255, 0, 0, 0, 1, 1, 1];
    let (out, w, h) = rgb_to_gray_subsampled(&rgb, 2, 2, 2);
    assert_eq!((w, h), (1, 1));
    assert_eq!(out, vec![18]);
    let (out, w, h) = rgb_to_gray_subsampled(&rgb, 2, 2, 1);
    assert_eq!((w, h), (2, 2));
    assert_eq!(out, vec![18, 255, 0, 1]);
}

#[test]
fn gray_sample_checks_length() {
    assert!(gray_sample(&[1, 2, 3], 2, 2, 256).is_none());
    let (px, w, h) = gray_sample(&[1, 2, 3, 4], 2, 2, 256).unwrap();
    assert_eq!((px, w, h), (vec![1, 2, 3, 4], 2, 2));
}

#[test]
fn gray_sample_subsamples_large_images() {
    let gray = vec![7u8; 1024 * 600];
    let (px, w, h) = gray_sample(&gray, 1024, 600, 256).unwrap();
    assert_eq!((w, h), (512, 300));
    assert_eq!(px.len(), 512 * 300);
}

#[test]
fn rgb_sample_checks_length_and_emptiness() {
    assert!(rgb_sample(&[0; 11], 2, 2, 256).is_none());
    assert!(rgb_sample(&[], 0, 0, 256).is_none());
    assert!(rgb_sample(&[], 0, 5, 256).is_none());
    let (px, w, h) = rgb_sample(&[10, 20, 30], 1, 1, 256).unwrap();
    assert_eq!((px, w, h), (vec![18], 1, 1));
}

#[test]
fn stride_brings_short_edge_between_target_and_twice_target() {
    for &(w, h, t) in &[(2480u32, 3508u32, 256u32), (300, 1000, 256), (511, 600, 256), (4096, 4096, 100), (1000, 999, 333)] {
        let s = subsample_stride(w, h, t);
        let short = w.min(h);
        assert!(t <= short / s && short / s < 2 * t, "{}x{} target {}", w, h, t);
    }
    assert_eq!(subsample_stride(2480, 3508, 256), 9);
    assert_eq!(subsample_stride(511, 600, 256), 1);
}

#[test]
fn stride_beyond_the_image_keeps_one_sample() {
    let (px, w, h) = subsample_gray(&[1, 2, 3, 4, 5, 6], 3, 2, 5);
    assert_eq!((px, w, h), (vec![1], 1, 1));
    let (px, w, h) = subsample_gray(&[1, 2, 3, 4, 5, 6, 7, 8], 4, 2, 3);
    assert_eq!((px, w, h), (vec![1], 1, 1));
    let (px, w, h) = rgb_to_gray_subsampled(&[255, 255, 255, 0, 0, 0], 2, 1, 4);
    assert_eq!((px, w, h), (vec![255], 1, 1));
}

#[test]
fn gray_pixels_keep_their_value() {
    for v in 0..=255u8 {
        assert_eq!(luma_of(v, v, v), v);
    }
}
