use ocr_triage::decode::{
    box_downsample, decode_image_fallback, decode_jpeg_scaled, decode_png_zune, decode_thumbnail,
    finish_gray, finish_jpeg, finish_png, jpeg_scale_request, luma_a_to_luma, rgb_to_luma, rgba_to_luma, sniff,
    Format, GrayImage,
};
use ocr_triage::codecs::{JpegPixels, PngColors};

fn solid_png(w: u32, h: u32, color: [u8; 3]) -> Vec<u8> {
    let img = image::RgbImage::from_pixel(w, h, image::Rgb(color));
    let mut buf = Vec::new();
    image::DynamicImage::ImageRgb8(img)
        .write_to(&mut std::io::Cursor::new(&mut buf), image::ImageFormat::Png)
        .unwrap();
    buf
}

fn encoded(img: image::DynamicImage, fmt: image::ImageFormat) -> Vec<u8> {
    let mut buf = Vec::new();
    img.write_to(&mut std::io::Cursor::new(&mut buf), fmt).unwrap();
    buf
}

#[test]
fn sniff_recognises_magic_bytes() {
    assert_eq!(sniff(&[0xFF, 0xD8, 0xFF, 0xE0, 0, 0, 0, 0]), Format::Jpeg);
    assert_eq!(sniff(&[0x89, b'P', b'N', b'G', 0x0D, 0x0A, 0x1A, 0x0A]), Format::Png);
    assert_eq!(sniff(b"RIFF\0\0\0\0WEBPVP8 "), Format::Webp);
    assert_eq!(sniff(b"II*\0\x08\0\0\0"), Format::Tiff);
    assert_eq!(sniff(b"MM\0*\0\0\0\x08"), Format::Tiff);
    assert_eq!(sniff(b"BM\0\0\0\0\0\0"), Format::Bmp);
    assert_eq!(sniff(b"RIFF\0\0\0\0"), Format::Unknown);
    assert_eq!(sniff(&[0xFF, 0xD8, 0xFF]), Format::Unknown);
    assert_eq!(sniff(b"hello world"), Format::Unknown);
}

#[test]
fn packed_to_luma() {
    assert_eq!(rgb_to_luma(&[10, 20, 30, 255, 255, 255, 9]), vec![18, 255]);
    assert_eq!(rgba_to_luma(&[10, 20, 30, 0, 255, 0, 0, 255]), vec![18, 76]);
    assert_eq!(luma_a_to_luma(&[1, 2, 3, 4, 5]), vec![1, 3]);
}

#[test]
fn box_downsample_averages_windows() {
    // 4 x 4 to short edge 2: each output pixel is the mean of a 2 x 2 window.
    let px = vec![0, 2, 10, 10, 4, 6, 10, 11, 100, 100, 0, 0, 100, 101, 0, 3];
    let out = box_downsample(GrayImage { width: 4, height: 4, pixels: px }, 2);
    assert_eq!((out.width, out.height), (2, 2));
    assert_eq!(out.pixels, vec![3, 10, 100, 0]);
}

#[test]
fn box_downsample_keeps_aspect() {
    let out = box_downsample(GrayImage { width: 300, height: 600, pixels: vec![9; 180000] }, 100);
    assert_eq!((out.width, out.height), (100, 200));
    assert!(out.pixels.iter().all(|&p| p == 9));
}

#[test]
fn box_downsample_leaves_small_images() {
    let img = GrayImage { width: 3, height: 2, pixels: vec![1, 2, 3, 4, 5, 6] };
    let out = box_downsample(img, 256);
    assert_eq!((out.width, out.height, out.pixels), (3, 2, vec![1, 2, 3, 4, 5, 6]));
    let img = GrayImage { width: 3, height: 2, pixels: vec![1, 2, 3, 4, 5, 6] };
    let out = box_downsample(img, 0);
    assert_eq!((out.width, out.height), (3, 2));
}

#[test]
fn jpeg_request_scales_to_short_edge() {
    assert_eq!(jpeg_scale_request(2480, 3508, 256), (256, 362));
    assert_eq!(jpeg_scale_request(64, 32, 256), (512, 256));
    assert_eq!(jpeg_scale_request(1, 1000, 0), (1, 1));
    assert_eq!(jpeg_scale_request(1, 60000, 256), (256, 65535));
}

#[test]
fn finish_jpeg_by_layout() {
    assert!(finish_jpeg(JpegPixels::L8, 2, 2, vec![1, 2, 3], 256).is_none());
    assert!(finish_jpeg(JpegPixels::Cmyk32, 1, 1, vec![1, 2, 3, 4], 256).is_none());
    let g = finish_jpeg(JpegPixels::L8, 2, 1, vec![5, 6], 256).unwrap();
    assert_eq!((g.width, g.height, g.pixels), (2, 1, vec![5, 6]));
    let g = finish_jpeg(JpegPixels::Rgb24, 1, 1, vec![10, 20, 30], 256).unwrap();
    assert_eq!(g.pixels, vec![18]);
    let g = finish_jpeg(JpegPixels::L8, 4, 2, vec![0, 2, 4, 6, 8, 10, 12, 14], 1).unwrap();
    assert_eq!((g.width, g.height, g.pixels), (2, 1, vec![5, 9]));
}

#[test]
fn finish_png_by_layout() {
    assert!(finish_png(1, 1, PngColors::Other, vec![1], 256).is_none());
    assert!(finish_png(2, 1, PngColors::Luma, vec![1], 256).is_none());
    let g = finish_png(2, 1, PngColors::LumaA, vec![7, 0, 9, 0], 256).unwrap();
    assert_eq!(g.pixels, vec![7, 9]);
    let g = finish_png(1, 1, PngColors::Rgba, vec![10, 20, 30, 99], 256).unwrap();
    assert_eq!(g.pixels, vec![18]);
    // Samples beyond the size are left out of the image.
    let g = finish_png(2, 1, PngColors::Luma, vec![4, 5, 6], 256).unwrap();
    assert_eq!((g.width, g.height, g.pixels), (2, 1, vec![4, 5]));
}

#[test]
fn png_thumbnail_is_downsampled_to_short_edge() {
    let png = solid_png(300, 400, [255, 255, 255]);
    let t = decode_png_zune(&png, 256).expect("zune decodes the PNG");
    assert_eq!((t.width, t.height), (256, 341));
    assert!(t.pixels.iter().all(|&p| p == 255));
    let t = decode_thumbnail(&png, 256).unwrap();
    assert_eq!((t.width, t.height), (256, 341));
}

#[test]
fn jpeg_thumbnail_uses_scaled_decode() {
    let img = image::DynamicImage::ImageLuma8(image::GrayImage::from_pixel(640, 480, image::Luma([90])));
    let jpg = encoded(img, image::ImageFormat::Jpeg);
    let t = decode_jpeg_scaled(&jpg, 256).expect("jpeg-decoder decodes the JPEG");
    assert!(t.width <= 256 || t.height <= 256);
    assert_eq!(t.pixels.len(), (t.width * t.height) as usize);
    assert!(t.pixels.iter().all(|&p| (p as i32 - 90).abs() <= 3));
    let t = decode_thumbnail(&jpg, 256).unwrap();
    assert_eq!(t.height, 256);
}

#[test]
fn other_formats_go_through_image_crate() {
    let img = image::DynamicImage::ImageRgb8(image::RgbImage::from_pixel(20, 10, image::Rgb([0, 0, 0])));
    let bmp = encoded(img, image::ImageFormat::Bmp);
    let t = decode_image_fallback(&bmp, 256).expect("image decodes the BMP");
    assert_eq!((t.width, t.height), (20, 10));
    assert!(t.pixels.iter().all(|&p| p == 0));
    let t = decode_thumbnail(&bmp, 5).unwrap();
    assert_eq!((t.width, t.height), (10, 5));
}

#[test]
fn undecodable_bytes_give_nothing() {
    assert!(decode_thumbnail(&[], 256).is_none());
    assert!(decode_thumbnail(b"not an image at all", 256).is_none());
    assert!(decode_thumbnail(&[0xFF, 0xD8, 0xFF, 0, 0, 0, 0, 0, 0], 256).is_none());
}

#[test]
fn finish_gray_checks_sample_count() {
    assert!(finish_gray(2, 2, vec![1, 2, 3], 256).is_none());
    let g = finish_gray(2, 1, vec![5, 6], 256).unwrap();
    assert_eq!((g.width, g.height), (2, 1));
    assert_eq!(g.pixels, vec![5, 6]);
    let g = finish_gray(4, 2, vec![0, 2, 4, 6, 8, 10, 12, 14], 1).unwrap();
    assert_eq!((g.width, g.height), (2, 1));
    assert_eq!(g.pixels, vec![5, 9]);
}

#[test]
fn fallback_keeps_gray_samples() {
    let gray = image::GrayImage::from_fn(6, 3, |x, y| image::Luma([(x * 40 + y) as u8]));
    let png = encoded(image::DynamicImage::ImageLuma8(gray.clone()), image::ImageFormat::Png);
    let t = decode_image_fallback(&png, 256).expect("image decodes the PNG");
    assert_eq!((t.width, t.height), (6, 3));
    assert_eq!(t.pixels, gray.into_raw());
}

#[test]
fn downsampled_pixels_stay_within_the_source_range() {
    let px: Vec<u8> = (0..40 * 30).map(|i| 40 + (i * 7 % 51) as u8).collect();
    let out = box_downsample(GrayImage { width: 40, height: 30, pixels: px }, 7);
    assert_eq!((out.width, out.height), (9, 7));
    assert!(out.pixels.iter().all(|&p| (40..=90).contains(&p)));
}

#[test]
fn png_path_keeps_size_and_samples() {
    let gray = image::GrayImage::from_fn(6, 3, |x, y| image::Luma([(x * 40 + y) as u8]));
    let png = encoded(image::DynamicImage::ImageLuma8(gray.clone()), image::ImageFormat::Png);
    let t = decode_png_zune(&png, 256).expect("zune decodes the gray PNG");
    assert_eq!((t.width, t.height), (6, 3));
    assert_eq!(t.pixels, gray.into_raw());
}

#[test]
fn jpeg_path_asks_for_the_size_of_the_target() {
    // 640 x 480 to short edge 256 asks the decoder for 341 x 256; no DCT scale reaches
    // that, so it decodes whole and area-averages to 341 x 256.
    let img = image::DynamicImage::ImageLuma8(image::GrayImage::from_pixel(640, 480, image::Luma([90])));
    let jpg = encoded(img, image::ImageFormat::Jpeg);
    let t = decode_jpeg_scaled(&jpg, 256).expect("jpeg-decoder decodes the JPEG");
    assert_eq!((t.width, t.height), (341, 256));
    // Short edge 30 asks for 40 x 30: the 1/8 scale (80 x 60) is reached, then averaged.
    let t = decode_jpeg_scaled(&jpg, 30).unwrap();
    assert_eq!((t.width, t.height), (40, 30));
}

#[test]
fn thumbnail_short_edge_is_the_smaller_of_size_and_target() {
    // PNG path: 300 x 400 to 256 (short edge 256), and to 500 (kept, short edge 300).
    let png = solid_png(300, 400, [1, 2, 3]);
    let t = decode_thumbnail(&png, 256).unwrap();
    assert_eq!(t.width.min(t.height), 256);
    let t = decode_thumbnail(&png, 500).unwrap();
    assert_eq!((t.width, t.height), (300, 400));
    // Fallback path: a wide BMP, 90 x 30, to 7.
    let img = image::DynamicImage::ImageRgb8(image::RgbImage::from_pixel(90, 30, image::Rgb([9, 9, 9])));
    let bmp = encoded(img, image::ImageFormat::Bmp);
    let t = decode_thumbnail(&bmp, 7).unwrap();
    assert_eq!((t.width, t.height), (21, 7));
}
