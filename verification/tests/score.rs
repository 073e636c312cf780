use ocr_triage::score::{
    column_fg_counts_block, grid_cells, histogram, horizontal_edge_count_block, otsu_binarize,
    row_fg_counts_block, vertical_edge_count_block,
};
use ocr_triage::simd::sum_u8;

fn mask(gray: &[u8], t: u8) -> Vec<u8> {
    let hist = histogram(gray);
    otsu_binarize(gray, &hist, t)
}

#[test]
fn histogram_counts_each_value() {
    let gray = [0u8, 5, 5, 255, 5, 0];
    let h = histogram(&gray);
    assert_eq!(h.len(), 256);
    assert_eq!(h[0], 2);
    assert_eq!(h[5], 3);
    assert_eq!(h[255], 1);
    assert_eq!(h.iter().sum::<u32>(), 6);
}

#[test]
fn dark_ink_on_light_page_is_foreground() {
    // 3 dark pixels, 7 light ones: the dark ones are the minority.
    let gray = [10u8, 10, 10, 240, 240, 240, 240, 240, 240, 240];
    assert_eq!(mask(&gray, 100), vec![1, 1, 1, 0, 0, 0, 0, 0, 0, 0]);
}

#[test]
fn light_ink_on_dark_page_is_foreground() {
    let gray = [240u8, 240, 240, 10, 10, 10, 10, 10, 10, 10];
    assert_eq!(mask(&gray, 100), vec![1, 1, 1, 0, 0, 0, 0, 0, 0, 0]);
}

#[test]
fn polarity_invariance_on_a_page() {
    let gray: Vec<u8> = (0..200u32).map(|i| if i % 9 == 0 { 20 } else { 230 }).collect();
    let inverted: Vec<u8> = gray.iter().map(|&g| 255 - g).collect();
    for t in [50u8, 100, 128, 200] {
        assert_eq!(mask(&gray, t), mask(&inverted, 254 - t));
    }
}

#[test]
fn foreground_never_majority() {
    let gray: Vec<u8> = (0..1000u32).map(|i| (i * 37 % 256) as u8).collect();
    for t in [0u8, 60, 127, 128, 200, 255] {
        let m = mask(&gray, t);
        assert!(m.iter().all(|&b| b <= 1));
        assert!(2 * sum_u8(&m) as usize <= m.len());
    }
}

#[test]
fn equal_classes_take_below_as_foreground() {
    let gray = [10u8, 10, 200, 200];
    assert_eq!(mask(&gray, 100), vec![1, 1, 0, 0]);
}

// 4x3 binary image, stride 4:
// 0 1 1 0
// 1 1 0 0
// 0 0 0 1
const IMG: [u8; 12] = [0, 1, 1, 0, 1, 1, 0, 0, 0, 0, 0, 1];

#[test]
fn horizontal_edges_of_block() {
    assert_eq!(horizontal_edge_count_block(&IMG, 4, 0, 0, 4, 3), 2 + 1 + 1);
    assert_eq!(horizontal_edge_count_block(&IMG, 4, 1, 1, 3, 2), 1 + 1);
    assert_eq!(horizontal_edge_count_block(&IMG, 4, 0, 0, 0, 3), 0);
}

#[test]
fn vertical_edges_of_block() {
    // rows 0/1 differ at columns 0 and 2; rows 1/2 differ at 0, 1, 3.
    assert_eq!(vertical_edge_count_block(&IMG, 4, 0, 0, 4, 3), 2 + 3);
    assert_eq!(vertical_edge_count_block(&IMG, 4, 0, 0, 4, 1), 0);
    assert_eq!(vertical_edge_count_block(&IMG, 4, 2, 1, 2, 2), 1);
}

#[test]
fn row_and_column_counts_of_block() {
    assert_eq!(row_fg_counts_block(&IMG, 4, 0, 0, 4, 3), vec![2, 2, 1]);
    assert_eq!(column_fg_counts_block(&IMG, 4, 0, 0, 4, 3), vec![1, 2, 1, 1]);
    assert_eq!(column_fg_counts_block(&IMG, 4, 1, 1, 3, 2), vec![1, 0, 1]);
}

#[test]
fn grid_cells_partition_with_remainder() {
    let cells = grid_cells(70, 66, 4).expect("cells of at least 16 pixels");
    assert_eq!(cells.len(), 16);
    assert_eq!(cells[0], (0, 0, 17, 16));
    assert_eq!(cells[3], (51, 0, 19, 16));
    assert_eq!(cells[12], (0, 48, 17, 18));
    assert_eq!(cells[15], (51, 48, 19, 18));
    let area: u32 = cells.iter().map(|c| c.2 * c.3).sum();
    assert_eq!(area, 70 * 66);
}

#[test]
fn grid_cells_refuse_small_images() {
    assert!(grid_cells(63, 200, 4).is_none());
    assert!(grid_cells(200, 63, 4).is_none());
    assert!(grid_cells(64, 64, 4).is_some());
}

#[test]
fn every_pixel_lies_in_exactly_one_cell() {
    let (w, h) = (70u32, 66u32);
    let cells = grid_cells(w, h, 4).expect("cells of at least 16 pixels");
    for y in 0..h {
        for x in 0..w {
            let holding: Vec<usize> = (0..cells.len())
                .filter(|&i| {
                    let (x0, y0, cw, ch) = cells[i];
                    x0 <= x && x < x0 + cw && y0 <= y && y < y0 + ch
                })
                .collect();
            assert_eq!(holding.len(), 1, "pixel ({}, {})", x, y);
            let (gx, gy) = ((x / 17).min(3), (y / 16).min(3));
            assert_eq!(holding[0], (gy * 4 + gx) as usize);
        }
    }
}
