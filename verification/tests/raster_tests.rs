use starglyph::detect::label_components;
use starglyph::peaks::{
    detect_stars, is_local_maximum, peak_candidates, sort_candidates, suppress_candidates,
    DetectionConfig,
};
use starglyph::raster::{draw_circle, draw_line, gray_to_rgb, put_pixel_safe, GrayImage, RgbImage};
use starglyph::solver::{detection_layer, OverlayConfig};
use starglyph::peaks::DetectionCandidate;

fn mask_from(rows: &[&str]) -> (Vec<bool>, usize, usize) {
    let h = rows.len();
    let w = rows[0].len();
    let mut mask = Vec::new();
    for r in rows {
        for c in r.chars() {
            mask.push(c == '#');
        }
    }
    (mask, w, h)
}

fn sorted_blobs(mask: &[bool], w: usize, h: usize) -> Vec<Vec<(i32, i32)>> {
    let mut blobs: Vec<Vec<(i32, i32)>> = label_components(mask, w, h)
        .into_iter()
        .map(|b| {
            let mut p = b.pixels.clone();
            p.sort();
            p
        })
        .collect();
    blobs.sort();
    blobs
}

#[test]
fn components_use_eight_connectivity() {
    let (mask, w, h) = mask_from(&["#..#", ".#..", "...#", "##.."]);
    let blobs = sorted_blobs(&mask, w, h);
    assert_eq!(
        blobs,
        vec![vec![(0, 0), (1, 1)], vec![(0, 3), (1, 3)], vec![(3, 0)], vec![(3, 2)]]
    );
}

#[test]
fn components_report_bounding_boxes() {
    let (mask, w, h) = mask_from(&["......", ".##...", "..#...", "..##..", "......"]);
    let blobs = label_components(&mask, w, h);
    assert_eq!(blobs.len(), 1);
    let b = &blobs[0];
    assert_eq!((b.min_x, b.min_y, b.max_x, b.max_y), (1, 1, 3, 3));
    assert_eq!(b.pixels.len(), 5);
}

#[test]
fn empty_and_full_masks() {
    let (mask, w, h) = mask_from(&["...", "..."]);
    assert!(label_components(&mask, w, h).is_empty());
    let (mask, w, h) = mask_from(&["###", "###"]);
    let blobs = label_components(&mask, w, h);
    assert_eq!(blobs.len(), 1);
    assert_eq!(blobs[0].pixels.len(), 6);
    assert!(label_components(&[], 0, 0).is_empty());
}

#[test]
fn every_lit_pixel_in_exactly_one_blob() {
    let (mask, w, h) = mask_from(&["#.#.#.#", ".......", "#.#.#.#", "##...##"]);
    let blobs = label_components(&mask, w, h);
    let mut seen = vec![0u32; w * h];
    for b in &blobs {
        for &(x, y) in &b.pixels {
            seen[y as usize * w + x as usize] += 1;
        }
    }
    for i in 0..w * h {
        assert_eq!(seen[i], if mask[i] { 1 } else { 0 });
    }
}

#[test]
fn gray_to_rgb_copies_each_value() {
    let mut g = GrayImage::new(2, 2);
    g.put_pixel(1, 0, 77);
    let rgb = gray_to_rgb(&g);
    assert_eq!(rgb.get_pixel(1, 0), [77, 77, 77]);
    assert_eq!(rgb.get_pixel(0, 1), [0, 0, 0]);
}

#[test]
fn put_pixel_safe_ignores_outside_pixels() {
    let mut rgb = gray_to_rgb(&GrayImage::new(3, 3));
    put_pixel_safe(&mut rgb, -1, 0, [1, 2, 3]);
    put_pixel_safe(&mut rgb, 3, 0, [1, 2, 3]);
    put_pixel_safe(&mut rgb, 0, 3, [1, 2, 3]);
    assert!(rgb.pixels.iter().all(|p| *p == [0, 0, 0]));
    put_pixel_safe(&mut rgb, 2, 1, [1, 2, 3]);
    assert_eq!(rgb.get_pixel(2, 1), [1, 2, 3]);
}

fn painted(rgb: &RgbImage) -> Vec<(u32, u32)> {
    let mut out = Vec::new();
    for y in 0..rgb.height {
        for x in 0..rgb.width {
            if rgb.get_pixel(x, y) != [0, 0, 0] {
                out.push((x, y));
            }
        }
    }
    out
}

#[test]
fn circle_fills_the_disc() {
    let mut rgb = gray_to_rgb(&GrayImage::new(7, 7));
    draw_circle(&mut rgb, 3, 3, 1, [255, 0, 0]);
    assert_eq!(painted(&rgb), vec![(3, 2), (2, 3), (3, 3), (4, 3), (3, 4)]);
    let mut rgb = gray_to_rgb(&GrayImage::new(7, 7));
    draw_circle(&mut rgb, 0, 0, 2, [255, 0, 0]);
    assert_eq!(painted(&rgb), vec![(0, 0), (1, 0), (2, 0), (0, 1), (1, 1), (0, 2)]);
    let mut rgb = gray_to_rgb(&GrayImage::new(7, 7));
    draw_circle(&mut rgb, 3, 3, -1, [255, 0, 0]);
    assert!(painted(&rgb).is_empty());
}

#[test]
fn line_runs_between_end_points() {
    let mut rgb = gray_to_rgb(&GrayImage::new(8, 8));
    draw_line(&mut rgb, 0, 0, 7, 3, [0, 255, 0]);
    let p = painted(&rgb);
    assert_eq!(p.len(), 8);
    assert!(p.contains(&(0, 0)) && p.contains(&(7, 3)));
    assert_eq!(p, vec![(0, 0), (1, 0), (2, 1), (3, 1), (4, 2), (5, 2), (6, 3), (7, 3)]);
    let mut rgb = gray_to_rgb(&GrayImage::new(4, 4));
    draw_line(&mut rgb, 0, 0, 2, 1, [0, 255, 0]);
    assert_eq!(painted(&rgb), vec![(0, 0), (1, 1), (2, 1)]);
    let mut rgb = gray_to_rgb(&GrayImage::new(8, 8));
    draw_line(&mut rgb, 2, 6, 2, 1, [0, 255, 0]);
    assert_eq!(painted(&rgb), vec![(2, 1), (2, 2), (2, 3), (2, 4), (2, 5), (2, 6)]);
    let mut rgb = gray_to_rgb(&GrayImage::new(8, 8));
    draw_line(&mut rgb, 5, 5, 5, 5, [0, 255, 0]);
    assert_eq!(painted(&rgb), vec![(5, 5)]);
    let mut rgb = gray_to_rgb(&GrayImage::new(4, 4));
    draw_line(&mut rgb, -3, -3, 6, 6, [0, 255, 0]);
    assert_eq!(painted(&rgb), vec![(0, 0), (1, 1), (2, 2), (3, 3)]);
}

#[test]
fn local_maximum_compares_all_neighbours() {
    let mut g = GrayImage::new(3, 3);
    g.put_pixel(1, 1, 50);
    assert!(is_local_maximum(&g, 1, 1, 50));
    g.put_pixel(2, 2, 51);
    assert!(!is_local_maximum(&g, 1, 1, 50));
    g.put_pixel(2, 2, 50);
    assert!(is_local_maximum(&g, 1, 1, 50));
}

#[test]
fn deterministic_detection_order_for_fixed_image() {
    let mut image = GrayImage::new(16, 16);
    image.put_pixel(4, 4, 180);
    image.put_pixel(12, 8, 200);
    image.put_pixel(7, 13, 190);

    let config = DetectionConfig {
        min_peak_value: 20,
        non_max_radius_px: 1,
        max_candidates: 10,
    };

    let first = detect_stars(&image, &config);
    let second = detect_stars(&image, &config);
    assert_eq!(first.len(), 3);
    assert_eq!(first[0].x_px, 12);
    assert_eq!(first, second);
}

#[test]
fn detection_ranks_suppresses_and_caps() {
    let mut image = GrayImage::new(12, 6);
    image.put_pixel(2, 2, 100);
    image.put_pixel(3, 3, 90);
    image.put_pixel(8, 2, 100);
    image.put_pixel(9, 4, 10);
    let config = DetectionConfig { min_peak_value: 20, non_max_radius_px: 2, max_candidates: 10 };
    let c = detect_stars(&image, &config);
    assert_eq!(
        c,
        vec![
            DetectionCandidate { x_px: 2, y_px: 2, intensity: 100, rank: 1 },
            DetectionCandidate { x_px: 8, y_px: 2, intensity: 100, rank: 2 },
        ]
    );
    let capped = detect_stars(
        &image,
        &DetectionConfig { min_peak_value: 20, non_max_radius_px: 0, max_candidates: 1 },
    );
    assert_eq!(capped.len(), 1);
    assert_eq!((capped[0].x_px, capped[0].y_px), (2, 2));
}

#[test]
fn peaks_sort_and_suppression_steps() {
    let mut image = GrayImage::new(5, 5);
    image.put_pixel(1, 1, 40);
    image.put_pixel(3, 3, 60);
    let raw = peak_candidates(&image, 30);
    assert_eq!(raw, vec![(1, 1, 40), (3, 3, 60)]);
    let sorted = sort_candidates(raw);
    assert_eq!(sorted, vec![(3, 3, 60), (1, 1, 40)]);
    assert_eq!(suppress_candidates(&sorted, 3, 5), vec![(3, 3, 60)]);
    assert_eq!(suppress_candidates(&sorted, 2, 5), sorted);
    assert!(peak_candidates(&image, 61).is_empty());
}

#[test]
fn detection_layer_marks_candidates() {
    let mut image = GrayImage::new(5, 5);
    image.put_pixel(0, 4, 9);
    let cands = vec![DetectionCandidate { x_px: 2, y_px: 2, intensity: 200, rank: 1 }];
    let layer = detection_layer(&image, &cands, &OverlayConfig { detection_marker_radius_px: 1 });
    assert_eq!(layer.get_pixel(2, 2), [255, 220, 0]);
    assert_eq!(layer.get_pixel(2, 1), [255, 220, 0]);
    assert_eq!(layer.get_pixel(1, 1), [0, 0, 0]);
    assert_eq!(layer.get_pixel(0, 4), [9, 9, 9]);
    assert_eq!(OverlayConfig::default().detection_marker_radius_px, 3);
}
