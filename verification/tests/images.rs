use bot7685_ext::wplace::compare::wplace_template_compare;
use bot7685_ext::wplace::image_compose::{check_canvas_size, check_tile, wplace_compose_tiles, wplace_compose_tiles_checked};
use bot7685_ext::wplace::overlay::{overlay_pixels, wplace_template_overlay};
use bot7685_ext::wplace::raster::{load_image, to_png_bytes, Raster, WplaceError};

fn png(width: u32, height: u32, pixels: &[[u8; 4]]) -> Vec<u8> {
    let data: Vec<u8> = pixels.iter().flat_map(|p| p.iter().copied()).collect();
    let img = image::RgbaImage::from_raw(width, height, data).unwrap();
    let mut out = Vec::new();
    img.write_to(&mut std::io::Cursor::new(&mut out), image::ImageFormat::Png).unwrap();
    out
}

fn decode(bytes: &[u8]) -> (u32, u32, Vec<u8>) {
    let img = image::load_from_memory(bytes).unwrap().to_rgba8();
    let (w, h) = img.dimensions();
    (w, h, img.into_raw())
}

fn pixel(data: &[u8], width: u32, x: u32, y: u32) -> [u8; 4] {
    let i = 4 * (y * width + x) as usize;
    [data[i], data[i + 1], data[i + 2], data[i + 3]]
}

const RED: [u8; 4] = [237, 28, 36, 255];
const BLUE: [u8; 4] = [64, 147, 228, 255];
const GREEN: [u8; 4] = [19, 230, 123, 255];
const CLEAR: [u8; 4] = [0, 0, 0, 0];

#[test]
fn load_and_encode_round_trip() {
    let bytes = png(2, 1, &[RED, BLUE]);
    let img = load_image(&bytes).unwrap();
    assert_eq!((img.width, img.height), (2, 1));
    assert_eq!(img.pixels, vec![237, 28, 36, 255, 64, 147, 228, 255]);
    let again = to_png_bytes(&img).unwrap();
    assert_eq!(decode(&again), (2, 1, img.pixels.clone()));
}

#[test]
fn load_rejects_garbage() {
    assert!(matches!(load_image(&[1, 2, 3, 4]), Err(WplaceError::Load(_))));
}

#[test]
fn encode_rejects_empty_raster() {
    let img = Raster { width: 0, height: 0, pixels: Vec::new() };
    assert!(matches!(to_png_bytes(&img), Err(WplaceError::Encode(_))));
}

#[test]
fn overlay_marks_differing_pixels() {
    let template = png(3, 1, &[RED, CLEAR, BLUE]);
    let actual = png(3, 1, &[BLUE, GREEN, [64, 147, 228, 0]]);
    let out = wplace_template_overlay(&template, &actual, 128).unwrap();
    let (w, h, data) = decode(&out);
    assert_eq!((w, h), (3, 1));
    assert_eq!(pixel(&data, w, 0, 0), [237, 28, 36, 128]);
    assert_eq!(pixel(&data, w, 1, 0), GREEN);
    assert_eq!(pixel(&data, w, 2, 0), [64, 147, 228, 128]);
}

#[test]
fn overlay_of_an_image_on_itself_changes_nothing() {
    let img = png(2, 2, &[RED, CLEAR, BLUE, GREEN]);
    let out = wplace_template_overlay(&img, &img, 7).unwrap();
    assert_eq!(decode(&out), decode(&img));
}

#[test]
fn overlay_errors() {
    let a = png(2, 1, &[RED, RED]);
    let b = png(1, 2, &[RED, RED]);
    assert!(matches!(wplace_template_overlay(&a, &b, 1), Err(WplaceError::DimensionMismatch)));
    assert!(matches!(wplace_template_overlay(&[0u8; 3], &b, 1), Err(WplaceError::Load(_))));
    assert!(matches!(wplace_template_overlay(&a, &[9u8; 5], 1), Err(WplaceError::Load(_))));
}

#[test]
fn overlay_pixels_directly() {
    let t = vec![1, 2, 3, 255, 9, 9, 9, 0];
    let a = vec![1, 2, 3, 0, 5, 5, 5, 5];
    assert_eq!(overlay_pixels(&t, a, 60), vec![1, 2, 3, 60, 5, 5, 5, 5]);
}

#[test]
fn compare_counts_per_color() {
    let template = png(3, 2, &[RED, RED, BLUE, CLEAR, RED, [63, 148, 227, 255]]);
    let actual = png(3, 2, &[RED, BLUE, BLUE, GREEN, [237, 28, 36, 0], BLUE]);
    let entries = wplace_template_compare(&template, &actual, true).unwrap();
    assert_eq!(entries.len(), 2);
    assert_eq!(entries[0].name, "Red");
    assert_eq!(entries[0].total, 3);
    assert_eq!(entries[0].count, 2);
    assert_eq!(entries[0].pixels, vec![(1, 0), (1, 1)]);
    assert_eq!(entries[1].name, "Blue");
    assert_eq!(entries[1].total, 2);
    assert_eq!(entries[1].count, 1);
    assert_eq!(entries[1].pixels, vec![(2, 1)]);
    let without = wplace_template_compare(&template, &actual, false).unwrap();
    assert_eq!(without.len(), 2);
    assert!(without[0].pixels.is_empty() && without[1].pixels.is_empty());
    assert_eq!((without[0].count, without[1].count), (2, 1));
}

#[test]
fn compare_orders_equal_totals_by_name() {
    let template = png(2, 1, &[RED, BLUE]);
    let entries = wplace_template_compare(&template, &template, true).unwrap();
    let names: Vec<&str> = entries.iter().map(|e| e.name).collect();
    assert_eq!(names, vec!["Blue", "Red"]);
    assert!(entries.iter().all(|e| e.count == 0 && e.total == 1));
}

#[test]
fn compare_errors() {
    let a = png(2, 1, &[RED, RED]);
    let b = png(1, 1, &[RED]);
    assert!(matches!(wplace_template_compare(&a, &b, true), Err(WplaceError::DimensionMismatch)));
    assert!(matches!(wplace_template_compare(&[1u8], &b, true), Err(WplaceError::Load(_))));
}

#[test]
fn compose_places_tiles() {
    let t0 = png(2, 2, &[RED, BLUE, GREEN, CLEAR]);
    let t1 = png(2, 2, &[BLUE, BLUE, BLUE, BLUE]);
    let imgs = vec![((0, 0), t0), ((1, 0), t1)];
    let out = wplace_compose_tiles(imgs, (0, 0, 0, 0), (1, 0, 1, 1), Some((1, 2, 3))).unwrap();
    let (w, h, data) = decode(&out);
    assert_eq!((w, h), (1002, 2));
    assert_eq!(pixel(&data, w, 0, 0), RED);
    assert_eq!(pixel(&data, w, 1, 0), BLUE);
    assert_eq!(pixel(&data, w, 0, 1), GREEN);
    assert_eq!(pixel(&data, w, 1, 1), [1, 2, 3, 255]);
    assert_eq!(pixel(&data, w, 500, 1), [1, 2, 3, 255]);
    assert_eq!(pixel(&data, w, 1000, 0), BLUE);
    assert_eq!(pixel(&data, w, 1001, 1), BLUE);
}

#[test]
fn compose_crops_the_first_tile() {
    let t0 = png(3, 3, &[RED, RED, RED, RED, GREEN, BLUE, RED, BLUE, GREEN]);
    let out = wplace_compose_tiles(vec![((5, 7), t0)], (5, 7, 1, 1), (5, 7, 2, 2), None).unwrap();
    let (w, h, data) = decode(&out);
    assert_eq!((w, h), (2, 2));
    assert_eq!(pixel(&data, w, 0, 0), GREEN);
    assert_eq!(pixel(&data, w, 1, 0), BLUE);
    assert_eq!(pixel(&data, w, 0, 1), BLUE);
    assert_eq!(pixel(&data, w, 1, 1), GREEN);
}

#[test]
fn compose_later_tiles_win_and_transparency_keeps() {
    let a = png(1, 1, &[RED]);
    let b = png(1, 1, &[CLEAR]);
    let c = png(1, 1, &[BLUE]);
    let out = wplace_compose_tiles(vec![((0, 0), a.clone()), ((0, 0), b)], (0, 0, 0, 0), (0, 0, 0, 0), None).unwrap();
    assert_eq!(decode(&out), (1, 1, RED.to_vec()));
    let out = wplace_compose_tiles(vec![((0, 0), a), ((0, 0), c)], (0, 0, 0, 0), (0, 0, 0, 0), None).unwrap();
    assert_eq!(decode(&out), (1, 1, BLUE.to_vec()));
    let out = wplace_compose_tiles(vec![], (0, 0, 0, 0), (0, 0, 0, 0), None).unwrap();
    assert_eq!(decode(&out), (1, 1, CLEAR.to_vec()));
}

#[test]
fn compose_reports_the_first_bad_tile() {
    let good = png(1, 1, &[RED]);
    let r = wplace_compose_tiles(vec![((0, 0), good), ((0, 0), vec![1, 2, 3])], (0, 0, 0, 0), (0, 0, 0, 0), None);
    assert!(matches!(r, Err(WplaceError::Load(_))));
}

#[test]
fn compose_checks_coordinates() {
    assert!(check_canvas_size((0, 0, 0, 0), (1, 1, 999, 999)));
    assert!(!check_canvas_size((1, 0, 0, 0), (0, 0, 0, 0)));
    assert!(!check_canvas_size((0, 0, 5, 0), (0, 0, 4, 0)));
    assert!(check_tile((0, 0), (0, 0, 0, 0), (1, 1, 1, 1)));
    assert!(!check_tile((2, 0), (3, 0, 0, 0), (4, 1, 1, 1)));
    let good = png(1, 1, &[RED]);
    let r = wplace_compose_tiles_checked(vec![((7, 0), good.clone())], (3, 0, 0, 0), (4, 0, 0, 0), None);
    assert!(r.is_some());
    let r = wplace_compose_tiles_checked(vec![((2, 0), good.clone())], (3, 0, 0, 0), (4, 0, 0, 0), None);
    assert!(r.is_none());
    let r = wplace_compose_tiles_checked(vec![((3, 0), vec![0]), ((2, 0), good)], (3, 0, 0, 0), (4, 0, 0, 0), None);
    assert!(matches!(r, Some(Err(WplaceError::Load(_)))));
    let r = wplace_compose_tiles_checked(vec![], (4, 0, 0, 0), (3, 0, 0, 0), None);
    assert!(r.is_none());
}

#[test]
fn compare_after_overlay_finds_nothing_missing() {
    let template = png(3, 1, &[RED, BLUE, CLEAR]);
    let actual = png(3, 1, &[BLUE, CLEAR, GREEN]);
    let before = wplace_template_compare(&template, &actual, false).unwrap();
    assert_eq!(before.iter().map(|e| e.count).sum::<usize>(), 2);
    let overlaid = wplace_template_overlay(&template, &actual, 200).unwrap();
    let after = wplace_template_compare(&template, &overlaid, true).unwrap();
    assert_eq!(after.len(), 2);
    for e in &after {
        assert_eq!(e.count, 0);
        assert!(e.pixels.is_empty());
        assert_eq!(e.total, 1);
    }
    let twice = wplace_template_overlay(&template, &overlaid, 200).unwrap();
    assert_eq!(decode(&twice), decode(&overlaid));
}

#[test]
fn compare_with_itself_finds_nothing_missing() {
    let img = png(2, 2, &[RED, CLEAR, BLUE, RED]);
    let entries = wplace_template_compare(&img, &img, true).unwrap();
    assert_eq!(entries.len(), 2);
    assert_eq!((entries[0].name, entries[0].count, entries[0].total), ("Red", 0, 2));
    assert_eq!((entries[1].name, entries[1].count, entries[1].total), ("Blue", 0, 1));
}
