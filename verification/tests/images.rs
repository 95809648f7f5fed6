use obamify::preset::UnprocessedPreset;
use obamify::rgb::{crop_to_side, load_rgb8, load_weights, target_weights, RgbBuffer};

fn ramp(w: u32, h: u32) -> Vec<u8> {
    (0..(3 * w * h)).map(|i| (i % 251) as u8).collect()
}

#[test]
fn from_raw_needs_enough_bytes() {
    assert!(RgbBuffer::from_raw(2, 2, vec![0; 11]).is_none());
    let img = RgbBuffer::from_raw(2, 2, vec![7; 12]).unwrap();
    assert_eq!(img.dimensions(), (2, 2));
    let longer = RgbBuffer::from_raw(2, 1, vec![1; 10]).unwrap();
    assert_eq!((longer.width(), longer.height()), (2, 1));
    assert_eq!(longer.into_raw().len(), 10);
    assert!(RgbBuffer::from_raw(0, 5, Vec::new()).is_some());
    assert!(RgbBuffer::from_raw(u32::MAX, u32::MAX, vec![0; 3]).is_none());
}

#[test]
fn pixel_triples_row_by_row() {
    let img = RgbBuffer::from_raw(2, 1, vec![1, 2, 3, 4, 5, 6, 99]).unwrap();
    assert_eq!(img.pixel_triples(), vec![(1, 2, 3), (4, 5, 6)]);
}

#[test]
fn crop_takes_the_window() {
    let img = RgbBuffer::from_raw(3, 3, ramp(3, 3)).unwrap();
    let c = img.crop(1, 1, 2, 2);
    assert_eq!(c.dimensions(), (2, 2));
    let full = img.pixel_triples();
    assert_eq!(c.pixel_triples(), vec![full[4], full[5], full[7], full[8]]);
}

#[test]
fn crop_is_clamped_to_the_image() {
    let img = RgbBuffer::from_raw(3, 2, ramp(3, 2)).unwrap();
    let c = img.crop(2, 1, 5, 5);
    assert_eq!(c.dimensions(), (1, 1));
    assert_eq!(c.pixel_triples(), vec![img.pixel_triples()[5]]);
    let empty = img.crop(9, 9, 2, 2);
    assert_eq!(empty.dimensions(), (0, 0));
}

#[test]
fn full_crop_is_identity() {
    let img = RgbBuffer::from_raw(4, 3, ramp(4, 3)).unwrap();
    let c = img.crop(0, 0, 4, 3);
    assert_eq!(c.into_raw(), ramp(4, 3));
}

#[test]
fn crop_to_side_without_resize() {
    let img = RgbBuffer::from_raw(4, 4, ramp(4, 4)).unwrap();
    let out = crop_to_side(&img, 1, 0, 2, 2);
    assert_eq!(out.dimensions(), (2, 2));
    let full = img.pixel_triples();
    assert_eq!(out.pixel_triples(), vec![full[1], full[2], full[5], full[6]]);
}

#[test]
fn crop_to_side_resizes_to_sidelen() {
    let img = RgbBuffer::from_raw(4, 4, vec![200; 48]).unwrap();
    let out = crop_to_side(&img, 0, 0, 4, 8);
    assert_eq!(out.dimensions(), (8, 8));
    let px = out.pixel_triples();
    assert_eq!(px.len(), 64);
    // a flat image stays flat under resampling
    assert!(px.iter().all(|&(r, g, b)| r == 200 && g == 200 && b == 200));
}

#[test]
fn crop_to_side_of_an_empty_crop_is_black() {
    let img = RgbBuffer::from_raw(3, 2, ramp(3, 2)).unwrap();
    let out = crop_to_side(&img, 9, 9, 2, 3);
    assert_eq!(out.dimensions(), (3, 3));
    assert_eq!(out.into_raw(), vec![0; 27]);
}

#[test]
fn crop_to_side_keeps_a_crop_already_of_sidelen() {
    let img = RgbBuffer::from_raw(4, 3, ramp(4, 3)).unwrap();
    let out = crop_to_side(&img, 2, 1, 5, 2);
    assert_eq!(out.dimensions(), (2, 2));
    let full = img.pixel_triples();
    assert_eq!(out.pixel_triples(), vec![full[6], full[7], full[10], full[11]]);
}

#[test]
fn raw_bytes_rebuild_the_image() {
    let img = RgbBuffer::from_raw(3, 2, ramp(3, 2)).unwrap();
    let (w, h) = img.dimensions();
    let back = RgbBuffer::from_raw(w, h, img.into_raw()).unwrap();
    assert_eq!(back.dimensions(), (3, 2));
    assert_eq!(back.into_raw(), ramp(3, 2));
}

#[test]
fn load_weights_reads_the_red_channel() {
    let img = RgbBuffer::from_raw(2, 2, vec![10, 0, 0, 20, 1, 1, 30, 2, 2, 40, 3, 3]).unwrap();
    assert_eq!(load_weights(img), vec![10, 20, 30, 40]);
}

#[test]
fn target_weights_uniform_for_custom_target() {
    let w = target_weights(3, None);
    assert_eq!(w, vec![255; 9]);
    let img = RgbBuffer::from_raw(1, 2, vec![9, 9, 9, 8, 8, 8]).unwrap();
    assert_eq!(target_weights(3, Some(img)), vec![9, 8]);
}

#[test]
fn load_rgb8_decodes_png() {
    let src = image::RgbImage::from_raw(2, 2, vec![1, 2, 3, 4, 5, 6, 7, 8, 9, 10, 11, 12]).unwrap();
    let mut bytes = std::io::Cursor::new(Vec::new());
    src.write_to(&mut bytes, image::ImageFormat::Png).unwrap();
    let img = load_rgb8(bytes.get_ref()).ok().unwrap();
    assert_eq!(img.dimensions(), (2, 2));
    assert_eq!(img.into_raw(), vec![1, 2, 3, 4, 5, 6, 7, 8, 9, 10, 11, 12]);
}

#[test]
fn load_rgb8_rejects_garbage() {
    assert!(load_rgb8(&[1, 2, 3, 4]).is_err());
}

#[test]
fn preset_into_image() {
    let p = UnprocessedPreset { name: "x".to_string(), width: 1, height: 1, source_img: vec![1, 2, 3] };
    let img = p.clone().into_image().unwrap();
    assert_eq!(img.pixel_triples(), vec![(1, 2, 3)]);
    let short = UnprocessedPreset { source_img: vec![1, 2], ..p };
    assert!(short.into_image().is_none());
}
