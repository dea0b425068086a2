use image::{DynamicImage, GenericImageView, RgbaImage};
use pixel_glitch::pixel::Pixel;
use pixel_glitch::raster::{LumaRaster, Raster, RasterError};

fn numbered(width: u32, height: u32) -> Raster {
    let mut data = Vec::new();
    for i in 0..(width * height) {
        let v = i as u8;
        data.extend_from_slice(&[v, v.wrapping_add(100), v.wrapping_mul(3), 255 - v]);
    }
    Raster::from_raw(width, height, data).unwrap()
}

fn cell(i: u8) -> Pixel {
    Pixel { r: i, g: i.wrapping_add(100), b: i.wrapping_mul(3), a: 255 - i }
}

fn cells(img: &Raster) -> Vec<Vec<u8>> {
    let mut rows = Vec::new();
    for y in 0..img.height() {
        let mut row = Vec::new();
        for x in 0..img.width() {
            row.push(img.get_pixel(x, y).r);
        }
        rows.push(row);
    }
    rows
}

#[test]
fn new_raster_is_transparent_black() {
    let img = Raster::new(3, 2);
    assert_eq!(img.dimensions(), (3, 2));
    assert_eq!(img.width(), 3);
    assert_eq!(img.height(), 2);
    assert_eq!(img.to_vec(), vec![0u8; 24]);
    assert_eq!(img.get_pixel(2, 1), Pixel { r: 0, g: 0, b: 0, a: 0 });
}

#[test]
fn new_raster_may_be_empty() {
    let img = Raster::new(0, 5);
    assert_eq!(img.dimensions(), (0, 5));
    assert_eq!(img.into_raw(), Vec::<u8>::new());
}

#[test]
fn from_raw_takes_a_buffer_of_the_right_length() {
    let data: Vec<u8> = (0..24).collect();
    let img = Raster::from_raw(2, 3, data.clone()).unwrap();
    assert_eq!(img.dimensions(), (2, 3));
    assert_eq!(img.to_vec(), data);
    assert_eq!(img.into_raw(), data);
}

#[test]
fn from_raw_refuses_a_short_buffer() {
    let out = Raster::from_raw(2, 3, vec![0u8; 23]);
    assert_eq!(out.err(), Some(RasterError::ShapeMismatch));
}

#[test]
fn from_raw_refuses_a_long_buffer() {
    let out = Raster::from_raw(2, 3, vec![0u8; 25]);
    assert_eq!(out.err(), Some(RasterError::ShapeMismatch));
}

#[test]
fn from_raw_refuses_dimensions_too_large_for_any_buffer() {
    let out = Raster::from_raw(u32::MAX, u32::MAX, vec![0u8; 4]);
    assert_eq!(out.err(), Some(RasterError::ShapeMismatch));
}

#[test]
fn get_pixel_reads_four_bytes_row_by_row() {
    let data: Vec<u8> = (0..24).collect();
    let img = Raster::from_raw(3, 2, data).unwrap();
    assert_eq!(img.get_pixel(0, 0), Pixel { r: 0, g: 1, b: 2, a: 3 });
    assert_eq!(img.get_pixel(2, 0), Pixel { r: 8, g: 9, b: 10, a: 11 });
    assert_eq!(img.get_pixel(0, 1), Pixel { r: 12, g: 13, b: 14, a: 15 });
    assert_eq!(img.get_pixel(2, 1), Pixel { r: 20, g: 21, b: 22, a: 23 });
}

#[test]
fn put_pixel_writes_one_pixel_only() {
    let mut img = Raster::new(3, 2);
    img.put_pixel(1, 1, Pixel { r: 9, g: 8, b: 7, a: 6 });
    let mut want = vec![0u8; 24];
    want[16..20].copy_from_slice(&[9, 8, 7, 6]);
    assert_eq!(img.to_vec(), want);
    assert_eq!(img.get_pixel(1, 1), Pixel { r: 9, g: 8, b: 7, a: 6 });
}

#[test]
fn clone_holds_the_same_bytes() {
    let img = numbered(4, 3);
    let copy = img.clone();
    assert_eq!(copy.dimensions(), (4, 3));
    assert_eq!(copy.to_vec(), img.to_vec());
}

#[test]
fn to_luma8_weighs_each_pixel() {
    let data = vec![255, 0, 0, 255, 0, 255, 0, 255, 0, 0, 255, 255, 10, 20, 30, 40];
    let img = Raster::from_raw(2, 2, data).unwrap();
    let grey = img.to_luma8();
    assert_eq!(grey.dimensions(), (2, 2));
    assert_eq!(grey.get_pixel(0, 0), 54);
    assert_eq!(grey.get_pixel(1, 0), 182);
    assert_eq!(grey.get_pixel(0, 1), 18);
    assert_eq!(grey.get_pixel(1, 1), 18);
    assert_eq!(grey.into_raw(), vec![54, 182, 18, 18]);
}

#[test]
fn luma_raster_from_raw_checks_the_length() {
    let ok = LumaRaster::from_raw(3, 2, vec![1, 2, 3, 4, 5, 6]).unwrap();
    assert_eq!(ok.width(), 3);
    assert_eq!(ok.height(), 2);
    assert_eq!(ok.get_pixel(2, 0), 3);
    assert_eq!(ok.get_pixel(0, 1), 4);
    assert_eq!(LumaRaster::from_raw(3, 2, vec![0u8; 5]).err(), Some(RasterError::ShapeMismatch));
    assert_eq!(LumaRaster::from_raw(3, 2, vec![0u8; 7]).err(), Some(RasterError::ShapeMismatch));
}

#[test]
fn rotate90_turns_clockwise() {
    // 0 1 2
    // 3 4 5
    let img = numbered(3, 2);
    let turned = img.rotate90();
    assert_eq!(turned.dimensions(), (2, 3));
    assert_eq!(cells(&turned), vec![vec![3, 0], vec![4, 1], vec![5, 2]]);
    assert_eq!(turned.get_pixel(0, 0), cell(3));
}

#[test]
fn rotate270_turns_counterclockwise() {
    // 0 1 2
    // 3 4 5
    let img = numbered(3, 2);
    let turned = img.rotate270();
    assert_eq!(turned.dimensions(), (2, 3));
    assert_eq!(cells(&turned), vec![vec![2, 5], vec![1, 4], vec![0, 3]]);
    assert_eq!(turned.get_pixel(1, 2), cell(3));
}

#[test]
fn rotate90_then_rotate270_restores_every_pixel() {
    for (w, h) in [(1u32, 1u32), (1, 7), (7, 1), (5, 3), (4, 4), (0, 3), (3, 0)] {
        let img = numbered(w, h);
        let back = img.rotate90().rotate270();
        assert_eq!(back.dimensions(), (w, h));
        assert_eq!(back.to_vec(), img.to_vec());
        let forth = img.rotate270().rotate90();
        assert_eq!(forth.dimensions(), (w, h));
        assert_eq!(forth.to_vec(), img.to_vec());
    }
}

#[test]
fn crop_imm_copies_a_rectangle() {
    //  0  1  2  3
    //  4  5  6  7
    //  8  9 10 11
    let img = numbered(4, 3);
    let cut = img.crop_imm(1, 1, 2, 2);
    assert_eq!(cut.dimensions(), (2, 2));
    assert_eq!(cells(&cut), vec![vec![5, 6], vec![9, 10]]);
    assert_eq!(cut.get_pixel(1, 1), cell(10));
}

#[test]
fn crop_imm_cuts_the_extent_to_the_image() {
    let img = numbered(4, 3);
    let cut = img.crop_imm(2, 1, 10, 10);
    assert_eq!(cut.dimensions(), (2, 2));
    assert_eq!(cells(&cut), vec![vec![6, 7], vec![10, 11]]);
}

#[test]
fn crop_imm_beyond_the_image_is_empty() {
    let img = numbered(4, 3);
    let cut = img.crop_imm(9, 9, 2, 2);
    assert_eq!(cut.dimensions(), (0, 0));
    assert_eq!(cut.to_vec(), Vec::<u8>::new());
    let thin = img.crop_imm(4, 1, 2, 2);
    assert_eq!(thin.dimensions(), (0, 2));
}

#[test]
fn crop_imm_of_nothing_keeps_the_other_extent() {
    let img = numbered(4, 3);
    let cut = img.crop_imm(1, 1, 0, 2);
    assert_eq!(cut.dimensions(), (0, 2));
    let flat = img.crop_imm(1, 1, 2, 0);
    assert_eq!(flat.dimensions(), (2, 0));
}

#[test]
fn copy_from_writes_the_whole_source() {
    let mut img = Raster::new(4, 3);
    let src = numbered(2, 2);
    assert_eq!(img.copy_from(&src, 1, 1), Ok(()));
    assert_eq!(img.dimensions(), (4, 3));
    assert_eq!(cells(&img), vec![vec![0, 0, 0, 0], vec![0, 0, 1, 0], vec![0, 2, 3, 0]]);
    assert_eq!(img.get_pixel(1, 1), cell(0));
    assert_eq!(img.get_pixel(2, 2), cell(3));
    assert_eq!(img.get_pixel(0, 0), Pixel { r: 0, g: 0, b: 0, a: 0 });
}

#[test]
fn copy_from_refuses_a_source_that_sticks_out() {
    let mut img = numbered(4, 3);
    let before = img.to_vec();
    let src = Raster::new(2, 2);
    assert_eq!(img.copy_from(&src, 3, 0), Err(RasterError::OutOfBounds));
    assert_eq!(img.copy_from(&src, 0, 2), Err(RasterError::OutOfBounds));
    assert_eq!(img.copy_from(&src, u32::MAX, 0), Err(RasterError::OutOfBounds));
    assert_eq!(img.to_vec(), before);
    assert_eq!(img.copy_from(&src, 2, 1), Ok(()));
}

#[test]
fn paste_writes_the_source_at_its_place() {
    let mut img = Raster::new(4, 3);
    let src = numbered(2, 2);
    img.paste(&src, 2, 0);
    assert_eq!(cells(&img), vec![vec![0, 0, 0, 1], vec![0, 0, 2, 3], vec![0, 0, 0, 0]]);
    assert_eq!(img.get_pixel(2, 0), cell(0));
}

#[test]
fn paste_drops_what_falls_outside() {
    let mut img = Raster::new(4, 3);
    let src = numbered(3, 3);
    // 0 1 2
    // 3 4 5
    // 6 7 8
    img.paste(&src, 2, 1);
    assert_eq!(img.dimensions(), (4, 3));
    assert_eq!(cells(&img), vec![vec![0, 0, 0, 0], vec![0, 0, 0, 1], vec![0, 0, 3, 4]]);
    assert_eq!(img.get_pixel(2, 1), cell(0));
}

#[test]
fn paste_wholly_outside_changes_nothing() {
    let mut img = numbered(4, 3);
    let before = img.to_vec();
    let src = Raster::new(2, 2);
    img.paste(&src, 4, 0);
    img.paste(&src, 0, 3);
    img.paste(&src, u32::MAX, u32::MAX);
    assert_eq!(img.to_vec(), before);
}

fn speckled(width: u32, height: u32, seed: u64) -> Vec<u8> {
    let mut s = seed;
    let mut data = Vec::new();
    for _ in 0..(width * height * 4) {
        s = s.wrapping_mul(6364136223846793005).wrapping_add(1442695040888963407);
        data.push((s >> 33) as u8);
    }
    data
}

#[test]
fn raster_reads_a_buffer_as_the_image_crate_does() {
    let data = speckled(7, 5, 1);
    let ours = Raster::from_raw(7, 5, data.clone()).unwrap();
    let theirs = RgbaImage::from_raw(7, 5, data).unwrap();
    for y in 0..5 {
        for x in 0..7 {
            let p = ours.get_pixel(x, y);
            assert_eq!([p.r, p.g, p.b, p.a], theirs.get_pixel(x, y).0);
        }
    }
}

#[test]
fn to_luma8_agrees_with_the_image_crate() {
    for seed in 0..20u64 {
        let (w, h) = (1 + (seed % 9) as u32, 1 + (seed % 5) as u32);
        let data = speckled(w, h, seed);
        let ours = Raster::from_raw(w, h, data.clone()).unwrap().to_luma8();
        let theirs = DynamicImage::ImageRgba8(RgbaImage::from_raw(w, h, data).unwrap()).to_luma8();
        assert_eq!(ours.dimensions(), theirs.dimensions());
        assert_eq!(ours.into_raw(), theirs.into_raw());
    }
}

#[test]
fn turns_and_crops_agree_with_the_image_crate() {
    for seed in 0..20u64 {
        let (w, h) = (1 + (seed % 9) as u32, 1 + (seed % 5) as u32);
        let data = speckled(w, h, seed + 100);
        let ours = Raster::from_raw(w, h, data.clone()).unwrap();
        let theirs = DynamicImage::ImageRgba8(RgbaImage::from_raw(w, h, data).unwrap());

        let turned = theirs.rotate90();
        assert_eq!(ours.rotate90().dimensions(), turned.dimensions());
        assert_eq!(ours.rotate90().into_raw(), turned.into_rgba8().into_raw());

        let back = theirs.rotate270();
        assert_eq!(ours.rotate270().dimensions(), back.dimensions());
        assert_eq!(ours.rotate270().into_raw(), back.into_rgba8().into_raw());

        let (x, y, cw, ch) = ((seed % 4) as u32, (seed % 3) as u32, (seed % 7) as u32, (seed % 6) as u32);
        let cut = theirs.crop_imm(x, y, cw, ch);
        assert_eq!(ours.crop_imm(x, y, cw, ch).dimensions(), cut.dimensions());
        assert_eq!(ours.crop_imm(x, y, cw, ch).into_raw(), cut.into_rgba8().into_raw());
    }
}
