use pixel_glitch::pixel::Pixel;

#[test]
fn luma_of_primaries_follows_the_weights() {
    assert_eq!(Pixel { r: 255, g: 0, b: 0, a: 255 }.luma(), 54);
    assert_eq!(Pixel { r: 0, g: 255, b: 0, a: 255 }.luma(), 182);
    assert_eq!(Pixel { r: 0, g: 0, b: 255, a: 255 }.luma(), 18);
}

#[test]
fn luma_of_white_is_full_and_of_black_is_zero() {
    assert_eq!(Pixel { r: 255, g: 255, b: 255, a: 0 }.luma(), 255);
    assert_eq!(Pixel { r: 0, g: 0, b: 0, a: 255 }.luma(), 0);
}

#[test]
fn luma_rounds_down() {
    assert_eq!(Pixel { r: 10, g: 20, b: 30, a: 40 }.luma(), 18);
}

#[test]
fn luma_of_grey_is_the_grey_value() {
    for v in 0..=255u8 {
        assert_eq!(Pixel { r: v, g: v, b: v, a: 7 }.luma(), v);
    }
}

#[test]
fn luma_ignores_alpha() {
    let opaque = Pixel { r: 12, g: 200, b: 99, a: 255 };
    let clear = Pixel { r: 12, g: 200, b: 99, a: 0 };
    assert_eq!(opaque.luma(), clear.luma());
}
