use rtgx::color::u8_rgb_color;
use rtgx::render::intensity_to_gray;

#[test]
fn rgb_packs_channels() {
    assert_eq!(u8_rgb_color(255, 128, 64), 0x00FF_8040);
    assert_eq!(u8_rgb_color(0, 0, 0), 0);
    assert_eq!(u8_rgb_color(255, 255, 255), 0x00FF_FFFF);
    assert_eq!(u8_rgb_color(1, 2, 3), 0x0001_0203);
}

#[test]
fn gray_full_intensity_is_white() {
    // dot of two unit vectors at full alignment: SCALE * SCALE
    assert_eq!(intensity_to_gray(1_000_000_000_000), 255);
}

#[test]
fn gray_zero_and_negative_clamp_to_black() {
    assert_eq!(intensity_to_gray(0), 0);
    assert_eq!(intensity_to_gray(-500_000_000_000), 0);
}

#[test]
fn gray_half_intensity() {
    // 0.5 * 255 = 127.5, rounded down
    assert_eq!(intensity_to_gray(500_000_000_000), 127);
}

#[test]
fn gray_overbright_clamps_to_white() {
    assert_eq!(intensity_to_gray(3_000_000_000_000), 255);
}
