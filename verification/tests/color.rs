use pixelate::color::{HsvPixel, RgbPixel};
use pixelate::error::PixelateError;
use pixelate::fixed::{floor_div, ONE};

fn hsv(r: u8, g: u8, b: u8) -> (i32, i32, i32) {
    HsvPixel::from(RgbPixel::new(r, g, b)).get()
}

fn rgb(h: i32, s: i32, v: i32) -> Result<(u8, u8, u8), PixelateError> {
    RgbPixel::try_from(HsvPixel::new(h, s, v)).map(|p| p.get())
}

#[test]
fn unit_is_a_million() {
    assert_eq!(ONE, 1_000_000);
}

#[test]
fn floor_div_rounds_down() {
    assert_eq!(floor_div(7, 2), 3);
    assert_eq!(floor_div(-7, 2), -4);
    assert_eq!(floor_div(-8, 2), -4);
    assert_eq!(floor_div(-1, 1000), -1);
    assert_eq!(floor_div(0, 5), 0);
    assert_eq!(floor_div(i128::MIN, 1), i128::MIN);
    assert_eq!(floor_div(i128::MIN, 2), i128::MIN / 2);
}

#[test]
fn primaries_to_hsv() {
    assert_eq!(hsv(255, 0, 0), (0, ONE, ONE));
    assert_eq!(hsv(255, 255, 0), (ONE, ONE, ONE));
    assert_eq!(hsv(0, 255, 0), (2 * ONE, ONE, ONE));
    assert_eq!(hsv(0, 255, 255), (3 * ONE, ONE, ONE));
    assert_eq!(hsv(0, 0, 255), (4 * ONE, ONE, ONE));
    assert_eq!(hsv(255, 0, 255), (5 * ONE, ONE, ONE));
}

#[test]
fn greys_to_hsv() {
    assert_eq!(hsv(0, 0, 0), (0, 0, 0));
    assert_eq!(hsv(255, 255, 255), (0, 0, ONE));
    assert_eq!(hsv(128, 128, 128), (0, 0, 501_960));
}

#[test]
fn hue_formula_in_each_sector() {
    // red on top, green above blue: (g - b) / delta
    assert_eq!(hsv(200, 100, 50), (333_333, 750_000, 784_313));
    // red on top, green below blue: 6 + (g - b) / delta, rounded down
    assert_eq!(hsv(200, 50, 100), (5_666_666, 750_000, 784_313));
    // green on top: 2 + (b - r) / delta
    assert_eq!(hsv(50, 200, 100), (2_333_333, 750_000, 784_313));
    assert_eq!(hsv(100, 200, 50), (1_666_666, 750_000, 784_313));
    // blue on top: 4 + (r - g) / delta
    assert_eq!(hsv(100, 50, 200), (4_333_333, 750_000, 784_313));
    assert_eq!(hsv(50, 100, 200), (3_666_666, 750_000, 784_313));
}

#[test]
fn tied_maximum_goes_to_red_then_green() {
    // red and green tie on top: the red rule applies
    assert_eq!(hsv(200, 200, 0).0, ONE);
    // red and blue tie on top: the red rule applies, below the wrap
    assert_eq!(hsv(200, 0, 200).0, 5 * ONE);
    // green and blue tie on top: the green rule applies
    assert_eq!(hsv(0, 200, 200).0, 3 * ONE);
}

#[test]
fn hue_out_of_range_is_an_error() {
    assert_eq!(rgb(-1, ONE, ONE), Err(PixelateError::OutOfRangeHue));
    assert_eq!(rgb(6 * ONE + 1, ONE, ONE), Err(PixelateError::OutOfRangeHue));
    assert_eq!(rgb(i32::MIN, 0, 0), Err(PixelateError::OutOfRangeHue));
    assert_eq!(rgb(i32::MAX, 0, 0), Err(PixelateError::OutOfRangeHue));
    assert!(rgb(6 * ONE, ONE, ONE).is_ok());
    assert!(rgb(0, ONE, ONE).is_ok());
}

#[test]
fn sectors_to_rgb() {
    assert_eq!(rgb(ONE, ONE, ONE), Ok((255, 255, 0)));
    assert_eq!(rgb(2 * ONE, ONE, ONE), Ok((0, 255, 0)));
    assert_eq!(rgb(3 * ONE, ONE, ONE), Ok((0, 255, 255)));
    assert_eq!(rgb(4 * ONE, ONE, ONE), Ok((0, 0, 255)));
    assert_eq!(rgb(5 * ONE, ONE, ONE), Ok((255, 0, 255)));
    assert_eq!(rgb(6 * ONE, ONE, ONE), Ok((255, 0, 0)));
}

#[test]
fn second_component_follows_the_folded_hue() {
    assert_eq!(rgb(ONE / 2, ONE, ONE), Ok((255, 127, 0)));
    assert_eq!(rgb(ONE + ONE / 2, ONE, ONE), Ok((127, 255, 0)));
    assert_eq!(rgb(2 * ONE + ONE / 4, ONE, ONE), Ok((0, 255, 63)));
    assert_eq!(rgb(3 * ONE + ONE / 2, ONE, ONE), Ok((0, 127, 255)));
    assert_eq!(rgb(4 * ONE + ONE / 2, ONE, ONE), Ok((127, 0, 255)));
    assert_eq!(rgb(5 * ONE + ONE / 2, ONE, ONE), Ok((255, 0, 127)));
}

#[test]
fn offset_lifts_every_channel() {
    // half saturation at full value: chroma a half, offset a half
    assert_eq!(rgb(2 * ONE, ONE / 2, ONE), Ok((127, 255, 127)));
    // full saturation at half value
    assert_eq!(rgb(2 * ONE, ONE, ONE / 2), Ok((0, 127, 0)));
}

#[test]
fn hue_zero_gives_the_offset_alone() {
    assert_eq!(rgb(0, ONE, ONE), Ok((0, 0, 0)));
    assert_eq!(rgb(0, 0, ONE), Ok((255, 255, 255)));
    assert_eq!(rgb(0, ONE / 2, ONE), Ok((127, 127, 127)));
    assert_eq!(rgb(1, ONE, ONE), Ok((255, 0, 0)));
}

#[test]
fn channels_are_cut_to_eight_bits() {
    assert_eq!(rgb(ONE, 0, 2 * ONE), Ok((255, 255, 255)));
    assert_eq!(rgb(ONE, 0, -ONE), Ok((0, 0, 0)));
    assert_eq!(rgb(ONE, i32::MAX, i32::MAX), Ok((255, 255, 0)));
    // a chroma far below zero makes the offset huge: every channel is cut at the top
    assert_eq!(rgb(ONE, i32::MIN, i32::MAX), Ok((255, 255, 255)));
}

#[test]
fn round_trip_stays_within_one_level() {
    let mut r: u16 = 0;
    while r < 256 {
        let mut g: u16 = 0;
        while g < 256 {
            let mut b: u16 = 0;
            while b < 256 {
                let p = RgbPixel::new(r as u8, g as u8, b as u8);
                let back = RgbPixel::try_from(HsvPixel::from(p)).unwrap().get();
                if r > g && g == b {
                    assert_eq!(back.0, back.1);
                    assert_eq!(back.1, back.2);
                    assert!(back.1 as u16 == g || back.1 as u16 + 1 == g);
                } else {
                    assert!(back.0 as u16 == r || back.0 as u16 + 1 == r, "{:?}", (r, g, b));
                    assert!(back.1 as u16 == g || back.1 as u16 + 1 == g, "{:?}", (r, g, b));
                    assert!(back.2 as u16 == b || back.2 as u16 + 1 == b, "{:?}", (r, g, b));
                }
                b += 3;
            }
            g += 3;
        }
        r += 3;
    }
}

#[test]
fn round_trip_of_some_colours() {
    for (r, g, b) in [(12u8, 200u8, 77u8), (255, 255, 255), (0, 0, 0), (1, 2, 3), (90, 90, 91)] {
        let back = RgbPixel::try_from(HsvPixel::from(RgbPixel::new(r, g, b))).unwrap().get();
        assert!((back.0 as i32 - r as i32).abs() <= 1);
        assert!((back.1 as i32 - g as i32).abs() <= 1);
        assert!((back.2 as i32 - b as i32).abs() <= 1);
    }
}

#[test]
fn pure_red_comes_back_black() {
    let back = RgbPixel::try_from(HsvPixel::from(RgbPixel::new(255, 0, 0))).unwrap();
    assert_eq!(back.get(), (0, 0, 0));
}

#[test]
fn hsv_of_valid_colours_is_in_range() {
    for (r, g, b) in [(255u8, 0u8, 1u8), (254, 255, 0), (3, 2, 255), (255, 1, 0)] {
        let (h, s, v) = hsv(r, g, b);
        assert!(0 <= h && h < 6 * ONE);
        assert!(0 <= s && s <= ONE);
        assert!(0 <= v && v <= ONE);
    }
    assert_eq!(hsv(255, 0, 1).0, 5_996_078);
}

#[test]
fn defaults_are_black() {
    assert_eq!(RgbPixel::default().get(), (0, 0, 0));
    assert_eq!(HsvPixel::default().get(), (0, 0, 0));
}

#[test]
fn error_messages() {
    assert_eq!(PixelateError::NotDivisible.message(), "Image size is not divisible by factor.");
    assert_eq!(PixelateError::OutOfRangeHue.message(), "H prime out of range");
}
