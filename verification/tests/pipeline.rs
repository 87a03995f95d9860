use pixelate::color::{HsvPixel, RgbPixel};
use pixelate::error::PixelateError;
use pixelate::image::Image;
use pixelate::kmeans::Vec4;
use pixelate::ONE;

fn embed(p: HsvPixel) -> Vec4 {
    let (h, s, v) = p.get();
    let angle = h as f64 / ONE as f64 * std::f64::consts::FRAC_PI_3;
    Vec4::new(
        (angle.cos() * ONE as f64).round() as i32,
        (angle.sin() * ONE as f64).round() as i32,
        s,
        v,
    )
}

fn recover(p: Vec4) -> HsvPixel {
    let (x, y, s, v) = p.get();
    let mut h = (y as f64).atan2(x as f64) / std::f64::consts::FRAC_PI_3;
    if h < 0.0 {
        h += 6.0;
    }
    HsvPixel::new((h * ONE as f64).round() as i32, s, v)
}

fn uniform(width: usize, height: usize, p: RgbPixel) -> Image<RgbPixel> {
    Image::new(vec![p; width * height], width, height).unwrap()
}

#[test]
fn black_image_stays_black() {
    let black = RgbPixel::new(0, 0, 0);
    let out = uniform(32, 32, black).pixelate(16, false, &embed, &recover).unwrap();
    assert_eq!(out.width(), 32);
    assert_eq!(out.height(), 32);
    assert_eq!(out.data().len(), 1024);
    assert!(out.data().iter().all(|p| *p == black));
}

#[test]
fn black_image_stays_black_with_reduced_colours() {
    let black = RgbPixel::new(0, 0, 0);
    let out = uniform(32, 32, black).pixelate(16, true, &embed, &recover).unwrap();
    assert_eq!(out.width(), 32);
    assert_eq!(out.height(), 32);
    assert_eq!(out.data().len(), 1024);
    assert!(out.data().iter().all(|p| *p == black));
}

#[test]
fn red_and_cyan_blocks_stay_apart() {
    let red = HsvPixel::new(0, ONE, ONE);
    let cyan = HsvPixel::new(3 * ONE, ONE, ONE);
    let mut data = Vec::new();
    for i in 0..4 {
        for j in 0..4 {
            data.push(if (i / 2 + j / 2) % 2 == 0 { red } else { cyan });
        }
    }
    let image = Image::new(data.clone(), 4, 4).unwrap();
    let out = image.pixelate(2, &embed, &recover).unwrap();
    assert_eq!(out.width(), 4);
    assert_eq!(out.height(), 4);
    assert_eq!(*out.data(), data);
}

#[test]
fn pipeline_rejects_a_size_that_does_not_divide() {
    let image = uniform(10, 10, RgbPixel::new(1, 2, 3));
    assert_eq!(
        image.clone().pixelate(3, false, &embed, &recover).err(),
        Some(PixelateError::NotDivisible)
    );
    assert_eq!(
        image.pixelate(3, true, &embed, &recover).err(),
        Some(PixelateError::NotDivisible)
    );
    let hsv = Image::new(vec![HsvPixel::new(0, 0, 0); 100], 10, 10).unwrap();
    assert_eq!(hsv.pixelate(3, &embed, &recover).err(), Some(PixelateError::NotDivisible));
}

#[test]
fn pipeline_reports_a_hue_that_recovery_put_out_of_range() {
    let image = uniform(4, 4, RgbPixel::new(1, 2, 3));
    let bad = |_: Vec4| HsvPixel::new(7 * ONE, ONE, ONE);
    assert_eq!(
        image.pixelate(2, false, &embed, &bad).err(),
        Some(PixelateError::OutOfRangeHue)
    );
}

#[test]
fn pipeline_averages_hues_across_the_wrap() {
    // hues a little above 0 and a little below 6 average to about 0, not to 3
    let mut data = Vec::new();
    for k in 0..4 {
        data.push(HsvPixel::new(if k % 2 == 0 { ONE / 10 } else { 6 * ONE - ONE / 10 }, ONE, ONE));
    }
    let image = Image::new(data, 2, 2).unwrap();
    let out = image.pixelate(2, &embed, &recover).unwrap();
    for p in out.data() {
        let (h, s, v) = p.get();
        assert!(h <= 10 || h >= 6 * ONE - 10, "{}", h);
        assert_eq!(s, ONE);
        assert_eq!(v, ONE);
    }
}

#[test]
fn uniform_image_keeps_its_colour_within_one_level() {
    let p = RgbPixel::new(12, 200, 77);
    for doit in [false, true] {
        let out = uniform(8, 8, p).pixelate(4, doit, &embed, &recover).unwrap();
        for q in out.data() {
            let (r, g, b) = q.get();
            assert!((r as i32 - 12).abs() <= 1);
            assert!((g as i32 - 200).abs() <= 1);
            assert!((b as i32 - 77).abs() <= 1);
        }
    }
}

#[test]
fn two_colour_image_keeps_two_colours_when_reduced() {
    let mut data = Vec::new();
    for i in 0..8 {
        for _ in 0..8 {
            data.push(if i < 4 { RgbPixel::new(0, 255, 0) } else { RgbPixel::new(0, 0, 255) });
        }
    }
    let image = Image::new(data.clone(), 8, 8).unwrap();
    let out = image.pixelate(4, true, &embed, &recover).unwrap();
    assert_eq!(*out.data(), data);
}

#[test]
fn kmeans_reduce_keeps_the_shape() {
    let data: Vec<HsvPixel> =
        (0..24).map(|k| HsvPixel::new(k * 250_000, ONE / 2, ONE / 3)).collect();
    let image = Image::new(data, 6, 4).unwrap();
    let out = image.kmeans_reduce(&embed, &recover).unwrap();
    assert_eq!(out.width(), 6);
    assert_eq!(out.height(), 4);
    let mut seen: Vec<HsvPixel> = Vec::new();
    for p in out.data() {
        if !seen.contains(p) {
            seen.push(*p);
        }
    }
    assert!(seen.len() <= 8);
}

#[test]
fn empty_cluster_recovers_to_black() {
    assert_eq!(recover(Vec4::new(0, 0, 0, 0)).get(), (0, 0, 0));
    let back = RgbPixel::try_from(recover(Vec4::default())).unwrap();
    assert_eq!(back.get(), (0, 0, 0));
}

#[test]
fn hue_comes_back_through_the_embedding() {
    // with blocks of one pixel the downsampling embeds and recovers each colour alone
    let data: Vec<HsvPixel> = (0..600).map(|k| HsvPixel::new(k * 10_000, ONE / 3, ONE)).collect();
    let image = Image::new(data.clone(), 20, 30).unwrap();
    let out = image.pixelate(1, &embed, &recover).unwrap();
    for (p, q) in data.iter().zip(out.data().iter()) {
        let (h, s, v) = p.get();
        let (h2, s2, v2) = q.get();
        assert!((h - h2).abs() <= 10, "{} {}", h, h2);
        assert_eq!((s, v), (s2, v2));
    }
    // and what came back comes back once more
    let again = out.pixelate(1, &embed, &recover).unwrap();
    for (p, q) in out.data().iter().zip(again.data().iter()) {
        assert!((p.get().0 - q.get().0).abs() <= 10);
    }
}

#[test]
fn hue_is_embedded_with_period_six() {
    for k in 0..60 {
        let h = k * 100_000 + 1234;
        let (x, y, _, _) = embed(HsvPixel::new(h, 0, 0)).get();
        let (x6, y6, _, _) = embed(HsvPixel::new(h + 6 * ONE, 0, 0)).get();
        assert!((x - x6).abs() <= 10 && (y - y6).abs() <= 10);
        let one = Image::new(vec![HsvPixel::new(h, ONE, ONE)], 1, 1).unwrap();
        let other = Image::new(vec![HsvPixel::new(h + 6 * ONE, ONE, ONE)], 1, 1).unwrap();
        let a = one.pixelate(1, &embed, &recover).unwrap().get(0, 0).get().0;
        let b = other.pixelate(1, &embed, &recover).unwrap().get(0, 0).get().0;
        assert!((a - b).abs() <= 10);
        assert!((a - h).abs() <= 10);
    }
}

#[test]
fn embedding_ignores_saturation() {
    let grey = embed(HsvPixel::new(2 * ONE, 0, ONE / 2)).get();
    let vivid = embed(HsvPixel::new(2 * ONE, ONE, ONE / 2)).get();
    assert_eq!((grey.0, grey.1), (vivid.0, vivid.1));
    assert_eq!((grey.0, grey.1), (-500_000, 866_025));
}
