use pixelate::color::{HsvPixel, RgbPixel};
use pixelate::error::PixelateError;
use pixelate::image::{Image, PALETTE};
use pixelate::kmeans::Vec4;
use pixelate::ONE;

fn grey(x: i32) -> Vec4 {
    Vec4::new(x, 2 * x, -x, 7)
}

fn grid(width: usize, height: usize, f: impl Fn(usize, usize) -> i32) -> Image<Vec4> {
    let mut data = Vec::new();
    for i in 0..width {
        for j in 0..height {
            data.push(grey(f(i, j)));
        }
    }
    Image::new(data, width, height).unwrap()
}

#[test]
fn new_checks_the_shape() {
    assert!(Image::new(vec![grey(0); 6], 2, 3).is_some());
    assert!(Image::new(vec![grey(0); 6], 3, 2).is_some());
    assert!(Image::new(vec![grey(0); 6], 6, 1).is_some());
    assert!(Image::new(vec![grey(0); 6], 2, 2).is_none());
    assert!(Image::new(vec![grey(0); 6], 0, 0).is_none());
    assert!(Image::new(Vec::<Vec4>::new(), 0, 5).is_some());
    assert!(Image::new(Vec::<Vec4>::new(), usize::MAX, usize::MAX).is_none());
    assert!(Image::new(vec![grey(0); 2], usize::MAX, 2).is_none());
}

#[test]
fn shape_and_data_come_back() {
    let data: Vec<Vec4> = (0..6).map(grey).collect();
    let image = Image::new(data.clone(), 2, 3).unwrap();
    assert_eq!(image.width(), 2);
    assert_eq!(image.height(), 3);
    assert_eq!(*image.data(), data);
}

#[test]
fn pixels_lie_column_after_column() {
    let data: Vec<Vec4> = (0..6).map(grey).collect();
    let image = Image::new(data, 2, 3).unwrap();
    // column i, row j stands at i * height + j
    assert_eq!(*image.get(0, 0), grey(0));
    assert_eq!(*image.get(0, 2), grey(2));
    assert_eq!(*image.get(1, 0), grey(3));
    assert_eq!(*image.get(1, 2), grey(5));
}

#[test]
fn default_is_empty() {
    let image: Image<RgbPixel> = Image::default();
    assert_eq!(image.width(), 0);
    assert_eq!(image.height(), 0);
    assert!(image.data().is_empty());
}

#[test]
fn clone_is_equal() {
    let image = grid(3, 2, |i, j| (i * 10 + j) as i32);
    let copy = image.clone();
    assert_eq!(copy.width(), 3);
    assert_eq!(copy.height(), 2);
    assert_eq!(copy.data(), image.data());
}

#[test]
fn map_keeps_the_shape() {
    let image = grid(3, 2, |i, j| (i * 10 + j) as i32);
    let out: Image<HsvPixel> = image.map(&|v: Vec4| HsvPixel::new(v.get().0, 0, 0));
    assert_eq!(out.width(), 3);
    assert_eq!(out.height(), 2);
    assert_eq!(out.get(2, 1).get(), (21, 0, 0));
    assert_eq!(out.get(0, 1).get(), (1, 0, 0));
}

#[test]
fn downsample_rejects_a_size_that_does_not_divide() {
    let image = grid(10, 10, |_, _| 1);
    assert_eq!(image.downsample(3).err(), Some(PixelateError::NotDivisible));
    assert!(image.downsample(5).is_ok());
    assert!(image.downsample(10).is_ok());
    assert_eq!(image.downsample(20).err(), Some(PixelateError::NotDivisible));
    // one side dividing is not enough
    assert_eq!(grid(6, 4, |_, _| 1).downsample(3).err(), Some(PixelateError::NotDivisible));
    assert_eq!(grid(4, 6, |_, _| 1).downsample(3).err(), Some(PixelateError::NotDivisible));
}

#[test]
fn downsample_of_an_empty_image() {
    let image: Image<Vec4> = Image::new(Vec::new(), 0, 0).unwrap();
    let out = image.downsample(16).unwrap();
    assert_eq!(out.width(), 0);
    assert_eq!(out.height(), 0);
    let image: Image<Vec4> = Image::new(Vec::new(), 0, 4).unwrap();
    assert!(image.downsample(2).is_ok());
    assert!(image.downsample(3).is_err());
}

#[test]
fn downsample_by_one_changes_nothing() {
    let image = grid(3, 5, |i, j| (i * 100 + j) as i32 - 50);
    let out = image.downsample(1).unwrap();
    assert_eq!(out.data(), image.data());
}

#[test]
fn downsample_averages_each_block() {
    // 4 wide, 2 high, blocks of 2 by 2: left block holds 0, 1, 10, 11; right 20, 21, 30, 32
    let image = grid(4, 2, |i, j| (i * 10 + j) as i32 + if i == 3 && j == 1 { 1 } else { 0 });
    let out = image.downsample(2).unwrap();
    assert_eq!(out.width(), 4);
    assert_eq!(out.height(), 2);
    // (0 + 1 + 10 + 11) / 4 = 5.5, rounded down; (20 + 21 + 30 + 32) / 4 = 25.75
    let left = Vec4::new(5, 11, -6, 7);
    let right = Vec4::new(25, 51, -26, 7);
    for i in 0..4 {
        for j in 0..2 {
            assert_eq!(*out.get(i, j), if i < 2 { left } else { right });
        }
    }
}

#[test]
fn downsample_keeps_the_layout_of_a_tall_image() {
    // 2 wide, 4 high: the upper block holds rows 0 and 1, the lower rows 2 and 3
    let image = grid(2, 4, |_, j| if j < 2 { 100 } else { 200 });
    let out = image.downsample(2).unwrap();
    for i in 0..2 {
        for j in 0..4 {
            assert_eq!(*out.get(i, j), grey(if j < 2 { 100 } else { 200 }));
        }
    }
    assert_eq!(out.data(), image.data());
}

#[test]
fn uniform_blocks_stay_as_they_are() {
    // four blocks of 2 by 2, each of one colour
    let image = grid(4, 4, |i, j| match (i / 2, j / 2) {
        (0, 0) => 1_000_000,
        (0, 1) => -1_000_000,
        (1, 0) => -999_999,
        _ => 3,
    });
    let out = image.downsample(2).unwrap();
    assert_eq!(out.data(), image.data());
}

#[test]
fn downsample_twice_is_downsample_once() {
    let image = grid(6, 4, |i, j| ((i * 37 + j * 11) % 19) as i32 - 9);
    let once = image.downsample(2).unwrap();
    let twice = once.downsample(2).unwrap();
    assert_eq!(once.data(), twice.data());
}

#[test]
fn downsample_whole_image_as_one_block() {
    let image = grid(3, 3, |i, j| (i * 3 + j) as i32);
    let out = image.downsample(3).unwrap();
    assert!(out.data().iter().all(|p| *p == Vec4::new(4, 8, -4, 7)));
}

#[test]
fn reduce_leaves_at_most_eight_colours() {
    assert_eq!(PALETTE, 8);
    let image = grid(8, 8, |i, j| ((i * 8 + j) * 1000) as i32);
    let out = image.reduce();
    assert_eq!(out.width(), 8);
    assert_eq!(out.height(), 8);
    let mut seen: Vec<Vec4> = Vec::new();
    for p in out.data() {
        if !seen.contains(p) {
            seen.push(*p);
        }
    }
    assert!(seen.len() <= 8);
}

#[test]
fn reduce_of_eight_distinct_pixels_changes_nothing() {
    let image = grid(4, 2, |i, j| ((i * 2 + j) * 100_000) as i32);
    let out = image.reduce();
    assert_eq!(out.data(), image.data());
}

#[test]
fn image_to_hsv_and_back() {
    let data = vec![
        RgbPixel::new(0, 0, 0),
        RgbPixel::new(255, 255, 255),
        RgbPixel::new(0, 255, 0),
        RgbPixel::new(10, 20, 30),
        RgbPixel::new(200, 100, 50),
        RgbPixel::new(0, 0, 255),
    ];
    let image = Image::new(data.clone(), 3, 2).unwrap();
    let hsv = Image::<HsvPixel>::from(image);
    assert_eq!(hsv.width(), 3);
    assert_eq!(hsv.height(), 2);
    assert_eq!(hsv.get(1, 0).get(), (2 * ONE, ONE, ONE));
    assert_eq!(hsv.get(2, 0).get(), (333_333, 750_000, 784_313));
    for (p, q) in data.iter().zip(hsv.data().iter()) {
        assert_eq!(HsvPixel::from(*p), *q);
    }
    let back = Image::<RgbPixel>::try_from(hsv).unwrap();
    assert_eq!(back.width(), 3);
    assert_eq!(back.height(), 2);
    assert_eq!(back.get(0, 0).get(), (0, 0, 0));
    assert_eq!(back.get(0, 1).get(), (255, 255, 255));
    assert_eq!(back.get(1, 0).get(), (0, 255, 0));
    assert_eq!(back.get(2, 1).get(), (0, 0, 255));
}

#[test]
fn image_with_a_bad_hue_is_refused() {
    let mut data = vec![HsvPixel::new(ONE, ONE, ONE); 4];
    data[3] = HsvPixel::new(6 * ONE + 1, ONE, ONE);
    let image = Image::new(data, 2, 2).unwrap();
    assert_eq!(Image::<RgbPixel>::try_from(image).err(), Some(PixelateError::OutOfRangeHue));
    let fine = Image::new(vec![HsvPixel::new(6 * ONE, ONE, ONE); 4], 2, 2).unwrap();
    assert!(Image::<RgbPixel>::try_from(fine).is_ok());
}
