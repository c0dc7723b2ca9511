use witchbooru::raster::{input_tensor, pad, resize_and_pad_img, to_tensor, RgbImage};
use witchbooru::Error;

/// An image whose every sample is different from its neighbours'.
fn synthetic(width: u32, height: u32) -> RgbImage {
    let mut data = Vec::new();
    for y in 0..height {
        for x in 0..width {
            for c in 0..3 {
                data.push((y * 37 + x * 11 + c * 5 + 1) as u8);
            }
        }
    }
    RgbImage::new(width, height, data).unwrap()
}

fn pixel(img: &RgbImage, x: u32, y: u32) -> [u8; 3] {
    [img.sample(x, y, 0), img.sample(x, y, 1), img.sample(x, y, 2)]
}

#[test]
fn an_image_needs_three_samples_for_each_pixel() {
    assert!(RgbImage::new(2, 2, vec![0; 12]).is_some());
    assert!(RgbImage::new(2, 2, vec![0; 11]).is_none());
    assert!(RgbImage::new(2, 2, vec![0; 13]).is_none());
    assert!(RgbImage::new(0, 7, Vec::new()).is_some());
    assert!(RgbImage::new(u32::MAX, u32::MAX, vec![0; 3]).is_none());
}

#[test]
fn an_image_hands_back_what_it_was_made_of() {
    let data: Vec<u8> = (0..24).collect();
    let img = RgbImage::new(4, 2, data.clone()).unwrap();
    assert_eq!(img.width(), 4);
    assert_eq!(img.height(), 2);
    assert_eq!(img.as_raw(), &data);
    assert_eq!(img.sample(0, 0, 0), 0);
    assert_eq!(img.sample(1, 0, 2), 5);
    assert_eq!(img.sample(3, 1, 1), 22);
}

#[test]
fn padding_columns_repeats_the_ends_of_each_row() {
    let src = synthetic(3, 4);
    let out = pad(synthetic(3, 4), 8, 4);
    assert_eq!((out.width(), out.height()), (8, 4));
    // margin = floor((8 - 3) / 2) = 2
    for y in 0..4 {
        for x in 0..2 {
            assert_eq!(pixel(&out, x, y), pixel(&src, 0, y));
        }
        for x in 2..5 {
            assert_eq!(pixel(&out, x, y), pixel(&src, x - 2, y));
        }
        for x in 5..8 {
            assert_eq!(pixel(&out, x, y), pixel(&src, 2, y));
        }
    }
}

#[test]
fn padding_columns_by_an_even_number_splits_them_evenly() {
    let src = synthetic(2, 3);
    let out = pad(synthetic(2, 3), 6, 3);
    // margin = 2; the right fill starts at column 6 - 2 - 1 = 3, the last copied column
    for y in 0..3 {
        assert_eq!(pixel(&out, 0, y), pixel(&src, 0, y));
        assert_eq!(pixel(&out, 1, y), pixel(&src, 0, y));
        assert_eq!(pixel(&out, 2, y), pixel(&src, 0, y));
        assert_eq!(pixel(&out, 3, y), pixel(&src, 1, y));
        assert_eq!(pixel(&out, 4, y), pixel(&src, 1, y));
        assert_eq!(pixel(&out, 5, y), pixel(&src, 1, y));
    }
}

#[test]
fn padding_by_one_column_adds_it_on_the_right() {
    let src = synthetic(3, 2);
    let out = pad(synthetic(3, 2), 4, 2);
    for y in 0..2 {
        for x in 0..3 {
            assert_eq!(pixel(&out, x, y), pixel(&src, x, y));
        }
        assert_eq!(pixel(&out, 3, y), pixel(&src, 2, y));
    }
}

#[test]
fn padding_rows_repeats_the_first_and_the_last_row() {
    let src = synthetic(4, 3);
    let out = pad(synthetic(4, 3), 4, 8);
    assert_eq!((out.width(), out.height()), (4, 8));
    // margin = floor((8 - 3) / 2) = 2
    for x in 0..4 {
        for y in 0..2 {
            assert_eq!(pixel(&out, x, y), pixel(&src, x, 0));
        }
        for y in 2..5 {
            assert_eq!(pixel(&out, x, y), pixel(&src, x, y - 2));
        }
        for y in 5..8 {
            assert_eq!(pixel(&out, x, y), pixel(&src, x, 2));
        }
    }
}

#[test]
fn padding_a_single_pixel_fills_the_row_with_it() {
    let src = RgbImage::new(1, 1, vec![7, 8, 9]).unwrap();
    let out = pad(src, 5, 1);
    assert_eq!(out.as_raw(), &vec![7, 8, 9, 7, 8, 9, 7, 8, 9, 7, 8, 9, 7, 8, 9]);
    let src = RgbImage::new(1, 1, vec![7, 8, 9]).unwrap();
    let out = pad(src, 1, 2);
    assert_eq!(out.as_raw(), &vec![7, 8, 9, 7, 8, 9]);
}

#[test]
fn padding_to_the_same_size_changes_nothing() {
    let src = synthetic(5, 4);
    let out = pad(synthetic(5, 4), 5, 4);
    assert_eq!(out.as_raw(), src.as_raw());
    assert_eq!((out.width(), out.height()), (5, 4));
}

#[test]
fn an_image_of_the_target_size_is_not_resampled() {
    let src = synthetic(6, 5);
    let out = resize_and_pad_img(synthetic(6, 5), 6, 5).unwrap();
    assert_eq!(out.as_raw(), src.as_raw());
}

#[test]
fn a_wide_image_is_resampled_and_padded_above_and_below() {
    let src = synthetic(4, 2);
    let out = resize_and_pad_img(synthetic(4, 2), 8, 8).unwrap();
    assert_eq!((out.width(), out.height()), (8, 8));

    let buffer = image::RgbImage::from_raw(4, 2, src.as_raw().clone()).unwrap();
    let resized = image::DynamicImage::ImageRgb8(buffer)
        .resize(8, 8, image::imageops::FilterType::CatmullRom)
        .into_rgb8();
    assert_eq!(resized.dimensions(), (8, 4));
    // margin = floor((8 - 4) / 2) = 2
    for x in 0..8 {
        for y in 0..8u32 {
            let from = (y as i64 - 2).clamp(0, 3) as u32;
            assert_eq!(pixel(&out, x, y), resized.get_pixel(x, from).0);
        }
    }
}

#[test]
fn a_high_image_is_resampled_and_padded_left_and_right() {
    let src = synthetic(3, 9);
    let out = resize_and_pad_img(synthetic(3, 9), 6, 6).unwrap();
    assert_eq!((out.width(), out.height()), (6, 6));

    let buffer = image::RgbImage::from_raw(3, 9, src.as_raw().clone()).unwrap();
    let resized = image::DynamicImage::ImageRgb8(buffer)
        .resize(6, 6, image::imageops::FilterType::CatmullRom)
        .into_rgb8();
    assert_eq!(resized.dimensions(), (2, 6));
    // margin = floor((6 - 2) / 2) = 2
    for y in 0..6 {
        for x in 0..6u32 {
            let from = (x as i64 - 2).clamp(0, 1) as u32;
            assert_eq!(pixel(&out, x, y), resized.get_pixel(from, y).0);
        }
    }
}

#[test]
fn an_image_of_the_same_shape_is_resampled_to_the_target() {
    let out = resize_and_pad_img(synthetic(3, 3), 6, 6).unwrap();
    assert_eq!((out.width(), out.height()), (6, 6));
    let src = synthetic(3, 3);
    let buffer = image::RgbImage::from_raw(3, 3, src.as_raw().clone()).unwrap();
    let resized = image::DynamicImage::ImageRgb8(buffer)
        .resize(6, 6, image::imageops::FilterType::CatmullRom)
        .into_rgb8();
    assert_eq!(out.as_raw(), resized.as_raw());
}

#[test]
fn a_target_without_columns_cannot_be_reached() {
    assert_eq!(resize_and_pad_img(synthetic(2, 2), 0, 5).err(), Some(Error::Resize));
}

#[test]
fn the_tensor_holds_channel_after_channel() {
    let img = RgbImage::new(2, 2, vec![1, 2, 3, 4, 5, 6, 7, 8, 9, 10, 11, 12]).unwrap();
    assert_eq!(to_tensor(&img), vec![1, 4, 7, 10, 2, 5, 8, 11, 3, 6, 9, 12]);
}

#[test]
fn the_tensor_of_an_image_without_pixels_is_empty() {
    let img = RgbImage::new(0, 3, Vec::new()).unwrap();
    assert_eq!(to_tensor(&img), Vec::<u8>::new());
}

#[test]
fn an_image_of_the_input_size_is_read_out_as_it_is() {
    let src = synthetic(512, 512);
    let tensor = input_tensor(synthetic(512, 512)).unwrap();
    assert_eq!(tensor.len(), 3 * 512 * 512);
    for &(x, y) in &[(0u32, 0u32), (511, 0), (0, 511), (511, 511), (17, 300), (256, 255)] {
        for c in 0..3usize {
            let at = c * 512 * 512 + y as usize * 512 + x as usize;
            assert_eq!(tensor[at], src.sample(x, y, c));
        }
    }
}

#[test]
fn a_small_image_is_brought_to_the_input_size() {
    let tensor = input_tensor(synthetic(4, 2)).unwrap();
    assert_eq!(tensor.len(), 3 * 512 * 512);
    let src = synthetic(4, 2);
    let buffer = image::RgbImage::from_raw(4, 2, src.as_raw().clone()).unwrap();
    let resized = image::DynamicImage::ImageRgb8(buffer)
        .resize(512, 512, image::imageops::FilterType::CatmullRom)
        .into_rgb8();
    assert_eq!(resized.dimensions(), (512, 256));
    // margin = floor((512 - 256) / 2) = 128
    for &(x, y) in &[(0u32, 0u32), (511, 127), (3, 128), (200, 383), (5, 384), (511, 511)] {
        let from = (y as i64 - 128).clamp(0, 255) as u32;
        for c in 0..3usize {
            let at = c * 512 * 512 + y as usize * 512 + x as usize;
            assert_eq!(tensor[at], resized.get_pixel(x, from).0[c]);
        }
    }
}

fn from_outside(img: image::DynamicImage) -> RgbImage {
    let rgb = img.into_rgb8();
    let (width, height) = rgb.dimensions();
    RgbImage::new(width, height, rgb.into_raw()).unwrap()
}

#[test]
fn an_image_with_alpha_may_be_narrowed_before_it_is_resampled() {
    let mut rgba = image::RgbaImage::new(5, 3);
    for (x, y, pixel) in rgba.enumerate_pixels_mut() {
        *pixel = image::Rgba([
            (x * 50 + y) as u8,
            (y * 80 + x) as u8,
            (x * y * 17 + 3) as u8,
            (x * 60 + y * 13) as u8,
        ]);
    }
    let img = image::DynamicImage::ImageRgba8(rgba);
    let resampled_first = from_outside(img.resize(8, 8, image::imageops::FilterType::CatmullRom));
    let expected = pad(resampled_first, 8, 8);
    let out = resize_and_pad_img(from_outside(img), 8, 8).unwrap();
    assert_eq!(out.as_raw(), expected.as_raw());
}

#[test]
fn a_grey_image_may_be_widened_before_it_is_resampled() {
    let mut grey = image::GrayImage::new(3, 7);
    for (x, y, pixel) in grey.enumerate_pixels_mut() {
        *pixel = image::Luma([(x * 90 + y * 31) as u8]);
    }
    let img = image::DynamicImage::ImageLuma8(grey);
    let resampled_first = from_outside(img.resize(6, 6, image::imageops::FilterType::CatmullRom));
    let expected = pad(resampled_first, 6, 6);
    let out = resize_and_pad_img(from_outside(img), 6, 6).unwrap();
    assert_eq!(out.as_raw(), expected.as_raw());
}

#[test]
fn padding_shows_the_nearest_pixel_of_the_image() {
    for (w, h, tw, th) in [(1, 1, 1, 9), (1, 3, 6, 3), (2, 5, 9, 5), (7, 1, 7, 4), (4, 4, 4, 5), (5, 2, 6, 2)] {
        let src = synthetic(w, h);
        let out = pad(synthetic(w, h), tw, th);
        assert_eq!((out.width(), out.height()), (tw, th));
        let (left, top) = ((tw - w) / 2, (th - h) / 2);
        for y in 0..th {
            for x in 0..tw {
                let from_x = (x as i64 - left as i64).clamp(0, w as i64 - 1) as u32;
                let from_y = (y as i64 - top as i64).clamp(0, h as i64 - 1) as u32;
                assert_eq!(pixel(&out, x, y), pixel(&src, from_x, from_y));
            }
        }
    }
}
