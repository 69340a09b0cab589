use sazan::crop::{crop, crop_images};
use sazan::error::SazanError;
use sazan::raster::{dynamic_image_from_rgba_bytes, Image, Pixel};

fn pattern(width: u32, height: u32, seed: u8) -> Image {
    let mut data = Vec::new();
    for y in 0..height {
        for x in 0..width {
            data.push((x as u8).wrapping_mul(7).wrapping_add(seed));
            data.push((y as u8).wrapping_mul(13).wrapping_add(seed));
            data.push(((x + y) as u8).wrapping_add(seed));
            data.push(255u8.wrapping_sub(seed));
        }
    }
    Image::from_raw(width, height, data).unwrap()
}

fn pattern_pixel(x: u32, y: u32, seed: u8) -> Pixel {
    Pixel {
        r: (x as u8).wrapping_mul(7).wrapping_add(seed),
        g: (y as u8).wrapping_mul(13).wrapping_add(seed),
        b: ((x + y) as u8).wrapping_add(seed),
        a: 255u8.wrapping_sub(seed),
    }
}

#[test]
fn from_raw_accepts_only_the_exact_length() {
    assert!(Image::from_raw(2, 3, vec![0u8; 24]).is_some());
    assert!(Image::from_raw(2, 3, vec![0u8; 23]).is_none());
    assert!(Image::from_raw(2, 3, vec![0u8; 25]).is_none());
    assert!(Image::from_raw(0, 5, Vec::new()).is_some());
    assert!(Image::from_raw(0, 5, vec![0u8; 4]).is_none());
    assert!(Image::from_raw(u32::MAX, u32::MAX, vec![0u8; 16]).is_none());
}

#[test]
fn image_reports_dimensions_pixels_and_buffer() {
    let data: Vec<u8> = (0u8..24).collect();
    let image = Image::from_raw(3, 2, data.clone()).unwrap();
    assert_eq!(image.width(), 3);
    assert_eq!(image.height(), 2);
    assert_eq!(image.dimensions(), (3, 2));
    assert_eq!(image.as_raw(), &data);
    assert_eq!(image.get_pixel(0, 0), Pixel { r: 0, g: 1, b: 2, a: 3 });
    assert_eq!(image.get_pixel(2, 0), Pixel { r: 8, g: 9, b: 10, a: 11 });
    assert_eq!(image.get_pixel(0, 1), Pixel { r: 12, g: 13, b: 14, a: 15 });
    assert_eq!(image.get_pixel(2, 1), Pixel { r: 20, g: 21, b: 22, a: 23 });
    assert_eq!(image.into_raw(), data);
}

#[test]
fn image_from_bytes_ignores_what_follows_the_pixels() {
    let data: Vec<u8> = (0u8..20).collect();
    let image = dynamic_image_from_rgba_bytes(&data, 2, 2);
    assert_eq!(image.dimensions(), (2, 2));
    assert_eq!(image.as_raw(), &data[..16].to_vec());
    let exact = dynamic_image_from_rgba_bytes(&data[..16], 2, 2);
    assert_eq!(exact.as_raw(), image.as_raw());
}

#[test]
fn crop_copies_the_rectangle_pixel_for_pixel() {
    let image = pattern(10, 8, 3);
    let out = crop(&image, (4, 3, 5, 2)).unwrap();
    assert_eq!(out.dimensions(), (4, 3));
    for j in 0..3 {
        for i in 0..4 {
            assert_eq!(out.get_pixel(i, j), pattern_pixel(5 + i, 2 + j, 3));
        }
    }
    assert_eq!(out.as_raw().len(), 4 * 4 * 3);
}

#[test]
fn crop_of_the_whole_image_is_the_image() {
    let image = pattern(7, 5, 9);
    let out = crop(&image, (7, 5, 0, 0)).unwrap();
    assert_eq!(out.dimensions(), (7, 5));
    assert_eq!(out.as_raw(), image.as_raw());
}

#[test]
fn crop_twice_gives_identical_pixels() {
    let image = pattern(12, 9, 1);
    let first = crop(&image, (5, 4, 3, 2)).unwrap();
    let second = crop(&image, (5, 4, 3, 2)).unwrap();
    assert_eq!(first.dimensions(), second.dimensions());
    assert_eq!(first.as_raw(), second.as_raw());
}

#[test]
fn crop_accepts_a_rectangle_that_touches_the_far_edges() {
    let image = pattern(6, 4, 0);
    let out = crop(&image, (2, 1, 4, 3)).unwrap();
    assert_eq!(out.dimensions(), (2, 1));
    assert_eq!(out.get_pixel(0, 0), pattern_pixel(4, 3, 0));
    assert_eq!(out.get_pixel(1, 0), pattern_pixel(5, 3, 0));
}

#[test]
fn crop_accepts_empty_rectangles_within_the_image() {
    let image = pattern(6, 4, 0);
    let flat = crop(&image, (3, 0, 1, 4)).unwrap();
    assert_eq!(flat.dimensions(), (3, 0));
    assert!(flat.as_raw().is_empty());
    let thin = crop(&image, (0, 2, 6, 1)).unwrap();
    assert_eq!(thin.dimensions(), (0, 2));
    assert!(thin.as_raw().is_empty());
}

#[test]
fn crop_rejects_a_rectangle_beyond_the_image() {
    let image = pattern(6, 4, 0);
    assert_eq!(crop(&image, (3, 2, 4, 0)).err(), Some(SazanError::Bounds));
    assert_eq!(crop(&image, (3, 2, 0, 3)).err(), Some(SazanError::Bounds));
    assert_eq!(crop(&image, (7, 1, 0, 0)).err(), Some(SazanError::Bounds));
    assert_eq!(crop(&image, (1, 1, 6, 0)).err(), Some(SazanError::Bounds));
    assert_eq!(crop(&image, (0, 0, 7, 0)).err(), Some(SazanError::Bounds));
    assert_eq!(crop(&image, (1, 1, 0, 4)).err(), Some(SazanError::Bounds));
}

#[test]
fn crop_does_not_wrap_around_on_large_offsets() {
    let image = pattern(6, 4, 0);
    assert_eq!(crop(&image, (2, 2, u32::MAX, 0)).err(), Some(SazanError::Bounds));
    assert_eq!(crop(&image, (u32::MAX, 2, 2, 0)).err(), Some(SazanError::Bounds));
    assert_eq!(crop(&image, (2, u32::MAX, 0, u32::MAX)).err(), Some(SazanError::Bounds));
}

#[test]
fn crop_images_crops_each_image_in_order() {
    let images = vec![pattern(8, 8, 0), pattern(9, 6, 40), pattern(5, 5, 80)];
    let crops = crop_images(&images, (3, 2, 2, 3)).unwrap();
    assert_eq!(crops.len(), 3);
    for (n, seed) in [0u8, 40, 80].iter().enumerate() {
        assert_eq!(crops[n].dimensions(), (3, 2));
        assert_eq!(crops[n].get_pixel(0, 0), pattern_pixel(2, 3, *seed));
        assert_eq!(crops[n].get_pixel(2, 1), pattern_pixel(4, 4, *seed));
    }
}

#[test]
fn crop_images_fails_where_one_image_is_too_small() {
    let images = vec![pattern(8, 8, 0), pattern(4, 8, 1), pattern(8, 8, 2)];
    assert_eq!(crop_images(&images, (3, 2, 2, 3)).err(), Some(SazanError::Bounds));
    let none: Vec<Image> = Vec::new();
    assert_eq!(crop_images(&none, (3, 2, 2, 3)).unwrap().len(), 0);
}
