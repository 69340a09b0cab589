use sazan::crop::crop;
use sazan::error::SazanError;
use sazan::grid::{combine_grid, grid_fits, montage_fits};
use sazan::raster::{Image, Pixel};
use sazan::crop_and_grid_images;

const CLEAR: Pixel = Pixel { r: 0, g: 0, b: 0, a: 0 };

fn solid(width: u32, height: u32, value: u8) -> Image {
    Image::from_raw(width, height, vec![value; 4 * width as usize * height as usize]).unwrap()
}

fn shaded(width: u32, height: u32, seed: u8) -> Image {
    let mut data = Vec::new();
    for y in 0..height {
        for x in 0..width {
            data.push((x as u8).wrapping_add(seed));
            data.push((y as u8).wrapping_add(seed));
            data.push(seed);
            data.push(200);
        }
    }
    Image::from_raw(width, height, data).unwrap()
}

fn shaded_pixel(x: u32, y: u32, seed: u8) -> Pixel {
    Pixel { r: (x as u8).wrapping_add(seed), g: (y as u8).wrapping_add(seed), b: seed, a: 200 }
}

fn cell(canvas: &Image, col: u32, row: u32, w: u32, h: u32) -> Image {
    crop(canvas, (w, h, col * w, row * h)).unwrap()
}

#[test]
fn four_images_fill_a_two_by_two_grid() {
    let images = vec![shaded(120, 110, 10), shaded(120, 110, 60), shaded(120, 110, 110), shaded(120, 110, 160)];
    assert!(grid_fits(100, 100, 2, 2));
    let canvas = crop_and_grid_images(&images, (100, 100, 0, 0), 2, 2).unwrap();
    assert_eq!(canvas.dimensions(), (200, 200));
    let first = crop(&images[0], (100, 100, 0, 0)).unwrap();
    let last = crop(&images[3], (100, 100, 0, 0)).unwrap();
    assert_eq!(cell(&canvas, 0, 0, 100, 100).as_raw(), first.as_raw());
    assert_eq!(cell(&canvas, 1, 1, 100, 100).as_raw(), last.as_raw());
    let second = crop(&images[1], (100, 100, 0, 0)).unwrap();
    let third = crop(&images[2], (100, 100, 0, 0)).unwrap();
    assert_eq!(cell(&canvas, 1, 0, 100, 100).as_raw(), second.as_raw());
    assert_eq!(cell(&canvas, 0, 1, 100, 100).as_raw(), third.as_raw());
}

#[test]
fn grid_places_pixels_by_cell_and_offset() {
    let images = vec![shaded(9, 9, 0), shaded(9, 9, 50), shaded(9, 9, 100)];
    let canvas = crop_and_grid_images(&images, (4, 3, 2, 5), 3, 1).unwrap();
    assert_eq!(canvas.dimensions(), (12, 3));
    assert_eq!(canvas.get_pixel(0, 0), shaded_pixel(2, 5, 0));
    assert_eq!(canvas.get_pixel(3, 2), shaded_pixel(5, 7, 0));
    assert_eq!(canvas.get_pixel(4, 0), shaded_pixel(2, 5, 50));
    assert_eq!(canvas.get_pixel(7, 1), shaded_pixel(5, 6, 50));
    assert_eq!(canvas.get_pixel(8, 0), shaded_pixel(2, 5, 100));
    assert_eq!(canvas.get_pixel(11, 2), shaded_pixel(5, 7, 100));
}

#[test]
fn full_grid_has_no_transparent_cell() {
    let images: Vec<Image> = (0..6).map(|n| solid(5, 4, 10 + n as u8)).collect();
    let canvas = crop_and_grid_images(&images, (3, 2, 1, 1), 3, 2).unwrap();
    assert_eq!(canvas.dimensions(), (9, 4));
    for n in 0..6u32 {
        let shown = cell(&canvas, n % 3, n / 3, 3, 2);
        assert_eq!(shown.as_raw(), &vec![10 + n as u8; 4 * 3 * 2]);
    }
    for y in 0..4 {
        for x in 0..9 {
            assert_ne!(canvas.get_pixel(x, y), CLEAR);
        }
    }
}

#[test]
fn short_grid_leaves_the_last_cells_transparent() {
    let images: Vec<Image> = (0..4).map(|n| solid(5, 4, 10 + n as u8)).collect();
    let canvas = crop_and_grid_images(&images, (3, 2, 0, 0), 3, 2).unwrap();
    assert_eq!(canvas.dimensions(), (9, 4));
    for n in 0..4u32 {
        let shown = cell(&canvas, n % 3, n / 3, 3, 2);
        assert_eq!(shown.as_raw(), &vec![10 + n as u8; 4 * 3 * 2]);
    }
    for n in 4..6u32 {
        let shown = cell(&canvas, n % 3, n / 3, 3, 2);
        assert_eq!(shown.as_raw(), &vec![0u8; 4 * 3 * 2]);
    }
}

#[test]
fn empty_list_gives_one_transparent_pixel_per_cell() {
    let images: Vec<Image> = Vec::new();
    let canvas = crop_and_grid_images(&images, (100, 100, 0, 0), 3, 2).unwrap();
    assert_eq!(canvas.dimensions(), (3, 2));
    assert_eq!(canvas.as_raw(), &vec![0u8; 4 * 3 * 2]);
    for y in 0..2 {
        for x in 0..3 {
            assert_eq!(canvas.get_pixel(x, y), CLEAR);
        }
    }
}

#[test]
fn images_beyond_the_last_cell_are_not_shown() {
    let images: Vec<Image> = (0..5).map(|n| solid(2, 2, 20 + n as u8)).collect();
    let canvas = crop_and_grid_images(&images, (2, 2, 0, 0), 2, 1).unwrap();
    assert_eq!(canvas.dimensions(), (4, 2));
    assert_eq!(cell(&canvas, 0, 0, 2, 2).as_raw(), &vec![20u8; 16]);
    assert_eq!(cell(&canvas, 1, 0, 2, 2).as_raw(), &vec![21u8; 16]);
}

#[test]
fn grid_without_columns_or_rows_is_empty() {
    let images = vec![solid(2, 2, 7)];
    let no_cols = crop_and_grid_images(&images, (2, 2, 0, 0), 0, 3).unwrap();
    assert_eq!(no_cols.dimensions(), (0, 6));
    assert!(no_cols.as_raw().is_empty());
    let no_rows = crop_and_grid_images(&images, (2, 2, 0, 0), 3, 0).unwrap();
    assert_eq!(no_rows.dimensions(), (6, 0));
    assert!(no_rows.as_raw().is_empty());
}

#[test]
fn grid_of_empty_crops_is_empty() {
    let images = vec![solid(2, 2, 7), solid(2, 2, 8)];
    let canvas = crop_and_grid_images(&images, (0, 2, 1, 0), 2, 2).unwrap();
    assert_eq!(canvas.dimensions(), (0, 4));
    assert!(canvas.as_raw().is_empty());
}

#[test]
fn crop_and_grid_fails_on_a_rectangle_beyond_an_image() {
    let images = vec![solid(4, 4, 1), solid(3, 4, 2)];
    assert_eq!(
        crop_and_grid_images(&images, (4, 4, 0, 0), 2, 1).err(),
        Some(SazanError::Bounds)
    );
    assert_eq!(
        crop_and_grid_images(&images, (2, 2, 2, 3), 2, 1).err(),
        Some(SazanError::Bounds)
    );
}

#[test]
fn crop_and_grid_checks_images_that_no_cell_is_left_for() {
    let images = vec![solid(4, 4, 1), solid(4, 4, 2), solid(1, 1, 3)];
    assert_eq!(
        crop_and_grid_images(&images, (4, 4, 0, 0), 2, 1).err(),
        Some(SazanError::Bounds)
    );
}

#[test]
fn combine_grid_takes_the_cell_size_from_the_first_image() {
    let images = vec![solid(3, 2, 1), solid(3, 2, 2), solid(3, 2, 3)];
    let canvas = combine_grid(&images, 2, 2).unwrap();
    assert_eq!(canvas.dimensions(), (6, 4));
    assert_eq!(cell(&canvas, 0, 0, 3, 2).as_raw(), &vec![1u8; 24]);
    assert_eq!(cell(&canvas, 1, 0, 3, 2).as_raw(), &vec![2u8; 24]);
    assert_eq!(cell(&canvas, 0, 1, 3, 2).as_raw(), &vec![3u8; 24]);
    assert_eq!(cell(&canvas, 1, 1, 3, 2).as_raw(), &vec![0u8; 24]);
}

#[test]
fn combine_grid_rejects_images_of_another_size() {
    let smaller = vec![solid(3, 2, 1), solid(2, 2, 2)];
    assert_eq!(combine_grid(&smaller, 2, 1).err(), Some(SazanError::SizeMismatch));
    let taller = vec![solid(3, 2, 1), solid(3, 3, 2)];
    assert_eq!(combine_grid(&taller, 2, 1).err(), Some(SazanError::SizeMismatch));
    let swapped = vec![solid(3, 2, 1), solid(2, 3, 2)];
    assert_eq!(combine_grid(&swapped, 1, 2).err(), Some(SazanError::SizeMismatch));
}

#[test]
fn combine_grid_ignores_the_size_of_images_it_does_not_show() {
    let images = vec![solid(3, 2, 1), solid(3, 2, 2), solid(9, 9, 3)];
    let canvas = combine_grid(&images, 2, 1).unwrap();
    assert_eq!(canvas.dimensions(), (6, 2));
    assert_eq!(cell(&canvas, 1, 0, 3, 2).as_raw(), &vec![2u8; 24]);
}

#[test]
fn combine_grid_without_images_is_transparent() {
    let images: Vec<Image> = Vec::new();
    let canvas = combine_grid(&images, 4, 3).unwrap();
    assert_eq!(canvas.dimensions(), (4, 3));
    assert_eq!(canvas.as_raw(), &vec![0u8; 48]);
}

#[test]
fn grid_fits_tells_small_canvases_from_huge_ones() {
    assert!(grid_fits(100, 100, 2, 2));
    assert!(grid_fits(1, 1, 0, 0));
    assert!(grid_fits(0, 0, usize::MAX, usize::MAX));
    assert!(grid_fits(1, 1, 65535, 1));
    assert!(!grid_fits(65536, 1, 65536, 1));
    assert!(!grid_fits(1, 65536, 1, 65536));
    assert!(!grid_fits(1, 1, usize::MAX, 1));
    assert!(grid_fits(65535, 1, 65537, 1));
    assert!(!grid_fits(u32::MAX, u32::MAX, 2, 2));
}

#[test]
fn montage_fits_takes_one_pixel_cells_for_no_images() {
    assert!(montage_fits(4, (100, 100, 0, 0), 2, 2));
    assert!(montage_fits(0, (u32::MAX, u32::MAX, 0, 0), 3, 2));
    assert!(!montage_fits(1, (u32::MAX, u32::MAX, 0, 0), 3, 2));
    assert!(!montage_fits(0, (1, 1, 0, 0), usize::MAX, 1));
    assert!(montage_fits(7, (0, 0, 5, 5), usize::MAX, usize::MAX));
    assert!(!montage_fits(2, (65536, 1, 0, 0), 65536, 1));
}

#[test]
fn errors_come_before_the_size_of_the_canvas_matters() {
    let images = vec![solid(4, 4, 1), solid(3, 4, 2)];
    assert!(!montage_fits(2, (4, 4, 0, 0), usize::MAX, usize::MAX));
    assert_eq!(
        crop_and_grid_images(&images, (4, 4, 0, 0), usize::MAX, usize::MAX).err(),
        Some(SazanError::Bounds)
    );
    assert_eq!(
        combine_grid(&images, usize::MAX, usize::MAX).err(),
        Some(SazanError::SizeMismatch)
    );
}
