use sazan::archive::{archive_step, cut_tile, encoded_tile, pack_archive, tile_images, TileEntry};
use sazan::crop::crop;
use sazan::crop_and_grid_images;
use sazan::crop_split_image_to_zip;
use sazan::error::SazanError;
use sazan::raster::Image;
use std::io::Read;

fn shaded(width: u32, height: u32, seed: u8) -> Image {
    let mut data = Vec::new();
    for y in 0..height {
        for x in 0..width {
            data.push((x as u8).wrapping_mul(3).wrapping_add(seed));
            data.push((y as u8).wrapping_mul(5).wrapping_add(seed));
            data.push(((x * y) as u8).wrapping_add(seed));
            data.push(((x + 2 * y) as u8) | 1);
        }
    }
    Image::from_raw(width, height, data).unwrap()
}

fn read_archive(bytes: Vec<u8>) -> Vec<(String, Vec<u8>)> {
    let mut archive = zip::ZipArchive::new(std::io::Cursor::new(bytes)).unwrap();
    let mut files = Vec::new();
    for i in 0..archive.len() {
        let mut file = archive.by_index(i).unwrap();
        let mut content = Vec::new();
        file.read_to_end(&mut content).unwrap();
        files.push((file.name().to_string(), content));
    }
    files
}

fn decode(png: &[u8]) -> Image {
    let decoded = image::load_from_memory(png).unwrap().to_rgba8();
    let (width, height) = decoded.dimensions();
    Image::from_raw(width, height, decoded.into_raw()).unwrap()
}

#[test]
fn one_image_in_four_tiles() {
    let images = vec![shaded(100, 100, 5)];
    let bytes = crop_split_image_to_zip(&images, (50, 50), (0, 0), (2, 2), "t").unwrap();
    let files = read_archive(bytes);
    let names: Vec<&str> = files.iter().map(|f| f.0.as_str()).collect();
    assert_eq!(names, vec!["t_00_00_00.png", "t_00_00_01.png", "t_00_01_00.png", "t_00_01_01.png"]);
    for (n, file) in files.iter().enumerate() {
        let tile = decode(&file.1);
        assert_eq!(tile.dimensions(), (50, 50));
        let col = (n % 2) as u32;
        let row = (n / 2) as u32;
        let expected = crop(&images[0], (50, 50, col * 50, row * 50)).unwrap();
        assert_eq!(tile.as_raw(), expected.as_raw());
    }
}

#[test]
fn archive_has_one_uniquely_named_entry_per_tile() {
    let images = vec![shaded(40, 30, 1), shaded(40, 30, 2), shaded(50, 40, 3)];
    let bytes = crop_split_image_to_zip(&images, (7, 5), (3, 2), (4, 3), "tile").unwrap();
    let files = read_archive(bytes);
    assert_eq!(files.len(), 3 * 4 * 3);
    let mut n = 0;
    for index in 0..3 {
        for row in 0..3u32 {
            for col in 0..4u32 {
                assert_eq!(files[n].0, format!("tile_{:02}_{:02}_{:02}.png", index, row, col));
                let tile = decode(&files[n].1);
                assert_eq!(tile.dimensions(), (7, 5));
                let expected = crop(&images[index], (7, 5, 3 + col * 7, 2 + row * 5)).unwrap();
                assert_eq!(tile.as_raw(), expected.as_raw());
                n += 1;
            }
        }
    }
    let mut names: Vec<&String> = files.iter().map(|f| &f.0).collect();
    names.sort();
    names.dedup();
    assert_eq!(names.len(), 36);
}

#[test]
fn decoded_tiles_put_together_rebuild_the_region() {
    let source = shaded(64, 48, 9);
    let images = vec![shaded(64, 48, 9)];
    let bytes = crop_split_image_to_zip(&images, (10, 8), (4, 6), (5, 4), "r").unwrap();
    let tiles: Vec<Image> = read_archive(bytes).iter().map(|f| decode(&f.1)).collect();
    assert_eq!(tiles.len(), 20);
    let rebuilt = crop_and_grid_images(&tiles, (10, 8, 0, 0), 5, 4).unwrap();
    let region = crop(&source, (50, 32, 4, 6)).unwrap();
    assert_eq!(rebuilt.dimensions(), (50, 32));
    assert_eq!(rebuilt.as_raw(), region.as_raw());
}

#[test]
fn archive_is_the_same_for_the_same_input() {
    let images = vec![shaded(20, 20, 1), shaded(20, 20, 2)];
    let first = crop_split_image_to_zip(&images, (10, 10), (0, 0), (2, 2), "same").unwrap();
    let second = crop_split_image_to_zip(&images, (10, 10), (0, 0), (2, 2), "same").unwrap();
    assert_eq!(first, second);
    assert_eq!(&first[..4], &[0x50, 0x4b, 0x03, 0x04]);
}

#[test]
fn archive_stores_tiles_without_compression() {
    let images = vec![shaded(16, 16, 4)];
    let bytes = crop_split_image_to_zip(&images, (8, 8), (0, 0), (2, 1), "s").unwrap();
    let mut archive = zip::ZipArchive::new(std::io::Cursor::new(bytes)).unwrap();
    for i in 0..archive.len() {
        let file = archive.by_index(i).unwrap();
        assert_eq!(file.compression(), zip::CompressionMethod::Stored);
        assert_eq!(file.size(), file.compressed_size());
        assert_eq!(file.last_modified().year(), 1980);
    }
}

#[test]
fn archive_of_no_images_or_no_tiles_is_empty() {
    let none: Vec<Image> = Vec::new();
    let bytes = crop_split_image_to_zip(&none, (8, 8), (0, 0), (2, 2), "e").unwrap();
    assert!(read_archive(bytes).is_empty());
    let images = vec![shaded(4, 4, 0)];
    let no_cols = crop_split_image_to_zip(&images, (8, 8), (0, 0), (0, 2), "e").unwrap();
    assert!(read_archive(no_cols).is_empty());
    let no_rows = crop_split_image_to_zip(&images, (8, 8), (0, 0), (2, 0), "e").unwrap();
    assert!(read_archive(no_rows).is_empty());
}

#[test]
fn tile_beyond_the_image_fails_the_whole_archive() {
    let images = vec![shaded(100, 100, 5)];
    assert_eq!(
        crop_split_image_to_zip(&images, (50, 50), (1, 0), (2, 2), "t").err(),
        Some(SazanError::Bounds)
    );
    assert_eq!(
        crop_split_image_to_zip(&images, (50, 50), (0, 0), (2, 3), "t").err(),
        Some(SazanError::Bounds)
    );
    assert_eq!(
        crop_split_image_to_zip(&images, (50, 50), (0, 0), (3, 2), "t").err(),
        Some(SazanError::Bounds)
    );
    let second_too_small = vec![shaded(100, 100, 5), shaded(99, 100, 6)];
    assert_eq!(
        crop_split_image_to_zip(&second_too_small, (50, 50), (0, 0), (2, 2), "t").err(),
        Some(SazanError::Bounds)
    );
}

#[test]
fn tile_far_beyond_the_image_does_not_wrap_around() {
    let images = vec![shaded(8, 8, 5)];
    assert_eq!(
        crop_split_image_to_zip(&images, (u32::MAX, 1), (0, 0), (2, 1), "t").err(),
        Some(SazanError::Bounds)
    );
    assert_eq!(
        crop_split_image_to_zip(&images, (1 << 31, 1), (0, 0), (3, 1), "t").err(),
        Some(SazanError::Bounds)
    );
    assert_eq!(
        cut_tile(&images[0], (2, 2), (0, 0), (usize::MAX, 1), "t", 0, 0, usize::MAX - 1).err(),
        Some(SazanError::Bounds)
    );
}

#[test]
fn empty_tile_is_an_encode_error() {
    let images = vec![shaded(8, 8, 5)];
    assert_eq!(
        crop_split_image_to_zip(&images, (0, 4), (0, 0), (2, 2), "t").err(),
        Some(SazanError::Encode)
    );
    assert_eq!(
        crop_split_image_to_zip(&images, (4, 0), (0, 0), (1, 1), "t").err(),
        Some(SazanError::Encode)
    );
}

#[test]
fn first_failing_tile_decides_the_error() {
    let images = vec![shaded(8, 8, 5)];
    assert_eq!(
        tile_images(&images, (0, 4), (0, 0), (1, 3), "t").err(),
        Some(SazanError::Encode)
    );
    assert_eq!(
        tile_images(&images, (0, 4), (9, 0), (1, 3), "t").err(),
        Some(SazanError::Bounds)
    );
    assert_eq!(
        tile_images(&images, (4, 4), (0, 0), (3, 1), "t").err(),
        Some(SazanError::Bounds)
    );
}

#[test]
fn tile_images_returns_entries_in_tile_order() {
    let images = vec![shaded(12, 12, 1), shaded(12, 12, 2)];
    let entries = tile_images(&images, (4, 6), (2, 0), (2, 2), "p").unwrap();
    assert_eq!(entries.len(), 8);
    let names: Vec<&str> = entries.iter().map(|e| e.name.as_str()).collect();
    assert_eq!(
        names,
        vec![
            "p_00_00_00.png",
            "p_00_00_01.png",
            "p_00_01_00.png",
            "p_00_01_01.png",
            "p_01_00_00.png",
            "p_01_00_01.png",
            "p_01_01_00.png",
            "p_01_01_01.png",
        ]
    );
    let tile = decode(&entries[5].data);
    let expected = crop(&images[1], (4, 6, 6, 0)).unwrap();
    assert_eq!(tile.as_raw(), expected.as_raw());
}

#[test]
fn cut_tile_encodes_the_crop_as_png() {
    let image = shaded(20, 20, 7);
    let entry = cut_tile(&image, (5, 4), (1, 2), (3, 4), "x", 12, 3, 2).unwrap();
    assert_eq!(entry.name, "x_12_03_02.png");
    assert_eq!(&entry.data[..8], &[0x89, b'P', b'N', b'G', 0x0d, 0x0a, 0x1a, 0x0a]);
    let tile = decode(&entry.data);
    assert_eq!(tile.dimensions(), (5, 4));
    let expected = crop(&image, (5, 4, 11, 14)).unwrap();
    assert_eq!(tile.as_raw(), expected.as_raw());
    assert_ne!(&entry.data, expected.as_raw());
}

#[test]
fn encoded_tile_maps_the_encoder_outcome() {
    let entry = encoded_tile("a.png".to_string(), Ok(vec![1, 2, 3])).unwrap();
    assert_eq!(entry.name, "a.png");
    assert_eq!(entry.data, vec![1, 2, 3]);
    let refused = image::ImageError::IoError(std::io::Error::new(std::io::ErrorKind::Other, "no"));
    assert_eq!(encoded_tile("a.png".to_string(), Err(refused)).err(), Some(SazanError::Encode));
}

#[test]
fn archive_step_maps_failures_to_archive_errors() {
    let fine: Result<u8, zip::result::ZipError> = Ok(7);
    assert_eq!(archive_step(fine), Ok(7));
    let failed: Result<u8, zip::result::ZipError> = Err(zip::result::ZipError::FileNotFound);
    assert_eq!(archive_step(failed), Err(SazanError::Archive));
    let io: Result<(), std::io::Error> =
        Err(std::io::Error::new(std::io::ErrorKind::Other, "full"));
    assert_eq!(archive_step(io), Err(SazanError::Archive));
}

#[test]
fn pack_archive_stores_entries_under_their_names_in_order() {
    let entries = vec![
        TileEntry { name: "b.bin".to_string(), data: vec![9, 8, 7] },
        TileEntry { name: "a.bin".to_string(), data: Vec::new() },
        TileEntry { name: "c/d.bin".to_string(), data: vec![0; 1000] },
    ];
    let bytes = pack_archive(&entries).unwrap();
    let files = read_archive(bytes);
    assert_eq!(files.len(), 3);
    assert_eq!(files[0], ("b.bin".to_string(), vec![9, 8, 7]));
    assert_eq!(files[1], ("a.bin".to_string(), Vec::new()));
    assert_eq!(files[2], ("c/d.bin".to_string(), vec![0; 1000]));
    let empty: Vec<TileEntry> = Vec::new();
    assert!(read_archive(pack_archive(&empty).unwrap()).is_empty());
}

#[test]
fn grid_without_tiles_is_done_at_once() {
    let images = vec![shaded(4, 4, 0)];
    assert!(tile_images(&images, (2, 2), (0, 0), (0, usize::MAX), "e").unwrap().is_empty());
    assert!(tile_images(&images, (2, 2), (0, 0), (usize::MAX, 0), "e").unwrap().is_empty());
}

#[test]
fn tiles_of_at_least_one_pixel_within_the_images_always_pack() {
    let images = vec![shaded(9, 7, 1), shaded(12, 8, 2)];
    for (tile, offset, grid) in [
        ((1u32, 1u32), (0u32, 0u32), (9usize, 7usize)),
        ((3, 2), (0, 1), (3, 3)),
        ((9, 7), (0, 0), (1, 1)),
        ((2, 3), (5, 1), (2, 2)),
    ] {
        let bytes = crop_split_image_to_zip(&images, tile, offset, grid, "ok").unwrap();
        assert_eq!(read_archive(bytes).len(), 2 * grid.0 * grid.1);
    }
}
