use sazan::naming::tile_file_name;

#[test]
fn tile_names_pad_numbers_to_two_digits() {
    assert_eq!(tile_file_name("t", 0, 0, 0), "t_00_00_00.png");
    assert_eq!(tile_file_name("t", 0, 0, 1), "t_00_00_01.png");
    assert_eq!(tile_file_name("t", 0, 1, 0), "t_00_01_00.png");
    assert_eq!(tile_file_name("tile", 3, 7, 9), "tile_03_07_09.png");
    assert_eq!(tile_file_name("tile", 10, 42, 99), "tile_10_42_99.png");
}

#[test]
fn tile_names_keep_numbers_of_more_than_two_digits() {
    assert_eq!(tile_file_name("t", 100, 0, 0), "t_100_00_00.png");
    assert_eq!(tile_file_name("t", 5, 1234, 56789), "t_05_1234_56789.png");
    assert_eq!(
        tile_file_name("t", usize::MAX, 0, 0),
        format!("t_{}_00_00.png", usize::MAX)
    );
}

#[test]
fn tile_names_take_any_prefix() {
    assert_eq!(tile_file_name("", 1, 2, 3), "_01_02_03.png");
    assert_eq!(tile_file_name("a_b", 1, 2, 3), "a_b_01_02_03.png");
    assert_eq!(tile_file_name("dir/\u{e9}t\u{e9}", 1, 2, 3), "dir/\u{e9}t\u{e9}_01_02_03.png");
}

#[test]
fn tile_names_agree_with_the_standard_formatter() {
    for index in [0usize, 1, 9, 10, 11, 99, 100, 101, 999, 1000] {
        for row in [0usize, 5, 10, 123] {
            for col in [0usize, 9, 10, 4096] {
                assert_eq!(
                    tile_file_name("p", index, row, col),
                    format!("{}_{:02}_{:02}_{:02}.png", "p", index, row, col)
                );
            }
        }
    }
}

#[test]
fn tile_names_differ_between_tiles() {
    let mut names = Vec::new();
    for index in 0..12 {
        for row in 0..12 {
            for col in 0..12 {
                names.push(tile_file_name("t", index, row, col));
            }
        }
    }
    let count = names.len();
    names.sort();
    names.dedup();
    assert_eq!(names.len(), count);
}
