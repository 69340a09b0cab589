use sazan::params::{parse_crop_param_clap, parse_grid_param_clap};

#[test]
fn parses_crop_parameters() {
    assert_eq!(parse_crop_param_clap("1265x1265+1422+366"), Ok((1265, 1265, 1422, 366)));
    assert_eq!(parse_crop_param_clap("256x256+0+0"), Ok((256, 256, 0, 0)));
    assert_eq!(parse_crop_param_clap("100x100+0+0"), Ok((100, 100, 0, 0)));
    assert_eq!(parse_crop_param_clap("0x0+0+0"), Ok((0, 0, 0, 0)));
    assert_eq!(parse_crop_param_clap("1x2+3+4"), Ok((1, 2, 3, 4)));
}

#[test]
fn crop_parameters_may_have_leading_zeros() {
    assert_eq!(parse_crop_param_clap("007x010+000+0001"), Ok((7, 10, 0, 1)));
    assert_eq!(
        parse_crop_param_clap("000000000000000000000004294967295x1+2+3"),
        Ok((u32::MAX, 1, 2, 3))
    );
}

#[test]
fn crop_parameters_reach_up_to_the_largest_u32() {
    assert_eq!(
        parse_crop_param_clap("4294967295x4294967295+4294967295+4294967295"),
        Ok((u32::MAX, u32::MAX, u32::MAX, u32::MAX))
    );
    for text in [
        "4294967296x1+1+1",
        "1x4294967296+1+1",
        "1x1+4294967296+1",
        "1x1+1+4294967296",
        "99999999999999999999999999999999999999999x1+1+1",
    ] {
        assert_eq!(parse_crop_param_clap(text), Err(format!("Invalid crop format: {}", text)));
    }
}

#[test]
fn rejects_malformed_crop_parameters() {
    for text in [
        "",
        "x",
        "1x1",
        "1x1+1",
        "1x1+1+",
        "1x1++1",
        "x1+1+1",
        "1x+1+1",
        "1x1+1+1+1",
        "1x1+1+1 ",
        " 1x1+1+1",
        "1X1+1+1",
        "1x1-1+1",
        "1x1+1+1\n",
        "-1x1+1+1",
        "+1x1+1+1",
        "1.5x1+1+1",
        "1x1+1+1x",
        "1x1x1x1",
        "1+1+1+1",
        "a1x1+1+1",
        "\u{ff11}x1+1+1",
        "\u{0661}x1+1+1",
    ] {
        assert_eq!(parse_crop_param_clap(text), Err(format!("Invalid crop format: {}", text)));
    }
}

#[test]
fn parses_grid_parameters() {
    assert_eq!(parse_grid_param_clap("3x3"), Ok((3, 3)));
    assert_eq!(parse_grid_param_clap("4x2"), Ok((4, 2)));
    assert_eq!(parse_grid_param_clap("2x2"), Ok((2, 2)));
    assert_eq!(parse_grid_param_clap("0x0"), Ok((0, 0)));
    assert_eq!(parse_grid_param_clap("010x0001"), Ok((10, 1)));
    assert_eq!(parse_grid_param_clap("4294967296x1"), Ok((4294967296, 1)));
    assert_eq!(
        parse_grid_param_clap(&format!("{}x{}", usize::MAX, usize::MAX)),
        Ok((usize::MAX, usize::MAX))
    );
}

#[test]
fn rejects_malformed_grid_parameters() {
    for text in [
        "",
        "x",
        "3",
        "3x",
        "x3",
        "3x3x3",
        "3x3 ",
        " 3x3",
        "3X3",
        "3*3",
        "3x-3",
        "3x3\n",
        "3x3+0+0",
        "three",
        "3x\u{ff13}",
        "18446744073709551616x1",
        "1x18446744073709551616",
        "1x99999999999999999999999999999999",
    ] {
        assert_eq!(parse_grid_param_clap(text), Err(format!("Invalid grid format: {}", text)));
    }
}
