use ray_tracer::ppm::{ppm_header, ppm_row, Rgb};

#[test]
fn header_of_a_picture() {
    assert_eq!(ppm_header(5, 3), "P3\n5 3\n255\n");
    assert_eq!(ppm_header(1920, 1080), "P3\n1920 1080\n255\n");
    assert_eq!(ppm_header(0, 0), "P3\n0 0\n255\n");
    assert_eq!(ppm_header(10, 100), "P3\n10 100\n255\n");
}

#[test]
fn header_of_the_largest_picture() {
    let expected = format!("P3\n{} {}\n255\n", usize::MAX, usize::MAX);
    assert_eq!(ppm_header(usize::MAX, usize::MAX), expected);
}

#[test]
fn row_of_pixels() {
    let row = vec![
        Rgb { r: 255, g: 0, b: 0 },
        Rgb { r: 0, g: 127, b: 0 },
        Rgb { r: 9, g: 10, b: 99 },
        Rgb { r: 100, g: 101, b: 200 },
    ];
    assert_eq!(ppm_row(&row), "255 0 0 0 127 0 9 10 99 100 101 200 ");
}

#[test]
fn row_without_pixels() {
    let row: Vec<Rgb> = vec![];
    assert_eq!(ppm_row(&row), "");
}

#[test]
fn every_colour_value_is_written_in_decimal() {
    for n in 0..=255u8 {
        let row = vec![Rgb { r: n, g: 255 - n, b: n }];
        assert_eq!(ppm_row(&row), format!("{} {} {} ", n, 255 - n, n));
    }
}
