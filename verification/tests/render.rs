use ray_tracer::canvas::{stitch_canvases, Canvas};
use ray_tracer::render::{band_rows, render, render_band};

#[derive(Clone, Copy, Debug, PartialEq)]
struct Color {
    r: f64,
    g: f64,
    b: f64,
}

fn black() -> Color {
    Color { r: 0.0, g: 0.0, b: 0.0 }
}

fn shade(x: usize, y: usize) -> Color {
    Color { r: x as f64 / 16.0, g: y as f64 / 16.0, b: (x * 31 + y * 17) as f64 }
}

#[test]
fn a_new_canvas_shows_the_fill() {
    let c = Canvas::new(10, 20, black());
    assert_eq!(c.width(), 10);
    assert_eq!(c.height(), 20);
    for y in 0..20 {
        for x in 0..10 {
            assert_eq!(c.get_pixel(x, y), black());
        }
    }
}

#[test]
fn writing_a_pixel_changes_that_pixel_only() {
    let mut c = Canvas::new(10, 20, black());
    let red = Color { r: 1.0, g: 0.0, b: 0.0 };
    c.write_pixel(2, 3, red);
    for y in 0..20 {
        for x in 0..10 {
            let expected = if (x, y) == (2, 3) { red } else { black() };
            assert_eq!(c.get_pixel(x, y), expected);
        }
    }
    c.write_pixel(9, 19, red);
    c.write_pixel(0, 0, red);
    assert_eq!(c.get_pixel(9, 19), red);
    assert_eq!(c.get_pixel(0, 0), red);
    assert_eq!(c.get_pixel(3, 2), black());
}

#[test]
fn canvases_without_pixels() {
    let c = Canvas::new(0, 5, 1u8);
    assert_eq!((c.width(), c.height()), (0, 5));
    let c = Canvas::new(5, 0, 1u8);
    assert_eq!((c.width(), c.height()), (5, 0));
}

#[test]
fn stitching_puts_one_below_the_other() {
    let mut a = Canvas::new(3, 2, 0u32);
    let mut b = Canvas::new(3, 1, 0u32);
    let c = Canvas::new(3, 0, 0u32);
    let mut d = Canvas::new(3, 2, 0u32);
    for x in 0..3 {
        for y in 0..2 {
            a.write_pixel(x, y, (100 + 10 * y + x) as u32);
            d.write_pixel(x, y, (300 + 10 * y + x) as u32);
        }
        b.write_pixel(x, 0, (200 + x) as u32);
    }
    let all = stitch_canvases(vec![a, b, c, d], 7);
    assert_eq!((all.width(), all.height()), (3, 5));
    let expected = [
        [100, 101, 102],
        [110, 111, 112],
        [200, 201, 202],
        [300, 301, 302],
        [310, 311, 312],
    ];
    for y in 0..5 {
        for x in 0..3 {
            assert_eq!(all.get_pixel(x, y), expected[y][x]);
        }
    }
}

#[test]
fn stitching_fills_beside_a_narrow_canvas() {
    let a = Canvas::new(3, 1, 1u8);
    let b = Canvas::new(1, 2, 2u8);
    let all = stitch_canvases(vec![a, b], 9);
    assert_eq!((all.width(), all.height()), (3, 3));
    let expected = [[1, 1, 1], [2, 9, 9], [2, 9, 9]];
    for y in 0..3 {
        for x in 0..3 {
            assert_eq!(all.get_pixel(x, y), expected[y][x]);
        }
    }
}

#[test]
fn stitching_one_canvas_gives_it_back() {
    let mut a = Canvas::new(2, 2, 0u8);
    a.write_pixel(1, 0, 5);
    let all = stitch_canvases(vec![a], 9);
    assert_eq!((all.width(), all.height()), (2, 2));
    assert_eq!(all.get_pixel(1, 0), 5);
    assert_eq!(all.get_pixel(0, 1), 0);
}

#[test]
fn bands_of_an_even_cut() {
    assert_eq!(band_rows(12, 3, 0), (0, 4));
    assert_eq!(band_rows(12, 3, 1), (4, 4));
    assert_eq!(band_rows(12, 3, 2), (8, 4));
    assert_eq!(band_rows(12, 1, 0), (0, 12));
}

#[test]
fn the_last_band_takes_what_is_left() {
    assert_eq!(band_rows(11, 2, 0), (0, 5));
    assert_eq!(band_rows(11, 2, 1), (5, 6));
    assert_eq!(band_rows(11, 7, 0), (0, 1));
    assert_eq!(band_rows(11, 7, 5), (5, 1));
    assert_eq!(band_rows(11, 7, 6), (6, 5));
}

#[test]
fn more_workers_than_rows() {
    assert_eq!(band_rows(3, 5, 0), (0, 0));
    assert_eq!(band_rows(3, 5, 3), (0, 0));
    assert_eq!(band_rows(3, 5, 4), (0, 3));
    assert_eq!(band_rows(0, 4, 3), (0, 0));
}

#[test]
fn bands_cover_every_row_once() {
    for vsize in 0..40usize {
        for workers in 1..12usize {
            let mut next = 0;
            for band in 0..workers {
                let (first, rows) = band_rows(vsize, workers, band);
                assert_eq!(first, next);
                next = first + rows;
            }
            assert_eq!(next, vsize);
        }
    }
}

#[test]
fn a_band_shows_its_rows_of_the_picture() {
    let band = render_band(4, 6, 3, black(), &shade);
    assert_eq!((band.width(), band.height()), (4, 3));
    for j in 0..3 {
        for x in 0..4 {
            assert_eq!(band.get_pixel(x, j), shade(x, 6 + j));
        }
    }
}

#[test]
fn rendering_does_not_depend_on_the_number_of_workers() {
    let single = render(11, 11, 1, black(), &shade);
    assert_eq!((single.width(), single.height()), (11, 11));
    for workers in [2usize, 7, 11, 12, 40] {
        let image = render(11, 11, workers, black(), &shade);
        assert_eq!((image.width(), image.height()), (11, 11));
        for y in 0..11 {
            for x in 0..11 {
                assert_eq!(image.get_pixel(x, y), single.get_pixel(x, y));
                assert_eq!(image.get_pixel(x, y), shade(x, y));
            }
        }
    }
}

#[test]
fn rendering_by_hand_made_bands() {
    // what workers do on their own: each renders its band, then the bands are
    // put together
    let workers = 4;
    let mut bands = vec![];
    for band in 0..workers {
        let (first, rows) = band_rows(10, workers, band);
        bands.push(render_band(6, first, rows, black(), &shade));
    }
    let image = stitch_canvases(bands, black());
    assert_eq!((image.width(), image.height()), (6, 10));
    for y in 0..10 {
        for x in 0..6 {
            assert_eq!(image.get_pixel(x, y), shade(x, y));
        }
    }
}

#[test]
fn rendering_a_picture_without_rows() {
    let image = render(5, 0, 3, black(), &shade);
    assert_eq!((image.width(), image.height()), (5, 0));
}

#[test]
fn a_copy_is_its_own_canvas() {
    let mut a = Canvas::new(2, 3, 0u8);
    a.write_pixel(1, 2, 7);
    let mut b = a.clone();
    b.write_pixel(0, 0, 9);
    assert_eq!((b.width(), b.height(), b.len()), (2, 3, 6));
    assert_eq!(a.get_pixel(0, 0), 0);
    assert_eq!(a.get_pixel(1, 2), 7);
    assert_eq!(b.get_pixel(0, 0), 9);
    assert_eq!(b.get_pixel(1, 2), 7);
}

#[test]
fn the_empty_canvas() {
    let c: Canvas<u8> = Canvas::empty();
    assert_eq!((c.width(), c.height(), c.len()), (0, 0, 0));
}
