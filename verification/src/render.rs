//! Cutting a picture into horizontal bands, rendering each band on its own,
//! and putting the bands together again.
//!
//! The picture has `vsize` rows and is cut into as many bands as there are
//! workers. Every band but the last has `vsize / workers` rows; the last band
//! takes the rows that are left. What a pixel shows is decided by a function of
//! its column and row alone, so the picture does not depend on the cut.

use crate::canvas::{part_pixel, rows_before, stitch_canvases, Canvas};
use vstd::prelude::*;

verus! {

/// The first row of band `band`.
pub open spec fn band_start(vsize: int, workers: int, band: int) -> int {
    band * (vsize / workers)
}

/// The number of rows of band `band`.
pub open spec fn band_len(vsize: int, workers: int, band: int) -> int {
    if band + 1 == workers {
        vsize - band_start(vsize, workers, band)
    } else {
        vsize / workers
    }
}

/// The band that row `y` belongs to.
pub open spec fn band_of(vsize: int, workers: int, y: int) -> int {
    if vsize / workers == 0 || y / (vsize / workers) >= workers {
        workers - 1
    } else {
        y / (vsize / workers)
    }
}

/// The bands lie one behind the other without gap or overlap, the first at
/// row 0, the last ending at the last row.
pub proof fn lemma_bands_tile(vsize: int, workers: int, band: int)
    requires
        0 <= vsize,
        1 <= workers,
        0 <= band < workers,
    ensures
        band_start(vsize, workers, 0) == 0,
        0 <= band_len(vsize, workers, band),
        0 <= band_start(vsize, workers, band),
        band_start(vsize, workers, band) + band_len(vsize, workers, band) <= vsize,
        band + 1 < workers ==> band_start(vsize, workers, band) + band_len(vsize, workers, band)
            == band_start(vsize, workers, band + 1),
        band + 1 == workers ==> band_start(vsize, workers, band) + band_len(vsize, workers, band)
            == vsize,
{
    let per = vsize / workers;
    assert(0 <= per && per * workers <= vsize) by (nonlinear_arith)
        requires
            0 <= vsize,
            1 <= workers,
            per == vsize / workers,
    ;
    assert(0 <= band * per && (band + 1) * per == band * per + per && (band + 1) * per <= per
        * workers) by (nonlinear_arith)
        requires
            0 <= band < workers,
            0 <= per,
    ;
}

/// Every row of the picture lies in exactly one band: in `band_of` of it and in
/// no other.
pub proof fn lemma_row_in_one_band(vsize: int, workers: int, y: int, band: int)
    requires
        1 <= workers,
        0 <= y < vsize,
        0 <= band < workers,
    ensures
        0 <= band_of(vsize, workers, y) < workers,
        (band_start(vsize, workers, band) <= y < band_start(vsize, workers, band) + band_len(
            vsize,
            workers,
            band,
        )) <==> band == band_of(vsize, workers, y),
{
    let per = vsize / workers;
    lemma_bands_tile(vsize, workers, band);
    assert(0 <= per) by (nonlinear_arith)
        requires
            0 <= vsize,
            1 <= workers,
            per == vsize / workers,
    ;
    if per == 0 {
        assert(band * per == 0) by (nonlinear_arith)
            requires
                per == 0,
        ;
    } else {
        let q = y / per;
        assert(0 <= q && q * per <= y < q * per + per) by (nonlinear_arith)
            requires
                0 <= y,
                0 < per,
                q == y / per,
        ;
        assert(band < q ==> band * per + per <= q * per) by (nonlinear_arith)
            requires
                0 < per,
        ;
        assert(band > q ==> q * per + per <= band * per) by (nonlinear_arith)
            requires
                0 < per,
        ;
    }
}

/// The first row and the number of rows of band `band`.
pub fn band_rows(vsize: usize, workers: usize, band: usize) -> (r: (usize, usize))
    requires
        1 <= workers,
        band < workers,
    ensures
        r.0 == band_start(vsize as int, workers as int, band as int),
        r.1 == band_len(vsize as int, workers as int, band as int),
{
    proof {
        lemma_bands_tile(vsize as int, workers as int, band as int);
    }
    let per = vsize / workers;
    let first = band * per;
    if band + 1 == workers {
        (first, vsize - first)
    } else {
        (first, per)
    }
}

/// `c` is a picture of `hsize` by `vsize` pixels in which every pixel is what
/// `pixel` gives for its column and row.
pub open spec fn is_rendering<P: Copy, F: Fn(usize, usize) -> P>(
    c: Canvas<P>,
    hsize: usize,
    vsize: usize,
    pixel: F,
) -> bool {
    &&& c.spec_width() == hsize
    &&& c.spec_height() == vsize
    &&& forall|x: int, y: int|
        0 <= x < hsize && 0 <= y < vsize ==> call_ensures(
            pixel,
            (x as usize, y as usize),
            #[trigger] c.pixel(x, y),
        )
}

/// `pixel` gives one value only for each pixel of the picture.
pub open spec fn is_deterministic<P: Copy, F: Fn(usize, usize) -> P>(
    hsize: usize,
    vsize: usize,
    pixel: F,
) -> bool {
    forall|x: usize, y: usize, p: P, q: P|
        x < hsize && y < vsize && #[trigger] call_ensures(pixel, (x, y), p) && #[trigger] call_ensures(
            pixel,
            (x, y),
            q,
        ) ==> p == q
}

/// Two renderings of one picture by a function that gives one value for each
/// pixel are the same, pixel for pixel: however the rows were cut into bands,
/// and into however many.
pub proof fn lemma_rendering_is_unique<P: Copy, F: Fn(usize, usize) -> P>(
    a: Canvas<P>,
    b: Canvas<P>,
    hsize: usize,
    vsize: usize,
    pixel: F,
)
    requires
        is_rendering(a, hsize, vsize, pixel),
        is_rendering(b, hsize, vsize, pixel),
        is_deterministic(hsize, vsize, pixel),
    ensures
        a.view_rows() == b.view_rows(),
{
    assert forall|x: int, y: int| 0 <= x < hsize && 0 <= y < vsize implies a.pixel(x, y)
        == b.pixel(x, y) by {
        assert(call_ensures(pixel, (x as usize, y as usize), a.pixel(x, y)));
        assert(call_ensures(pixel, (x as usize, y as usize), b.pixel(x, y)));
    }
    assert forall|y: int| 0 <= y < vsize implies a.view_rows()[y] == b.view_rows()[y] by {
        assert(a.view_rows()[y] =~= b.view_rows()[y]);
    }
    assert(a.view_rows() =~= b.view_rows());
}

/// Renders the `rows` rows from `first_row` on: pixel `(x, j)` of the band is
/// what `pixel` gives for column `x` of row `first_row + j` of the picture.
pub fn render_band<P: Copy, F: Fn(usize, usize) -> P>(
    hsize: usize,
    first_row: usize,
    rows: usize,
    fill: P,
    pixel: &F,
) -> (band: Canvas<P>)
    requires
        hsize * rows <= usize::MAX,
        first_row + rows <= usize::MAX,
        forall|x: usize, y: usize|
            x < hsize && first_row <= y < first_row + rows ==> call_requires(*pixel, (x, y)),
    ensures
        band.spec_width() == hsize,
        band.spec_height() == rows,
        forall|x: int, j: int|
            0 <= x < hsize && 0 <= j < rows ==> call_ensures(
                *pixel,
                (x as usize, (first_row + j) as usize),
                #[trigger] band.pixel(x, j),
            ),
{
    let mut image = Canvas::new(hsize, rows, fill);
    let mut j: usize = 0;
    while j < rows
        invariant
            0 <= j <= rows,
            first_row + rows <= usize::MAX,
            image.spec_width() == hsize,
            image.spec_height() == rows,
            forall|x: usize, y: usize|
                x < hsize && first_row <= y < first_row + rows ==> call_requires(*pixel, (x, y)),
            forall|x: int, i: int|
                0 <= x < hsize && 0 <= i < j ==> call_ensures(
                    *pixel,
                    (x as usize, (first_row + i) as usize),
                    #[trigger] image.pixel(x, i),
                ),
        decreases rows - j,
    {
        let mut x: usize = 0;
        while x < hsize
            invariant
                0 <= x <= hsize,
                j < rows,
                first_row + rows <= usize::MAX,
                image.spec_width() == hsize,
                image.spec_height() == rows,
                forall|x: usize, y: usize|
                    x < hsize && first_row <= y < first_row + rows ==> call_requires(
                        *pixel,
                        (x, y),
                    ),
                forall|c: int, i: int|
                    0 <= c < hsize && 0 <= i < j ==> call_ensures(
                        *pixel,
                        (c as usize, (first_row + i) as usize),
                        #[trigger] image.pixel(c, i),
                    ),
                forall|c: int|
                    0 <= c < x ==> call_ensures(
                        *pixel,
                        (c as usize, (first_row + j) as usize),
                        #[trigger] image.pixel(c, j as int),
                    ),
            decreases hsize - x,
        {
            let ghost before = image;
            let color = pixel(x, first_row + j);
            image.write_pixel(x, j, color);
            proof {
                assert forall|c: int, i: int| 0 <= c < hsize && 0 <= i < j implies call_ensures(
                    *pixel,
                    (c as usize, (first_row + i) as usize),
                    #[trigger] image.pixel(c, i),
                ) by {
                    assert(before.holds(c, i));
                    assert(image.pixel(c, i) == before.pixel(c, i));
                }
                assert forall|c: int| 0 <= c < x + 1 implies call_ensures(
                    *pixel,
                    (c as usize, (first_row + j) as usize),
                    #[trigger] image.pixel(c, j as int),
                ) by {
                    if c < x {
                        assert(before.holds(c, j as int));
                        assert(image.pixel(c, j as int) == before.pixel(c, j as int));
                    }
                }
            }
            x += 1;
        }
        j += 1;
    }
    image
}

/// Renders the picture band by band, with one band for each of `workers`
/// workers, and puts the bands together in their order.
pub fn render<P: Copy, F: Fn(usize, usize) -> P>(
    hsize: usize,
    vsize: usize,
    workers: usize,
    fill: P,
    pixel: &F,
) -> (image: Canvas<P>)
    requires
        1 <= workers,
        hsize * vsize <= usize::MAX,
        forall|x: usize, y: usize| x < hsize && y < vsize ==> call_requires(*pixel, (x, y)),
    ensures
        is_rendering(image, hsize, vsize, *pixel),
{
    let mut bands: Vec<Canvas<P>> = Vec::new();
    let mut b: usize = 0;
    while b < workers
        invariant
            0 <= b <= workers,
            1 <= workers,
            hsize * vsize <= usize::MAX,
            forall|x: usize, y: usize| x < hsize && y < vsize ==> call_requires(*pixel, (x, y)),
            bands@.len() == b,
            rows_before(bands@, b as int) == (if b == workers {
                vsize as int
            } else {
                band_start(vsize as int, workers as int, b as int)
            }),
            forall|k: int|
                0 <= k < b ==> {
                    &&& (#[trigger] bands@[k]).spec_width() == hsize
                    &&& bands@[k].spec_height() == band_len(vsize as int, workers as int, k)
                },
            forall|k: int, x: int, j: int|
                0 <= k < b && 0 <= x < hsize && 0 <= j < band_len(vsize as int, workers as int, k)
                    ==> call_ensures(
                    *pixel,
                    (x as usize, (band_start(vsize as int, workers as int, k) + j) as usize),
                    #[trigger] bands@[k].pixel(x, j),
                ),
        decreases workers - b,
    {
        let ghost done = bands@;
        let (first_row, rows) = band_rows(vsize, workers, b);
        proof {
            lemma_bands_tile(vsize as int, workers as int, b as int);
            assert(hsize * rows <= hsize * vsize) by (nonlinear_arith)
                requires
                    0 <= rows <= vsize,
                    0 <= hsize,
            ;
        }
        let band = render_band(hsize, first_row, rows, fill, pixel);
        bands.push(band);
        proof {
            lemma_rows_before_prefix(done, bands@, b as int);
            assert(bands@[b as int] == band);
        }
        b += 1;
    }
    proof {
        lemma_bands_tile(vsize as int, workers as int, 0);
        assert(hsize * vsize == hsize * rows_before(bands@, workers as int));
    }
    let ghost cs = bands@;
    let image = stitch_canvases(bands, fill);
    proof {
        assert forall|x: int, y: int| 0 <= x < hsize && 0 <= y < vsize implies call_ensures(
            *pixel,
            (x as usize, y as usize),
            #[trigger] image.pixel(x, y),
        ) by {
            let k = band_of(vsize as int, workers as int, y);
            lemma_row_in_one_band(vsize as int, workers as int, y, k);
            let j = y - band_start(vsize as int, workers as int, k);
            lemma_rows_before_bands(cs, vsize as int, workers as int, k);
            assert(part_pixel(cs, fill, k, x, j) == image.pixel(x, rows_before(cs, k) + j));
            assert(call_ensures(
                *pixel,
                (x as usize, (band_start(vsize as int, workers as int, k) + j) as usize),
                cs[k].pixel(x, j),
            ));
        }
    }
    image
}

/// The rows before a part do not depend on the parts behind it.
proof fn lemma_rows_before_prefix<P: Copy>(a: Seq<Canvas<P>>, b: Seq<Canvas<P>>, k: int)
    requires
        0 <= k <= a.len() <= b.len(),
        forall|i: int| 0 <= i < a.len() ==> a[i] == b[i],
    ensures
        rows_before(a, k) == rows_before(b, k),
    decreases k,
{
    if k > 0 {
        lemma_rows_before_prefix(a, b, k - 1);
    }
}

/// Bands that have the lengths of the cut start at the rows of the cut.
proof fn lemma_rows_before_bands<P: Copy>(cs: Seq<Canvas<P>>, vsize: int, workers: int, k: int)
    requires
        0 <= vsize,
        1 <= workers,
        0 <= k < workers,
        cs.len() == workers,
        forall|i: int| 0 <= i < workers ==> (#[trigger] cs[i]).spec_height() == band_len(vsize, workers, i),
    ensures
        rows_before(cs, k) == band_start(vsize, workers, k),
    decreases k,
{
    lemma_bands_tile(vsize, workers, 0);
    if k > 0 {
        lemma_rows_before_bands(cs, vsize, workers, k - 1);
        lemma_bands_tile(vsize, workers, k - 1);
    }
}

} // verus!
