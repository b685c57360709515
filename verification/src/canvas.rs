//! A rectangular buffer of pixels.

use vstd::prelude::*;

verus! {

/// A buffer of `width` by `height` pixels of any kind `P`. The pixel at column
/// `x` of row `y` is addressed as `(x, y)`; row 0 is the top of the picture.
#[derive(Debug)]
pub struct Canvas<P> {
    width: usize,
    height: usize,
    /// Row after row.
    pixels: Vec<P>,
}

/// Place of the pixel `(x, y)` in a buffer of rows of `width` pixels.
pub open spec fn offset(width: int, x: int, y: int) -> int {
    y * width + x
}

/// Every pixel of a `width` by `height` buffer has a place of its own inside it.
pub proof fn lemma_offset(width: int, height: int, x: int, y: int)
    requires
        0 <= x < width,
        0 <= y < height,
    ensures
        0 <= y * width <= offset(width, x, y) < width * height,
        offset(width, x, y) / width == y,
        offset(width, x, y) % width == x,
{
    assert(0 <= y * width && 0 <= y * width + x < width * height) by (nonlinear_arith)
        requires
            0 <= x < width,
            0 <= y < height,
    ;
    assert((y * width + x) / width == y && (y * width + x) % width == x) by (nonlinear_arith)
        requires
            0 <= x < width,
            0 <= y,
    ;
}

impl<P> Canvas<P> {
    #[verifier::type_invariant]
    spec fn well_formed(self) -> bool {
        self.pixels@.len() == self.width * self.height
    }
}

impl<P: Copy> Clone for Canvas<P> {
    /// A canvas of the same size with the same pixels.
    fn clone(&self) -> (c: Self)
        ensures
            c.spec_width() == self.spec_width(),
            c.spec_height() == self.spec_height(),
            forall|x: int, y: int| self.holds(x, y) ==> c.pixel(x, y) == self.pixel(x, y),
    {
        proof {
            use_type_invariant(self);
        }
        let mut pixels: Vec<P> = Vec::new();
        let mut i: usize = 0;
        while i < self.pixels.len()
            invariant
                0 <= i <= self.pixels@.len(),
                pixels@ == self.pixels@.take(i as int),
            decreases self.pixels@.len() - i,
        {
            pixels.push(self.pixels[i]);
            proof {
                assert(self.pixels@.take(i + 1) =~= self.pixels@.take(i as int).push(
                    self.pixels@[i as int],
                ));
            }
            i += 1;
        }
        proof {
            assert(self.pixels@.take(i as int) =~= self.pixels@);
        }
        Canvas { width: self.width, height: self.height, pixels }
    }
}

impl<P: Copy> Canvas<P> {
    /// Number of columns.
    pub closed spec fn spec_width(&self) -> usize {
        self.width
    }

    /// Number of rows.
    pub closed spec fn spec_height(&self) -> usize {
        self.height
    }

    /// The pixel at column `x` of row `y`.
    pub closed spec fn pixel(&self, x: int, y: int) -> P {
        self.pixels@[offset(self.width as int, x, y)]
    }

    /// `(x, y)` addresses a pixel of this canvas.
    pub open spec fn holds(&self, x: int, y: int) -> bool {
        0 <= x < self.spec_width() && 0 <= y < self.spec_height()
    }

    /// The rows of the canvas, top row first.
    pub open spec fn view_rows(&self) -> Seq<Seq<P>> {
        Seq::new(
            self.spec_height() as nat,
            |y: int| Seq::new(self.spec_width() as nat, |x: int| self.pixel(x, y)),
        )
    }

    /// A canvas with `fill` at every pixel.
    pub fn new(width: usize, height: usize, fill: P) -> (c: Canvas<P>)
        requires
            width * height <= usize::MAX,
        ensures
            c.spec_width() == width,
            c.spec_height() == height,
            forall|x: int, y: int| c.holds(x, y) ==> c.pixel(x, y) == fill,
    {
        let n = width * height;
        let mut pixels: Vec<P> = Vec::new();
        let mut i: usize = 0;
        while i < n
            invariant
                0 <= i <= n,
                pixels@.len() == i,
                forall|j: int| 0 <= j < i ==> pixels@[j] == fill,
            decreases n - i,
        {
            pixels.push(fill);
            i += 1;
        }
        let c = Canvas { width, height, pixels };
        assert forall|x: int, y: int| c.holds(x, y) implies c.pixel(x, y) == fill by {
            lemma_offset(width as int, height as int, x, y);
        }
        c
    }

    /// A canvas without pixels.
    pub fn empty() -> (c: Canvas<P>)
        ensures
            c.spec_width() == 0,
            c.spec_height() == 0,
    {
        Canvas { width: 0, height: 0, pixels: Vec::new() }
    }

    /// Number of columns.
    #[verifier::when_used_as_spec(spec_width)]
    pub fn width(&self) -> (w: usize)
        ensures
            w == self.spec_width(),
    {
        self.width
    }

    /// Number of rows.
    #[verifier::when_used_as_spec(spec_height)]
    pub fn height(&self) -> (h: usize)
        ensures
            h == self.spec_height(),
    {
        self.height
    }

    /// Number of pixels.
    pub fn len(&self) -> (n: usize)
        ensures
            n == self.spec_width() * self.spec_height(),
    {
        proof {
            use_type_invariant(self);
        }
        self.pixels.len()
    }

    /// Sets the pixel at `(x, y)` and leaves every other pixel as it was.
    pub fn write_pixel(&mut self, x: usize, y: usize, c: P)
        requires
            old(self).holds(x as int, y as int),
        ensures
            final(self).spec_width() == old(self).spec_width(),
            final(self).spec_height() == old(self).spec_height(),
            final(self).pixel(x as int, y as int) == c,
            forall|i: int, j: int|
                old(self).holds(i, j) && (i != x || j != y) ==> final(self).pixel(i, j) == old(
                    self,
                ).pixel(i, j),
        no_unwind
    {
        proof {
            use_type_invariant(&*self);
            lemma_offset(self.width as int, self.height as int, x as int, y as int);
        }
        let n = self.pixels.len();
        assert(y * self.width + x == offset(self.width as int, x as int, y as int) < n);
        let at = y * self.width + x;
        self.pixels[at] = c;
        assert forall|i: int, j: int| old(self).holds(i, j) && (i != x || j != y) implies self.pixel(
            i,
            j,
        ) == old(self).pixel(i, j) by {
            lemma_offset(self.width as int, self.height as int, i, j);
        }
    }

    /// The pixel at `(x, y)`.
    pub fn get_pixel(&self, x: usize, y: usize) -> (c: P)
        requires
            self.holds(x as int, y as int),
        ensures
            c == self.pixel(x as int, y as int),
    {
        proof {
            use_type_invariant(self);
            lemma_offset(self.width as int, self.height as int, x as int, y as int);
        }
        let n = self.pixels.len();
        assert(y * self.width + x == offset(self.width as int, x as int, y as int) < n);
        self.pixels[y * self.width + x]
    }
}

/// Number of rows of the first `k` canvases of `cs` together.
pub open spec fn rows_before<P: Copy>(cs: Seq<Canvas<P>>, k: int) -> int
    decreases k,
{
    if k <= 0 {
        0
    } else {
        rows_before(cs, k - 1) + cs[k - 1].spec_height()
    }
}

/// What a picture made of `cs`, one below the other, shows at column `x` of
/// row `j` of its part `k`: the pixel of that canvas, or `fill` to the right of
/// a canvas that is narrower than the picture.
pub open spec fn part_pixel<P: Copy>(cs: Seq<Canvas<P>>, fill: P, k: int, x: int, j: int) -> P {
    if x < cs[k].spec_width() {
        cs[k].pixel(x, j)
    } else {
        fill
    }
}

/// `r` is the canvases of `cs` one below the other, in their order, as wide as
/// the first of them.
pub open spec fn is_stitched<P: Copy>(r: Canvas<P>, cs: Seq<Canvas<P>>, fill: P) -> bool {
    &&& r.spec_width() == cs[0].spec_width()
    &&& r.spec_height() == rows_before(cs, cs.len() as int)
    &&& forall|k: int, x: int, j: int|
        0 <= k < cs.len() && 0 <= x < r.spec_width() && 0 <= j < cs[k].spec_height()
            ==> #[trigger] part_pixel(cs, fill, k, x, j) == r.pixel(x, rows_before(cs, k) + j)
}

/// The rows of the parts add up: a later part starts no earlier.
pub proof fn lemma_rows_before<P: Copy>(cs: Seq<Canvas<P>>, a: int, b: int)
    requires
        0 <= a <= b,
    ensures
        0 <= rows_before(cs, a) <= rows_before(cs, b),
    decreases b,
{
    if a < b {
        lemma_rows_before(cs, a, b - 1);
    } else if a > 0 {
        lemma_rows_before(cs, a - 1, a - 1);
    }
}

/// The part that row `y` of the stitched picture comes from.
pub open spec fn part_of_row<P: Copy>(cs: Seq<Canvas<P>>, n: int, y: int) -> int
    decreases n,
{
    if n <= 1 || rows_before(cs, n - 1) <= y {
        n - 1
    } else {
        part_of_row(cs, n - 1, y)
    }
}

/// Every row of the stitched picture is a row of one of the parts, so that
/// `is_stitched` says of every pixel what it shows.
pub proof fn lemma_row_in_a_part<P: Copy>(cs: Seq<Canvas<P>>, n: int, y: int)
    requires
        1 <= n <= cs.len(),
        0 <= y < rows_before(cs, n),
    ensures
        ({
            let k = part_of_row(cs, n, y);
            0 <= k < n && rows_before(cs, k) <= y < rows_before(cs, k) + cs[k].spec_height()
        }),
    decreases n,
{
    if n > 1 && rows_before(cs, n - 1) > y {
        lemma_row_in_a_part(cs, n - 1, y);
    } else if n == 1 {
        assert(rows_before(cs, 0) == 0);
    }
}

/// Puts the canvases one below the other, in their order. The result is as wide
/// as the first canvas; to the right of a narrower one it shows `fill`.
#[verifier::loop_isolation(false)]
pub fn stitch_canvases<P: Copy>(canvases: Vec<Canvas<P>>, fill: P) -> (r: Canvas<P>)
    requires
        canvases@.len() > 0,
        forall|k: int|
            0 <= k < canvases@.len() ==> (#[trigger] canvases@[k]).spec_width()
                <= canvases@[0].spec_width(),
        rows_before(canvases@, canvases@.len() as int) <= usize::MAX,
        canvases@[0].spec_width() * rows_before(canvases@, canvases@.len() as int) <= usize::MAX,
    ensures
        is_stitched(r, canvases@, fill),
{
    let ghost cs = canvases@;
    let count = canvases.len();
    let width = canvases[0].width();
    let mut height: usize = 0;
    let mut k: usize = 0;
    while k < count
        invariant
            0 <= k <= count,
            height == rows_before(cs, k as int),
        decreases count - k,
    {
        proof {
            lemma_rows_before(cs, k + 1, count as int);
        }
        height = height + canvases[k].height();
        k += 1;
    }
    let mut result = Canvas::new(width, height, fill);
    let mut res_y: usize = 0;
    let mut k: usize = 0;
    while k < count
        invariant
            0 <= k <= count,
            res_y == rows_before(cs, k as int),
            result.spec_width() == width,
            result.spec_height() == height,
            forall|n: int, x: int, j: int|
                0 <= n < k && 0 <= x < width && 0 <= j < cs[n].spec_height() ==> #[trigger] part_pixel(
                    cs,
                    fill,
                    n,
                    x,
                    j,
                ) == result.pixel(x, rows_before(cs, n) + j),
            forall|x: int, y: int|
                0 <= x < width && res_y <= y < height ==> result.pixel(x, y) == fill,
        decreases count - k,
    {
        let canvas = &canvases[k];
        let rows = canvas.height();
        let columns = canvas.width();
        proof {
            lemma_rows_before(cs, k + 1, count as int);
        }
        let mut y: usize = 0;
        while y < rows
            invariant
                0 <= y <= rows,
                res_y == rows_before(cs, k as int) + y,
                result.spec_width() == width,
                result.spec_height() == height,
                forall|n: int, x: int, j: int|
                    0 <= n < k && 0 <= x < width && 0 <= j < cs[n].spec_height()
                        ==> #[trigger] part_pixel(cs, fill, n, x, j) == result.pixel(
                        x,
                        rows_before(cs, n) + j,
                    ),
                forall|x: int, j: int|
                    0 <= x < width && 0 <= j < y ==> #[trigger] part_pixel(cs, fill, k as int, x, j)
                        == result.pixel(x, rows_before(cs, k as int) + j),
                forall|x: int, yy: int|
                    0 <= x < width && res_y <= yy < height ==> result.pixel(x, yy) == fill,
            decreases rows - y,
        {
            let mut x: usize = 0;
            while x < columns
                invariant
                    0 <= x <= columns,
                    y < rows,
                    res_y == rows_before(cs, k as int) + y,
                    result.spec_width() == width,
                    result.spec_height() == height,
                    forall|n: int, i: int, j: int|
                        0 <= n < k && 0 <= i < width && 0 <= j < cs[n].spec_height()
                            ==> #[trigger] part_pixel(cs, fill, n, i, j) == result.pixel(
                            i,
                            rows_before(cs, n) + j,
                        ),
                    forall|i: int, j: int|
                        0 <= i < width && 0 <= j < y ==> #[trigger] part_pixel(
                            cs,
                            fill,
                            k as int,
                            i,
                            j,
                        ) == result.pixel(i, rows_before(cs, k as int) + j),
                    forall|i: int| 0 <= i < x ==> result.pixel(i, res_y as int) == canvas.pixel(i, y as int),
                    forall|i: int| x <= i < width ==> result.pixel(i, res_y as int) == fill,
                    forall|i: int, yy: int|
                        0 <= i < width && res_y < yy < height ==> result.pixel(i, yy) == fill,
                decreases columns - x,
            {
                let ghost before = result;
                let c = canvas.get_pixel(x, y);
                result.write_pixel(x, res_y, c);
                proof {
                    assert forall|n: int, i: int, j: int|
                        0 <= n < k && 0 <= i < width && 0 <= j < cs[n].spec_height()
                        implies #[trigger] part_pixel(cs, fill, n, i, j) == result.pixel(
                        i,
                        rows_before(cs, n) + j,
                    ) by {
                        lemma_rows_before(cs, n + 1, k as int);
                        lemma_rows_before(cs, n, n + 1);
                        lemma_rows_before(cs, k as int, count as int);
                        assert(rows_before(cs, n + 1) == rows_before(cs, n) + cs[n].spec_height());
                        assert(before.holds(i, rows_before(cs, n) + j));
                    }
                    assert forall|i: int, j: int|
                        0 <= i < width && 0 <= j < y implies #[trigger] part_pixel(
                        cs,
                        fill,
                        k as int,
                        i,
                        j,
                    ) == result.pixel(i, rows_before(cs, k as int) + j) by {
                        assert(before.holds(i, rows_before(cs, k as int) + j));
                    }
                    assert forall|i: int| 0 <= i < x + 1 implies result.pixel(i, res_y as int)
                        == canvas.pixel(i, y as int) by {
                        if i < x {
                            assert(before.holds(i, res_y as int));
                        }
                    }
                    assert forall|i: int| x + 1 <= i < width implies result.pixel(i, res_y as int)
                        == fill by {
                        assert(before.holds(i, res_y as int));
                    }
                    assert forall|i: int, yy: int|
                        0 <= i < width && res_y < yy < height implies result.pixel(i, yy)
                        == fill by {
                        assert(before.holds(i, yy));
                    }
                }
                x += 1;
            }
            res_y += 1;
            y += 1;
        }
        k += 1;
    }
    result
}

} // verus!
