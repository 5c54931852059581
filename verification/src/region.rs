//! The raster cut into bands, the pixels of a band in the order in which they
//! are traced, and the place and form of a pixel in a frame buffer.
use vstd::prelude::*;
use vstd::arithmetic::div_mod::lemma_fundamental_div_mod_converse;
use vstd::arithmetic::mul::{lemma_mul_inequality, lemma_mul_is_distributive_add};

verus! {

/// A band of the raster: the columns before `width`, and the rows from
/// `min_y` up to, and without, `max_y`.
#[derive(Clone, Copy, Debug, PartialEq, Eq, Structural)]
pub struct Region {
    pub width: usize,
    pub min_y: usize,
    pub max_y: usize,
}

impl Region {
    /// Whether the rows are in order.
    pub open spec fn wf(self) -> bool {
        self.min_y <= self.max_y
    }

    /// The number of rows.
    pub open spec fn rows(self) -> int {
        self.max_y - self.min_y
    }

    /// The number of pixels.
    pub open spec fn area(self) -> int {
        self.width * (self.max_y - self.min_y)
    }

    /// Whether the pixel lies in the band.
    pub open spec fn contains(self, x: int, y: int) -> bool {
        0 <= x < self.width && self.min_y <= y < self.max_y
    }

    /// The pixels of the band, row by row from the lowest row, and in each
    /// row from column 0.
    pub open spec fn pixels(self) -> Seq<(usize, usize)> {
        Seq::new(
            self.area() as nat,
            |k: int| ((k % (self.width as int)) as usize, (self.min_y + k / (self.width as int)) as usize),
        )
    }
}

/// Whether the bands lie one above the other and fill the raster: the first
/// begins at row 0, each begins where the one before it ends, the last ends
/// at `height`, and all are as wide as the raster.
pub open spec fn tiles(bands: Seq<Region>, width: usize, height: usize) -> bool {
    &&& bands.len() > 0
    &&& bands[0].min_y == 0
    &&& bands.last().max_y == height
    &&& forall|i: int| 0 <= i < bands.len() ==> (#[trigger] bands[i]).wf() && bands[i].width == width
    &&& forall|i: int| 0 < i < bands.len() ==> (#[trigger] bands[i]).min_y == bands[i - 1].max_y
}

/// The rows of band `i` where the raster is cut into `count` bands: each has
/// `height / count` rows, and the last takes the rows that are left over.
pub open spec fn band(width: usize, height: usize, count: usize, i: int) -> Region {
    Region {
        width,
        min_y: (i * (height / count)) as usize,
        max_y: if i == count - 1 {
            height
        } else {
            ((i + 1) * (height / count)) as usize
        },
    }
}

/// Cuts the raster into `count` bands, one for each worker.
pub fn regions(width: usize, height: usize, count: usize) -> (bands: Vec<Region>)
    requires
        count > 0,
    ensures
        bands@.len() == count,
        forall|i: int| 0 <= i < count ==> #[trigger] bands@[i] == band(width, height, count, i),
        tiles(bands@, width, height),
{
    let rows: usize = height / count;
    proof {
        lemma_rows_fit(height as int, count as int);
    }
    let mut bands: Vec<Region> = Vec::new();
    let mut i: usize = 0;
    while i < count
        invariant
            i <= count,
            count > 0,
            rows == height / count,
            rows * count <= height,
            bands@.len() == i,
            forall|j: int| 0 <= j < i ==> #[trigger] bands@[j] == band(width, height, count, j),
        decreases count - i,
    {
        proof {
            lemma_mul_inequality(i as int, count as int - 1, rows as int);
            lemma_mul_inequality(i as int + 1, count as int, rows as int);
            lemma_mul_is_distributive_add(rows as int, i as int, 1);
            assert(i * rows == rows * i) by (nonlinear_arith);
            assert((i + 1) * rows == rows * (i + 1)) by (nonlinear_arith);
            assert(count * rows == rows * count) by (nonlinear_arith);
        }
        let min_y: usize = i * rows;
        let max_y: usize = if i == count - 1 {
            height
        } else {
            (i + 1) * rows
        };
        bands.push(Region { width, min_y, max_y });
        i += 1;
    }
    proof {
        assert forall|j: int| 0 <= j < count implies (#[trigger] bands@[j]).wf() && bands@[j].width
            == width by {
            lemma_mul_inequality(j, count as int - 1, rows as int);
            lemma_mul_inequality(j + 1, count as int, rows as int);
            lemma_mul_is_distributive_add(rows as int, j, 1);
            assert(j * rows == rows * j) by (nonlinear_arith);
            assert((j + 1) * rows == rows * (j + 1)) by (nonlinear_arith);
            assert(count * rows == rows * count) by (nonlinear_arith);
            assert((count - 1) * rows <= count * rows) by (nonlinear_arith)
                requires
                    rows >= 0,
            ;
        }
        assert(bands@[0].min_y == 0);
        assert(bands@.last() == bands@[count - 1]);
    }
    bands
}

/// `num_cpus::get`: the number of logical CPUs that this process may use,
/// as the system reports it. It differs from machine to machine and from run
/// to run, so nothing is claimed of it.
#[verifier::external_body]
fn available_workers() -> usize {
    num_cpus::get()
}

/// Cuts the raster into one band for each worker that the machine offers, and
/// into a single band where it reports none.
pub fn worker_regions(width: usize, height: usize) -> (bands: Vec<Region>)
    ensures
        tiles(bands@, width, height),
        forall|i: int|
            0 <= i < bands@.len() ==> #[trigger] bands@[i] == band(
                width,
                height,
                bands@.len() as usize,
                i,
            ),
{
    let workers: usize = available_workers();
    let count: usize = if workers == 0 {
        1
    } else {
        workers
    };
    regions(width, height, count)
}

proof fn lemma_rows_fit(height: int, count: int)
    requires
        height >= 0,
        count > 0,
    ensures
        (height / count) * count <= height,
        height / count >= 0,
{
    assert((height / count) * count <= height && height / count >= 0) by (nonlinear_arith)
        requires
            height >= 0,
            count > 0,
    ;
}

/// The pixels of a band in the order in which they are traced.
pub fn region_pixels(region: &Region) -> (pixels: Vec<(usize, usize)>)
    requires
        region.wf(),
        region.area() <= usize::MAX,
    ensures
        pixels@ == region.pixels(),
{
    let width: usize = region.width;
    let mut pixels: Vec<(usize, usize)> = Vec::new();
    let mut y: usize = region.min_y;
    while y < region.max_y
        invariant
            width == region.width,
            region.min_y <= y <= region.max_y,
            pixels@.len() == width * (y - region.min_y),
            forall|k: int| 0 <= k < pixels@.len() ==> #[trigger] pixels@[k] == region.pixels()[k],
        decreases region.max_y - y,
    {
        let mut x: usize = 0;
        while x < width
            invariant
                width == region.width,
                region.min_y <= y < region.max_y,
                x <= width,
                pixels@.len() == width * (y - region.min_y) + x,
                forall|k: int| 0 <= k < pixels@.len() ==> #[trigger] pixels@[k] == region.pixels()[k],
            decreases width - x,
        {
            proof {
                lemma_pixel_index(*region, x as int, y as int);
            }
            pixels.push((x, y));
            x += 1;
        }
        proof {
            lemma_mul_is_distributive_add(width as int, y - region.min_y, 1);
        }
        y += 1;
    }
    proof {
        assert(pixels@ =~= region.pixels());
    }
    pixels
}

/// A pixel of a band stands in the band's row of pixels at the index that its
/// row and column give.
pub proof fn lemma_pixel_index(region: Region, x: int, y: int)
    requires
        region.wf(),
        region.contains(x, y),
    ensures
        0 <= region.width * (y - region.min_y) + x < region.area(),
        region.pixels()[region.width * (y - region.min_y) + x] == (x as usize, y as usize),
{
    let w = region.width as int;
    let row = y - region.min_y;
    let k = w * row + x;
    assert(0 <= w * row) by (nonlinear_arith)
        requires
            w >= 0,
            row >= 0,
    ;
    assert(w * row + w <= w * (region.max_y - region.min_y)) by (nonlinear_arith)
        requires
            w >= 0,
            row + 1 <= region.max_y - region.min_y,
    ;
    assert(k == row * w + x) by (nonlinear_arith)
        requires
            k == w * row + x,
    ;
    lemma_fundamental_div_mod_converse(k, w, row, x);
}

/// Every entry of a band's row of pixels is a pixel of the band, and stands
/// at the index that its row and column give: no pixel stands there twice.
pub proof fn lemma_pixels_are_in_region(region: Region, k: int)
    requires
        region.wf(),
        region.area() <= usize::MAX,
        0 <= k < region.area(),
    ensures
        region.contains(region.pixels()[k].0 as int, region.pixels()[k].1 as int),
        k == region.width * (region.pixels()[k].1 - region.min_y) + region.pixels()[k].0,
{
    let w = region.width as int;
    let rows = region.rows();
    assert(w > 0) by (nonlinear_arith)
        requires
            0 <= k < w * rows,
            w >= 0,
    ;
    let q = k / w;
    let r = k % w;
    assert(k == w * q + r && 0 <= r < w) by (nonlinear_arith)
        requires
            w > 0,
            q == k / w,
            r == k % w,
    ;
    assert(0 <= q < rows) by (nonlinear_arith)
        requires
            k == w * q + r,
            0 <= r < w,
            0 <= k < w * rows,
    ;
}

/// The pixels of a row of bands, band after band.
pub open spec fn all_pixels(bands: Seq<Region>) -> Seq<(usize, usize)>
    decreases bands.len(),
{
    if bands.len() == 0 {
        Seq::empty()
    } else {
        all_pixels(bands.drop_last()) + bands.last().pixels()
    }
}

/// Two bands of one width, the second beginning where the first ends, hold
/// together the pixels of the band that spans both, in the same order.
pub proof fn lemma_adjacent_regions_join(below: Region, above: Region)
    requires
        below.wf(),
        above.wf(),
        below.width == above.width,
        below.max_y == above.min_y,
    ensures
        below.pixels() + above.pixels() == (Region {
            width: below.width,
            min_y: below.min_y,
            max_y: above.max_y,
        }).pixels(),
{
    let whole = Region { width: below.width, min_y: below.min_y, max_y: above.max_y };
    let w = below.width as int;
    let joined = below.pixels() + above.pixels();
    assert(below.area() + above.area() == whole.area()) by (nonlinear_arith)
        requires
            below.area() == w * (below.max_y - below.min_y),
            above.area() == w * (above.max_y - above.min_y),
            whole.area() == w * (above.max_y - below.min_y),
            below.max_y == above.min_y,
    ;
    assert(below.area() >= 0 && above.area() >= 0) by (nonlinear_arith)
        requires
            below.area() == w * (below.max_y - below.min_y),
            above.area() == w * (above.max_y - above.min_y),
            w >= 0,
            below.max_y - below.min_y >= 0,
            above.max_y - above.min_y >= 0,
    ;
    assert forall|k: int| 0 <= k < joined.len() implies joined[k] == whole.pixels()[k] by {
        if k >= below.area() {
            let j = k - below.area();
            let rows = below.rows();
            assert(w > 0) by (nonlinear_arith)
                requires
                    0 <= j < w * (above.max_y - above.min_y),
                    w >= 0,
            ;
            let q = j / w;
            let r = j % w;
            assert(j == q * w + r && 0 <= r < w) by (nonlinear_arith)
                requires
                    w > 0,
                    q == j / w,
                    r == j % w,
            ;
            assert(k == (q + rows) * w + r) by (nonlinear_arith)
                requires
                    j == q * w + r,
                    k == j + w * rows,
            ;
            lemma_fundamental_div_mod_converse(k, w, q + rows, r);
        }
    }
    assert(joined =~= whole.pixels());
}

/// Bands that tile the raster hold, band after band, the pixels of the whole
/// raster in the order of a single band over all its rows: a frame traced
/// band by band has every pixel of the frame traced as one region, once.
pub proof fn lemma_bands_hold_the_raster(bands: Seq<Region>, width: usize, height: usize)
    requires
        tiles(bands, width, height),
    ensures
        all_pixels(bands) == (Region { width, min_y: 0, max_y: height }).pixels(),
    decreases bands.len(),
{
    let front = bands.drop_last();
    let last = bands.last();
    if front.len() == 0 {
        assert(all_pixels(front) =~= Seq::empty());
        assert(bands[0] == last);
        assert(all_pixels(bands) =~= last.pixels());
    } else {
        assert(bands[bands.len() - 1].min_y == bands[bands.len() - 2].max_y);
        assert(front.last() == bands[bands.len() - 2]);
        assert(tiles(front, width, last.min_y)) by {
            assert forall|i: int| 0 <= i < front.len() implies (#[trigger] front[i]).wf()
                && front[i].width == width by {
                assert(front[i] == bands[i]);
            }
            assert forall|i: int| 0 < i < front.len() implies (#[trigger] front[i]).min_y
                == front[i - 1].max_y by {
                assert(front[i] == bands[i]);
                assert(front[i - 1] == bands[i - 1]);
            }
            assert(front[0] == bands[0]);
        }
        lemma_bands_hold_the_raster(front, width, last.min_y);
        lemma_adjacent_regions_join(Region { width, min_y: 0, max_y: last.min_y }, last);
    }
}

/// No two bands of a tiling share a row: a row of the raster lies in the band
/// `i` and in no other band that has it.
pub proof fn lemma_bands_are_disjoint(bands: Seq<Region>, width: usize, height: usize, i: int, j: int)
    requires
        tiles(bands, width, height),
        0 <= i < j < bands.len(),
    ensures
        bands[i].max_y <= bands[j].min_y,
    decreases j - i,
{
    if i + 1 < j {
        lemma_bands_are_disjoint(bands, width, height, i, j - 1);
        assert(bands[j].min_y == bands[j - 1].max_y);
        assert(bands[j - 1].wf());
    } else {
        assert(bands[j].min_y == bands[j - 1].max_y);
    }
}

/// The place of a pixel in a frame buffer that holds the raster row by row
/// from the top, where row 0 of the raster is the lowest.
pub open spec fn flipped(width: int, height: int, x: int, y: int) -> int {
    width * (height - 1 - y) + x
}

/// The index of a pixel in a frame buffer whose first row is the raster's top.
pub fn buffer_index(width: usize, height: usize, x: usize, y: usize) -> (index: usize)
    requires
        x < width,
        y < height,
        width * height <= usize::MAX,
    ensures
        index == flipped(width as int, height as int, x as int, y as int),
        index < width * height,
{
    proof {
        lemma_flipped_is_in_buffer(width as int, height as int, x as int, y as int);
    }
    width * (height - 1 - y) + x
}

/// The place of a pixel lies inside the frame buffer.
pub proof fn lemma_flipped_is_in_buffer(width: int, height: int, x: int, y: int)
    requires
        0 <= x < width,
        0 <= y < height,
    ensures
        0 <= width * (height - 1 - y),
        0 <= flipped(width, height, x, y) < width * height,
{
    assert(0 <= width * (height - 1 - y) && width * (height - 1 - y) + width <= width * height)
        by (nonlinear_arith)
        requires
            0 <= x < width,
            0 <= y < height,
    ;
}

/// Two pixels of the raster have two places in the frame buffer: no write of
/// one pixel's colour lands on another's.
pub proof fn lemma_flipped_is_injective(width: int, height: int, x1: int, y1: int, x2: int, y2: int)
    requires
        0 <= x1 < width,
        0 <= y1 < height,
        0 <= x2 < width,
        0 <= y2 < height,
        flipped(width, height, x1, y1) == flipped(width, height, x2, y2),
    ensures
        x1 == x2,
        y1 == y2,
{
    let r1 = height - 1 - y1;
    let r2 = height - 1 - y2;
    assert(flipped(width, height, x1, y1) == r1 * width + x1) by (nonlinear_arith)
        requires
            flipped(width, height, x1, y1) == width * r1 + x1,
    ;
    assert(flipped(width, height, x2, y2) == r2 * width + x2) by (nonlinear_arith)
        requires
            flipped(width, height, x2, y2) == width * r2 + x2,
    ;
    lemma_fundamental_div_mod_converse(flipped(width, height, x1, y1), width, r1, x1);
    lemma_fundamental_div_mod_converse(flipped(width, height, x2, y2), width, r2, x2);
}

} // verus!
