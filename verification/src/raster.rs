//! The frame buffer, and the merging of traced pixels into it.
use vstd::prelude::*;
use crate::color::{packed, to_fb_color};
use crate::region::{
    all_pixels,
    buffer_index,
    flipped,
    lemma_bands_are_disjoint,
    lemma_bands_hold_the_raster,
    lemma_flipped_is_in_buffer,
    lemma_flipped_is_injective,
    lemma_pixels_are_in_region,
    tiles,
    Region,
};

verus! {

/// A traced pixel: its place in the raster and its colour, eight bits to the
/// channel.
#[derive(Clone, Copy, Debug, PartialEq, Eq, Structural)]
pub struct Pixel {
    pub x: usize,
    pub y: usize,
    pub red: u8,
    pub green: u8,
    pub blue: u8,
}

impl Pixel {
    /// Whether the pixel lies in a raster of the given size.
    pub open spec fn fits(self, width: int, height: int) -> bool {
        self.x < width && self.y < height
    }

    /// The pixel's index in the frame buffer.
    pub open spec fn place(self, width: int, height: int) -> int {
        flipped(width, height, self.x as int, self.y as int)
    }

    /// The pixel's colour as the frame buffer holds it.
    pub open spec fn color(self) -> u32 {
        packed(self.red, self.green, self.blue) as u32
    }
}

/// Whether all the pixels lie in the raster.
pub open spec fn all_fit(pixels: Seq<Pixel>, width: int, height: int) -> bool {
    forall|k: int| 0 <= k < pixels.len() ==> (#[trigger] pixels[k]).fits(width, height)
}

/// Whether a pixel of the row is written to index `i` of the frame buffer.
pub open spec fn writes_to(pixels: Seq<Pixel>, width: int, height: int, i: int) -> bool {
    exists|k: int| 0 <= k < pixels.len() && (#[trigger] pixels[k]).place(width, height) == i
}

/// Whether no two pixels of the row have the same place.
pub open spec fn places_differ(pixels: Seq<Pixel>) -> bool {
    forall|j: int, k: int|
        0 <= j < k < pixels.len() ==> !((#[trigger] pixels[j]).x == (#[trigger] pixels[k]).x
            && pixels[j].y == pixels[k].y)
}

/// The frame buffer after the pixels have been written to it, one after the
/// other.
pub open spec fn painted(buffer: Seq<u32>, width: int, height: int, pixels: Seq<Pixel>) -> Seq<u32>
    decreases pixels.len(),
{
    if pixels.len() == 0 {
        buffer
    } else {
        painted(buffer, width, height, pixels.drop_last()).update(
            pixels.last().place(width, height),
            pixels.last().color(),
        )
    }
}

/// Writes the colours of the pixels to their places in the frame buffer.
pub fn paint(buffer: &mut Vec<u32>, width: usize, height: usize, pixels: &Vec<Pixel>)
    requires
        old(buffer)@.len() == width * height,
        all_fit(pixels@, width as int, height as int),
    ensures
        final(buffer)@ == painted(old(buffer)@, width as int, height as int, pixels@),
        final(buffer)@.len() == old(buffer)@.len(),
{
    let size: usize = buffer.len();
    let mut k: usize = 0;
    while k < pixels.len()
        invariant
            k <= pixels@.len(),
            buffer@.len() == width * height,
            size == width * height,
            all_fit(pixels@, width as int, height as int),
            buffer@ == painted(old(buffer)@, width as int, height as int, pixels@.take(k as int)),
        decreases pixels@.len() - k,
    {
        let pixel = pixels[k];
        assert(pixels@[k as int].fits(width as int, height as int));
        let index: usize = buffer_index(width, height, pixel.x, pixel.y);
        let color: u32 = to_fb_color(pixel.red, pixel.green, pixel.blue);
        buffer.set(index, color);
        proof {
            assert(pixels@.take(k + 1).drop_last() =~= pixels@.take(k as int));
        }
        k += 1;
    }
    proof {
        assert(pixels@.take(k as int) =~= pixels@);
    }
}

/// Painting keeps the size of the frame buffer, and leaves alone every index
/// that no pixel is written to.
pub proof fn lemma_painted_elsewhere(
    buffer: Seq<u32>,
    width: int,
    height: int,
    pixels: Seq<Pixel>,
    i: int,
)
    requires
        buffer.len() == width * height,
        all_fit(pixels, width, height),
        0 <= i < buffer.len(),
        !writes_to(pixels, width, height, i),
    ensures
        painted(buffer, width, height, pixels).len() == buffer.len(),
        painted(buffer, width, height, pixels)[i] == buffer[i],
    decreases pixels.len(),
{
    if pixels.len() > 0 {
        let front = pixels.drop_last();
        lemma_front_fits(pixels, width, height);
        assert(!writes_to(front, width, height, i)) by {
            if writes_to(front, width, height, i) {
                let k = choose|k: int|
                    0 <= k < front.len() && (#[trigger] front[k]).place(width, height) == i;
                assert(pixels[k].place(width, height) == i);
            }
        }
        lemma_painted_elsewhere(buffer, width, height, front, i);
        assert(pixels[pixels.len() - 1].place(width, height) != i);
        assert(pixels.last().fits(width, height));
        lemma_flipped_is_in_buffer(width, height, pixels.last().x as int, pixels.last().y as int);
    }
}

/// Painting keeps the size of the frame buffer.
pub proof fn lemma_painted_len(buffer: Seq<u32>, width: int, height: int, pixels: Seq<Pixel>)
    requires
        buffer.len() == width * height,
        all_fit(pixels, width, height),
    ensures
        painted(buffer, width, height, pixels).len() == buffer.len(),
    decreases pixels.len(),
{
    if pixels.len() > 0 {
        let front = pixels.drop_last();
        lemma_front_fits(pixels, width, height);
        lemma_painted_len(buffer, width, height, front);
        assert(pixels.last().fits(width, height));
        lemma_flipped_is_in_buffer(width, height, pixels.last().x as int, pixels.last().y as int);
    }
}

proof fn lemma_front_fits(pixels: Seq<Pixel>, width: int, height: int)
    requires
        pixels.len() > 0,
        all_fit(pixels, width, height),
    ensures
        all_fit(pixels.drop_last(), width, height),
{
    let front = pixels.drop_last();
    assert forall|k: int| 0 <= k < front.len() implies (#[trigger] front[k]).fits(width, height) by {
        assert(front[k] == pixels[k]);
    }
}

/// Where no two pixels have the same place, each pixel's colour stands at its
/// place once all are painted.
pub proof fn lemma_painted_at(
    buffer: Seq<u32>,
    width: int,
    height: int,
    pixels: Seq<Pixel>,
    k: int,
)
    requires
        buffer.len() == width * height,
        all_fit(pixels, width, height),
        places_differ(pixels),
        0 <= k < pixels.len(),
    ensures
        0 <= pixels[k].place(width, height) < buffer.len(),
        painted(buffer, width, height, pixels)[pixels[k].place(width, height)] == pixels[k].color(),
    decreases pixels.len(),
{
    let front = pixels.drop_last();
    let last = pixels.last();
    lemma_front_fits(pixels, width, height);
    lemma_painted_len(buffer, width, height, front);
    assert(pixels[k].fits(width, height));
    assert(last.fits(width, height));
    lemma_flipped_is_in_buffer(width, height, pixels[k].x as int, pixels[k].y as int);
    lemma_flipped_is_in_buffer(width, height, last.x as int, last.y as int);
    if k < front.len() {
        assert(places_differ(front)) by {
            assert forall|i: int, j: int| 0 <= i < j < front.len() implies !((
            #[trigger] front[i]).x == (#[trigger] front[j]).x && front[i].y == front[j].y) by {
                assert(front[i] == pixels[i]);
                assert(front[j] == pixels[j]);
            }
        }
        lemma_painted_at(buffer, width, height, front, k);
        assert(front[k] == pixels[k]);
        assert(pixels[pixels.len() - 1] == last);
        if pixels[k].place(width, height) == last.place(width, height) {
            lemma_flipped_is_injective(
                width,
                height,
                pixels[k].x as int,
                pixels[k].y as int,
                last.x as int,
                last.y as int,
            );
        }
    }
}

/// Bands may be merged in any order: where no pixel of one row has the place
/// of a pixel of the other, and none occurs twice, painting the one and then
/// the other gives the frame buffer that the other order gives.
pub proof fn lemma_paint_order_is_free(
    buffer: Seq<u32>,
    width: int,
    height: int,
    first: Seq<Pixel>,
    second: Seq<Pixel>,
)
    requires
        buffer.len() == width * height,
        all_fit(first, width, height),
        all_fit(second, width, height),
        places_differ(first + second),
    ensures
        painted(painted(buffer, width, height, first), width, height, second) == painted(
            painted(buffer, width, height, second),
            width,
            height,
            first,
        ),
{
    let both = first + second;
    let one = painted(painted(buffer, width, height, first), width, height, second);
    let other = painted(painted(buffer, width, height, second), width, height, first);
    lemma_painted_len(buffer, width, height, first);
    lemma_painted_len(buffer, width, height, second);
    lemma_painted_len(painted(buffer, width, height, first), width, height, second);
    lemma_painted_len(painted(buffer, width, height, second), width, height, first);
    assert(places_differ(first)) by {
        assert forall|i: int, j: int| 0 <= i < j < first.len() implies !((#[trigger] first[i]).x
            == (#[trigger] first[j]).x && first[i].y == first[j].y) by {
            assert(both[i] == first[i]);
            assert(both[j] == first[j]);
        }
    }
    assert(places_differ(second)) by {
        assert forall|i: int, j: int| 0 <= i < j < second.len() implies !((
        #[trigger] second[i]).x == (#[trigger] second[j]).x && second[i].y == second[j].y) by {
            assert(both[first.len() + i] == second[i]);
            assert(both[first.len() + j] == second[j]);
        }
    }
    assert forall|i: int| 0 <= i < buffer.len() implies one[i] == other[i] by {
        if writes_to(first, width, height, i) {
            let a = choose|a: int|
                0 <= a < first.len() && (#[trigger] first[a]).place(width, height) == i;
            assert(!writes_to(second, width, height, i)) by {
                if writes_to(second, width, height, i) {
                    let b = choose|b: int|
                        0 <= b < second.len() && (#[trigger] second[b]).place(width, height) == i;
                    assert(both[a] == first[a]);
                    assert(both[first.len() + b] == second[b]);
                    assert(first[a].fits(width, height));
                    assert(second[b].fits(width, height));
                    lemma_flipped_is_injective(
                        width,
                        height,
                        first[a].x as int,
                        first[a].y as int,
                        second[b].x as int,
                        second[b].y as int,
                    );
                }
            }
            lemma_painted_at(buffer, width, height, first, a);
            lemma_painted_at(painted(buffer, width, height, second), width, height, first, a);
            lemma_painted_elsewhere(painted(buffer, width, height, first), width, height, second, i);
        } else if writes_to(second, width, height, i) {
            let b = choose|b: int|
                0 <= b < second.len() && (#[trigger] second[b]).place(width, height) == i;
            lemma_painted_at(buffer, width, height, second, b);
            lemma_painted_at(painted(buffer, width, height, first), width, height, second, b);
            lemma_painted_elsewhere(painted(buffer, width, height, second), width, height, first, i);
        } else {
            lemma_painted_elsewhere(buffer, width, height, first, i);
            lemma_painted_elsewhere(buffer, width, height, second, i);
            lemma_painted_elsewhere(painted(buffer, width, height, first), width, height, second, i);
            lemma_painted_elsewhere(painted(buffer, width, height, second), width, height, first, i);
        }
    }
    assert(one =~= other);
}

/// The traced pixels of a row of places, where `shade` gives the colour of a
/// place.
pub open spec fn traced(
    places: Seq<(usize, usize)>,
    shade: spec_fn(usize, usize) -> (u8, u8, u8),
) -> Seq<Pixel> {
    Seq::new(
        places.len(),
        |k: int|
            Pixel {
                x: places[k].0,
                y: places[k].1,
                red: shade(places[k].0, places[k].1).0,
                green: shade(places[k].0, places[k].1).1,
                blue: shade(places[k].0, places[k].1).2,
            },
    )
}

/// The frame buffer after the bands have been traced and painted, one band
/// after the other.
pub open spec fn rendered(
    buffer: Seq<u32>,
    width: int,
    height: int,
    bands: Seq<Region>,
    shade: spec_fn(usize, usize) -> (u8, u8, u8),
) -> Seq<u32>
    decreases bands.len(),
{
    if bands.len() == 0 {
        buffer
    } else {
        painted(
            rendered(buffer, width, height, bands.drop_last(), shade),
            width,
            height,
            traced(bands.last().pixels(), shade),
        )
    }
}

/// Painting one row of pixels and then another is painting the two as one row.
pub proof fn lemma_painted_in_two_steps(
    buffer: Seq<u32>,
    width: int,
    height: int,
    first: Seq<Pixel>,
    second: Seq<Pixel>,
)
    ensures
        painted(buffer, width, height, first + second) == painted(
            painted(buffer, width, height, first),
            width,
            height,
            second,
        ),
    decreases second.len(),
{
    if second.len() == 0 {
        assert(first + second =~= first);
    } else {
        assert((first + second).drop_last() =~= first + second.drop_last());
        assert((first + second).last() == second.last());
        lemma_painted_in_two_steps(buffer, width, height, first, second.drop_last());
    }
}

/// A frame that is traced band by band is the frame that is traced as a
/// single region: where the bands tile the raster and a pixel's colour
/// depends on nothing but its place, both ways fill the frame buffer alike.
pub proof fn lemma_bands_render_the_frame(
    buffer: Seq<u32>,
    width: usize,
    height: usize,
    bands: Seq<Region>,
    shade: spec_fn(usize, usize) -> (u8, u8, u8),
)
    requires
        tiles(bands, width, height),
    ensures
        rendered(buffer, width as int, height as int, bands, shade) == painted(
            buffer,
            width as int,
            height as int,
            traced((Region { width, min_y: 0, max_y: height }).pixels(), shade),
        ),
{
    lemma_rendered_is_painted(buffer, width as int, height as int, bands, shade);
    lemma_bands_hold_the_raster(bands, width, height);
}

/// Rendering the bands paints the pixels of all the bands, band after band.
pub proof fn lemma_rendered_is_painted(
    buffer: Seq<u32>,
    width: int,
    height: int,
    bands: Seq<Region>,
    shade: spec_fn(usize, usize) -> (u8, u8, u8),
)
    ensures
        rendered(buffer, width, height, bands, shade) == painted(
            buffer,
            width,
            height,
            traced(all_pixels(bands), shade),
        ),
    decreases bands.len(),
{
    if bands.len() == 0 {
        assert(traced(all_pixels(bands), shade) =~= Seq::<Pixel>::empty());
    } else {
        let front = bands.drop_last();
        lemma_rendered_is_painted(buffer, width, height, front, shade);
        assert(traced(all_pixels(bands), shade) =~= traced(all_pixels(front), shade) + traced(
            bands.last().pixels(),
            shade,
        ));
        lemma_painted_in_two_steps(
            buffer,
            width,
            height,
            traced(all_pixels(front), shade),
            traced(bands.last().pixels(), shade),
        );
    }
}

/// The traced pixels of a band lie in the raster that the band is cut from,
/// and no two of them have the same place.
pub proof fn lemma_band_pixels_fit_and_differ(
    band: Region,
    height: usize,
    shade: spec_fn(usize, usize) -> (u8, u8, u8),
)
    requires
        band.wf(),
        band.max_y <= height,
        band.area() <= usize::MAX,
    ensures
        all_fit(traced(band.pixels(), shade), band.width as int, height as int),
        places_differ(traced(band.pixels(), shade)),
        forall|k: int|
            0 <= k < traced(band.pixels(), shade).len() ==> band.min_y <= (#[trigger] traced(
                band.pixels(),
                shade,
            )[k]).y < band.max_y,
{
    let pixels = traced(band.pixels(), shade);
    assert(band.area() >= 0) by (nonlinear_arith)
        requires
            band.area() == band.width * (band.max_y - band.min_y),
            band.max_y - band.min_y >= 0,
    ;
    assert forall|k: int| 0 <= k < pixels.len() implies (#[trigger] pixels[k]).fits(
        band.width as int,
        height as int,
    ) && band.min_y <= pixels[k].y < band.max_y by {
        lemma_pixels_are_in_region(band, k);
    }
    assert forall|j: int, k: int| 0 <= j < k < pixels.len() implies !((#[trigger] pixels[j]).x == (
    #[trigger] pixels[k]).x && pixels[j].y == pixels[k].y) by {
        lemma_pixels_are_in_region(band, j);
        lemma_pixels_are_in_region(band, k);
    }
}

/// The bands of a tiling may be painted in any order: two of them leave the
/// frame buffer the same, whichever is painted first.
pub proof fn lemma_two_bands_in_either_order(
    buffer: Seq<u32>,
    width: usize,
    height: usize,
    bands: Seq<Region>,
    i: int,
    j: int,
    shade: spec_fn(usize, usize) -> (u8, u8, u8),
)
    requires
        tiles(bands, width, height),
        buffer.len() == width * height,
        width * height <= usize::MAX,
        0 <= i < j < bands.len(),
    ensures
        painted(
            painted(buffer, width as int, height as int, traced(bands[i].pixels(), shade)),
            width as int,
            height as int,
            traced(bands[j].pixels(), shade),
        ) == painted(
            painted(buffer, width as int, height as int, traced(bands[j].pixels(), shade)),
            width as int,
            height as int,
            traced(bands[i].pixels(), shade),
        ),
{
    let first = traced(bands[i].pixels(), shade);
    let second = traced(bands[j].pixels(), shade);
    let last = bands.len() - 1;
    lemma_bands_are_disjoint(bands, width, height, i, j);
    if j < last {
        lemma_bands_are_disjoint(bands, width, height, j, last);
    }
    assert(bands[i].wf() && bands[j].wf() && bands[last].wf());
    assert(bands[i].width == width && bands[j].width == width);
    assert(bands[i].area() <= width * height && bands[j].area() <= width * height)
        by (nonlinear_arith)
        requires
            bands[i].area() == width * (bands[i].max_y - bands[i].min_y),
            bands[j].area() == width * (bands[j].max_y - bands[j].min_y),
            0 <= bands[i].max_y - bands[i].min_y <= height,
            0 <= bands[j].max_y - bands[j].min_y <= height,
    ;
    lemma_band_pixels_fit_and_differ(bands[i], height, shade);
    lemma_band_pixels_fit_and_differ(bands[j], height, shade);
    let both = first + second;
    assert forall|a: int, b: int| 0 <= a < b < both.len() implies !((#[trigger] both[a]).x == (
    #[trigger] both[b]).x && both[a].y == both[b].y) by {
        if b < first.len() {
            assert(both[a] == first[a] && both[b] == first[b]);
        } else if a >= first.len() {
            assert(both[a] == second[a - first.len()] && both[b] == second[b - first.len()]);
        } else {
            assert(both[a] == first[a] && both[b] == second[b - first.len()]);
        }
    }
    lemma_paint_order_is_free(buffer, width as int, height as int, first, second);
}

} // verus!
