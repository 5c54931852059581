use rt::color::to_fb_color;
use rt::region::{buffer_index, region_pixels, regions, Region};

#[test]
fn four_bands_of_a_frame() {
    let bands = regions(800, 600, 4);
    assert_eq!(
        bands,
        vec![
            Region { width: 800, min_y: 0, max_y: 150 },
            Region { width: 800, min_y: 150, max_y: 300 },
            Region { width: 800, min_y: 300, max_y: 450 },
            Region { width: 800, min_y: 450, max_y: 600 },
        ]
    );
}

#[test]
fn one_band_is_the_whole_raster() {
    assert_eq!(regions(800, 600, 1), vec![Region { width: 800, min_y: 0, max_y: 600 }]);
}

#[test]
fn last_band_takes_the_rows_left_over() {
    assert_eq!(
        regions(10, 7, 3),
        vec![
            Region { width: 10, min_y: 0, max_y: 2 },
            Region { width: 10, min_y: 2, max_y: 4 },
            Region { width: 10, min_y: 4, max_y: 7 },
        ]
    );
}

#[test]
fn more_bands_than_rows() {
    assert_eq!(
        regions(5, 2, 3),
        vec![
            Region { width: 5, min_y: 0, max_y: 0 },
            Region { width: 5, min_y: 0, max_y: 0 },
            Region { width: 5, min_y: 0, max_y: 2 },
        ]
    );
}

#[test]
fn pixels_run_row_by_row() {
    let pixels = region_pixels(&Region { width: 3, min_y: 4, max_y: 6 });
    assert_eq!(pixels, vec![(0, 4), (1, 4), (2, 4), (0, 5), (1, 5), (2, 5)]);
}

#[test]
fn empty_bands_have_no_pixels() {
    assert!(region_pixels(&Region { width: 0, min_y: 0, max_y: 9 }).is_empty());
    assert!(region_pixels(&Region { width: 9, min_y: 3, max_y: 3 }).is_empty());
}

#[test]
fn band_has_width_times_rows_pixels() {
    let pixels = region_pixels(&Region { width: 800, min_y: 150, max_y: 300 });
    assert_eq!(pixels.len(), 800 * 150);
    assert_eq!(pixels[0], (0, 150));
    assert_eq!(pixels[799], (799, 150));
    assert_eq!(pixels[800], (0, 151));
    assert_eq!(pixels[800 * 150 - 1], (799, 299));
}

#[test]
fn bands_hold_the_pixels_of_the_whole_raster() {
    let mut counts: Vec<usize> = vec![1, 2, 3, 4, 7, 8, 13, 64];
    counts.push(100);
    for count in counts {
        let whole = region_pixels(&Region { width: 16, min_y: 0, max_y: 50 });
        let mut by_bands: Vec<(usize, usize)> = Vec::new();
        for band in regions(16, 50, count) {
            by_bands.extend(region_pixels(&band));
        }
        assert_eq!(by_bands, whole, "{} bands", count);
    }
}

#[test]
fn a_frame_rendered_by_bands_equals_the_frame_rendered_at_once() {
    // Any colour that depends on the pixel alone.
    fn shade(x: usize, y: usize) -> u32 {
        to_fb_color((x * 7 % 256) as u8, (y * 13 % 256) as u8, ((x + y) % 256) as u8)
    }
    let (width, height) = (20usize, 15usize);
    let mut at_once: Vec<u32> = vec![0; width * height];
    for (x, y) in region_pixels(&Region { width, min_y: 0, max_y: height }) {
        at_once[buffer_index(width, height, x, y)] = shade(x, y);
    }
    let mut by_bands: Vec<u32> = vec![0; width * height];
    let mut bands = regions(width, height, 4);
    bands.reverse();
    for band in bands {
        for (x, y) in region_pixels(&band) {
            assert_eq!(by_bands[buffer_index(width, height, x, y)], 0);
            by_bands[buffer_index(width, height, x, y)] = shade(x, y);
        }
    }
    assert_eq!(at_once, by_bands);
    assert!(at_once.iter().all(|colour| *colour != 0));
}

#[test]
fn colours_are_packed_opaque() {
    assert_eq!(to_fb_color(0, 0, 0), 0xff00_0000);
    assert_eq!(to_fb_color(255, 255, 255), 0xffff_ffff);
    assert_eq!(to_fb_color(255, 0, 128), 0xffff_0080);
    assert_eq!(to_fb_color(1, 2, 3), 0xff01_0203);
}

#[test]
fn buffer_rows_run_from_the_top() {
    assert_eq!(buffer_index(800, 600, 0, 0), 800 * 599);
    assert_eq!(buffer_index(800, 600, 799, 599), 799);
    assert_eq!(buffer_index(800, 600, 0, 599), 0);
    assert_eq!(buffer_index(800, 600, 5, 2), 800 * 597 + 5);
    assert_eq!(buffer_index(1, 1, 0, 0), 0);
}

#[test]
fn worker_bands_tile_the_raster() {
    let bands = rt::region::worker_regions(800, 600);
    assert_eq!(bands.len(), num_cpus::get().max(1));
    assert_eq!(bands, regions(800, 600, bands.len()));
    assert_eq!(bands[0].min_y, 0);
    assert_eq!(bands[bands.len() - 1].max_y, 600);
    for i in 1..bands.len() {
        assert_eq!(bands[i].min_y, bands[i - 1].max_y);
        assert_eq!(bands[i].width, 800);
    }
}
