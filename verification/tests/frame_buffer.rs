use rt::raster::{paint, Pixel};
use rt::region::{region_pixels, regions};

fn pixel(x: usize, y: usize, red: u8, green: u8, blue: u8) -> Pixel {
    Pixel { x, y, red, green, blue }
}

#[test]
fn painted_pixels_stand_at_their_places() {
    let mut buffer: Vec<u32> = vec![0; 6];
    let pixels = vec![pixel(0, 0, 1, 2, 3), pixel(2, 1, 255, 0, 128)];
    paint(&mut buffer, 3, 2, &pixels);
    // Row 0 of the raster is the last row of the buffer.
    assert_eq!(buffer, vec![0, 0, 0xffff_0080, 0xff01_0203, 0, 0]);
}

#[test]
fn painting_nothing_changes_nothing() {
    let mut buffer: Vec<u32> = vec![7, 8, 9, 10];
    paint(&mut buffer, 2, 2, &Vec::new());
    assert_eq!(buffer, vec![7, 8, 9, 10]);
}

#[test]
fn later_pixel_at_the_same_place_wins() {
    let mut buffer: Vec<u32> = vec![0; 4];
    let pixels = vec![pixel(1, 1, 9, 9, 9), pixel(1, 1, 1, 1, 1)];
    paint(&mut buffer, 2, 2, &pixels);
    assert_eq!(buffer, vec![0, 0xff01_0101, 0, 0]);
}

fn shaded(band: &rt::region::Region) -> Vec<Pixel> {
    region_pixels(band)
        .into_iter()
        .map(|(x, y)| pixel(x, y, (x * 16) as u8, (y * 16) as u8, (x + y) as u8))
        .collect()
}

#[test]
fn bands_may_be_merged_in_any_order() {
    let (width, height) = (12usize, 10usize);
    let bands = regions(width, height, 3);
    let mut forward: Vec<u32> = vec![0; width * height];
    for band in bands.iter() {
        paint(&mut forward, width, height, &shaded(band));
    }
    let mut backward: Vec<u32> = vec![0; width * height];
    for band in bands.iter().rev() {
        paint(&mut backward, width, height, &shaded(band));
    }
    let mut at_once: Vec<u32> = vec![0; width * height];
    for band in regions(width, height, 1).iter() {
        paint(&mut at_once, width, height, &shaded(band));
    }
    assert_eq!(forward, backward);
    assert_eq!(forward, at_once);
    assert!(forward.iter().all(|colour| *colour >= 0xff00_0000));
    assert_eq!(forward[width * (height - 1)], 0xff00_0000);
    assert_eq!(forward[width * (height - 1) + 1], 0xff10_0001);
    assert_eq!(forward[0], 0xff00_9009);
}
