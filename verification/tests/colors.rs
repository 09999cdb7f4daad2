use image_hct::color::CoreError;
use image_hct::color::Pixel;
use image_hct::color::CHANNEL_MAX;
use image_hct::color::OPAQUE;
use image_hct::quantize::pack_pixels;
use image_hct::sorting::sort;

#[test]
fn pack_puts_alpha_red_green_blue_in_that_order() {
    assert_eq!(Pixel::new(255, 0, 0).pack(), Ok(0xFFFF_0000));
    assert_eq!(Pixel::new(0, 255, 0).pack(), Ok(0xFF00_FF00));
    assert_eq!(Pixel::new(0, 0, 255).pack(), Ok(0xFF00_00FF));
    assert_eq!(Pixel::new(0x12, 0x34, 0x56).pack(), Ok(0xFF12_3456));
    assert_eq!(Pixel::new(0, 0, 0).pack(), Ok(OPAQUE));
    assert_eq!(Pixel::new(255, 255, 255).pack(), Ok(0xFFFF_FFFF));
}

#[test]
fn pack_agrees_with_big_endian_bytes() {
    for (r, g, b) in [(1u8, 2u8, 3u8), (200, 100, 50), (0, 255, 7)] {
        let expected = u32::from_be_bytes([255, r, g, b]);
        assert_eq!(Pixel::new(r as u32, g as u32, b as u32).pack(), Ok(expected));
    }
}

#[test]
fn pack_refuses_a_channel_above_255() {
    assert_eq!(CHANNEL_MAX, 255);
    assert_eq!(Pixel::new(256, 0, 0).pack(), Err(CoreError::InvalidColorComponent));
    assert_eq!(Pixel::new(0, 256, 0).pack(), Err(CoreError::InvalidColorComponent));
    assert_eq!(Pixel::new(0, 0, 256).pack(), Err(CoreError::InvalidColorComponent));
    assert_eq!(Pixel::new(0, 0, u32::MAX).pack(), Err(CoreError::InvalidColorComponent));
    assert!(Pixel::new(255, 255, 255).is_valid());
    assert!(!Pixel::new(255, 255, 256).is_valid());
}

#[test]
fn from_packed_reads_the_channels_back() {
    let p = Pixel::from_packed(0xFF12_3456);
    assert_eq!(p, Pixel::new(0x12, 0x34, 0x56));
    assert_eq!(p.pack(), Ok(0xFF12_3456));
    let q = Pixel::from_packed(0x0012_3456);
    assert_eq!(q, Pixel::new(0x12, 0x34, 0x56));
}

#[test]
fn pack_pixels_keeps_order_and_fails_on_the_first_bad_pixel() {
    let good = vec![Pixel::new(1, 2, 3), Pixel::new(0, 0, 0), Pixel::new(1, 2, 3)];
    assert_eq!(pack_pixels(&good), Ok(vec![0xFF01_0203, 0xFF00_0000, 0xFF01_0203]));
    let bad = vec![Pixel::new(1, 2, 3), Pixel::new(0, 999, 0)];
    assert_eq!(pack_pixels(&bad), Err(CoreError::InvalidColorComponent));
    assert_eq!(pack_pixels(&Vec::new()), Ok(Vec::new()));
}

#[test]
fn sort_orders_and_keeps_every_element() {
    assert_eq!(sort(&vec![]), Vec::<u32>::new());
    assert_eq!(sort(&vec![7]), vec![7]);
    assert_eq!(sort(&vec![3, 1, 2]), vec![1, 2, 3]);
    assert_eq!(sort(&vec![5, 5, 1, 5, 0, u32::MAX, 1]), vec![0, 1, 1, 5, 5, 5, u32::MAX]);
}

#[test]
fn sort_agrees_with_the_standard_sort() {
    let mut state: u32 = 12345;
    let mut v: Vec<u32> = Vec::new();
    for _ in 0..1000 {
        state = state.wrapping_mul(1664525).wrapping_add(1013904223);
        v.push(state >> 20);
    }
    let mut expected = v.clone();
    expected.sort();
    assert_eq!(sort(&v), expected);
}
