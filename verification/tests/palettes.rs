use image_hct::color::CoreError;
use image_hct::color::Pixel;
use image_hct::palette::Palette;
use image_hct::quantize::assign_clusters;
use image_hct::quantize::palette_of_assignment;
use image_hct::quantize::quantize;

const RED: u32 = 0xFFFF_0000;
const GREEN: u32 = 0xFF00_FF00;
const BLUE: u32 = 0xFF00_00FF;

fn repeat(pixel: Pixel, times: usize) -> Vec<Pixel> {
    vec![pixel; times]
}

fn noise(count: usize) -> Vec<Pixel> {
    let mut state: u32 = 0x2545_F491;
    let mut seen = std::collections::HashSet::new();
    let mut out = Vec::new();
    while out.len() < count {
        state = state.wrapping_mul(1664525).wrapping_add(1013904223);
        let c = state >> 8;
        if seen.insert(c) {
            out.push(Pixel::new((c >> 16) & 255, (c >> 8) & 255, c & 255));
        }
    }
    out
}

#[test]
fn palette_from_colors_counts_each_colour() {
    let p = Palette::from_colors(&vec![5, 3, 5, 9, 3, 5]);
    assert_eq!(p.entries(), &vec![(3, 2), (5, 3), (9, 1)]);
    assert_eq!(p.len(), 3);
    assert_eq!(p.total(), 6);
    assert_eq!(p.color(1), 5);
    assert_eq!(p.count(1), 3);
}

#[test]
fn palette_of_nothing_is_empty() {
    let p = Palette::from_colors(&Vec::new());
    assert_eq!(p.len(), 0);
    assert_eq!(p.total(), 0);
}

#[test]
fn palette_from_sorted_merges_runs() {
    let p = Palette::from_sorted(&vec![1, 1, 1, 2, 4, 4]);
    assert_eq!(p.entries(), &vec![(1, 3), (2, 1), (4, 2)]);
}

#[test]
fn assign_clusters_looks_each_pixel_up() {
    let pairs = vec![(1, 10), (2, 20), (3, 10)];
    assert_eq!(assign_clusters(&vec![1, 1, 2, 3, 3], &pairs), vec![10, 10, 20, 10, 10]);
}

#[test]
fn assign_clusters_keeps_a_pixel_without_entry_and_lets_the_later_pair_win() {
    let pairs = vec![(1, 10), (1, 11)];
    assert_eq!(assign_clusters(&vec![1, 7], &pairs), vec![11, 7]);
}

#[test]
fn palette_of_assignment_adds_up_pixels_of_one_cluster() {
    let pairs = vec![(1, 10), (2, 20), (3, 10)];
    let p = palette_of_assignment(&vec![1, 1, 2, 3, 3], &pairs);
    assert_eq!(p.entries(), &vec![(10, 4), (20, 1)]);
    assert_eq!(p.total(), 5);
}

#[test]
fn quantize_fails_on_empty_input() {
    assert_eq!(quantize(&Vec::new(), 4).err(), Some(CoreError::EmptyInput));
    assert_eq!(quantize(&Vec::new(), 0).err(), Some(CoreError::EmptyInput));
}

#[test]
fn quantize_fails_on_a_palette_of_zero_colours() {
    let pixels = repeat(Pixel::new(1, 2, 3), 4);
    assert_eq!(quantize(&pixels, 0).err(), Some(CoreError::DegenerateQuantization));
}

#[test]
fn quantize_fails_on_a_channel_out_of_range() {
    let pixels = vec![Pixel::new(1, 2, 3), Pixel::new(1, 2, 256)];
    assert_eq!(quantize(&pixels, 4).err(), Some(CoreError::InvalidColorComponent));
    assert_eq!(quantize(&pixels, 0).err(), Some(CoreError::DegenerateQuantization));
}

#[test]
fn quantize_pure_black() {
    let pixels = repeat(Pixel::new(0, 0, 0), 64);
    let p = quantize(&pixels, 4).unwrap();
    assert_eq!(p.entries(), &vec![(0xFF00_0000, 64)]);
}

#[test]
fn quantize_single_pixel_keeps_its_colour() {
    let p = quantize(&vec![Pixel::new(0x14, 0x12, 0x16)], 256).unwrap();
    assert_eq!(p.entries(), &vec![(0xFF14_1216, 1)]);
}

#[test]
fn quantize_two_reds_three_greens() {
    let red = Pixel::new(255, 0, 0);
    let green = Pixel::new(0, 255, 0);
    let p = quantize(&vec![red, red, green, green, green], 256).unwrap();
    assert_eq!(p.entries(), &vec![(GREEN, 3), (RED, 2)]);
}

#[test]
fn quantize_red_green_blue() {
    let pixels = vec![Pixel::new(255, 0, 0), Pixel::new(0, 255, 0), Pixel::new(0, 0, 255)];
    let p = quantize(&pixels, 256).unwrap();
    assert_eq!(p.entries(), &vec![(BLUE, 1), (GREEN, 1), (RED, 1)]);
}

#[test]
fn quantize_to_one_colour_merges_everything() {
    let mut pixels = repeat(Pixel::new(255, 0, 0), 3);
    pixels.extend(repeat(Pixel::new(0, 0, 255), 3));
    let p = quantize(&pixels, 1).unwrap();
    assert_eq!(p.len(), 1);
    assert_eq!(p.count(0), 6);
    assert_ne!(p.color(0), RED);
    assert_ne!(p.color(0), BLUE);
}

#[test]
fn quantize_conserves_the_pixel_count() {
    for k in [1u32, 2, 3, 8, 16, 128] {
        let pixels = noise(500);
        let p = quantize(&pixels, k).unwrap();
        assert_eq!(p.total(), 500);
        let sum: u64 = p.entries().iter().map(|e| e.1 as u64).sum();
        assert_eq!(sum, 500);
    }
}

#[test]
fn quantize_respects_the_palette_bound() {
    for k in [1u32, 2, 3, 8, 16, 128] {
        let pixels = noise(500);
        let p = quantize(&pixels, k).unwrap();
        assert!(p.len() >= 1);
        assert!(p.len() <= k as usize);
    }
}

#[test]
fn quantize_uniform_noise() {
    let pixels = noise(400);
    let p = quantize(&pixels, 8).unwrap();
    assert_eq!(p.len(), 8);
    assert!(p.entries().iter().all(|e| e.1 >= 1));
    assert_eq!(p.total(), 400);
    assert!(p.entries().windows(2).all(|w| w[0].0 < w[1].0));
}

#[test]
fn quantize_noise_with_fewer_colours_than_requested() {
    let pixels = noise(5);
    let p = quantize(&pixels, 8).unwrap();
    assert!(p.len() <= 5);
    assert_eq!(p.total(), 5);
}

#[test]
fn quantize_ignores_the_order_of_the_pixels() {
    let pixels = noise(300);
    let mut reversed = pixels.clone();
    reversed.reverse();
    let mut rotated = pixels.clone();
    rotated.rotate_left(117);
    let p = quantize(&pixels, 6).unwrap();
    assert_eq!(quantize(&reversed, 6).unwrap().entries(), p.entries());
    assert_eq!(quantize(&rotated, 6).unwrap().entries(), p.entries());
}
