use image_hct::color::Pixel;
use image_hct::hct::to_hct;
use image_hct::palette::Palette;
use image_hct::quantize::quantize;
use image_hct::score::score;
use image_hct::sorting::sort;
use material_colors::color::Argb;
use material_colors::hct::Hct;
use material_colors::quantize::Quantizer;
use material_colors::quantize::QuantizerCelebi;
use material_colors::score::Score;

fn packed(a: &Argb) -> u32 {
    u32::from_be_bytes([a.alpha, a.red, a.green, a.blue])
}

fn scene(count: usize, seed: u32) -> Vec<u32> {
    let mut state = seed;
    let mut out = Vec::new();
    for _ in 0..count {
        state = state.wrapping_mul(1664525).wrapping_add(1013904223);
        let r = (state >> 24) & 0xF0;
        let g = (state >> 16) & 0xE0;
        let b = (state >> 8) & 0xC0;
        out.push(0xFF00_0000 | (r << 16) | (g << 8) | b);
    }
    out
}

fn pixels_of(colors: &[u32]) -> Vec<Pixel> {
    colors.iter().map(|c| Pixel::from_packed(*c)).collect()
}

fn sweep_reds(from: u32, to: u32) {
    for red in from..to {
        for low in 0..=0xFFFFu32 {
            let argb = 0xFF00_0000 | (red << 16) | low;
            let model = Hct::new(Argb::from_u32(argb));
            let h = to_hct(argb);
            let (hue, chroma, tone) =
                (f64::from_bits(h.hue), f64::from_bits(h.chroma), f64::from_bits(h.tone));
            assert!(hue >= 0.0 && hue < 360.0);
            assert!(chroma >= 0.0);
            assert!(tone >= 0.0 && tone <= 100.0);
            assert_eq!(hue, model.get_hue());
            assert_eq!(chroma, model.get_chroma());
            assert!((tone - model.get_tone()).abs() < 1e-12);
        }
    }
}

#[test]
fn every_colour_is_in_range_reds_000_to_015() {
    sweep_reds(0, 16);
}

#[test]
fn every_colour_is_in_range_reds_016_to_031() {
    sweep_reds(16, 32);
}

#[test]
fn every_colour_is_in_range_reds_032_to_047() {
    sweep_reds(32, 48);
}

#[test]
fn every_colour_is_in_range_reds_048_to_063() {
    sweep_reds(48, 64);
}

#[test]
fn every_colour_is_in_range_reds_064_to_079() {
    sweep_reds(64, 80);
}

#[test]
fn every_colour_is_in_range_reds_080_to_095() {
    sweep_reds(80, 96);
}

#[test]
fn every_colour_is_in_range_reds_096_to_111() {
    sweep_reds(96, 112);
}

#[test]
fn every_colour_is_in_range_reds_112_to_127() {
    sweep_reds(112, 128);
}

#[test]
fn every_colour_is_in_range_reds_128_to_143() {
    sweep_reds(128, 144);
}

#[test]
fn every_colour_is_in_range_reds_144_to_159() {
    sweep_reds(144, 160);
}

#[test]
fn every_colour_is_in_range_reds_160_to_175() {
    sweep_reds(160, 176);
}

#[test]
fn every_colour_is_in_range_reds_176_to_191() {
    sweep_reds(176, 192);
}

#[test]
fn every_colour_is_in_range_reds_192_to_207() {
    sweep_reds(192, 208);
}

#[test]
fn every_colour_is_in_range_reds_208_to_223() {
    sweep_reds(208, 224);
}

#[test]
fn every_colour_is_in_range_reds_224_to_239() {
    sweep_reds(224, 240);
}

#[test]
fn every_colour_is_in_range_reds_240_to_255() {
    sweep_reds(240, 256);
}

#[test]
fn quantize_counts_what_the_quantizer_counts() {
    for (count, seed, k) in [
        (200usize, 1u32, 4usize),
        (500, 2, 16),
        (1000, 3, 128),
        (50, 4, 1),
        (64, 5, 128),
        (7, 6, 128),
        (1, 7, 256),
        (300, 8, 300),
        (300, 9, 100_000),
    ] {
        let colors = scene(count, seed);
        let sorted: Vec<Argb> = sort(&colors).iter().map(|c| Argb::from_u32(*c)).collect();
        let result = QuantizerCelebi::quantize(&sorted, k);
        let mut expected: Vec<(u32, u32)> =
            result.color_to_count.iter().map(|(c, n)| (packed(c), *n)).collect();
        expected.sort();
        let palette = quantize(&pixels_of(&colors), k as u32).unwrap();
        assert_eq!(palette.entries(), &expected);
    }
}

#[test]
fn score_ranks_as_the_scorer_ranks() {
    for (count, seed) in [(200usize, 7u32), (500, 8), (1000, 9)] {
        let palette = Palette::from_colors(&scene(count, seed));
        let population = palette.entries().iter().map(|e| (Argb::from_u32(e.0), e.1)).collect();
        for want in [1u32, 2, 4, 10] {
            let expected: Vec<u32> = Score::score(&population, Some(want as i32), None, Some(false))
                .iter()
                .map(packed)
                .collect();
            assert_eq!(score(&palette, want, false), expected);
        }
    }
}
