//! From pixels to the dominant colour, and what holds of the way there.

use crate::color::CoreError;
use crate::color::Pixel;
use crate::hct::hct_components;
use crate::hct::lemma_normalized_in_range;
use crate::hct::normalized;
use crate::hct::to_hct;
use crate::hct::Hct;
use crate::palette::is_palette_of;
use crate::palette::lemma_palette_total;
use crate::palette::total_of;
use crate::quantize::all_in_range;
use crate::quantize::canonical;
use crate::quantize::packed_seq;
use crate::quantize::quantize;
use crate::quantize::quantized_colors;
use crate::quantize::quantized_palette;
use crate::quantize::refusal;
use crate::score::has_color;
use crate::score::ranking;
use crate::score::score;
use crate::sorting::lemma_push_to_multiset;
use crate::sorting::lemma_sorted_form;
use crate::sorting::lemma_sorted_form_of_permutation;
use vstd::prelude::*;

verus! {

/// The best-ranked colour of the quantized palette.
pub open spec fn top_color(pixels: Seq<Pixel>, palette_size: u32) -> u32 {
    ranking(quantized_palette(pixels, palette_size), 1, false)[0]
}

/// The dominant colour of the pixels, or why there is none.
pub open spec fn dominant_color_of(pixels: Seq<Pixel>, palette_size: u32) -> Result<
    u32,
    CoreError,
> {
    match refusal(pixels, palette_size) {
        Some(e) => Err(e),
        None => Ok(top_color(pixels, palette_size)),
    }
}

/// The dominant colour of the pixels in hue, chroma and tone, or why there
/// is none.
pub open spec fn image_hct_of(pixels: Seq<Pixel>, palette_size: u32) -> Result<Hct, CoreError> {
    match refusal(pixels, palette_size) {
        Some(e) => Err(e),
        None => Ok(normalized(hct_components(top_color(pixels, palette_size)))),
    }
}

/// Quantizes the pixels to at most `palette_size` colours and returns the
/// best-ranked of them, as a packed colour.
pub fn dominant_color(pixels: &Vec<Pixel>, palette_size: u32) -> (r: Result<u32, CoreError>)
    requires
        pixels.len() <= u32::MAX,
    ensures
        r == dominant_color_of(pixels@, palette_size),
        r.is_ok() ==> has_color(quantized_palette(pixels@, palette_size), r.unwrap()),
{
    match quantize(pixels, palette_size) {
        Ok(palette) => {
            let ranked = score(&palette, 1, false);
            Ok(ranked[0])
        },
        Err(e) => Err(e),
    }
}

/// The dominant colour of the pixels, in hue, chroma and tone.
///
/// Fails with `EmptyInput` when there is no pixel, else with
/// `DegenerateQuantization` when `palette_size` is zero, else with
/// `InvalidColorComponent` when a channel of some pixel exceeds 255.
pub fn get_image_hct(pixels: &Vec<Pixel>, palette_size: u32) -> (r: Result<Hct, CoreError>)
    requires
        pixels.len() <= u32::MAX,
    ensures
        r == image_hct_of(pixels@, palette_size),
        r.is_ok() ==> r.unwrap().in_range(),
        pixels.len() == 0 ==> r == Err::<Hct, CoreError>(CoreError::EmptyInput),
{
    match dominant_color(pixels, palette_size) {
        Ok(color) => Ok(to_hct(color)),
        Err(e) => Err(e),
    }
}

/// Rearranging the pixels leaves their packed forms the same multiset.
pub proof fn lemma_packed_permutation(a: Seq<Pixel>, b: Seq<Pixel>)
    requires
        a.to_multiset() == b.to_multiset(),
    ensures
        packed_seq(a).to_multiset() == packed_seq(b).to_multiset(),
        all_in_range(a) == all_in_range(b),
        a.len() == b.len(),
    decreases a.len(),
{
    broadcast use vstd::seq_lib::group_to_multiset_ensures;
    broadcast use vstd::multiset::group_multiset_axioms;

    assert(a.to_multiset().len() == a.len());
    assert(b.to_multiset().len() == b.len());
    if a.len() == 0 {
        assert(packed_seq(a) =~= packed_seq(b));
    } else {
        let x = a.last();
        let front = a.drop_last();
        assert(a =~= front.push(x));
        assert(a.to_multiset() =~= front.to_multiset().insert(x));
        assert(b.to_multiset().count(x) > 0);
        assert(b.contains(x));
        let j = choose|j: int| 0 <= j < b.len() && b[j] == x;
        let rest = b.remove(j);
        assert(rest.to_multiset() =~= b.to_multiset().remove(x));
        assert(front.to_multiset() =~= rest.to_multiset());
        lemma_packed_permutation(front, rest);
        let pa = packed_seq(a);
        let pb = packed_seq(b);
        assert(pa =~= packed_seq(front).push(x.packed()));
        lemma_push_to_multiset(packed_seq(front), x.packed());
        assert(pb.remove(j) =~= packed_seq(rest));
        assert(pb.remove(j).to_multiset() =~= pb.to_multiset().remove(pb[j]));
        assert(pb.to_multiset().count(pb[j]) > 0) by {
            assert(pb.contains(pb[j]));
        }
        assert(pa.to_multiset() =~= pb.to_multiset());
        if all_in_range(a) {
            assert forall|i: int| 0 <= i < b.len() implies (#[trigger] b[i]).in_range() by {
                assert(b.contains(b[i]));
                assert(a.to_multiset().count(b[i]) > 0);
                assert(a.contains(b[i]));
            }
        }
        if all_in_range(b) {
            assert forall|i: int| 0 <= i < a.len() implies (#[trigger] a[i]).in_range() by {
                assert(a.contains(a[i]));
                assert(b.to_multiset().count(a[i]) > 0);
                assert(b.contains(a[i]));
            }
        }
    }
}

/// The order of the pixels does not matter: two lists that hold the same
/// pixels equally often give the same palette, the same dominant colour and
/// the same hue, chroma and tone, or are refused for the same reason.
pub proof fn lemma_order_independent(a: Seq<Pixel>, b: Seq<Pixel>, palette_size: u32)
    requires
        a.to_multiset() == b.to_multiset(),
    ensures
        refusal(a, palette_size) == refusal(b, palette_size),
        quantized_palette(a, palette_size) == quantized_palette(b, palette_size),
        dominant_color_of(a, palette_size) == dominant_color_of(b, palette_size),
        image_hct_of(a, palette_size) == image_hct_of(b, palette_size),
{
    lemma_packed_permutation(a, b);
    lemma_sorted_form_of_permutation(packed_seq(a), packed_seq(b));
    assert(canonical(a) == canonical(b));
}

/// Every pixel is counted once: the quantized palette lists each cluster
/// colour with the number of pixels assigned to it, and its counts add up
/// to the number of pixels.
pub proof fn lemma_counts_conserved(pixels: Seq<Pixel>, palette_size: u32)
    requires
        pixels.len() <= u32::MAX,
    ensures
        is_palette_of(
            quantized_palette(pixels, palette_size),
            quantized_colors(pixels, palette_size).to_multiset(),
        ),
        total_of(quantized_palette(pixels, palette_size)) == pixels.len(),
{
    lemma_sorted_form(packed_seq(pixels));
    lemma_palette_total(quantized_colors(pixels, palette_size));
}

/// Whenever there is a dominant colour, its hue lies in `[0, 360)`, its
/// chroma is 0 or more and its tone lies in `[0, 100]`. Without pixels
/// there is none: the list is refused as empty, whatever the palette size.
pub proof fn lemma_image_hct_in_range(pixels: Seq<Pixel>, palette_size: u32)
    ensures
        image_hct_of(pixels, palette_size).is_ok() ==> image_hct_of(
            pixels,
            palette_size,
        ).unwrap().in_range(),
        pixels.len() == 0 ==> image_hct_of(pixels, palette_size) == Err::<Hct, CoreError>(
            CoreError::EmptyInput,
        ),
{
    lemma_normalized_in_range(hct_components(top_color(pixels, palette_size)));
}

} // verus!
