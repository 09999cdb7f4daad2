//! Reducing the pixels to a palette of at most the requested size.
//!
//! The clustering itself is done by the `material_colors` crate. This module
//! hands it the pixels in canonical order and counts, for every cluster
//! colour it reports, the pixels that were assigned to it.

use crate::color::CoreError;
use crate::color::Pixel;
use crate::palette::colors_of;
use crate::palette::is_palette_of;
use crate::palette::palette_of;
use crate::palette::total_of;
use crate::palette::Palette;
use crate::sorting::sort;
use crate::sorting::sorted_form;
use material_colors::color::Argb;
use material_colors::quantize::Quantizer;
use material_colors::quantize::QuantizerCelebi;
use std::collections::HashMap;
use vstd::prelude::*;
use vstd::set_lib::lemma_len_subset;

verus! {

/// What `material_colors`' Celebi quantizer reports as the cluster colour of
/// each distinct input colour, as `(input colour, cluster colour)` pairs in
/// the order of its map. It is computed in double-precision arithmetic from
/// the pixel sequence and the colour limit alone.
pub uninterp spec fn celebi_assignment(pixels: Seq<u32>, max_colors: usize) -> Seq<(u32, u32)>;

/// Some pair has `key` as its first component.
pub open spec fn has_key(pairs: Seq<(u32, u32)>, key: u32) -> bool {
    exists|j: int| 0 <= j < pairs.len() && (#[trigger] pairs[j]).0 == key
}

/// The second components of the pairs, in order.
pub open spec fn values_of(pairs: Seq<(u32, u32)>) -> Seq<u32> {
    Seq::new(pairs.len(), |j: int| pairs[j].1)
}

/// Runs `QuantizerCelebi::quantize` of `material_colors` on the packed
/// pixels and returns its map from input colour to cluster colour.
///
/// Trusted, from that crate's source: the map has an entry for every input
/// colour, and its cluster colours take at most `max_colors` distinct
/// values. The call panics for a limit of zero, sets aside room for
/// `max_colors` clusters whatever the pixels, and counts pixels in 32 bits.
#[verifier::external_body]
fn celebi_quantize(pixels: &Vec<u32>, max_colors: usize) -> (pairs: Vec<(u32, u32)>)
    requires
        0 < pixels.len() <= u32::MAX,
        0 < max_colors <= pixels.len(),
    ensures
        pairs@ == celebi_assignment(pixels@, max_colors),
        forall|i: int| 0 <= i < pixels.len() ==> has_key(pairs@, #[trigger] pixels@[i]),
        values_of(pairs@).to_set().len() <= max_colors,
{
    let argb: Vec<Argb> = pixels.iter().map(|p| Argb::from_u32(*p)).collect();
    let result = QuantizerCelebi::quantize(&argb, max_colors);
    result
        .input_pixel_to_cluster_pixel
        .iter()
        .map(|(k, v)| {
            (
                u32::from_be_bytes([k.alpha, k.red, k.green, k.blue]),
                u32::from_be_bytes([v.alpha, v.red, v.green, v.blue]),
            )
        })
        .collect()
}

/// The pairs read as a lookup table; of two pairs with one key the later
/// one counts.
pub open spec fn table_of(pairs: Seq<(u32, u32)>) -> Map<u32, u32>
    decreases pairs.len(),
{
    if pairs.len() == 0 {
        Map::empty()
    } else {
        table_of(pairs.drop_last()).insert(pairs.last().0, pairs.last().1)
    }
}

/// The cluster colour of a pixel: what the table gives, or the pixel's own
/// colour where the table has no entry for it.
pub open spec fn assigned(table: Map<u32, u32>, pixel: u32) -> u32 {
    if table.contains_key(pixel) {
        table[pixel]
    } else {
        pixel
    }
}

/// The cluster colour of every pixel, in the pixels' order.
pub open spec fn cluster_colors(pixels: Seq<u32>, table: Map<u32, u32>) -> Seq<u32> {
    Seq::new(pixels.len(), |i: int| assigned(table, pixels[i]))
}

/// A key of the pairs is a key of the table, and the table maps it to one
/// of the pairs' values.
pub proof fn lemma_table_of_key(pairs: Seq<(u32, u32)>, key: u32)
    requires
        has_key(pairs, key),
    ensures
        table_of(pairs).contains_key(key),
        values_of(pairs).to_set().contains(table_of(pairs)[key]),
    decreases pairs.len(),
{
    let last = pairs.last();
    let front = pairs.drop_last();
    if last.0 == key {
        assert(values_of(pairs)[pairs.len() - 1] == last.1);
    } else {
        let j = choose|j: int| 0 <= j < pairs.len() && (#[trigger] pairs[j]).0 == key;
        assert(front[j].0 == key);
        lemma_table_of_key(front, key);
        let v = table_of(front)[key];
        let k = choose|k: int| 0 <= k < values_of(front).len() && values_of(front)[k] == v;
        assert(values_of(pairs)[k] == v);
    }
}

/// Replaces every pixel by its cluster colour.
pub fn assign_clusters(pixels: &Vec<u32>, pairs: &Vec<(u32, u32)>) -> (out: Vec<u32>)
    ensures
        out@ == cluster_colors(pixels@, table_of(pairs@)),
{
    broadcast use vstd::std_specs::hash::group_hash_axioms;

    let mut table: HashMap<u32, u32> = HashMap::new();
    let mut j: usize = 0;
    assert(pairs@.subrange(0, 0) =~= Seq::<(u32, u32)>::empty());
    while j < pairs.len()
        invariant
            j <= pairs.len(),
            table@ == table_of(pairs@.subrange(0, j as int)),
        decreases pairs.len() - j,
    {
        let pair: (u32, u32) = pairs[j];
        proof {
            let next = pairs@.subrange(0, j + 1);
            assert(next.drop_last() =~= pairs@.subrange(0, j as int));
            assert(next.last() == pair);
        }
        table.insert(pair.0, pair.1);
        j = j + 1;
    }
    assert(pairs@.subrange(0, j as int) =~= pairs@);
    let mut out: Vec<u32> = Vec::new();
    let mut i: usize = 0;
    while i < pixels.len()
        invariant
            i <= pixels.len(),
            table@ == table_of(pairs@),
            out@ == cluster_colors(pixels@.subrange(0, i as int), table_of(pairs@)),
        decreases pixels.len() - i,
    {
        let pixel: u32 = pixels[i];
        let color: u32 = match table.get(&pixel) {
            Some(c) => *c,
            None => pixel,
        };
        let ghost before = out@;
        out.push(color);
        proof {
            assert(color == assigned(table_of(pairs@), pixel));
            assert(out@ =~= cluster_colors(pixels@.subrange(0, i + 1), table_of(pairs@)));
        }
        i = i + 1;
    }
    assert(pixels@.subrange(0, i as int) =~= pixels@);
    out
}

/// Every pixel has its channels in range.
pub open spec fn all_in_range(pixels: Seq<Pixel>) -> bool {
    forall|i: int| 0 <= i < pixels.len() ==> (#[trigger] pixels[i]).in_range()
}

/// The packed form of every pixel, in the pixels' order.
pub open spec fn packed_seq(pixels: Seq<Pixel>) -> Seq<u32> {
    Seq::new(pixels.len(), |i: int| pixels[i].packed())
}

/// Packs every pixel, or refuses the list when one of them is out of range.
pub fn pack_pixels(pixels: &Vec<Pixel>) -> (r: Result<Vec<u32>, CoreError>)
    ensures
        all_in_range(pixels@) ==> r.is_ok() && r.unwrap()@ == packed_seq(pixels@),
        !all_in_range(pixels@) ==> r == Err::<Vec<u32>, CoreError>(
            CoreError::InvalidColorComponent,
        ),
{
    let mut out: Vec<u32> = Vec::new();
    let mut i: usize = 0;
    while i < pixels.len()
        invariant
            i <= pixels.len(),
            all_in_range(pixels@.subrange(0, i as int)),
            out@ == packed_seq(pixels@.subrange(0, i as int)),
        decreases pixels.len() - i,
    {
        match pixels[i].pack() {
            Ok(argb) => {
                out.push(argb);
                proof {
                    let next = pixels@.subrange(0, i + 1);
                    assert forall|k: int| 0 <= k < next.len() implies (#[trigger] next[k]).in_range() by {
                        if k < i {
                            assert(pixels@.subrange(0, i as int)[k].in_range());
                        }
                    }
                    assert(out@ =~= packed_seq(next));
                }
            },
            Err(e) => {
                assert(!pixels@[i as int].in_range());
                return Err(e);
            },
        }
        i = i + 1;
    }
    assert(pixels@.subrange(0, i as int) =~= pixels@);
    Ok(out)
}

/// Why a pixel list and a palette size are refused, if they are.
pub open spec fn refusal(pixels: Seq<Pixel>, palette_size: u32) -> Option<CoreError> {
    if pixels.len() == 0 {
        Some(CoreError::EmptyInput)
    } else if palette_size == 0 {
        Some(CoreError::DegenerateQuantization)
    } else if !all_in_range(pixels) {
        Some(CoreError::InvalidColorComponent)
    } else {
        None
    }
}

/// The pixels in the one order that is handed to the quantizer: packed and
/// ascending.
pub open spec fn canonical(pixels: Seq<Pixel>) -> Seq<u32> {
    sorted_form(packed_seq(pixels))
}

/// The number of clusters asked of the quantizer: the palette size, but no
/// more than there are pixels.
pub open spec fn cluster_limit(pixels: Seq<Pixel>, palette_size: u32) -> usize {
    if palette_size < pixels.len() {
        palette_size as usize
    } else {
        pixels.len() as usize
    }
}

/// The cluster colour of every pixel, the pixels taken in canonical order.
pub open spec fn quantized_colors(pixels: Seq<Pixel>, palette_size: u32) -> Seq<u32> {
    cluster_colors(
        canonical(pixels),
        table_of(celebi_assignment(canonical(pixels), cluster_limit(pixels, palette_size))),
    )
}

/// A palette that counts cluster colours has no more entries than the
/// assignment has distinct cluster colours, provided every pixel has an
/// entry in the assignment.
pub proof fn lemma_palette_size(entries: Seq<(u32, u32)>, pixels: Seq<u32>, pairs: Seq<(u32, u32)>)
    requires
        is_palette_of(entries, cluster_colors(pixels, table_of(pairs)).to_multiset()),
        forall|i: int| 0 <= i < pixels.len() ==> has_key(pairs, #[trigger] pixels[i]),
    ensures
        entries.len() <= values_of(pairs).to_set().len(),
{
    broadcast use vstd::seq_lib::group_to_multiset_ensures;
    broadcast use vstd::seq_lib::seq_to_set_is_finite;

    let colors = colors_of(entries);
    let assigned_seq = cluster_colors(pixels, table_of(pairs));
    let values = values_of(pairs).to_set();
    assert(colors.no_duplicates()) by {
        assert forall|i: int, j: int| 0 <= i < colors.len() && 0 <= j < colors.len() && i != j implies colors[i] != colors[j] by {
            if i < j {
                assert(entries[i].0 < entries[j].0);
            } else {
                assert(entries[j].0 < entries[i].0);
            }
        }
    }
    colors.unique_seq_to_set();
    assert(colors.to_set().subset_of(values)) by {
        assert forall|c: u32| colors.to_set().contains(c) implies values.contains(c) by {
            let i = choose|i: int| 0 <= i < colors.len() && colors[i] == c;
            assert(entries[i].1 > 0);
            assert(assigned_seq.to_multiset().count(entries[i].0) == entries[i].1);
            assert(assigned_seq.contains(c));
            let k = choose|k: int| 0 <= k < assigned_seq.len() && assigned_seq[k] == c;
            assert(has_key(pairs, pixels[k]));
            lemma_table_of_key(pairs, pixels[k]);
        }
    }
    lemma_len_subset(colors.to_set(), values);
}

/// The palette that quantization gives for the pixels: every pixel counted
/// under its cluster colour.
pub open spec fn quantized_palette(pixels: Seq<Pixel>, palette_size: u32) -> Seq<(u32, u32)> {
    palette_of(quantized_colors(pixels, palette_size).to_multiset())
}

/// Counts the pixels of each cluster colour, given the quantizer's
/// assignment.
pub fn palette_of_assignment(pixels: &Vec<u32>, pairs: &Vec<(u32, u32)>) -> (p: Palette)
    requires
        pixels.len() <= u32::MAX,
    ensures
        p.well_formed(),
        p@ == palette_of(cluster_colors(pixels@, table_of(pairs@)).to_multiset()),
        is_palette_of(p@, cluster_colors(pixels@, table_of(pairs@)).to_multiset()),
        total_of(p@) == pixels.len(),
{
    let colors = assign_clusters(pixels, pairs);
    Palette::from_colors(&colors)
}

/// Reduces the pixels to a palette of at most `palette_size` colours.
///
/// The palette counts every pixel exactly once, under the cluster colour
/// that the quantizer assigned to it. It does not depend on the order of the
/// pixels. The quantizer's tables grow with the square of the number of
/// clusters.
pub fn quantize(pixels: &Vec<Pixel>, palette_size: u32) -> (r: Result<Palette, CoreError>)
    requires
        pixels.len() <= u32::MAX,
    ensures
        match r {
            Ok(p) => {
                &&& refusal(pixels@, palette_size) is None
                &&& p.well_formed()
                &&& p@ == quantized_palette(pixels@, palette_size)
                &&& is_palette_of(p@, quantized_colors(pixels@, palette_size).to_multiset())
                &&& total_of(p@) == pixels.len()
                &&& 0 < p@.len() <= palette_size
            },
            Err(e) => refusal(pixels@, palette_size) == Some(e),
        },
{
    if pixels.len() == 0 {
        return Err(CoreError::EmptyInput);
    }
    if palette_size == 0 {
        return Err(CoreError::DegenerateQuantization);
    }
    let packed = match pack_pixels(pixels) {
        Ok(packed) => packed,
        Err(e) => {
            return Err(e);
        },
    };
    let sorted = sort(&packed);
    let limit: usize = if (palette_size as usize) < sorted.len() {
        palette_size as usize
    } else {
        sorted.len()
    };
    let pairs = celebi_quantize(&sorted, limit);
    let p = palette_of_assignment(&sorted, &pairs);
    proof {
        lemma_palette_size(p@, sorted@, pairs@);
        assert(p@.len() > 0) by {
            if p@.len() == 0 {
                assert(total_of(p@) == 0);
            }
        }
    }
    Ok(p)
}

} // verus!
