//! Ranking the colours of a palette by their fitness as a theme seed.
//!
//! The scores are computed by the `material_colors` crate. This module
//! decides what is handed to it, and what is done when every colour was
//! filtered out.

use crate::palette::strictly_ascending;
use crate::palette::total_of;
use crate::palette::Palette;
use material_colors::color::Argb;
use material_colors::score::Score;
use vstd::prelude::*;

verus! {

/// The list that `material_colors`' `Score::score` returns for a population
/// given as `(colour, count)` entries, a wanted length, a fallback colour
/// and the choice whether weak colours are filtered out.
pub uninterp spec fn score_ranking(
    entries: Seq<(u32, u32)>,
    desired: i32,
    fallback: u32,
    filter: bool,
) -> Seq<u32>;

/// Some entry has the colour `color`.
pub open spec fn has_color(entries: Seq<(u32, u32)>, color: u32) -> bool {
    exists|i: int| 0 <= i < entries.len() && (#[trigger] entries[i]).0 == color
}

/// Calls `Score::score` of `material_colors`.
///
/// Trusted, from that crate's documentation and source: at least one colour
/// is returned and at most `desired`; each is a colour of the population or
/// the fallback; without the filter the fallback is never needed. The
/// entries, distinct in colour, become the crate's map one for one. The call
/// divides by the sum of the counts, which it keeps in 32 bits.
#[verifier::external_body]
fn score_colors(entries: &Vec<(u32, u32)>, desired: i32, fallback: u32, filter: bool) -> (ranked:
    Vec<u32>)
    requires
        entries.len() > 0,
        strictly_ascending(entries@),
        forall|i: int| 0 <= i < entries.len() ==> (#[trigger] entries@[i]).1 > 0,
        total_of(entries@) <= u32::MAX,
        desired >= 1,
    ensures
        ranked@ == score_ranking(entries@, desired, fallback, filter),
        1 <= ranked.len() <= desired,
        forall|i: int|
            0 <= i < ranked.len() ==> #[trigger] ranked@[i] == fallback || has_color(
                entries@,
                ranked@[i],
            ),
        !filter ==> forall|i: int| 0 <= i < ranked.len() ==> has_color(entries@, #[trigger] ranked@[i]),
{
    let population = entries.iter().map(|e| (Argb::from_u32(e.0), e.1)).collect();
    let ranked = Score::score(
        &population,
        Some(desired),
        Some(Argb::from_u32(fallback)),
        Some(filter),
    );
    ranked.iter().map(|c| u32::from_be_bytes([c.alpha, c.red, c.green, c.blue])).collect()
}

/// The first position from `from` on whose colour is not the position
/// itself.
pub open spec fn gap_from(entries: Seq<(u32, u32)>, from: nat) -> nat
    decreases entries.len() - from,
{
    if from < entries.len() && entries[from as int].0 == from {
        gap_from(entries, from + 1)
    } else {
        from
    }
}

/// The least number that is no colour of the entries, for entries in
/// strictly ascending order.
pub open spec fn absent_color(entries: Seq<(u32, u32)>) -> nat {
    gap_from(entries, 0)
}

/// From `from` on, the gap is at most the length, every position before it
/// holds itself, and the position itself does not.
proof fn lemma_gap_from(entries: Seq<(u32, u32)>, from: nat)
    requires
        from <= entries.len(),
    ensures
        from <= gap_from(entries, from) <= entries.len(),
        forall|j: int| from <= j < gap_from(entries, from) ==> (#[trigger] entries[j]).0 == j,
        gap_from(entries, from) < entries.len() ==> entries[gap_from(entries, from) as int].0
            != gap_from(entries, from),
    decreases entries.len() - from,
{
    if from < entries.len() && entries[from as int].0 == from {
        lemma_gap_from(entries, from + 1);
    }
}

/// Entries in strictly ascending order hold a colour no smaller than their
/// position.
proof fn lemma_color_ge_index(entries: Seq<(u32, u32)>, i: int)
    requires
        strictly_ascending(entries),
        0 <= i < entries.len(),
    ensures
        entries[i].0 >= i,
    decreases i,
{
    if i > 0 {
        lemma_color_ge_index(entries, i - 1);
        assert(entries[i - 1].0 < entries[i].0);
    }
}

/// The absent colour is indeed absent, and is at most the number of
/// entries.
pub proof fn lemma_absent_color(entries: Seq<(u32, u32)>)
    requires
        strictly_ascending(entries),
    ensures
        absent_color(entries) <= entries.len(),
        forall|j: int| 0 <= j < entries.len() ==> (#[trigger] entries[j]).0 != absent_color(entries),
{
    lemma_gap_from(entries, 0);
    let g = absent_color(entries);
    assert forall|j: int| 0 <= j < entries.len() implies (#[trigger] entries[j]).0 != g by {
        if j >= g {
            lemma_color_ge_index(entries, g as int);
            if j > g {
                assert(entries[g as int].0 < entries[j].0);
            }
        }
    }
}

/// The wanted length as the scorer takes it.
pub open spec fn desired_of(want_count: u32) -> i32 {
    if want_count > i32::MAX {
        i32::MAX
    } else {
        want_count as i32
    }
}

/// The ranking of a population.
///
/// Nothing is ranked for an empty population or a wanted length of zero.
/// Otherwise the scorer is asked once, with a fallback colour that the
/// population does not hold; when weak colours were to be excluded and the
/// fallback comes back, every colour was excluded, and the single best
/// colour of the unfiltered ranking stands in.
pub open spec fn ranking(entries: Seq<(u32, u32)>, want_count: u32, exclude_near_gray: bool) -> Seq<
    u32,
> {
    if entries.len() == 0 || want_count == 0 {
        Seq::empty()
    } else {
        let fallback = absent_color(entries) as u32;
        let first = score_ranking(entries, desired_of(want_count), fallback, exclude_near_gray);
        if first.contains(fallback) {
            score_ranking(entries, 1, fallback, false)
        } else {
            first
        }
    }
}

/// Finds the least number that is no colour of the palette.
fn find_absent_color(palette: &Palette) -> (c: u32)
    requires
        palette.well_formed(),
    ensures
        c == absent_color(palette@),
        !has_color(palette@, c),
{
    proof {
        palette.lemma_well_formed();
        lemma_absent_color(palette@);
    }
    let mut i: usize = 0;
    while i < palette.len() && palette.color(i) as usize == i
        invariant
            i <= palette@.len(),
            palette@.len() <= u32::MAX,
            gap_from(palette@, i as nat) == absent_color(palette@),
        decreases palette@.len() - i,
    {
        i = i + 1;
    }
    i as u32
}

/// Whether `color` occurs in `colors`.
fn occurs(colors: &Vec<u32>, color: u32) -> (found: bool)
    ensures
        found == colors@.contains(color),
{
    let mut i: usize = 0;
    while i < colors.len()
        invariant
            i <= colors.len(),
            forall|k: int| 0 <= k < i ==> colors@[k] != color,
        decreases colors.len() - i,
    {
        if colors[i] == color {
            return true;
        }
        i = i + 1;
    }
    false
}

/// Ranks the colours of a palette, best first, and returns at most
/// `want_count` of them.
///
/// With `exclude_near_gray`, colours of little chroma or little presence
/// are left out; should that leave nothing, the single best colour is
/// returned regardless.
pub fn score(palette: &Palette, want_count: u32, exclude_near_gray: bool) -> (ranked: Vec<u32>)
    requires
        palette.well_formed(),
    ensures
        ranked@ == ranking(palette@, want_count, exclude_near_gray),
        ranked.len() <= want_count,
        palette@.len() > 0 && want_count > 0 ==> ranked.len() >= 1,
        forall|i: int| 0 <= i < ranked.len() ==> has_color(palette@, #[trigger] ranked@[i]),
{
    if palette.len() == 0 || want_count == 0 {
        return Vec::new();
    }
    proof {
        palette.lemma_well_formed();
    }
    let desired: i32 = if want_count > 0x7FFF_FFFF {
        0x7FFF_FFFF
    } else {
        want_count as i32
    };
    let fallback = find_absent_color(palette);
    let first = score_colors(palette.entries(), desired, fallback, exclude_near_gray);
    if occurs(&first, fallback) {
        score_colors(palette.entries(), 1, fallback, false)
    } else {
        first
    }
}

} // verus!
