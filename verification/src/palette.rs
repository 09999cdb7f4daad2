//! Colour populations: which colours occur, and how often.

use crate::sorting::ascending;
use crate::sorting::lemma_leq_total;
use crate::sorting::lemma_sorted_form;
use crate::sorting::leq;
use crate::sorting::lemma_push_to_multiset;
use crate::sorting::sort;
use crate::sorting::sorted_form;
use vstd::multiset::Multiset;
use vstd::prelude::*;
use vstd::relations::sorted_by;
use vstd::seq_lib::lemma_sorted_unique;

verus! {

/// Sum of the counts of a list of `(colour, count)` entries.
pub open spec fn total_of(entries: Seq<(u32, u32)>) -> nat
    decreases entries.len(),
{
    if entries.len() == 0 {
        0
    } else {
        total_of(entries.drop_last()) + entries.last().1 as nat
    }
}

/// The colours of the entries grow strictly from each one to the next.
pub open spec fn strictly_ascending(entries: Seq<(u32, u32)>) -> bool {
    forall|i: int, j: int| 0 <= i < j < entries.len() ==> entries[i].0 < entries[j].0
}

/// The entries list every colour of `m` with its multiplicity, and nothing
/// else.
pub open spec fn tallies(entries: Seq<(u32, u32)>, m: Multiset<u32>) -> bool {
    &&& forall|i: int| 0 <= i < entries.len() ==> m.count(entries[i].0) == #[trigger] entries[i].1
    &&& forall|c: u32| m.count(c) > 0 ==> exists|i: int| 0 <= i < entries.len() && #[trigger] entries[i].0 == c
}

/// With every count positive, the sum of the counts is at least the number
/// of entries.
pub proof fn lemma_len_le_total(entries: Seq<(u32, u32)>)
    requires
        forall|i: int| 0 <= i < entries.len() ==> (#[trigger] entries[i]).1 > 0,
    ensures
        entries.len() <= total_of(entries),
    decreases entries.len(),
{
    if entries.len() > 0 {
        lemma_len_le_total(entries.drop_last());
    }
}

/// The colours of the entries, in order.
pub open spec fn colors_of(entries: Seq<(u32, u32)>) -> Seq<u32> {
    Seq::new(entries.len(), |i: int| entries[i].0)
}

/// The entries are the palette of the population `m`: its colours in
/// strictly ascending order, each with its positive multiplicity.
pub open spec fn is_palette_of(entries: Seq<(u32, u32)>, m: Multiset<u32>) -> bool {
    &&& strictly_ascending(entries)
    &&& forall|i: int| 0 <= i < entries.len() ==> (#[trigger] entries[i]).1 > 0
    &&& tallies(entries, m)
}

/// The palette of a population.
pub open spec fn palette_of(m: Multiset<u32>) -> Seq<(u32, u32)> {
    choose|entries: Seq<(u32, u32)>| is_palette_of(entries, m)
}

/// The colours of a palette of `m`, as a multiset, hold each colour of `m`
/// once.
proof fn lemma_palette_colors(entries: Seq<(u32, u32)>, m: Multiset<u32>, c: u32)
    requires
        is_palette_of(entries, m),
    ensures
        colors_of(entries).to_multiset().count(c) == if m.count(c) > 0 {
            1nat
        } else {
            0nat
        },
{
    broadcast use vstd::seq_lib::group_to_multiset_ensures;

    let colors = colors_of(entries);
    assert(colors.no_duplicates()) by {
        assert forall|i: int, j: int|
            0 <= i < colors.len() && 0 <= j < colors.len() && i != j implies colors[i]
            != colors[j] by {
            if i < j {
                assert(entries[i].0 < entries[j].0);
            } else {
                assert(entries[j].0 < entries[i].0);
            }
        }
    }
    colors.lemma_multiset_has_no_duplicates();
    if m.count(c) > 0 {
        let i = choose|i: int| 0 <= i < entries.len() && #[trigger] entries[i].0 == c;
        assert(colors[i] == c);
        assert(colors.contains(c));
    } else {
        if colors.contains(c) {
            let i = choose|i: int| 0 <= i < colors.len() && colors[i] == c;
            assert(m.count(entries[i].0) == entries[i].1);
            assert(entries[i].1 > 0);
        }
    }
}

/// A population has one palette only.
pub proof fn lemma_palette_unique(a: Seq<(u32, u32)>, b: Seq<(u32, u32)>, m: Multiset<u32>)
    requires
        is_palette_of(a, m),
        is_palette_of(b, m),
    ensures
        a == b,
{
    let ca = colors_of(a);
    let cb = colors_of(b);
    assert(ca.to_multiset() =~= cb.to_multiset()) by {
        assert forall|c: u32| ca.to_multiset().count(c) == cb.to_multiset().count(c) by {
            lemma_palette_colors(a, m, c);
            lemma_palette_colors(b, m, c);
        }
    }
    assert(sorted_by(ca, leq())) by {
        assert forall|i: int, j: int| 0 <= i < j < ca.len() implies #[trigger] leq()(ca[i], ca[j]) by {
            assert(a[i].0 < a[j].0);
        }
    }
    assert(sorted_by(cb, leq())) by {
        assert forall|i: int, j: int| 0 <= i < j < cb.len() implies #[trigger] leq()(cb[i], cb[j]) by {
            assert(b[i].0 < b[j].0);
        }
    }
    lemma_leq_total();
    lemma_sorted_unique(ca, cb, leq());
    assert(a.len() == b.len());
    assert forall|i: int| 0 <= i < a.len() implies a[i] == b[i] by {
        assert(ca[i] == cb[i]);
        assert(m.count(a[i].0) == a[i].1);
        assert(m.count(b[i].0) == b[i].1);
    }
    assert(a =~= b);
}

/// Entries that qualify as the palette of `m` are the palette of `m`.
pub proof fn lemma_palette_of(entries: Seq<(u32, u32)>, m: Multiset<u32>)
    requires
        is_palette_of(entries, m),
    ensures
        entries == palette_of(m),
{
    lemma_palette_unique(entries, palette_of(m), m);
}

/// No count exceeds the sum of all counts.
proof fn lemma_count_le_total(entries: Seq<(u32, u32)>, i: int)
    requires
        0 <= i < entries.len(),
    ensures
        entries[i].1 <= total_of(entries),
    decreases entries.len(),
{
    if i < entries.len() - 1 {
        lemma_count_le_total(entries.drop_last(), i);
    }
}

/// The runs of equal colours in a list, each as its colour and length.
pub open spec fn run_lengths(colors: Seq<u32>) -> Seq<(u32, u32)>
    decreases colors.len(),
{
    if colors.len() == 0 {
        Seq::empty()
    } else {
        let runs = run_lengths(colors.drop_last());
        let x = colors.last();
        if runs.len() > 0 && runs.last().0 == x {
            runs.update(runs.len() - 1, (x, (runs.last().1 + 1) as u32))
        } else {
            runs.push((x, 1))
        }
    }
}

/// The runs of an ascending list are the palette of its elements, and
/// their lengths add up to the length of the list.
pub proof fn lemma_run_lengths(colors: Seq<u32>)
    requires
        ascending(colors),
        colors.len() <= u32::MAX,
    ensures
        is_palette_of(run_lengths(colors), colors.to_multiset()),
        total_of(run_lengths(colors)) == colors.len(),
        colors.len() > 0 ==> run_lengths(colors).len() > 0 && run_lengths(colors).last().0
            == colors.last(),
    decreases colors.len(),
{
    broadcast use vstd::seq_lib::group_to_multiset_ensures;
    broadcast use vstd::multiset::group_multiset_axioms;

    if colors.len() > 0 {
        let front = colors.drop_last();
        let x = colors.last();
        let before = run_lengths(front);
        let after = run_lengths(colors);
        let m = front.to_multiset();
        let n = before.len() as int;
        lemma_run_lengths(front);
        assert(colors =~= front.push(x));
        lemma_push_to_multiset(front, x);
        if n > 0 && before.last().0 == x {
            lemma_count_le_total(before, n - 1);
            assert(after.drop_last() =~= before.drop_last());
            assert forall|k: int| 0 <= k < after.len() implies m.insert(x).count(after[k].0)
                == #[trigger] after[k].1 by {
                if k < n - 1 {
                    assert(before[k].0 < before[n - 1].0);
                    assert(m.count(before[k].0) == before[k].1);
                } else {
                    assert(m.count(before[n - 1].0) == before[n - 1].1);
                }
            }
            assert forall|c: u32| m.insert(x).count(c) > 0 implies exists|k: int|
                0 <= k < after.len() && #[trigger] after[k].0 == c by {
                if c == x {
                    assert(after[n - 1].0 == c);
                } else {
                    assert(m.count(c) > 0);
                    let k = choose|k: int| 0 <= k < before.len() && #[trigger] before[k].0 == c;
                    assert(after[k].0 == c);
                }
            }
            assert forall|a: int, b: int| 0 <= a < b < after.len() implies after[a].0
                < after[b].0 by {
                assert(before[a].0 < before[b].0);
            }
            assert forall|k: int| 0 <= k < after.len() implies (#[trigger] after[k]).1 > 0 by {
                if k < n - 1 {
                    assert(before[k].1 > 0);
                }
            }
        } else {
            assert(after.drop_last() =~= before);
            assert(m.count(x) == 0) by {
                if m.count(x) > 0 {
                    let k = choose|k: int| 0 <= k < before.len() && #[trigger] before[k].0 == x;
                    assert(before[k].0 <= before[n - 1].0);
                    assert(before[n - 1].0 == front.last());
                    assert(colors[colors.len() - 2] <= colors[colors.len() - 1]);
                }
            }
            assert forall|k: int| 0 <= k < after.len() implies m.insert(x).count(after[k].0)
                == #[trigger] after[k].1 by {
                if k < n {
                    assert(m.count(before[k].0) == before[k].1);
                    assert(before[k].0 != x);
                }
            }
            assert forall|c: u32| m.insert(x).count(c) > 0 implies exists|k: int|
                0 <= k < after.len() && #[trigger] after[k].0 == c by {
                if c == x {
                    assert(after[n].0 == c);
                } else {
                    assert(m.count(c) > 0);
                    let k = choose|k: int| 0 <= k < before.len() && #[trigger] before[k].0 == c;
                    assert(after[k].0 == c);
                }
            }
            assert forall|a: int, b: int| 0 <= a < b < after.len() implies after[a].0
                < after[b].0 by {
                if b == n {
                    assert(before[a].0 <= before[n - 1].0);
                    assert(colors[colors.len() - 2] <= colors[colors.len() - 1]);
                } else {
                    assert(before[a].0 < before[b].0);
                }
            }
            assert forall|k: int| 0 <= k < after.len() implies (#[trigger] after[k]).1 > 0 by {
                if k < n {
                    assert(before[k].1 > 0);
                }
            }
        }
    }
}

/// Every population of a list has a palette, and its counts add up to the
/// length of the list.
pub proof fn lemma_palette_total(colors: Seq<u32>)
    requires
        colors.len() <= u32::MAX,
    ensures
        is_palette_of(palette_of(colors.to_multiset()), colors.to_multiset()),
        total_of(palette_of(colors.to_multiset())) == colors.len(),
{
    let sorted = sorted_form(colors);
    lemma_sorted_form(colors);
    lemma_run_lengths(sorted);
    lemma_palette_of(run_lengths(sorted), colors.to_multiset());
}

/// A set of distinct colours, each with the number of pixels that show it.
///
/// The entries are kept in ascending order of colour, so a population has
/// exactly one representation.
#[derive(Debug)]
pub struct Palette {
    entries: Vec<(u32, u32)>,
    total: u32,
}

impl Palette {
    /// The entries, as `(colour, count)` in ascending order of colour.
    pub closed spec fn view(&self) -> Seq<(u32, u32)> {
        self.entries@
    }

    /// Colours are distinct and ascending, every count is positive, and the
    /// cached sum is the sum of the counts.
    pub closed spec fn well_formed(&self) -> bool {
        &&& strictly_ascending(self.entries@)
        &&& forall|i: int| 0 <= i < self.entries@.len() ==> (#[trigger] self.entries@[i]).1 > 0
        &&& self.total == total_of(self.entries@)
    }

    /// What well-formedness means, for users outside this module.
    pub proof fn lemma_well_formed(&self)
        requires
            self.well_formed(),
        ensures
            strictly_ascending(self@),
            forall|i: int| 0 <= i < self@.len() ==> (#[trigger] self@[i]).1 > 0,
            total_of(self@) <= u32::MAX,
            self@.len() <= total_of(self@),
    {
        lemma_len_le_total(self.entries@);
    }

    /// The population of an ascending list of colours: one entry per
    /// distinct colour, counting its occurrences.
    pub fn from_sorted(colors: &Vec<u32>) -> (p: Palette)
        requires
            ascending(colors@),
            colors.len() <= u32::MAX,
        ensures
            p.well_formed(),
            p@ == palette_of(colors@.to_multiset()),
            is_palette_of(p@, colors@.to_multiset()),
            total_of(p@) == colors.len(),
    {
        let mut entries: Vec<(u32, u32)> = Vec::new();
        let mut i: usize = 0;
        assert(colors@.subrange(0, 0) =~= Seq::<u32>::empty());
        while i < colors.len()
            invariant
                i <= colors.len(),
                colors.len() <= u32::MAX,
                ascending(colors@),
                entries@ == run_lengths(colors@.subrange(0, i as int)),
            decreases colors.len() - i,
        {
            let x: u32 = colors[i];
            proof {
                let next = colors@.subrange(0, i + 1);
                assert(next.drop_last() =~= colors@.subrange(0, i as int));
                lemma_run_lengths(colors@.subrange(0, i as int));
            }
            let n: usize = entries.len();
            if n > 0 && entries[n - 1].0 == x {
                let run: u32 = entries[n - 1].1;
                proof {
                    lemma_count_le_total(entries@, n - 1);
                }
                entries.set(n - 1, (x, run + 1));
            } else {
                entries.push((x, 1));
            }
            i = i + 1;
        }
        proof {
            assert(colors@.subrange(0, i as int) =~= colors@);
            lemma_run_lengths(colors@);
            lemma_palette_of(entries@, colors@.to_multiset());
        }
        Palette { entries, total: i as u32 }
    }

    /// The population of a list of colours in any order.
    pub fn from_colors(colors: &Vec<u32>) -> (p: Palette)
        requires
            colors.len() <= u32::MAX,
        ensures
            p.well_formed(),
            p@ == palette_of(colors@.to_multiset()),
            is_palette_of(p@, colors@.to_multiset()),
            total_of(p@) == colors.len(),
    {
        let sorted = sort(colors);
        Palette::from_sorted(&sorted)
    }

    /// Number of distinct colours.
    pub fn len(&self) -> (n: usize)
        ensures
            n == self@.len(),
    {
        self.entries.len()
    }

    /// Number of pixels counted, over all colours.
    pub fn total(&self) -> (n: u32)
        requires
            self.well_formed(),
        ensures
            n == total_of(self@),
    {
        self.total
    }

    /// The `i`-th colour, in ascending order.
    pub fn color(&self, i: usize) -> (c: u32)
        requires
            i < self@.len(),
        ensures
            c == self@[i as int].0,
    {
        self.entries[i].0
    }

    /// The number of pixels of the `i`-th colour.
    pub fn count(&self, i: usize) -> (n: u32)
        requires
            i < self@.len(),
        ensures
            n == self@[i as int].1,
    {
        self.entries[i].1
    }

    /// The entries as a list.
    pub fn entries(&self) -> (e: &Vec<(u32, u32)>)
        ensures
            e@ == self@,
    {
        &self.entries
    }
}

} // verus!
