//! Sorting packed colours, so that a multiset of pixels has one canonical
//! sequence.

use vstd::prelude::*;
use vstd::relations::sorted_by;
use vstd::relations::total_ordering;
use vstd::seq_lib::lemma_multiset_commutative;
use vstd::seq_lib::lemma_sorted_unique;

verus! {

/// The usual order on packed colours.
pub open spec fn leq() -> spec_fn(u32, u32) -> bool {
    |a: u32, b: u32| a <= b
}

/// No element is followed by a smaller one.
pub open spec fn ascending(s: Seq<u32>) -> bool {
    forall|i: int, j: int| 0 <= i < j < s.len() ==> s[i] <= s[j]
}

/// The ascending rearrangement of `s`.
pub open spec fn sorted_form(s: Seq<u32>) -> Seq<u32> {
    s.sort_by(leq())
}

pub proof fn lemma_leq_total()
    ensures
        total_ordering(leq()),
{
}

/// The sorted form is ascending and holds exactly the elements of `s`.
pub proof fn lemma_sorted_form(s: Seq<u32>)
    ensures
        ascending(sorted_form(s)),
        sorted_form(s).to_multiset() == s.to_multiset(),
        sorted_form(s).len() == s.len(),
{
    broadcast use vstd::seq_lib::group_to_multiset_ensures;

    lemma_leq_total();
    s.lemma_sort_by_ensures(leq());
    let t = sorted_form(s);
    assert(ascending(t)) by {
        assert forall|i: int, j: int| 0 <= i < j < t.len() implies t[i] <= t[j] by {
            assert(leq()(t[i], t[j]));
        }
    }
    assert(t.to_multiset().len() == t.len());
    assert(s.to_multiset().len() == s.len());
}

/// An ascending sequence with the elements of `s` is the sorted form of `s`.
pub proof fn lemma_ascending_is_sorted_form(t: Seq<u32>, s: Seq<u32>)
    requires
        ascending(t),
        t.to_multiset() == s.to_multiset(),
    ensures
        t == sorted_form(s),
{
    lemma_leq_total();
    lemma_sorted_form(s);
    let u = sorted_form(s);
    assert(sorted_by(t, leq()));
    assert(sorted_by(u, leq()));
    lemma_sorted_unique(t, u, leq());
}

/// Two sequences with the same elements have the same sorted form.
pub proof fn lemma_sorted_form_of_permutation(a: Seq<u32>, b: Seq<u32>)
    requires
        a.to_multiset() == b.to_multiset(),
    ensures
        sorted_form(a) == sorted_form(b),
{
    lemma_sorted_form(a);
    lemma_ascending_is_sorted_form(sorted_form(a), b);
}

/// Appending an element to a sequence adds it to the multiset.
pub proof fn lemma_push_to_multiset(s: Seq<u32>, x: u32)
    ensures
        s.push(x).to_multiset() =~= s.to_multiset().insert(x),
{
    broadcast use vstd::seq_lib::group_to_multiset_ensures;

}

/// Merges two ascending vectors into one.
fn merge(a: &Vec<u32>, b: &Vec<u32>) -> (r: Vec<u32>)
    requires
        ascending(a@),
        ascending(b@),
        a.len() + b.len() <= usize::MAX,
    ensures
        ascending(r@),
        r@.to_multiset() == a@.to_multiset().add(b@.to_multiset()),
        r.len() == a.len() + b.len(),
{
    broadcast use vstd::seq_lib::group_to_multiset_ensures;
    broadcast use vstd::multiset::group_multiset_axioms;

    let mut r: Vec<u32> = Vec::new();
    let mut i: usize = 0;
    let mut j: usize = 0;
    assert(a@.subrange(0, 0) =~= Seq::<u32>::empty());
    assert(b@.subrange(0, 0) =~= Seq::<u32>::empty());
    while i < a.len() || j < b.len()
        invariant
            i <= a.len(),
            j <= b.len(),
            ascending(a@),
            ascending(b@),
            a.len() + b.len() <= usize::MAX,
            r.len() == i + j,
            ascending(r@),
            r@.to_multiset() =~= a@.subrange(0, i as int).to_multiset().add(
                b@.subrange(0, j as int).to_multiset(),
            ),
            forall|k: int| 0 <= k < r.len() && i < a.len() ==> r@[k] <= a@[i as int],
            forall|k: int| 0 <= k < r.len() && j < b.len() ==> r@[k] <= b@[j as int],
        decreases a.len() - i + (b.len() - j),
    {
        let take_left: bool = if i >= a.len() {
            false
        } else if j >= b.len() {
            true
        } else {
            a[i] <= b[j]
        };
        let ghost before = r@;
        if take_left {
            let x: u32 = a[i];
            r.push(x);
            proof {
                assert(r@ =~= before.push(x));
                assert(a@.subrange(0, i + 1) =~= a@.subrange(0, i as int).push(x));
                lemma_push_to_multiset(before, x);
                lemma_push_to_multiset(a@.subrange(0, i as int), x);
            }
            i = i + 1;
        } else {
            let y: u32 = b[j];
            r.push(y);
            proof {
                assert(r@ =~= before.push(y));
                assert(b@.subrange(0, j + 1) =~= b@.subrange(0, j as int).push(y));
                lemma_push_to_multiset(before, y);
                lemma_push_to_multiset(b@.subrange(0, j as int), y);
            }
            j = j + 1;
        }
    }
    proof {
        assert(a@.subrange(0, i as int) =~= a@);
        assert(b@.subrange(0, j as int) =~= b@);
    }
    r
}

/// Sorts the part of `v` from `lo` up to `hi`.
fn sort_range(v: &Vec<u32>, lo: usize, hi: usize) -> (r: Vec<u32>)
    requires
        lo <= hi <= v.len(),
    ensures
        ascending(r@),
        r@.to_multiset() == v@.subrange(lo as int, hi as int).to_multiset(),
        r.len() == hi - lo,
    decreases hi - lo,
{
    broadcast use vstd::seq_lib::group_to_multiset_ensures;

    let mut r: Vec<u32> = Vec::new();
    if hi - lo == 0 {
        assert(v@.subrange(lo as int, hi as int) =~= r@);
    } else if hi - lo == 1 {
        r.push(v[lo]);
        assert(v@.subrange(lo as int, hi as int) =~= r@);
    } else {
        let mid: usize = lo + (hi - lo) / 2;
        let left = sort_range(v, lo, mid);
        let right = sort_range(v, mid, hi);
        r = merge(&left, &right);
        proof {
            let l = v@.subrange(lo as int, mid as int);
            let h = v@.subrange(mid as int, hi as int);
            assert(v@.subrange(lo as int, hi as int) =~= l + h);
            lemma_multiset_commutative(l, h);
        }
    }
    r
}

/// Returns the elements of `v` in ascending order.
pub fn sort(v: &Vec<u32>) -> (r: Vec<u32>)
    ensures
        r@ == sorted_form(v@),
        ascending(r@),
        r@.to_multiset() == v@.to_multiset(),
        r.len() == v.len(),
{
    let r = sort_range(v, 0, v.len());
    proof {
        assert(v@.subrange(0, v.len() as int) =~= v@);
        lemma_ascending_is_sorted_form(r@, v@);
    }
    r
}

} // verus!
