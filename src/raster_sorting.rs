//! Ordering rasters by depth before they are composited.
use vstd::prelude::*;
use vstd::multiset::Multiset;
use crate::projection::ProjectiveScene;
use crate::raster::Raster;

verus! {

/// The rasters `lo..=hi` are in ascending order of depth.
pub open spec fn sorted_range(s: Seq<Raster>, lo: int, hi: int) -> bool {
    forall|a: int, b: int| lo <= a < b <= hi ==> s[a].z <= s[b].z
}

/// `t` is `s` with the rasters `lo..=hi` rearranged.
pub open spec fn perm_range(s: Seq<Raster>, t: Seq<Raster>, lo: int, hi: int) -> bool {
    &&& s.len() == t.len()
    &&& forall|k: int| 0 <= k < s.len() && !(lo <= k <= hi) ==> s[k] == t[k]
    &&& s.subrange(lo, hi + 1).to_multiset() == t.subrange(lo, hi + 1).to_multiset()
}

/// Every raster `lo..=hi` has depth below `p` (`below`) or at least `p`.
pub open spec fn all_z(s: Seq<Raster>, lo: int, hi: int, p: i32, below: bool) -> bool {
    forall|k: int| lo <= k <= hi ==> if below { #[trigger] s[k].z < p } else { s[k].z >= p }
}

proof fn lemma_perm_trans(s: Seq<Raster>, t: Seq<Raster>, u: Seq<Raster>, lo: int, hi: int)
    requires
        perm_range(s, t, lo, hi),
        perm_range(t, u, lo, hi),
    ensures
        perm_range(s, u, lo, hi),
{
}

/// A rearrangement of a sub-range is a rearrangement of any range around it.
proof fn lemma_perm_widen(s: Seq<Raster>, t: Seq<Raster>, lo: int, hi: int, lo2: int, hi2: int)
    requires
        perm_range(s, t, lo, hi),
        0 <= lo2 <= lo,
        hi <= hi2 < s.len(),
        lo <= hi + 1,
    ensures
        perm_range(s, t, lo2, hi2),
{
    broadcast use vstd::seq_lib::group_to_multiset_ensures;
    let a = s.subrange(lo2, hi2 + 1);
    let b = t.subrange(lo2, hi2 + 1);
    assert(a =~= s.subrange(lo2, lo) + s.subrange(lo, hi + 1) + s.subrange(hi + 1, hi2 + 1));
    assert(b =~= t.subrange(lo2, lo) + t.subrange(lo, hi + 1) + t.subrange(hi + 1, hi2 + 1));
    assert(s.subrange(lo2, lo) =~= t.subrange(lo2, lo));
    assert(s.subrange(hi + 1, hi2 + 1) =~= t.subrange(hi + 1, hi2 + 1));
    vstd::seq_lib::lemma_multiset_commutative(s.subrange(lo2, lo) + s.subrange(lo, hi + 1), s.subrange(hi + 1, hi2 + 1));
    vstd::seq_lib::lemma_multiset_commutative(s.subrange(lo2, lo), s.subrange(lo, hi + 1));
    vstd::seq_lib::lemma_multiset_commutative(t.subrange(lo2, lo) + t.subrange(lo, hi + 1), t.subrange(hi + 1, hi2 + 1));
    vstd::seq_lib::lemma_multiset_commutative(t.subrange(lo2, lo), t.subrange(lo, hi + 1));
}

/// Rearranging a range keeps a depth bound that held on all of it.
proof fn lemma_perm_keeps_bound(s: Seq<Raster>, t: Seq<Raster>, lo: int, hi: int, p: i32, below: bool)
    requires
        perm_range(s, t, lo, hi),
        all_z(s, lo, hi, p, below),
        0 <= lo,
        hi < s.len(),
    ensures
        all_z(t, lo, hi, p, below),
{
    broadcast use vstd::seq_lib::group_to_multiset_ensures;
    assert forall|k: int| lo <= k <= hi implies if below { #[trigger] t[k].z < p } else { t[k].z >= p } by {
        let x = t[k];
        assert(t.subrange(lo, hi + 1)[k - lo] == x);
        assert(t.subrange(lo, hi + 1).contains(x));
        assert(t.subrange(lo, hi + 1).to_multiset().count(x) > 0);
        assert(s.subrange(lo, hi + 1).contains(x));
        let ss = s.subrange(lo, hi + 1);
        let j = choose|j: int| 0 <= j < ss.len() && #[trigger] ss[j] == x;
        assert(s[lo + j] == x);
    }
}

/// Exchanges the rasters at `i` and `j`.
fn swap_rasters(v: &mut Vec<Raster>, i: usize, j: usize)
    requires
        i < old(v)@.len(),
        j < old(v)@.len(),
    ensures
        final(v)@ == old(v)@.update(i as int, old(v)@[j as int]).update(j as int, old(v)@[i as int]),
{
    if i == j {
        proof {
            assert(v@.update(i as int, v@[j as int]).update(j as int, v@[i as int]) =~= v@);
        }
        return;
    }
    let mut tmp = Raster {
        z: 0,
        rec_start: (0, 0),
        rec_end: (0, 0),
        screen_width: 0,
        screen_height: 0,
        raster_width: 0,
        raster_height: 0,
        pixels: Vec::new(),
    };
    v.set_and_swap(i, &mut tmp);
    v.set_and_swap(j, &mut tmp);
    v.set_and_swap(i, &mut tmp);
}

proof fn lemma_swap_perm(s: Seq<Raster>, i: int, j: int, lo: int, hi: int)
    requires
        0 <= lo <= i <= hi < s.len(),
        lo <= j <= hi,
    ensures
        perm_range(s, s.update(i, s[j]).update(j, s[i]), lo, hi),
{
    broadcast use vstd::seq_lib::group_to_multiset_ensures, vstd::multiset::group_multiset_axioms;
    let t = s.update(i, s[j]).update(j, s[i]);
    let a = s.subrange(lo, hi + 1);
    let a1 = a.update(i - lo, s[j]);
    let a2 = a1.update(j - lo, s[i]);
    assert(t.subrange(lo, hi + 1) =~= a2);
    vstd::seq_lib::to_multiset_update(a, i - lo, s[j]);
    vstd::seq_lib::to_multiset_update(a1, j - lo, s[i]);
    if i != j {
        assert(a1[j - lo] == s[j]);
    }
    assert(a2.to_multiset() =~= a.to_multiset());
}

impl<P> ProjectiveScene<P> {
    /// Sorts the rasters `lo..=hi` by depth, by insertion.
    fn insertion_sort(vec: &mut Vec<Raster>, lo: usize, hi: usize)
        requires
            lo <= hi < old(vec)@.len(),
        ensures
            perm_range(old(vec)@, final(vec)@, lo as int, hi as int),
            sorted_range(final(vec)@, lo as int, hi as int),
    {
        let ghost s0 = vec@;
        let n = vec.len();
        let mut i: usize = lo + 1;
        while i <= hi
            invariant
                lo < i <= hi + 1,
                hi < vec@.len(),
                vec@.len() == n,
                perm_range(s0, vec@, lo as int, hi as int),
                sorted_range(vec@, lo as int, i - 1),
            decreases hi + 1 - i,
        {
            let mut j: usize = i;
            while j > lo && vec[j].z < vec[j - 1].z
                invariant
                    lo <= j <= i <= hi,
                    hi < vec@.len(),
                    perm_range(s0, vec@, lo as int, hi as int),
                    sorted_range(vec@, lo as int, j - 1),
                    sorted_range(vec@, j as int, i as int),
                    forall|a: int, b: int| lo <= a < j && j < b <= i ==> vec@[a].z <= vec@[b].z,
                decreases j,
            {
                let ghost before = vec@;
                swap_rasters(vec, j, j - 1);
                proof {
                    lemma_swap_perm(before, j as int, j - 1, lo as int, hi as int);
                    lemma_perm_trans(s0, before, vec@, lo as int, hi as int);
                }
                j = j - 1;
            }
            i = i + 1;
        }
    }

    /// Lomuto partition of `low..=high` about the depth of the last raster:
    /// returns the pivot's final place, with shallower rasters before it and
    /// the others after it.
    fn qs_partition(vec: &mut Vec<Raster>, low: usize, high: usize) -> (pi: usize)
        requires
            low <= high < old(vec)@.len(),
        ensures
            low <= pi <= high,
            final(vec)@[pi as int].z == old(vec)@[high as int].z,
            perm_range(old(vec)@, final(vec)@, low as int, high as int),
            all_z(final(vec)@, low as int, pi - 1, final(vec)@[pi as int].z, true),
            all_z(final(vec)@, pi + 1, high as int, final(vec)@[pi as int].z, false),
    {
        let ghost s0 = vec@;
        let pivot = vec[high].z;
        let mut i: usize = low;
        let mut j: usize = low;
        while j < high
            invariant
                low <= i <= j <= high < vec@.len(),
                vec@[high as int].z == pivot,
                perm_range(s0, vec@, low as int, high as int),
                all_z(vec@, low as int, i - 1, pivot, true),
                all_z(vec@, i as int, j - 1, pivot, false),
            decreases high - j,
        {
            if vec[j].z < pivot {
                let ghost before = vec@;
                swap_rasters(vec, i, j);
                proof {
                    lemma_swap_perm(before, i as int, j as int, low as int, high as int);
                    lemma_perm_trans(s0, before, vec@, low as int, high as int);
                }
                i = i + 1;
            }
            j = j + 1;
        }
        let ghost before = vec@;
        swap_rasters(vec, i, high);
        proof {
            lemma_swap_perm(before, i as int, high as int, low as int, high as int);
            lemma_perm_trans(s0, before, vec@, low as int, high as int);
        }
        i
    }

    /// Quicksort of `low..=high` by depth; short ranges are sorted by insertion.
    fn quicksort(vec: &mut Vec<Raster>, low: usize, high: usize)
        requires
            low <= high + 1,
            high < old(vec)@.len(),
        ensures
            perm_range(old(vec)@, final(vec)@, low as int, high as int),
            sorted_range(final(vec)@, low as int, high as int),
        decreases high + 1 - low,
    {
        if low > high {
            return;
        }
        let len = vec.len();
        if high - low < 19 {
            ProjectiveScene::<P>::insertion_sort(vec, low, high);
            return;
        }
        let ghost s0 = vec@;
        let pi = ProjectiveScene::<P>::qs_partition(vec, low, high);
        let ghost s1 = vec@;
        let ghost p = s1[pi as int].z;
        if pi > low {
            ProjectiveScene::<P>::quicksort(vec, low, pi - 1);
        }
        let ghost s2 = vec@;
        proof {
            if pi > low {
                lemma_perm_keeps_bound(s1, s2, low as int, pi - 1, p, true);
                lemma_perm_widen(s1, s2, low as int, pi - 1, low as int, high as int);
            } else {
                assert(s2 == s1);
            }
            lemma_perm_trans(s0, s1, s2, low as int, high as int);
            assert(s2[pi as int] == s1[pi as int]);
            assert forall|k: int| pi + 1 <= k <= high implies #[trigger] s2[k].z >= p by {
                assert(s2[k] == s1[k]);
            }
        }
        ProjectiveScene::<P>::quicksort(vec, pi + 1, high);
        proof {
            let s3 = vec@;
            lemma_perm_keeps_bound(s2, s3, pi + 1, high as int, p, false);
            lemma_perm_widen(s2, s3, pi + 1, high as int, low as int, high as int);
            lemma_perm_trans(s0, s2, s3, low as int, high as int);
            assert(s3[pi as int] == s2[pi as int]);
            assert forall|k: int| low <= k <= pi - 1 implies #[trigger] s3[k] == s2[k] by {}
            assert(all_z(s3, low as int, pi - 1, p, true));
            assert(sorted_range(s3, low as int, pi - 1)) by {
                assert forall|a: int, b: int| low <= a < b <= pi - 1 implies s3[a].z <= s3[b].z by {
                    assert(s3[a] == s2[a] && s3[b] == s2[b]);
                    if pi > low {
                    }
                }
            }
            assert forall|a: int, b: int| low <= a < b <= high implies s3[a].z <= s3[b].z by {
                if b <= pi - 1 {
                } else if a >= pi + 1 {
                } else if a == pi as int {
                } else if b == pi as int {
                } else {
                    assert(s3[a].z < p && s3[b].z >= p);
                }
            }
        }
    }

    /// The rasters in ascending order of depth.
    pub fn sort_rasters(vec: Vec<Raster>) -> (r: Vec<Raster>)
        ensures
            r@.to_multiset() == vec@.to_multiset(),
            sorted_range(r@, 0, r@.len() - 1),
    {
        let mut vec = vec;
        let ghost s0 = vec@;
        if vec.len() > 1 {
            let len = vec.len();
            ProjectiveScene::<P>::quicksort(&mut vec, 0, len - 1);
            proof {
                assert(s0.subrange(0, len as int) =~= s0);
                assert(vec@.subrange(0, len as int) =~= vec@);
            }
        }
        vec
    }
}

} // verus!
