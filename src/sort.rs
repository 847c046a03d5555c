//! Ordering positions by their distance to an origin.
use vstd::prelude::*;

use crate::block::{spec_dist2, BlockLocation};

verus! {

/// Whether `s` is ordered by non-decreasing distance to `origin`.
pub open spec fn sorted_by_distance(origin: BlockLocation, s: Seq<BlockLocation>) -> bool {
    forall|a: int, b: int|
        0 <= a < b < s.len() ==> spec_dist2(origin, #[trigger] s[a]) <= spec_dist2(origin, #[trigger] s[b])
}

/// Whether `l` is one of `s[lo..hi]`.
pub open spec fn holds_between(s: Seq<BlockLocation>, lo: int, hi: int, l: BlockLocation) -> bool {
    exists|k: int| lo <= k < hi && #[trigger] s[k] == l
}

/// Merges two sequences ordered by distance into one.
fn merge(origin: BlockLocation, a: &Vec<BlockLocation>, b: &Vec<BlockLocation>) -> (r: Vec<BlockLocation>)
    requires
        sorted_by_distance(origin, a@),
        sorted_by_distance(origin, b@),
    ensures
        sorted_by_distance(origin, r@),
        r@.len() == a@.len() + b@.len(),
        forall|l: BlockLocation| #[trigger] r@.contains(l) <==> a@.contains(l) || b@.contains(l),
        a@.no_duplicates() && b@.no_duplicates() && (forall|l: BlockLocation|
            a@.contains(l) ==> !b@.contains(l)) ==> r@.no_duplicates(),
{
    let ghost disjoint = a@.no_duplicates() && b@.no_duplicates() && (forall|l: BlockLocation|
        a@.contains(l) ==> !b@.contains(l));
    let mut out: Vec<BlockLocation> = Vec::new();
    let mut i: usize = 0;
    let mut j: usize = 0;
    while i < a.len() || j < b.len()
        invariant
            sorted_by_distance(origin, a@),
            sorted_by_distance(origin, b@),
            i <= a@.len(),
            j <= b@.len(),
            out@.len() == i + j,
            sorted_by_distance(origin, out@),
            out@.len() > 0 && i < a@.len() ==> spec_dist2(origin, out@.last()) <= spec_dist2(origin, a@[i as int]),
            out@.len() > 0 && j < b@.len() ==> spec_dist2(origin, out@.last()) <= spec_dist2(origin, b@[j as int]),
            forall|l: BlockLocation| #[trigger]
                out@.contains(l) <==> holds_between(a@, 0, i as int, l) || holds_between(b@, 0, j as int, l),
            disjoint == (a@.no_duplicates() && b@.no_duplicates() && (forall|l: BlockLocation|
                a@.contains(l) ==> !b@.contains(l))),
            disjoint ==> out@.no_duplicates(),
        decreases a@.len() + b@.len() - i - j,
    {
        let take_a = if i < a.len() && j < b.len() {
            origin.dist2(a[i]) <= origin.dist2(b[j])
        } else {
            i < a.len()
        };
        let l = if take_a { a[i] } else { b[j] };
        let ghost before = out@;
        proof {
            if disjoint {
                assert(!before.contains(l)) by {
                    if before.contains(l) {
                        if take_a {
                            if holds_between(a@, 0, i as int, l) {
                                let k = choose|k: int| 0 <= k < i && #[trigger] a@[k] == l;
                            } else {
                                let k = choose|k: int| 0 <= k < j && #[trigger] b@[k] == l;
                                assert(a@.contains(l));
                                assert(b@.contains(l));
                            }
                        } else {
                            if holds_between(b@, 0, j as int, l) {
                                let k = choose|k: int| 0 <= k < j && #[trigger] b@[k] == l;
                            } else {
                                let k = choose|k: int| 0 <= k < i && #[trigger] a@[k] == l;
                                assert(a@.contains(l));
                                assert(b@.contains(l));
                            }
                        }
                    }
                }
            }
        }
        out.push(l);
        if take_a {
            i = i + 1;
        } else {
            j = j + 1;
        }
        proof {
            assert(out@ == before.push(l));
            assert forall|l2: BlockLocation| #[trigger]
                out@.contains(l2) <==> holds_between(a@, 0, i as int, l2) || holds_between(b@, 0, j as int, l2) by {
                if out@.contains(l2) {
                    let k = choose|k: int| 0 <= k < out@.len() && out@[k] == l2;
                    if k < before.len() {
                        assert(before.contains(l2));
                        if holds_between(a@, 0, i - 1, l2) {
                            let q = choose|q: int| 0 <= q < i - 1 && #[trigger] a@[q] == l2;
                        }
                    } else {
                        if take_a {
                            assert(a@[i - 1] == l2);
                        } else {
                            assert(b@[j - 1] == l2);
                        }
                    }
                }
                if holds_between(a@, 0, i as int, l2) {
                    let q = choose|q: int| 0 <= q < i && #[trigger] a@[q] == l2;
                    if take_a && q == i - 1 {
                        assert(out@[out@.len() - 1] == l2);
                    } else {
                        assert(holds_between(a@, 0, if take_a { i - 1 } else { i as int }, l2));
                        assert(before.contains(l2));
                        let k = choose|k: int| 0 <= k < before.len() && before[k] == l2;
                        assert(out@[k] == l2);
                    }
                }
                if holds_between(b@, 0, j as int, l2) {
                    let q = choose|q: int| 0 <= q < j && #[trigger] b@[q] == l2;
                    if !take_a && q == j - 1 {
                        assert(out@[out@.len() - 1] == l2);
                    } else {
                        assert(holds_between(b@, 0, if take_a { j as int } else { j - 1 }, l2));
                        assert(before.contains(l2));
                        let k = choose|k: int| 0 <= k < before.len() && before[k] == l2;
                        assert(out@[k] == l2);
                    }
                }
            }
            if i < a@.len() && take_a {
                assert(spec_dist2(origin, a@[i - 1]) <= spec_dist2(origin, a@[i as int]));
            }
            if j < b@.len() && !take_a {
                assert(spec_dist2(origin, b@[j - 1]) <= spec_dist2(origin, b@[j as int]));
            }
        }
    }
    proof {
        assert forall|l: BlockLocation| #[trigger] out@.contains(l) <==> a@.contains(l) || b@.contains(l) by {
            if a@.contains(l) {
                let k = choose|k: int| 0 <= k < a@.len() && a@[k] == l;
                assert(holds_between(a@, 0, i as int, l));
            }
            if b@.contains(l) {
                let k = choose|k: int| 0 <= k < b@.len() && b@[k] == l;
                assert(holds_between(b@, 0, j as int, l));
            }
        }
    }
    out
}

/// `v[lo..hi]` ordered by non-decreasing distance to `origin`.
fn sort_range(origin: BlockLocation, v: &Vec<BlockLocation>, lo: usize, hi: usize) -> (r: Vec<BlockLocation>)
    requires
        lo <= hi <= v@.len(),
    ensures
        sorted_by_distance(origin, r@),
        r@.len() == hi - lo,
        forall|l: BlockLocation| #[trigger] r@.contains(l) <==> holds_between(v@, lo as int, hi as int, l),
        v@.no_duplicates() ==> r@.no_duplicates(),
    decreases hi - lo,
{
    if hi - lo == 0 {
        let r: Vec<BlockLocation> = Vec::new();
        proof {
            assert forall|l: BlockLocation| #[trigger] r@.contains(l) <==> holds_between(v@, lo as int, hi as int, l) by {
                if holds_between(v@, lo as int, hi as int, l) {
                    let k = choose|k: int| lo <= k < hi && #[trigger] v@[k] == l;
                }
            }
        }
        r
    } else if hi - lo == 1 {
        let mut r: Vec<BlockLocation> = Vec::new();
        r.push(v[lo]);
        proof {
            assert forall|l: BlockLocation| #[trigger] r@.contains(l) <==> holds_between(v@, lo as int, hi as int, l) by {
                if r@.contains(l) {
                    assert(r@[0] == l);
                    assert(v@[lo as int] == l);
                }
                if holds_between(v@, lo as int, hi as int, l) {
                    let k = choose|k: int| lo <= k < hi && #[trigger] v@[k] == l;
                    assert(r@[0] == l);
                }
            }
        }
        r
    } else {
        let mid = lo + (hi - lo) / 2;
        let a = sort_range(origin, v, lo, mid);
        let b = sort_range(origin, v, mid, hi);
        proof {
            if v@.no_duplicates() {
                assert forall|l: BlockLocation| a@.contains(l) implies !b@.contains(l) by {
                    let k1 = choose|k: int| lo <= k < mid && #[trigger] v@[k] == l;
                    if b@.contains(l) {
                        let k2 = choose|k: int| mid <= k < hi && #[trigger] v@[k] == l;
                    }
                }
            }
        }
        let r = merge(origin, &a, &b);
        proof {
            assert forall|l: BlockLocation| #[trigger] r@.contains(l) <==> holds_between(v@, lo as int, hi as int, l) by {
                if holds_between(v@, lo as int, hi as int, l) {
                    let k = choose|k: int| lo <= k < hi && #[trigger] v@[k] == l;
                    if k < mid {
                        assert(holds_between(v@, lo as int, mid as int, l));
                        assert(a@.contains(l));
                    } else {
                        assert(holds_between(v@, mid as int, hi as int, l));
                        assert(b@.contains(l));
                    }
                }
                if a@.contains(l) {
                    let k = choose|k: int| lo <= k < mid && #[trigger] v@[k] == l;
                }
                if b@.contains(l) {
                    let k = choose|k: int| mid <= k < hi && #[trigger] v@[k] == l;
                }
            }
        }
        r
    }
}

/// The positions of `v` ordered by non-decreasing distance to `origin`.
pub fn sort_by_distance(origin: BlockLocation, v: &Vec<BlockLocation>) -> (r: Vec<BlockLocation>)
    ensures
        sorted_by_distance(origin, r@),
        r@.len() == v@.len(),
        forall|l: BlockLocation| #[trigger] r@.contains(l) <==> v@.contains(l),
        v@.no_duplicates() ==> r@.no_duplicates(),
{
    let r = sort_range(origin, v, 0, v.len());
    proof {
        assert forall|l: BlockLocation| #[trigger] r@.contains(l) <==> v@.contains(l) by {
            if v@.contains(l) {
                let k = choose|k: int| 0 <= k < v@.len() && v@[k] == l;
                assert(holds_between(v@, 0, v@.len() as int, l));
            }
            if holds_between(v@, 0, v@.len() as int, l) {
                let k = choose|k: int| 0 <= k < v@.len() && #[trigger] v@[k] == l;
            }
        }
    }
    r
}

} // verus!
