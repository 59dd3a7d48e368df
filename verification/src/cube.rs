//! The corners of a cube and the corner pairs that the cube contact test walks.
//!
//! Corner `i` (for `i < 8`) sits on the positive side of axis `a` when bit `a` of
//! `i` is set.
use vstd::prelude::*;

verus! {

/// Whether corner `i` lies on the positive side of axis `axis`.
pub open spec fn positive(i: int, axis: int) -> bool {
    if axis == 0 {
        i % 2 == 1
    } else if axis == 1 {
        (i / 2) % 2 == 1
    } else {
        (i / 4) % 2 == 1
    }
}

/// For corner `i`, on which side of the x, y and z axes it lies (`true`: positive).
pub fn corner_signs(i: usize) -> (r: (bool, bool, bool))
    requires
        i < 8,
    ensures
        r == (positive(i as int, 0), positive(i as int, 1), positive(i as int, 2)),
{
    assert((i & 1 != 0) == (i % 2 == 1)) by (bit_vector)
        requires
            i < 8,
    ;
    assert((i & 2 != 0) == ((i / 2) % 2 == 1)) by (bit_vector)
        requires
            i < 8,
    ;
    assert((i & 4 != 0) == ((i / 4) % 2 == 1)) by (bit_vector)
        requires
            i < 8,
    ;
    (i & 1 != 0, i & 2 != 0, i & 4 != 0)
}

/// Two corners on the same side of every axis are the same corner, and every
/// choice of sides is a corner: the eight corners are the eight vertices of the cube.
pub proof fn lemma_corners_are_the_vertices()
    ensures
        forall|i: int, j: int|
            0 <= i < 8 && 0 <= j < 8 && #[trigger] positive(i, 0) == #[trigger] positive(j, 0)
                && positive(i, 1) == positive(j, 1) && positive(i, 2) == positive(j, 2) ==> i == j,
        forall|x: bool, y: bool, z: bool|
            {
                let i = #[trigger] corner_index(x, y, z);
                0 <= i < 8 && positive(i, 0) == x && positive(i, 1) == y && positive(i, 2) == z
            },
{
}

/// The corner with the given sides.
pub open spec fn corner_index(x: bool, y: bool, z: bool) -> int {
    (if x { 1int } else { 0 }) + (if y { 2int } else { 0 }) + (if z { 4int } else { 0 })
}

/// The pairs of corners `(i, j)`, `i < j`, that the cube contact test checks:
/// those where `j - i` is a power of two.
pub open spec fn is_segment(i: int, j: int) -> bool {
    0 <= i < j < 8 && (j - i == 1 || j - i == 2 || j - i == 4)
}

/// Corners `i < j` that differ in exactly one axis, that is the two ends of an edge
/// of the cube, form a checked pair.
pub proof fn lemma_edges_are_segments(i: int, j: int)
    requires
        0 <= i < j < 8,
        (positive(i, 0) != positive(j, 0)) as int + (positive(i, 1) != positive(j, 1)) as int + (
        positive(i, 2) != positive(j, 2)) as int == 1,
    ensures
        is_segment(i, j),
{
}

/// `(a, b)` comes before `(c, d)` in the order of the two nested loops over corners.
pub open spec fn pair_before(p: (usize, usize), q: (usize, usize)) -> bool {
    p.0 < q.0 || (p.0 == q.0 && p.1 < q.1)
}

/// Every corner pair checked by the cube contact test, in the order it checks them:
/// the outer loop runs over `i`, the inner one over `j > i`, and a pair is kept when
/// `(j - 1 - i) & (j - i) == 0`.
pub fn cube_segments() -> (r: Vec<(usize, usize)>)
    ensures
        forall|i: usize, j: usize| is_segment(i as int, j as int) <==> r@.contains((i, j)),
        forall|k: int| 0 <= k < r@.len() ==> is_segment(#[trigger] r@[k].0 as int, r@[k].1 as int),
        forall|k1: int, k2: int|
            0 <= k1 < k2 < r@.len() ==> pair_before(#[trigger] r@[k1], #[trigger] r@[k2]),
{
    let mut r: Vec<(usize, usize)> = Vec::new();
    let mut i: usize = 0;
    while i < 8
        invariant
            i <= 8,
            forall|k: int| 0 <= k < r@.len() ==> is_segment(#[trigger] r@[k].0 as int, r@[k].1 as int),
            forall|k: int| 0 <= k < r@.len() ==> (#[trigger] r@[k]).0 < i,
            forall|a: int, b: int| is_segment(a, b) && a < i ==> r@.contains((a as usize, b as usize)),
            forall|k1: int, k2: int|
                0 <= k1 < k2 < r@.len() ==> pair_before(#[trigger] r@[k1], #[trigger] r@[k2]),
        decreases 8 - i,
    {
        let mut j: usize = i + 1;
        let ghost start = r@.len();
        while j < 8
            invariant
                i < 8,
                i + 1 <= j <= 8,
                start <= r@.len(),
                forall|k: int| 0 <= k < r@.len() ==> is_segment(#[trigger] r@[k].0 as int, r@[k].1 as int),
                forall|k: int| 0 <= k < start ==> (#[trigger] r@[k]).0 < i,
                forall|k: int| start <= k < r@.len() ==> (#[trigger] r@[k]).0 == i && r@[k].1 < j,
                forall|a: int, b: int| is_segment(a, b) && a < i ==> r@.contains((a as usize, b as usize)),
                forall|b: int| is_segment(i as int, b) && b < j ==> r@.contains((i, b as usize)),
                forall|k1: int, k2: int|
                    0 <= k1 < k2 < r@.len() ==> pair_before(#[trigger] r@[k1], #[trigger] r@[k2]),
            decreases 8 - j,
        {
            let d: usize = j - i;
            let e: usize = j - 1 - i;
            let skip = e & d != 0;
            assert(skip == !(d == 1 || d == 2 || d == 4)) by (bit_vector)
                requires
                    1 <= d <= 7,
                    e + 1 == d,
                    skip == (e & d != 0),
            ;
            if !skip {
                let ghost before = r@;
                r.push((i, j));
                proof {
                    assert(r@[r@.len() - 1] == (i, j));
                    assert forall|a: int, b: int| is_segment(a, b) && a < i implies r@.contains(
                        (a as usize, b as usize),
                    ) by {
                        let k = choose|k: int| 0 <= k < before.len() && before[k] == (a as usize, b as usize);
                        assert(r@[k] == before[k]);
                    }
                    assert forall|b: int| is_segment(i as int, b) && b < j + 1 implies r@.contains(
                        (i, b as usize),
                    ) by {
                        if b < j {
                            let k = choose|k: int| 0 <= k < before.len() && before[k] == (i, b as usize);
                            assert(r@[k] == before[k]);
                        } else {
                            assert(r@[r@.len() - 1] == (i, b as usize));
                        }
                    }
                }
            } else {
                assert forall|b: int| is_segment(i as int, b) && b < j + 1 implies r@.contains(
                    (i, b as usize),
                ) by {
                    assert(b != j);
                }
            }
            j += 1;
        }
        i += 1;
    }
    proof {
        assert forall|a: usize, b: usize| r@.contains((a, b)) implies is_segment(a as int, b as int) by {
            let k = choose|k: int| 0 <= k < r@.len() && r@[k] == (a, b);
            assert(is_segment(r@[k].0 as int, r@[k].1 as int));
        }
        assert forall|a: usize, b: usize| is_segment(a as int, b as int) implies r@.contains((a, b)) by {
            assert(r@.contains((a as int as usize, b as int as usize)));
        }
    }
    r
}

} // verus!
