//! Z-curve bounding-box filter: restrict an ordered tile-coordinate vector
//! to a rectangular bbox with two binary searches over the Morton interleave.
//!
//! The range returned is the enclosing range on the Z-curve, so callers that
//! need strict rectangular containment must filter again.

use vstd::prelude::*;

verus! {

/// One Morton-ordered coordinate and the feature ids stored at it.
#[derive(Clone, Debug, PartialEq)]
pub struct Coord {
    /// The Morton (Z-curve) interleave of the tile x and y.
    pub coord: u32,
    pub ids: Vec<u32>,
}

/// What a coordinate holds, as plain mathematical values.
pub open spec fn coord_view(c: Coord) -> (u32, Seq<u32>) {
    (c.coord, c.ids@)
}

/// The Morton interleave of a tile coordinate pair. The bit pattern is
/// pinned only by the outside function that computes it.
pub uninterp spec fn morton_of(x: u16, y: u16) -> u32;

/// Relies on morton::interleave_morton: interleaves the bits of x and y
/// into a Z-curve value, a function of the two coordinates alone.
#[verifier::external_body]
fn interleave(x: u16, y: u16) -> (r: u32)
    ensures
        r == morton_of(x, y),
{
    morton::interleave_morton(x, y)
}

/// Coordinates strictly ascending in their Morton value.
pub open spec fn coords_sorted(s: Seq<Coord>) -> bool {
    forall|i: int, j: int| 0 <= i < j < s.len() ==> s[i].coord < s[j].coord
}

/// How many coordinates lie strictly below `val`.
pub open spec fn count_below(s: Seq<Coord>, val: u32) -> int
    decreases s.len(),
{
    if s.len() == 0 {
        0
    } else {
        count_below(s.drop_last(), val) + if s.last().coord < val {
            1int
        } else {
            0int
        }
    }
}

/// In a sorted vector the coordinates below `val` form a prefix; its length
/// is `count_below`.
pub proof fn lemma_count_below_boundary(s: Seq<Coord>, val: u32, j: int)
    requires
        0 <= j <= s.len(),
        forall|k: int| 0 <= k < j ==> s[k].coord < val,
        forall|k: int| j <= k < s.len() ==> s[k].coord >= val,
    ensures
        count_below(s, val) == j,
    decreases s.len(),
{
    if s.len() == 0 {
    } else if j == s.len() {
        lemma_count_below_boundary(s.drop_last(), val, j - 1);
    } else {
        lemma_count_below_boundary(s.drop_last(), val, j);
    }
}

/// Binary search over a Morton-sorted coordinate vector, restricted to the
/// suffix starting at `offset`.
///
/// Returns `Ok(i)` when `val` sits at index `i`, and otherwise `Err(j)`
/// where `j` is the insertion point: everything in `[offset, j)` is below
/// `val` and everything in `[j, len)` is above it.
pub fn bbox_binary_search(coords: &Vec<Coord>, val: u32, offset: u32) -> (r: Result<u32, u32>)
    requires
        coords_sorted(coords@),
        offset as int <= coords@.len(),
        coords@.len() < u32::MAX,
    ensures
        match r {
            Ok(i) => offset <= i && (i as int) < coords@.len() && coords@[i as int].coord == val,
            Err(j) => offset <= j && (j as int) <= coords@.len() && (forall|k: int|
                offset <= k < j ==> coords@[k].coord < val) && (forall|k: int|
                j <= k < coords@.len() ==> coords@[k].coord > val),
        },
{
    let mut size: u32 = coords.len() as u32;
    size = size - offset;

    if size == 0 {
        return Err(offset);
    }

    let mut base: u32 = offset;
    while size > 1
        invariant
            coords_sorted(coords@),
            coords@.len() < u32::MAX,
            1 <= size,
            offset <= base,
            base + size <= coords@.len(),
            forall|k: int| offset <= k < base ==> coords@[k].coord < val,
            forall|k: int| base + size <= k < coords@.len() ==> coords@[k].coord > val,
        decreases size,
    {
        let half = size / 2;
        let mid = base + half;
        let v = coords[mid as usize].coord;
        if v > val {
            proof {
                assert forall|k: int| base + (size - half) <= k < coords@.len() implies
                    coords@[k].coord > val by {
                    if k < base + size {
                        if k > mid as int {
                            assert(coords@[mid as int].coord < coords@[k].coord);
                        }
                    }
                }
            }
        } else {
            proof {
                assert forall|k: int| offset <= k < (mid as int) implies coords@[k].coord
                    < val by {
                    if k >= base as int {
                        assert(coords@[k].coord < coords@[mid as int].coord);
                    }
                }
            }
            base = mid;
        }
        size = size - half;
    }

    let c = coords[base as usize].coord;
    if c == val {
        Ok(base)
    } else if c < val {
        Err(base + 1)
    } else {
        proof {
            assert forall|k: int| (base as int) <= k < coords@.len() implies coords@[k].coord
                > val by {
                if k > base as int {
                    assert(coords@[base as int].coord < coords@[k].coord);
                }
            }
        }
        Err(base)
    }
}

/// The boundary index for `val` in the suffix starting at `offset`: the
/// first position at or above `val`, whether or not `val` is present.
fn search_boundary(coords: &Vec<Coord>, val: u32, offset: u32) -> (j: u32)
    requires
        coords_sorted(coords@),
        offset as int <= coords@.len(),
        coords@.len() < u32::MAX,
    ensures
        offset <= j && (j as int) <= coords@.len(),
        forall|k: int| offset <= k < j ==> coords@[k].coord < val,
        forall|k: int| j <= k < coords@.len() ==> coords@[k].coord >= val,
{
    match bbox_binary_search(coords, val, offset) {
        Ok(i) => {
            proof {
                assert forall|k: int| offset <= k < (i as int) implies coords@[k].coord
                    < val by {
                    assert(coords@[k].coord < coords@[i as int].coord);
                }
                assert forall|k: int| (i as int) <= k < coords@.len() implies coords@[k].coord
                    >= val by {
                    if k > i as int {
                        assert(coords@[i as int].coord < coords@[k].coord);
                    }
                }
            }
            i
        },
        Err(j) => j,
    }
}

/// Copy of a coordinate's id vector.
fn copy_ids(v: &Vec<u32>) -> (r: Vec<u32>)
    ensures
        r@ == v@,
{
    let mut r: Vec<u32> = Vec::new();
    let mut i: usize = 0;
    while i < v.len()
        invariant
            0 <= i <= v@.len(),
            r@ =~= v@.take(i as int),
        decreases v@.len() - i,
    {
        r.push(v[i]);
        proof {
            assert(r@ =~= v@.take(i + 1 as int));
        }
        i = i + 1;
    }
    proof {
        assert(r@ =~= v@);
    }
    r
}

/// Restrict a Morton-sorted coordinate vector to the Z-curve range enclosing
/// a bbox `[x_min, y_min, x_max, y_max]`.
///
/// The result is the contiguous run of coordinates from the first at or
/// above the interleave of the min corner up to, exclusively, the first at
/// or above the interleave of the max corner; every returned coordinate
/// lies between the two interleaves.
///
/// A bbox must be ordered, min corner at most max corner on each axis: a
/// violation is a programmer error. The interleave of an ordered bbox's
/// corners is ordered too, but nothing ties the uninterpreted Morton name
/// to the axes, so the contract also pins the inverted-interleave case:
/// it selects nothing.
pub fn bbox_filter(coords: &Vec<Coord>, bbox: [u16; 4]) -> (r: Vec<Coord>)
    requires
        coords_sorted(coords@),
        coords@.len() < u32::MAX,
        bbox[0] <= bbox[2],
        bbox[1] <= bbox[3],
    ensures
        ({
            let min = morton_of(bbox[0], bbox[1]);
            let max = morton_of(bbox[2], bbox[3]);
            (min <= max ==> r@.len() == count_below(coords@, max) - count_below(coords@, min))
                && (min > max ==> r@.len() == 0) && (forall|k: int|
                0 <= k < r@.len() ==> coord_view(#[trigger] r@[k]) == coord_view(
                    coords@[count_below(coords@, min) + k],
                )) && (forall|k: int|
                0 <= k < r@.len() ==> min <= #[trigger] r@[k].coord && r@[k].coord <= max)
        }),
{
    let min = interleave(bbox[0], bbox[1]);
    let max = interleave(bbox[2], bbox[3]);
    let start = search_boundary(coords, min, 0);
    let end = search_boundary(coords, max, start);

    proof {
        lemma_count_below_boundary(coords@, min, start as int);
        if min <= max {
            assert forall|k: int| 0 <= k < (end as int) implies coords@[k].coord < max by {
                if k < start as int {
                    assert(coords@[k].coord < min);
                }
            }
            lemma_count_below_boundary(coords@, max, end as int);
        } else {
            if end > start {
                assert(coords@[start as int].coord < max);
                assert(coords@[start as int].coord >= min);
                assert(false);
            }
        }
    }

    let mut r: Vec<Coord> = Vec::new();
    let mut i: u32 = start;
    while i < end
        invariant
            coords_sorted(coords@),
            coords@.len() < u32::MAX,
            start <= end,
            end as int <= coords@.len(),
            start <= i <= end,
            r@.len() == i - start,
            forall|k: int| 0 <= k < r@.len() ==> coord_view(#[trigger] r@[k]) == coord_view(
                coords@[start + k],
            ),
            forall|k: int| (start as int) <= k < (end as int) ==> min <= coords@[k].coord
                && coords@[k].coord < max,
        decreases (end as int) - (i as int),
    {
        let c = &coords[i as usize];
        let copied = Coord { coord: c.coord, ids: copy_ids(&c.ids) };
        proof {
            assert(coord_view(copied) == coord_view(coords@[i as int]));
        }
        r.push(copied);
        i = i + 1;
    }

    proof {
        assert forall|k: int| 0 <= k < r@.len() implies min <= #[trigger] r@[k].coord
            && r@[k].coord <= max by {
            assert(coord_view(r@[k]) == coord_view(coords@[start + k]));
            assert(r@[k].coord == coords@[start + k].coord);
        }
    }
    r
}

} // verus!
