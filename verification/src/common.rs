//! Data model of the coalesce engine: grid entries as the store hands them
//! out, subqueries, match options, and the coalesced entry and context types.
//!
//! Relevance, score-distance and distance values are carried as fixed-point
//! integers in thousandths: the engine only multiplies a relevance by a
//! weight, adds relevances, subtracts small penalties, and compares, so an
//! integer representation keeps every step exact and checkable.

use vstd::prelude::*;
use vstd::arithmetic::power2::pow2;

verus! {

/// Bound on the number of contexts a coalesce call returns.
pub const MAX_CONTEXTS: usize = 40;

/// One whole unit of relevance (1.0) in thousandths.
pub const RELEV_UNIT: u32 = 1000;

/// Tail-pruning threshold (0.25) in thousandths of relevance.
pub const RELEVANCE_WINDOW: i64 = 250;

/// Penalty (0.01) applied to unstacked or mask-inverted contexts,
/// in thousandths of relevance.
pub const STACK_PENALTY: i64 = 10;

/// Per-subquery cap on grids consumed in the multi-phrase path.
pub const MULTI_GRID_LIMIT: usize = 100000;

/// Exclusive bound on index identifiers: an idx occupies the top 7 bits
/// of a packed temporary id.
pub const MAX_IDX: u16 = 128;

/// Exclusive bound on feature ids: an id occupies the low 25 bits
/// of a packed temporary id.
pub const MAX_GRID_ID: u32 = 0x2000000;

/// One feature at one tile coordinate, as stored in a grid index.
#[derive(Clone, Copy, Debug, PartialEq)]
pub struct GridEntry {
    pub id: u32,
    pub x: u16,
    pub y: u16,
    /// Relevance in thousandths, at most `RELEV_UNIT`.
    pub relev: u32,
    /// Opaque scoring metadata, carried through unchanged.
    pub score: u8,
}

/// A grid entry as the store's matching operation returns it, with
/// language and proximity metadata attached.
#[derive(Clone, Copy, Debug, PartialEq)]
pub struct MatchEntry {
    pub grid_entry: GridEntry,
    pub matches_language: bool,
    /// Tile distance to the proximity point, in thousandths.
    pub distance: u64,
    /// Score blended with proximity distance, in thousandths.
    /// The engine only ever compares score-distances.
    pub scoredist: u64,
}

/// One phrase's lookup against one index at a fixed zoom. The store is an
/// external collaborator; `grids` holds its answer for this subquery,
/// sorted by descending relevance then descending score-distance.
#[derive(Clone, Debug, PartialEq)]
pub struct PhrasematchSubquery {
    /// The matching grids the store produced for this phrase.
    pub grids: Vec<MatchEntry>,
    /// Phrase weight in thousandths, at most `RELEV_UNIT`.
    pub weight: u32,
    /// Index identifier, below `MAX_IDX`.
    pub idx: u16,
    pub zoom: u16,
    /// Bitset marking which query tokens this phrase covers.
    pub mask: u32,
}

/// Options of one match call: the zoom its coordinates are expressed at,
/// an optional proximity point `(x, y, zoom)`, and an optional bounding
/// box `[x_min, y_min, x_max, y_max]`.
#[derive(Clone, Copy, Debug, PartialEq)]
pub struct MatchOpts {
    pub zoom: u16,
    pub proximity: Option<(u16, u16, u16)>,
    pub bbox: Option<[u16; 4]>,
}

/// A matched grid lifted with its subquery's metadata.
#[derive(Clone, Copy, Debug, PartialEq)]
pub struct CoalesceEntry {
    /// The grid entry, with its relevance multiplied by the subquery weight.
    pub grid_entry: GridEntry,
    pub matches_language: bool,
    pub idx: u16,
    /// Composite temporary id: the idx in the top 7 bits, the feature id
    /// in the low 25.
    pub tmp_id: u32,
    pub mask: u32,
    pub distance: u64,
    pub scoredist: u64,
}

/// One candidate answer: entries with pairwise-disjoint masks, the OR of
/// their masks, and their aggregated relevance (in thousandths; penalties
/// can push it below zero).
#[derive(Clone, Debug, PartialEq)]
pub struct CoalesceContext {
    pub entries: Vec<CoalesceEntry>,
    pub mask: u32,
    pub relev: i64,
}

/// A grid entry the store may legally hand out: relevance at most one
/// unit, feature id within the packed-id range.
pub open spec fn wf_grid_entry(g: GridEntry) -> bool {
    g.relev <= RELEV_UNIT && g.id < MAX_GRID_ID
}

pub open spec fn wf_match_entry(m: MatchEntry) -> bool {
    wf_grid_entry(m.grid_entry)
}

/// The subquery fields the entry lifter reads: a weight of at most one
/// unit and an idx that fits the packed-id range.
pub open spec fn wf_subquery_head(sq: PhrasematchSubquery) -> bool {
    sq.idx < MAX_IDX && sq.weight <= RELEV_UNIT
}

pub open spec fn wf_subquery(sq: PhrasematchSubquery) -> bool {
    wf_subquery_head(sq) && forall|i: int|
        0 <= i < sq.grids.len() ==> wf_match_entry(sq.grids[i])
}

pub open spec fn wf_stack(stack: Seq<PhrasematchSubquery>) -> bool {
    forall|i: int| 0 <= i < stack.len() ==> wf_subquery(stack[i])
}

/// Relevance of a lifted entry: the grid relevance scaled by the subquery
/// weight, both in thousandths.
pub open spec fn lifted_relev(relev: u32, weight: u32) -> int {
    (relev * weight) / (RELEV_UNIT as int)
}

/// The packed temporary id: idx in the top 7 bits, feature id in the low 25.
pub open spec fn spec_tmp_id(idx: u16, id: u32) -> u32 {
    ((idx as u32) << 25) | id
}

/// What the entry lifter produces for a matched grid under a subquery.
pub open spec fn spec_lift(grid: MatchEntry, sq: PhrasematchSubquery) -> CoalesceEntry {
    CoalesceEntry {
        grid_entry: GridEntry {
            id: grid.grid_entry.id,
            x: grid.grid_entry.x,
            y: grid.grid_entry.y,
            relev: lifted_relev(grid.grid_entry.relev, sq.weight) as u32,
            score: grid.grid_entry.score,
        },
        matches_language: grid.matches_language,
        idx: sq.idx,
        tmp_id: spec_tmp_id(sq.idx, grid.grid_entry.id),
        mask: sq.mask,
        distance: grid.distance,
        scoredist: grid.scoredist,
    }
}

/// A lifted entry is well formed: bounded fields and the packed id really
/// is the idx over the feature id.
pub open spec fn wf_entry(e: CoalesceEntry) -> bool {
    e.idx < MAX_IDX && e.grid_entry.id < MAX_GRID_ID && e.grid_entry.relev <= RELEV_UNIT
        && e.tmp_id == spec_tmp_id(e.idx, e.grid_entry.id)
}

/// Language-id array folded into a 128-bit language bitset.
pub open spec fn spec_langfield(langs: Seq<u32>) -> u128
    decreases langs.len(),
{
    if langs.len() == 0 {
        0u128
    } else {
        spec_langfield(langs.drop_last()) | (1u128 << (langs.last() as u128))
    }
}

/// Convert an array of language ids into the langfield to use for a grid
/// or match key. Each id must be a bit position of a 128-bit field.
pub fn langarray_to_langfield(array: &[u32]) -> (out: u128)
    requires
        forall|i: int| 0 <= i < array@.len() ==> array@[i] < 128,
    ensures
        out == spec_langfield(array@),
{
    let mut out: u128 = 0;
    let mut i: usize = 0;
    while i < array.len()
        invariant
            0 <= i <= array@.len(),
            forall|k: int| 0 <= k < array@.len() ==> array@[k] < 128,
            out == spec_langfield(array@.take(i as int)),
        decreases array@.len() - i,
    {
        let lang = array[i];
        out = out | (1u128 << (lang as u128));
        proof {
            assert(array@.take(i + 1 as int).drop_last() =~= array@.take(i as int));
            assert(array@.take(i + 1 as int).last() == array@[i as int]);
        }
        i = i + 1;
    }
    proof {
        assert(array@.take(array@.len() as int) =~= array@);
    }
    out
}

/// A coordinate still fits a 16-bit tile axis after zooming in by `d` levels.
pub open spec fn coord_fits(x: u16, d: nat) -> bool {
    x * pow2(d) <= u16::MAX
}

/// One coordinate rescaled from zoom `from` to zoom `to`: shifted up when
/// zooming in, divided down when zooming out.
pub open spec fn spec_scale_coord(x: u16, from: u16, to: u16) -> u16 {
    if to >= from {
        ((x * pow2((to - from) as nat)) % 0x10000) as u16
    } else {
        ((x as int) / (pow2((from - to) as nat) as int)) as u16
    }
}

impl MatchOpts {
    /// A proximity point, if present, is expressed at these options' zoom.
    pub open spec fn wf(self) -> bool {
        match self.proximity {
            Some(p) => p.2 == self.zoom,
            None => true,
        }
    }

    /// Zooming in must keep every stored coordinate inside a 16-bit axis.
    pub open spec fn can_adjust(self, target: u16) -> bool {
        target <= self.zoom || {
            let d = (target - self.zoom) as nat;
            (match self.proximity {
                Some(p) => coord_fits(p.0, d) && coord_fits(p.1, d),
                None => true,
            }) && (match self.bbox {
                Some(b) => coord_fits(b[0], d) && coord_fits(b[1], d) && coord_fits(b[2], d)
                    && coord_fits(b[3], d),
                None => true,
            })
        }
    }

    /// The options rescaled to `target` zoom: every proximity and bbox
    /// coordinate scaled by two to the zoom difference, the proximity
    /// zoom moved to the target.
    pub open spec fn spec_adjust(self, target: u16) -> MatchOpts {
        MatchOpts {
            zoom: target,
            proximity: match self.proximity {
                Some(p) => Some(
                    (
                        spec_scale_coord(p.0, self.zoom, target),
                        spec_scale_coord(p.1, self.zoom, target),
                        target,
                    ),
                ),
                None => None,
            },
            bbox: match self.bbox {
                Some(b) => Some(
                    [
                        spec_scale_coord(b[0], self.zoom, target),
                        spec_scale_coord(b[1], self.zoom, target),
                        spec_scale_coord(b[2], self.zoom, target),
                        spec_scale_coord(b[3], self.zoom, target),
                    ],
                ),
                None => None,
            },
        }
    }

    /// Rescale proximity and bbox to tile coordinates at zoom `target`:
    /// coordinates shift left when zooming in and right when zooming out.
    /// Identity when the target equals the current zoom.
    pub fn adjust_to_zoom(&self, target: u16) -> (r: MatchOpts)
        requires
            self.can_adjust(target),
        ensures
            r == self.spec_adjust(target),
            r.zoom == target,
            target == self.zoom && self.wf() ==> r == *self,
    {
        proof {
            vstd::arithmetic::power2::lemma2_to64();
            if target == self.zoom {
                assert forall|c: u16| #[trigger] coord_fits(c, (target - self.zoom) as nat) by {
                    assert(c * pow2(0) == c);
                }
            }
        }
        let proximity = match self.proximity {
            Some(p) => Some(
                (
                    scale_coord(p.0, self.zoom, target),
                    scale_coord(p.1, self.zoom, target),
                    target,
                ),
            ),
            None => None,
        };
        let bbox = match self.bbox {
            Some(b) => Some(
                [
                    scale_coord(b[0], self.zoom, target),
                    scale_coord(b[1], self.zoom, target),
                    scale_coord(b[2], self.zoom, target),
                    scale_coord(b[3], self.zoom, target),
                ],
            ),
            None => None,
        };
        let r = MatchOpts { zoom: target, proximity, bbox };
        proof {
            if target == self.zoom && self.wf() {
                lemma_scale_coord_identity(*self, target);
                assert(r == *self);
            }
        }
        r
    }
}

/// Rescale one tile coordinate between zooms.
fn scale_coord(x: u16, from: u16, to: u16) -> (r: u16)
    requires
        to >= from ==> coord_fits(x, (to - from) as nat),
    ensures
        r == spec_scale_coord(x, from, to),
{
    if to >= from {
        let d = to - from;
        if x == 0 {
            proof {
                vstd::arithmetic::power2::lemma_pow2_pos((to - from) as nat);
                assert(0 * pow2(d as nat) == 0);
                assert((0int) % 0x10000 == 0);
            }
            0
        } else {
            proof {
                lemma_small_shift(x, d);
            }
            let shifted: u32 = (x as u32) << d;
            proof {
                assert(shifted == x * pow2(d as nat));
                vstd::arithmetic::div_mod::lemma_small_mod((x * pow2(d as nat)) as nat, 0x10000);
                assert((x * pow2(d as nat)) % 0x10000 == x * pow2(d as nat));
            }
            shifted as u16
        }
    } else {
        let d = from - to;
        if d >= 16 {
            proof {
                lemma_divide_past_width(x, d);
            }
            0
        } else {
            proof {
                vstd::bits::lemma_u16_shr_is_div(x, d);
                vstd::arithmetic::power2::lemma_pow2_pos(d as nat);
                assert((x >> d) == x as nat / pow2(d as nat));
                assert(x as nat / pow2(d as nat) == ((x as int) / (pow2(d as nat) as int)));
            }
            x >> d
        }
    }
}

/// Zoom a tile coordinate out by `d` levels: division by two to the `d`,
/// total in `d` (a coordinate divided past its width is zero).
pub fn div_pow2_u16(x: u16, d: u16) -> (r: u16)
    ensures
        r == (x as int) / (pow2(d as nat) as int),
{
    if d >= 16 {
        proof {
            lemma_divide_past_width(x, d);
        }
        0
    } else {
        proof {
            vstd::bits::lemma_u16_shr_is_div(x, d);
            vstd::arithmetic::power2::lemma_pow2_pos(d as nat);
            assert((x >> d) == x as nat / pow2(d as nat));
            assert(x as nat / pow2(d as nat) == ((x as int) / (pow2(d as nat) as int)));
        }
        x >> d
    }
}

/// A nonzero coordinate that fits after the shift forces the shift amount
/// below the axis width.
proof fn lemma_small_shift(x: u16, d: u16)
    requires
        x >= 1,
        coord_fits(x, d as nat),
    ensures
        d < 16,
        (x as u32) << (d as u32) == x * pow2(d as nat),
        x * pow2(d as nat) <= u16::MAX,
{
    if d >= 16 {
        vstd::arithmetic::power2::lemma2_to64();
        if d > 16 {
            vstd::arithmetic::power2::lemma_pow2_strictly_increases(16, d as nat);
        }
        assert(pow2(d as nat) >= 0x10000);
        vstd::arithmetic::mul::lemma_mul_inequality(1, x as int, pow2(d as nat) as int);
        assert(x * pow2(d as nat) >= pow2(d as nat));
        assert(false);
    }
    vstd::bits::lemma_u32_pow2_no_overflow(d as nat);
    vstd::bits::lemma_u32_shl_is_mul(x as u32, d as u32);
}

/// Dividing a 16-bit coordinate by two to at least the axis width gives zero.
proof fn lemma_divide_past_width(x: u16, d: u16)
    requires
        d >= 16,
    ensures
        (x as int) / (pow2(d as nat) as int) == 0,
{
    vstd::arithmetic::power2::lemma2_to64();
    if d > 16 {
        vstd::arithmetic::power2::lemma_pow2_strictly_increases(16, d as nat);
    }
    assert(pow2(d as nat) >= 0x10000);
    assert(x < pow2(d as nat));
    vstd::arithmetic::power2::lemma_pow2_pos(d as nat);
    vstd::arithmetic::div_mod::lemma_basic_div(x as int, pow2(d as nat) as int);
}

/// Rescaling to the zoom the options already sit at changes nothing.
proof fn lemma_scale_coord_identity(opts: MatchOpts, target: u16)
    requires
        target == opts.zoom,
        opts.wf(),
    ensures
        opts.spec_adjust(target) == opts,
{
    vstd::arithmetic::power2::lemma2_to64();
    assert(pow2(0) == 1);
    assert forall|x: u16| #[trigger] spec_scale_coord(x, opts.zoom, target) == x by {
        assert(x * pow2(0) == x);
    }
    match opts.proximity {
        Some(p) => {
            assert(opts.spec_adjust(target).proximity == Some((p.0, p.1, p.2)));
        },
        None => {},
    }
    match opts.bbox {
        Some(b) => {
            assert(opts.spec_adjust(target).bbox =~= Some([b[0], b[1], b[2], b[3]]));
            assert([b[0], b[1], b[2], b[3]] =~= b);
        },
        None => {},
    }
}

} // verus!
