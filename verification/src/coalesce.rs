//! The coalesce engine: lift matched grids with subquery metadata, join
//! them across zoom levels, prune, sort and cap the resulting contexts.

use vstd::prelude::*;

use crate::common::CoalesceContext;
use crate::common::CoalesceEntry;
use crate::common::GridEntry;
use crate::common::MatchEntry;
use crate::common::MatchOpts;
use crate::common::PhrasematchSubquery;
use crate::common::MAX_CONTEXTS;
use crate::common::RELEVANCE_WINDOW;
use crate::common::RELEV_UNIT;
use crate::common::STACK_PENALTY;
use crate::common::MULTI_GRID_LIMIT;
use crate::common::lifted_relev;
use crate::common::spec_lift;
use crate::common::spec_tmp_id;
use crate::common::wf_entry;
use crate::common::wf_match_entry;
use crate::common::wf_stack;
use crate::common::wf_subquery;
use crate::common::wf_subquery_head;

verus! {

/// Clamp an unbounded integer into the i64 range.
pub open spec fn sat_i64(x: int) -> i64 {
    if x > i64::MAX {
        i64::MAX
    } else if x < i64::MIN {
        i64::MIN
    } else {
        x as i64
    }
}

/// Saturating addition on relevance accumulators.
fn sat_add(a: i64, b: i64) -> (r: i64)
    ensures
        r == sat_i64(a + b),
{
    if b >= 0 {
        if a > i64::MAX - b {
            i64::MAX
        } else {
            a + b
        }
    } else {
        if a < i64::MIN - b {
            i64::MIN
        } else {
            a + b
        }
    }
}

/// Saturating subtraction on relevance accumulators.
fn sat_sub(a: i64, b: i64) -> (r: i64)
    ensures
        r == sat_i64(a - b),
{
    if b >= 0 {
        if a < i64::MIN + b {
            i64::MIN
        } else {
            a - b
        }
    } else {
        if a > i64::MAX + b {
            i64::MAX
        } else {
            a - b
        }
    }
}

/// Lexicographic "sorts no later than" over the documented result key:
/// descending relevance, descending lead score-distance, then (in the
/// multi-phrase path) ascending lead idx, then ascending lead feature id,
/// x and y.
pub open spec fn ctx_key_le(a: CoalesceContext, b: CoalesceContext, use_idx: bool) -> bool {
    let ea = a.entries[0];
    let eb = b.entries[0];
    if a.relev != b.relev {
        a.relev > b.relev
    } else if ea.scoredist != eb.scoredist {
        ea.scoredist > eb.scoredist
    } else if use_idx && ea.idx != eb.idx {
        ea.idx < eb.idx
    } else if ea.grid_entry.id != eb.grid_entry.id {
        ea.grid_entry.id < eb.grid_entry.id
    } else if ea.grid_entry.x != eb.grid_entry.x {
        ea.grid_entry.x < eb.grid_entry.x
    } else {
        ea.grid_entry.y <= eb.grid_entry.y
    }
}

/// Contexts in sort order under the documented key.
pub open spec fn ctx_sorted(s: Seq<CoalesceContext>, use_idx: bool) -> bool {
    forall|i: int, j: int| 0 <= i < j < s.len() ==> ctx_key_le(s[i], s[j], use_idx)
}

/// Every context carries at least one entry.
pub open spec fn all_have_entry(s: Seq<CoalesceContext>) -> bool {
    forall|i: int| 0 <= i < s.len() ==> s[i].entries.len() >= 1
}

proof fn lemma_key_total(a: CoalesceContext, b: CoalesceContext, use_idx: bool)
    ensures
        ctx_key_le(a, b, use_idx) || ctx_key_le(b, a, use_idx),
{
}

proof fn lemma_key_trans(
    a: CoalesceContext,
    b: CoalesceContext,
    c: CoalesceContext,
    use_idx: bool,
)
    requires
        ctx_key_le(a, b, use_idx),
        ctx_key_le(b, c, use_idx),
    ensures
        ctx_key_le(a, c, use_idx),
{
}

/// The documented key comparison, executed.
fn ctx_le(a: &CoalesceContext, b: &CoalesceContext, use_idx: bool) -> (r: bool)
    requires
        a.entries.len() >= 1,
        b.entries.len() >= 1,
    ensures
        r == ctx_key_le(*a, *b, use_idx),
{
    let ea = &a.entries[0];
    let eb = &b.entries[0];
    if a.relev != b.relev {
        a.relev > b.relev
    } else if ea.scoredist != eb.scoredist {
        ea.scoredist > eb.scoredist
    } else if use_idx && ea.idx != eb.idx {
        ea.idx < eb.idx
    } else if ea.grid_entry.id != eb.grid_entry.id {
        ea.grid_entry.id < eb.grid_entry.id
    } else if ea.grid_entry.x != eb.grid_entry.x {
        ea.grid_entry.x < eb.grid_entry.x
    } else {
        ea.grid_entry.y <= eb.grid_entry.y
    }
}

/// Inserting an element anywhere adds exactly it to the sequence's multiset.
proof fn lemma_insert_to_multiset<A>(s: Seq<A>, j: int, x: A)
    requires
        0 <= j <= s.len(),
    ensures
        s.insert(j, x).to_multiset() == s.to_multiset().insert(x),
{
    let a = s.subrange(0, j);
    let b = s.subrange(j, s.len() as int);
    assert(s =~= a + b);
    assert(s.insert(j, x) =~= a.push(x) + b);
    vstd::seq_lib::lemma_multiset_commutative(a.push(x), b);
    vstd::seq_lib::lemma_multiset_commutative(a, b);
    a.to_multiset_ensures();
    assert(a.push(x).to_multiset() =~= a.to_multiset().insert(x));
    assert(s.insert(j, x).to_multiset() =~= s.to_multiset().insert(x));
}

/// Stable insertion sort of contexts under the documented key.
#[verifier::rlimit(100)]
#[verifier::spinoff_prover]
fn sort_contexts(v: &mut Vec<CoalesceContext>, use_idx: bool)
    requires
        all_have_entry(old(v)@),
    ensures
        final(v)@.len() == old(v)@.len(),
        final(v)@.to_multiset() == old(v)@.to_multiset(),
        ctx_sorted(final(v)@, use_idx),
        forall|i: int| 0 <= i < final(v)@.len() ==> old(v)@.contains(#[trigger] final(v)@[i]),
{
    let ghost orig = v@;
    proof {
        assert forall|i: int| 0 <= i < v@.len() implies orig.contains(#[trigger] v@[i]) by {
            assert(orig[i] == v@[i]);
        }
    }
    let mut i: usize = 1;
    while i < v.len()
        invariant
            v@.len() == orig.len(),
            v@.to_multiset() == orig.to_multiset(),
            1 <= i,
            all_have_entry(orig),
            forall|a: int, b: int| 0 <= a < b < i && b < v@.len() ==> ctx_key_le(
                v@[a],
                v@[b],
                use_idx,
            ),
            forall|k: int| 0 <= k < v@.len() ==> orig.contains(#[trigger] v@[k]),
            forall|k: int| 0 <= k < v@.len() ==> #[trigger] v@[k].entries.len() >= 1,
        decreases v@.len() - i,
    {
        let ghost pre = v@;
        let x = v.remove(i);
        proof {
            pre.remove_ensures(i as int);
        }
        let mut j: usize = i;
        while j > 0
            invariant
                j <= i,
                i < pre.len(),
                v@ == pre.remove(i as int),
                x == pre[i as int],
                x.entries.len() >= 1,
                forall|k: int| 0 <= k < v@.len() ==> #[trigger] v@[k].entries.len() >= 1,
                forall|k: int| j <= k < i ==> !ctx_key_le(#[trigger] v@[k], x, use_idx),
            ensures
                j <= i,
                forall|k: int| j <= k < i ==> !ctx_key_le(#[trigger] v@[k], x, use_idx),
                j > 0 ==> ctx_key_le(v@[j - 1], x, use_idx),
            decreases j,
        {
            if ctx_le(&v[j - 1], &x, use_idx) {
                break;
            }
            j = j - 1;
        }
        proof {
            assert forall|k: int| 0 <= k < j implies ctx_key_le(#[trigger] v@[k], x, use_idx) by {
                if k < j - 1 {
                    assert(ctx_key_le(v@[k], v@[j - 1], use_idx));
                    lemma_key_trans(v@[k], v@[j - 1], x, use_idx);
                }
            }
            assert forall|k: int| j <= k < i implies ctx_key_le(x, #[trigger] v@[k], use_idx) by {
                lemma_key_total(v@[k], x, use_idx);
            }
        }
        let ghost mid = v@;
        v.insert(j, x);
        proof {
            pre.remove_ensures(i as int);
            mid.insert_ensures(j as int, x);
            pre.to_multiset_ensures();
            lemma_insert_to_multiset(mid, j as int, x);
            assert(pre.contains(x)) by {
                assert(pre[i as int] == x);
            }
            assert(v@.to_multiset() =~= orig.to_multiset());
            assert forall|a: int, b: int| 0 <= a < b < i + 1 && b < v@.len() implies ctx_key_le(
                v@[a],
                v@[b],
                use_idx,
            ) by {
                assert(v@ == mid.insert(j as int, x));
                if a < j && b < j {
                    assert(v@[a] == mid[a] && v@[b] == mid[b]);
                } else if a < j && b == j {
                    assert(v@[a] == mid[a] && v@[b] == x);
                } else if a < j && b > j {
                    assert(v@[a] == mid[a] && v@[b] == mid[b - 1]);
                    if b - 1 >= i {
                        assert(false);
                    }
                    if b - 1 < j {
                        assert(false);
                    }
                    assert(ctx_key_le(mid[a], x, use_idx));
                    assert(ctx_key_le(x, mid[b - 1], use_idx));
                    lemma_key_trans(mid[a], x, mid[b - 1], use_idx);
                } else if a == j && b > j {
                    assert(v@[a] == x && v@[b] == mid[b - 1]);
                } else {
                    assert(v@[a] == mid[a - 1] && v@[b] == mid[b - 1]);
                }
            }
            assert forall|k: int| 0 <= k < v@.len() implies orig.contains(#[trigger] v@[k]) by {
                assert(v@ == mid.insert(j as int, x));
                if k < j {
                    assert(v@[k] == mid[k]);
                } else if k == j {
                    assert(v@[k] == x);
                    assert(pre[i as int] == x);
                } else {
                    assert(v@[k] == mid[k - 1]);
                }
            }
            assert forall|k: int| 0 <= k < v@.len() implies #[trigger] v@[k].entries.len()
                >= 1 by {
                if k < j {
                    assert(v@[k] == mid[k]);
                } else if k == j {
                    assert(v@[k] == x);
                } else {
                    assert(v@[k] == mid[k - 1]);
                }
            }
        }
        i = i + 1;
    }
}

/// Transform a store-level match entry into a coalesce entry: the grid
/// relevance is scaled by the subquery weight and the temporary id packs
/// the idx over the feature id. The zoom of the options must already have
/// been adjusted to the subquery's zoom.
pub fn grid_to_coalesce_entry(
    grid: &MatchEntry,
    subquery: &PhrasematchSubquery,
    match_opts: &MatchOpts,
) -> (r: CoalesceEntry)
    requires
        wf_match_entry(*grid),
        wf_subquery_head(*subquery),
        match_opts.zoom == subquery.zoom,
    ensures
        r == spec_lift(*grid, *subquery),
        wf_entry(r),
{
    proof {
        assert(grid.grid_entry.relev * subquery.weight <= 1000 * 1000) by (nonlinear_arith)
            requires
                grid.grid_entry.relev <= 1000,
                subquery.weight <= 1000,
        ;
    }
    let relev: u32 = grid.grid_entry.relev * subquery.weight / RELEV_UNIT;
    proof {
        assert(relev == lifted_relev(grid.grid_entry.relev, subquery.weight));
    }
    let idx32: u32 = subquery.idx as u32;
    let id: u32 = grid.grid_entry.id;
    proof {
        assert(idx32 < 128 && id < 0x2000000 ==> ((idx32 << 25) | id) == (idx32 << 25) + id)
            by (bit_vector);
        assert(idx32 < 128 ==> (idx32 << 25) <= 0xFE000000u32) by (bit_vector);
        assert(((idx32 << 25) | id) == spec_tmp_id(subquery.idx, id));
    }
    let tmp_id: u32 = (idx32 << 25) + id;

    CoalesceEntry {
        grid_entry: GridEntry {
            id: grid.grid_entry.id,
            x: grid.grid_entry.x,
            y: grid.grid_entry.y,
            relev,
            score: grid.grid_entry.score,
        },
        matches_language: grid.matches_language,
        idx: subquery.idx,
        tmp_id,
        mask: subquery.mask,
        distance: grid.distance,
        scoredist: grid.scoredist,
    }
}

/// Whether `x` occurs in the vector.
fn contains_u32(v: &Vec<u32>, x: u32) -> (r: bool)
    ensures
        r == v@.contains(x),
{
    let mut i: usize = 0;
    while i < v.len()
        invariant
            0 <= i <= v@.len(),
            forall|k: int| 0 <= k < i ==> v@[k] != x,
        decreases v@.len() - i,
    {
        if v[i] == x {
            return true;
        }
        i = i + 1;
    }
    false
}

/// A single-phrase context also meets the exact multi-phrase shape facts:
/// its relevance is the (one-entry) sum, its mask the (one-entry) OR, and
/// its lone lead is trivially the deepest.
proof fn lemma_single_ctx_exact(
    c: CoalesceContext,
    sq: PhrasematchSubquery,
    stack: Seq<PhrasematchSubquery>,
)
    requires
        single_ctx_form(c, sq),
        stack.len() >= 1,
        stack[0] == sq,
    ensures
        ctx_relev_accounted(c),
        c.mask == or_masks(c.entries@),
        ctx_lead_deepest(c, stack),
{
    assert(c.entries@.len() == 1);
    assert(c.entries@.drop_last() =~= Seq::<CoalesceEntry>::empty());
    assert(c.entries@.last() == c.entries@[0]);
    assert(sum_relev(Seq::<CoalesceEntry>::empty()) == 0);
    assert(or_masks(Seq::<CoalesceEntry>::empty()) == 0u32);
    assert(sum_relev(c.entries@) == c.entries@[0].grid_entry.relev);
    lemma_zero_mask_disjoint(c.entries@[0].mask);
    assert(or_masks(c.entries@) == c.entries@[0].mask);
    let g = choose|g: int| 0 <= g < sq.grids.len() && c.entries[0] == spec_lift(sq.grids@[g], sq);
    assert(ctx_lead_at_zoom(c, stack, sq.zoom)) by {
        assert(0 <= 0 < stack.len() && 0 <= g < stack[0].grids.len() && c.entries[0] == spec_lift(
            stack[0].grids@[g],
            stack[0],
        ) && stack[0].zoom == sq.zoom);
    }
    assert(ctx_lead_deepest(c, stack));
}

/// The shape of every single-phrase context: exactly one entry, lifted from
/// one of the subquery's grids, whose mask and relevance the context carries
/// unchanged.
pub open spec fn single_ctx_form(c: CoalesceContext, sq: PhrasematchSubquery) -> bool {
    c.entries.len() == 1 && c.mask == c.entries[0].mask && c.relev == c.entries[0].grid_entry.relev
        as i64 && wf_entry(c.entries[0]) && exists|g: int|
        0 <= g < sq.grids.len() && c.entries[0] == spec_lift(sq.grids[g], sq)
}

/// Keep the first of each run of contexts sharing a lead feature id.
fn dedup_by_lead_id(v: Vec<CoalesceContext>, use_idx: bool) -> (r: Vec<CoalesceContext>)
    requires
        all_have_entry(v@),
        ctx_sorted(v@, use_idx),
    ensures
        r@.len() <= v@.len(),
        v@.len() > 0 ==> r@.len() > 0,
        ctx_sorted(r@, use_idx),
        all_have_entry(r@),
        forall|i: int| 0 <= i < r@.len() ==> v@.contains(#[trigger] r@[i]),
        forall|i: int| 0 <= i < r@.len() - 1 ==> #[trigger] r@[i].entries[0].grid_entry.id
            != r@[i + 1].entries[0].grid_entry.id,
{
    let ghost orig = v@;
    let mut rest = v;
    let mut r: Vec<CoalesceContext> = Vec::new();
    proof {
        assert(rest@ =~= orig.subrange(0, orig.len() as int));
    }
    while rest.len() > 0
        invariant
            rest@ == orig.subrange(orig.len() - rest@.len(), orig.len() as int),
            all_have_entry(orig),
            ctx_sorted(orig, use_idx),
            r@.len() + rest@.len() <= orig.len(),
            all_have_entry(r@),
            ctx_sorted(r@, use_idx),
            forall|i: int| 0 <= i < r@.len() ==> orig.contains(#[trigger] r@[i]),
            forall|k: int, m: int| 0 <= k < r@.len() && 0 <= m < rest@.len() ==> ctx_key_le(
                r@[k],
                rest@[m],
                use_idx,
            ),
            r@.len() == 0 ==> rest@.len() == orig.len(),
            forall|k: int| 0 <= k < r@.len() - 1 ==> #[trigger] r@[k].entries[0].grid_entry.id
                != r@[k + 1].entries[0].grid_entry.id,
        decreases rest@.len(),
    {
        let ghost prest = rest@;
        let x = rest.remove(0);
        proof {
            prest.remove_ensures(0);
            assert(rest@ =~= orig.subrange(orig.len() - rest@.len(), orig.len() as int));
            assert(orig.contains(x)) by {
                assert(x == orig[orig.len() - prest.len()]);
            }
            assert(x.entries.len() >= 1) by {
                assert(x == orig[orig.len() - prest.len()]);
            }
            assert forall|m: int| 0 <= m < rest@.len() implies ctx_key_le(
                x,
                #[trigger] rest@[m],
                use_idx,
            ) by {
                assert(x == orig[orig.len() - prest.len()]);
                assert(rest@[m] == orig[orig.len() - prest.len() + 1 + m]);
            }
        }
        let keep = if r.len() == 0 {
            true
        } else {
            r[r.len() - 1].entries[0].grid_entry.id != x.entries[0].grid_entry.id
        };
        if keep {
            r.push(x);
        }
    }
    r
}

/// Cap, window and de-duplicate an already sorted context list: emit at
/// most `MAX_CONTEXTS` contexts, stop at the first whose relevance falls
/// `RELEVANCE_WINDOW` or more below the best, and skip any whose lead
/// temporary id was already emitted. The context kept for a lead temporary
/// id sorts no later than every input context sharing that id.
fn finalize(contexts: Vec<CoalesceContext>, use_idx: bool) -> (r: Vec<CoalesceContext>)
    requires
        all_have_entry(contexts@),
        ctx_sorted(contexts@, use_idx),
    ensures
        r@.len() <= MAX_CONTEXTS,
        contexts@.len() > 0 ==> r@.len() > 0,
        ctx_sorted(r@, use_idx),
        all_have_entry(r@),
        forall|i: int| 0 <= i < r@.len() ==> contexts@.contains(#[trigger] r@[i]),
        forall|i: int, j: int|
            0 <= i < r@.len() && 0 <= j < contexts@.len() && r@[i].entries[0].tmp_id
                == contexts@[j].entries[0].tmp_id ==> ctx_key_le(r@[i], contexts@[j], use_idx),
        forall|i: int, j: int| 0 <= i < j < r@.len() ==> r@[i].entries[0].tmp_id
            != r@[j].entries[0].tmp_id,
        forall|i: int| 0 <= i < r@.len() ==> r@[0].relev - #[trigger] r@[i].relev
            < RELEVANCE_WINDOW,
{
    let ghost orig = contexts@;
    let mut rest = contexts;
    let mut out: Vec<CoalesceContext> = Vec::new();
    if rest.len() == 0 {
        return out;
    }
    let relev_max: i64 = rest[0].relev;
    let mut seen: Vec<u32> = Vec::new();
    proof {
        assert(rest@ =~= orig.subrange(0, orig.len() as int));
    }
    while rest.len() > 0
        invariant_except_break
            forall|j: int| 0 <= j < orig.len() - rest@.len() ==> seen@.contains(
                #[trigger] orig[j].entries[0].tmp_id,
            ),
        invariant
            rest@.len() <= orig.len(),
            rest@ == orig.subrange(orig.len() - rest@.len(), orig.len() as int),
            all_have_entry(orig),
            ctx_sorted(orig, use_idx),
            orig.len() > 0,
            relev_max == orig[0].relev,
            out@.len() <= MAX_CONTEXTS,
            all_have_entry(out@),
            ctx_sorted(out@, use_idx),
            forall|i: int| 0 <= i < out@.len() ==> orig.contains(#[trigger] out@[i]),
            forall|i: int, j: int| 0 <= i < j < out@.len() ==> out@[i].entries[0].tmp_id
                != out@[j].entries[0].tmp_id,
            forall|i: int| 0 <= i < out@.len() ==> seen@.contains(
                #[trigger] out@[i].entries[0].tmp_id,
            ),
            forall|i: int| 0 <= i < out@.len() ==> relev_max - #[trigger] out@[i].relev
                < RELEVANCE_WINDOW,
            out@.len() > 0 ==> out@[0] == orig[0],
            out@.len() == 0 ==> rest@.len() == orig.len() && seen@.len() == 0,
            forall|k: int, m: int| 0 <= k < out@.len() && 0 <= m < rest@.len() ==> ctx_key_le(
                out@[k],
                rest@[m],
                use_idx,
            ),
            forall|i: int, j: int|
                0 <= i < out@.len() && 0 <= j < orig.len() && out@[i].entries[0].tmp_id
                    == orig[j].entries[0].tmp_id ==> ctx_key_le(out@[i], orig[j], use_idx),
        ensures
            out@.len() <= MAX_CONTEXTS,
            all_have_entry(out@),
            ctx_sorted(out@, use_idx),
            forall|i: int| 0 <= i < out@.len() ==> orig.contains(#[trigger] out@[i]),
            forall|i: int, j: int| 0 <= i < j < out@.len() ==> out@[i].entries[0].tmp_id
                != out@[j].entries[0].tmp_id,
            forall|i: int| 0 <= i < out@.len() ==> relev_max - #[trigger] out@[i].relev
                < RELEVANCE_WINDOW,
            out@.len() > 0 ==> out@[0] == orig[0],
            out@.len() == 0 ==> orig.len() == 0,
            forall|i: int, j: int|
                0 <= i < out@.len() && 0 <= j < orig.len() && out@[i].entries[0].tmp_id
                    == orig[j].entries[0].tmp_id ==> ctx_key_le(out@[i], orig[j], use_idx),
        decreases rest@.len(),
    {
        if out.len() >= MAX_CONTEXTS {
            break;
        }
        let ghost prest = rest@;
        let ctx = rest.remove(0);
        proof {
            prest.remove_ensures(0);
            assert(rest@ =~= orig.subrange(orig.len() - rest@.len(), orig.len() as int));
            assert(orig.contains(ctx)) by {
                assert(ctx == orig[orig.len() - prest.len()]);
            }
            assert(ctx == orig[orig.len() - prest.len()]);
            assert(ctx.entries.len() >= 1);
            assert forall|m: int| 0 <= m < rest@.len() implies ctx_key_le(
                ctx,
                #[trigger] rest@[m],
                use_idx,
            ) by {
                assert(rest@[m] == orig[orig.len() - prest.len() + 1 + m]);
            }
        }
        if sat_sub(relev_max, ctx.relev) >= RELEVANCE_WINDOW {
            proof {
                if out@.len() == 0 {
                    assert(prest.len() == orig.len());
                    assert(ctx == orig[0]);
                    assert(relev_max - ctx.relev == 0);
                    assert(false);
                }
            }
            break;
        }
        let tmp = ctx.entries[0].tmp_id;
        if !contains_u32(&seen, tmp) {
            proof {
                if out@.len() == 0 {
                    assert(ctx == orig[0]);
                }
            }
            let ghost pseen = seen@;
            seen.push(tmp);
            out.push(ctx);
            proof {
                assert forall|i: int| 0 <= i < out@.len() implies seen@.contains(
                    #[trigger] out@[i].entries[0].tmp_id,
                ) by {
                    if i < out@.len() - 1 {
                        let j = choose|j: int|
                            0 <= j < pseen.len() && pseen[j] == out@[i].entries[0].tmp_id;
                        assert(seen@[j] == out@[i].entries[0].tmp_id);
                    } else {
                        assert(seen@[seen@.len() - 1] == tmp);
                    }
                }
                assert forall|j: int| 0 <= j < orig.len() - rest@.len() implies seen@.contains(
                    #[trigger] orig[j].entries[0].tmp_id,
                ) by {
                    if j < orig.len() - prest.len() {
                        let w = choose|w: int|
                            0 <= w < pseen.len() && pseen[w] == orig[j].entries[0].tmp_id;
                        assert(seen@[w] == orig[j].entries[0].tmp_id);
                    } else {
                        assert(orig[j] == ctx);
                        assert(seen@[seen@.len() - 1] == tmp);
                    }
                }
                assert forall|i: int, j: int|
                    0 <= i < out@.len() && 0 <= j < orig.len() && out@[i].entries[0].tmp_id
                        == orig[j].entries[0].tmp_id implies ctx_key_le(
                    out@[i],
                    orig[j],
                    use_idx,
                ) by {
                    let c0 = orig.len() - prest.len();
                    if i == out@.len() - 1 {
                        assert(out@[i] == ctx);
                        if j > c0 {
                            assert(ctx_key_le(orig[c0], orig[j], use_idx));
                        } else if j < c0 {
                            assert(pseen.contains(orig[j].entries[0].tmp_id));
                            assert(!pseen.contains(tmp));
                            assert(false);
                        }
                    }
                }
            }
        }
    }
    out
}

/// The grids arrive as the store contract promises to emit them:
/// non-increasing relevance.
pub open spec fn grids_relev_sorted(s: Seq<MatchEntry>) -> bool {
    forall|i: int, j: int| 0 <= i < j < s.len() ==> s[i].grid_entry.relev >= s[j].grid_entry.relev
}

proof fn lemma_lifted_relev_mono(r1: u32, r2: u32, w: u32)
    requires
        r2 <= r1,
    ensures
        lifted_relev(r2, w) <= lifted_relev(r1, w),
{
    vstd::arithmetic::mul::lemma_mul_inequality(r2 as int, r1 as int, w as int);
    vstd::arithmetic::div_mod::lemma_div_is_ordered(
        (r2 * w) as int,
        (r1 * w) as int,
        RELEV_UNIT as int,
    );
}

/// The store stream opens with a grid the single-phrase loop is sure to
/// accept: one distinguishable from the zeroed previous-entry registers
/// the loop starts with.
pub open spec fn first_grid_accepted(sq: PhrasematchSubquery) -> bool {
    sq.grids.len() >= 1 && (sq.grids[0].grid_entry.id != 0 || sq.grids[0].scoredist > 0)
}

/// Materialize contexts for a one-phrase query: stream the subquery's
/// grids in store order, drop same-feature repeats with lower
/// score-distance, stop once relevance falls out of the window or enough
/// distinct features have been taken, then sort, de-duplicate by lead
/// feature and truncate.
fn coalesce_single(subquery: &PhrasematchSubquery, match_opts: &MatchOpts) -> (r: Vec<
    CoalesceContext,
>)
    requires
        wf_subquery(*subquery),
        match_opts.zoom == subquery.zoom,
    ensures
        r@.len() <= MAX_CONTEXTS,
        ctx_sorted(r@, false),
        forall|i: int| 0 <= i < r@.len() ==> single_ctx_form(#[trigger] r@[i], *subquery),
        all_have_entry(r@),
        first_grid_accepted(*subquery) ==> r@.len() >= 1,
        forall|i: int| 0 <= i < r@.len() - 1 ==> #[trigger] r@[i].entries[0].grid_entry.id
            != r@[i + 1].entries[0].grid_entry.id,
        grids_relev_sorted(subquery.grids@) ==> forall|i: int, j: int|
            0 <= i < r@.len() && 0 <= j < r@.len() ==> r@[i].relev - r@[j].relev
                < RELEVANCE_WINDOW,
{
    let mut contexts: Vec<CoalesceContext> = Vec::new();
    let mut max_relev: i64 = 0;
    let mut last_id: u32 = 0;
    let mut last_relev: u32 = 0;
    let mut last_scoredist: u64 = 0;
    let mut min_scoredist: u64 = u64::MAX;
    let mut feature_count: usize = 0;
    let bigger_max: usize = 2 * MAX_CONTEXTS;

    let mut g: usize = 0;
    while g < subquery.grids.len()
        invariant_except_break
            feature_count <= g,
        invariant
            wf_subquery(*subquery),
            match_opts.zoom == subquery.zoom,
            0 <= g <= subquery.grids@.len(),
            bigger_max == 2 * MAX_CONTEXTS,
            0 <= max_relev <= RELEV_UNIT,
            forall|i: int| 0 <= i < contexts@.len() ==> single_ctx_form(
                #[trigger] contexts@[i],
                *subquery,
            ),
            g == 0 ==> last_id == 0 && last_scoredist == 0 && max_relev == 0 && feature_count
                == 0,
            first_grid_accepted(*subquery) && g >= 1 ==> contexts@.len() >= 1,
            grids_relev_sorted(subquery.grids@) ==> forall|k: int|
                0 <= k < contexts@.len() ==> max_relev - #[trigger] contexts@[k].relev
                    < RELEVANCE_WINDOW && contexts@[k].relev <= max_relev,
            grids_relev_sorted(subquery.grids@) ==> forall|k: int, g2: int|
                0 <= k < contexts@.len() && g <= g2 < subquery.grids@.len()
                    ==> #[trigger] contexts@[k].relev >= lifted_relev(
                    #[trigger] subquery.grids@[g2].grid_entry.relev,
                    subquery.weight,
                ),
        ensures
            forall|i: int| 0 <= i < contexts@.len() ==> single_ctx_form(
                #[trigger] contexts@[i],
                *subquery,
            ),
            first_grid_accepted(*subquery) ==> contexts@.len() >= 1,
            grids_relev_sorted(subquery.grids@) ==> forall|k: int, m: int|
                0 <= k < contexts@.len() && 0 <= m < contexts@.len()
                    ==> #[trigger] contexts@[k].relev - #[trigger] contexts@[m].relev
                    < RELEVANCE_WINDOW,
        decreases subquery.grids@.len() - g,
    {
        let entry = grid_to_coalesce_entry(&subquery.grids[g], subquery, match_opts);
        proof {
            assert(wf_match_entry(subquery.grids@[g as int]));
            assert(entry.grid_entry.relev <= RELEV_UNIT);
            assert(subquery.grids@[g as int].grid_entry.relev * subquery.weight <= 1000 * 1000)
                by (nonlinear_arith)
                requires
                    subquery.grids@[g as int].grid_entry.relev <= 1000,
                    subquery.weight <= 1000,
            ;
            vstd::arithmetic::div_mod::lemma_div_is_ordered(
                0,
                (subquery.grids@[g as int].grid_entry.relev * subquery.weight) as int,
                RELEV_UNIT as int,
            );
            vstd::arithmetic::div_mod::lemma_div_is_ordered(
                (subquery.grids@[g as int].grid_entry.relev * subquery.weight) as int,
                1000000int,
                RELEV_UNIT as int,
            );
            assert(entry.grid_entry.relev == lifted_relev(
                subquery.grids@[g as int].grid_entry.relev,
                subquery.weight,
            ));
        }

        let same_feature_worse = last_id == entry.grid_entry.id && entry.scoredist
            <= last_scoredist;
        if !same_feature_worse {
            if feature_count > bigger_max && entry.scoredist < min_scoredist {
                // out of the score band: pass this grid over
            } else if feature_count > bigger_max && entry.grid_entry.relev < last_relev {
                // grids arrive relevance-sorted: nothing better follows
                break;
            } else {
                if max_relev - (entry.grid_entry.relev as i64) >= RELEVANCE_WINDOW {
                    break;
                }
                let ghost pre_max = max_relev;
                if (entry.grid_entry.relev as i64) > max_relev {
                    max_relev = entry.grid_entry.relev as i64;
                }
                let mut single: Vec<CoalesceEntry> = Vec::new();
                single.push(entry);
                let ctx = CoalesceContext {
                    mask: entry.mask,
                    relev: entry.grid_entry.relev as i64,
                    entries: single,
                };
                proof {
                    assert(ctx.entries[0] == entry);
                    assert(single_ctx_form(ctx, *subquery));
                }
                contexts.push(ctx);
                proof {
                    if grids_relev_sorted(subquery.grids@) {
                        assert forall|k: int, g2: int|
                            0 <= k < contexts@.len() && g <= g2 < subquery.grids@.len() implies (
                        #[trigger] contexts@[k].relev) >= lifted_relev(
                            #[trigger] subquery.grids@[g2].grid_entry.relev,
                            subquery.weight,
                        ) by {
                            lemma_lifted_relev_mono(
                                subquery.grids@[g as int].grid_entry.relev,
                                subquery.grids@[g2].grid_entry.relev,
                                subquery.weight,
                            );
                            if k < contexts@.len() - 1 {
                            } else {
                                assert(contexts@[k] == ctx);
                            }
                        }
                        assert forall|k: int| 0 <= k < contexts@.len() implies max_relev
                            - #[trigger] contexts@[k].relev < RELEVANCE_WINDOW && contexts@[k].relev
                            <= max_relev by {
                            if k < contexts@.len() - 1 {
                                if max_relev != pre_max {
                                    assert(contexts@[k].relev >= lifted_relev(
                                        subquery.grids@[g as int].grid_entry.relev,
                                        subquery.weight,
                                    ));
                                    assert(contexts@[k].relev >= max_relev);
                                }
                            } else {
                                assert(contexts@[k] == ctx);
                            }
                        }
                    }
                }
                if last_id != entry.grid_entry.id {
                    feature_count = feature_count + 1;
                }
                if match_opts.proximity.is_none() && feature_count > bigger_max {
                    break;
                }
                if entry.scoredist < min_scoredist {
                    min_scoredist = entry.scoredist;
                }
                last_id = entry.grid_entry.id;
                last_relev = entry.grid_entry.relev;
                last_scoredist = entry.scoredist;
            }
        }
        g = g + 1;
    }

    proof {
        assert(all_have_entry(contexts@));
    }
    let ghost unsorted = contexts@;
    sort_contexts(&mut contexts, false);
    proof {
        assert forall|i: int| 0 <= i < contexts@.len() implies single_ctx_form(
            #[trigger] contexts@[i],
            *subquery,
        ) by {
            let j = choose|j: int| 0 <= j < unsorted.len() && unsorted[j] == contexts@[i];
            assert(single_ctx_form(unsorted[j], *subquery));
        }
        assert(all_have_entry(contexts@));
        if grids_relev_sorted(subquery.grids@) {
            assert forall|k: int, m: int|
                0 <= k < contexts@.len() && 0 <= m < contexts@.len() implies (
            #[trigger] contexts@[k].relev) - (#[trigger] contexts@[m].relev)
                < RELEVANCE_WINDOW by {
                let a = choose|a: int| 0 <= a < unsorted.len() && unsorted[a] == contexts@[k];
                let b = choose|b: int| 0 <= b < unsorted.len() && unsorted[b] == contexts@[m];
                assert(unsorted[a].relev - unsorted[b].relev < RELEVANCE_WINDOW);
            }
        }
    }
    let ghost sorted = contexts@;
    let mut deduped = dedup_by_lead_id(contexts, false);
    proof {
        assert forall|i: int| 0 <= i < deduped@.len() implies single_ctx_form(
            #[trigger] deduped@[i],
            *subquery,
        ) by {
            let j = choose|j: int| 0 <= j < sorted.len() && sorted[j] == deduped@[i];
            assert(single_ctx_form(sorted[j], *subquery));
        }
        if grids_relev_sorted(subquery.grids@) {
            assert forall|k: int, m: int|
                0 <= k < deduped@.len() && 0 <= m < deduped@.len() implies (
            #[trigger] deduped@[k].relev) - (#[trigger] deduped@[m].relev) < RELEVANCE_WINDOW by {
                let a = choose|a: int| 0 <= a < sorted.len() && sorted[a] == deduped@[k];
                let b = choose|b: int| 0 <= b < sorted.len() && sorted[b] == deduped@[m];
                assert(sorted[a].relev - sorted[b].relev < RELEVANCE_WINDOW);
            }
        }
    }
    let ghost pre_cut = deduped@;
    deduped.truncate(MAX_CONTEXTS);
    proof {
        assert(all_have_entry(deduped@));
        if grids_relev_sorted(subquery.grids@) {
            assert forall|k: int, m: int|
                0 <= k < deduped@.len() && 0 <= m < deduped@.len() implies (
            #[trigger] deduped@[k].relev) - (#[trigger] deduped@[m].relev) < RELEVANCE_WINDOW by {
                assert(deduped@[k] == pre_cut[k]);
                assert(deduped@[m] == pre_cut[m]);
            }
        }
    }
    deduped
}

/// The entry is the lift of some grid of some subquery of the stack.
pub open spec fn entry_is_lift(e: CoalesceEntry, stack: Seq<PhrasematchSubquery>) -> bool {
    exists|s: int, g: int|
        0 <= s < stack.len() && 0 <= g < stack[s].grids.len() && e == spec_lift(
            stack[s].grids@[g],
            stack[s],
        )
}

/// No two entries of the sequence share a mask bit.
pub open spec fn entries_disjoint(s: Seq<CoalesceEntry>) -> bool {
    forall|i: int, j: int| 0 <= i < j < s.len() ==> s[i].mask & s[j].mask == 0
}

/// No two entries of the context share a mask bit.
pub open spec fn masks_disjoint(c: CoalesceContext) -> bool {
    entries_disjoint(c.entries@)
}

/// Every entry's mask is covered by the running context mask.
pub open spec fn entries_under_mask(s: Seq<CoalesceEntry>, cm: u32) -> bool {
    forall|i: int| 0 <= i < s.len() ==> (#[trigger] s[i].mask) | cm == cm
}

/// A context the engine builds: nonempty, well-formed lifted entries,
/// pairwise-disjoint masks, every entry's mask covered by the context mask.
pub open spec fn multi_ctx_wf(c: CoalesceContext, stack: Seq<PhrasematchSubquery>) -> bool {
    c.entries.len() >= 1 && masks_disjoint(c) && entries_under_mask(c.entries@, c.mask) && (
    forall|i: int| 0 <= i < c.entries.len() ==> wf_entry(#[trigger] c.entries[i])) && (forall|
        i: int,
    |
        0 <= i < c.entries.len() ==> entry_is_lift(#[trigger] c.entries[i], stack))
}

/// Every context accumulated in the zoom map is well formed.
pub open spec fn map_wf(vals: Seq<Vec<CoalesceContext>>, stack: Seq<PhrasematchSubquery>) -> bool {
    forall|v: int, c: int|
        0 <= v < vals.len() && 0 <= c < vals[v]@.len() ==> multi_ctx_wf(
            #[trigger] vals[v]@[c],
            stack,
        )
}

proof fn lemma_bits_disjoint_of_subset(a: u32, cm: u32, b: u32)
    requires
        a | cm == cm,
        cm & b == 0,
    ensures
        a & b == 0,
{
    assert((a | cm == cm && cm & b == 0) ==> a & b == 0) by (bit_vector);
}

proof fn lemma_bits_subset_grows(a: u32, cm: u32, b: u32)
    requires
        a | cm == cm,
    ensures
        a | (cm | b) == (cm | b),
{
    assert((a | cm == cm) ==> (a | (cm | b) == (cm | b))) by (bit_vector);
}

proof fn lemma_bits_or_basics(b: u32, cm: u32)
    ensures
        b | (cm | b) == (cm | b),
        b | b == b,
        b & 0 == 0,
        0u32 | cm == cm,
{
    assert(b | (cm | b) == (cm | b)) by (bit_vector);
    assert(b | b == b) by (bit_vector);
    assert(b & 0 == 0) by (bit_vector);
    assert(0u32 | cm == cm) by (bit_vector);
}

proof fn lemma_zero_mask_disjoint(m: u32)
    ensures
        m & 0 == 0,
        0u32 & m == 0,
        0u32 | m == m,
{
    assert(m & 0 == 0) by (bit_vector);
    assert(0u32 & m == 0) by (bit_vector);
    assert(0u32 | m == m) by (bit_vector);
}

/// Subquery `a` sorts no later than `b`: ascending zoom, then ascending idx.
pub open spec fn sq_key_le(a: PhrasematchSubquery, b: PhrasematchSubquery) -> bool {
    a.zoom < b.zoom || (a.zoom == b.zoom && a.idx <= b.idx)
}

proof fn lemma_sq_key_total(a: PhrasematchSubquery, b: PhrasematchSubquery)
    ensures
        sq_key_le(a, b) || sq_key_le(b, a),
{
}

proof fn lemma_sq_key_trans(
    a: PhrasematchSubquery,
    b: PhrasematchSubquery,
    c: PhrasematchSubquery,
)
    requires
        sq_key_le(a, b),
        sq_key_le(b, c),
    ensures
        sq_key_le(a, c),
{
}

/// Indices of the stack in ascending (zoom, idx) order: broader phrases
/// first, so that they are accumulated before the phrases that stack on
/// top of them.
#[verifier::rlimit(100)]
#[verifier::spinoff_prover]
fn sorted_order(stack: &Vec<PhrasematchSubquery>) -> (r: Vec<usize>)
    ensures
        r@.len() == stack@.len(),
        forall|k: int| 0 <= k < r@.len() ==> #[trigger] r@[k] < stack@.len(),
        forall|a: int, b: int| 0 <= a < b < r@.len() ==> sq_key_le(
            stack@[r@[a] as int],
            stack@[r@[b] as int],
        ),
        forall|v: usize| v < stack@.len() ==> r@.contains(v),
{
    let mut r: Vec<usize> = Vec::new();
    let mut i: usize = 0;
    while i < stack.len()
        invariant
            0 <= i <= stack@.len(),
            r@.len() == i,
            forall|k: int| 0 <= k < r@.len() ==> #[trigger] r@[k] < stack@.len(),
            forall|k: int| 0 <= k < r@.len() ==> #[trigger] r@[k] == k,
        decreases stack@.len() - i,
    {
        r.push(i);
        i = i + 1;
    }
    let ghost init = r@;
    proof {
        assert forall|v: usize| v < stack@.len() implies init.contains(v) by {
            assert(init[v as int] == v);
        }
    }

    let mut a: usize = 1;
    while a < r.len()
        invariant
            1 <= a,
            r@.len() == stack@.len(),
            r@.to_multiset() == init.to_multiset(),
            init.len() == stack@.len(),
            forall|v: usize| v < stack@.len() ==> init.contains(v),
            forall|k: int| 0 <= k < r@.len() ==> #[trigger] r@[k] < stack@.len(),
            forall|c: int, d: int| 0 <= c < d < a && d < r@.len() ==> sq_key_le(
                stack@[r@[c] as int],
                stack@[r@[d] as int],
            ),
        decreases r@.len() - a,
    {
        let ghost pre = r@;
        let x = r.remove(a);
        proof {
            pre.remove_ensures(a as int);
        }
        let mut b: usize = a;
        while b > 0
            invariant
                b <= a,
                a < pre.len(),
                r@ == pre.remove(a as int),
                x == pre[a as int],
                x < stack@.len(),
                forall|k: int| 0 <= k < r@.len() ==> #[trigger] r@[k] < stack@.len(),
                forall|k: int| b <= k < a ==> !sq_key_le(
                    stack@[#[trigger] r@[k] as int],
                    stack@[x as int],
                ),
            ensures
                b <= a,
                forall|k: int| b <= k < a ==> !sq_key_le(
                    stack@[#[trigger] r@[k] as int],
                    stack@[x as int],
                ),
                b > 0 ==> sq_key_le(stack@[r@[b - 1] as int], stack@[x as int]),
            decreases b,
        {
            let prev = r[b - 1];
            let keep_here = stack[prev].zoom < stack[x].zoom || (stack[prev].zoom == stack[x].zoom
                && stack[prev].idx <= stack[x].idx);
            if keep_here {
                break;
            }
            b = b - 1;
        }
        proof {
            assert forall|k: int| 0 <= k < b implies sq_key_le(
                stack@[#[trigger] r@[k] as int],
                stack@[x as int],
            ) by {
                if k < b - 1 {
                    assert(sq_key_le(stack@[r@[k] as int], stack@[r@[b - 1] as int]));
                    lemma_sq_key_trans(
                        stack@[r@[k] as int],
                        stack@[r@[b - 1] as int],
                        stack@[x as int],
                    );
                }
            }
            assert forall|k: int| b <= k < a implies sq_key_le(
                stack@[x as int],
                stack@[#[trigger] r@[k] as int],
            ) by {
                lemma_sq_key_total(stack@[r@[k] as int], stack@[x as int]);
            }
        }
        let ghost mid = r@;
        r.insert(b, x);
        proof {
            mid.insert_ensures(b as int, x);
            pre.to_multiset_ensures();
            lemma_insert_to_multiset(mid, b as int, x);
            assert(pre.contains(x)) by {
                assert(pre[a as int] == x);
            }
            assert(r@.to_multiset() =~= init.to_multiset());
            assert forall|k: int| 0 <= k < r@.len() implies #[trigger] r@[k] < stack@.len() by {
                if k < b {
                    assert(r@[k] == mid[k]);
                } else if k == b {
                    assert(r@[k] == x);
                } else {
                    assert(r@[k] == mid[k - 1]);
                }
            }
            assert forall|c: int, d: int| 0 <= c < d < a + 1 && d < r@.len() implies sq_key_le(
                stack@[#[trigger] r@[c] as int],
                stack@[#[trigger] r@[d] as int],
            ) by {
                if c < b && d < b {
                    assert(r@[c] == mid[c] && r@[d] == mid[d]);
                } else if c < b && d == b {
                    assert(r@[c] == mid[c] && r@[d] == x);
                } else if c < b && d > b {
                    assert(r@[c] == mid[c] && r@[d] == mid[d - 1]);
                    lemma_sq_key_trans(
                        stack@[mid[c] as int],
                        stack@[x as int],
                        stack@[mid[d - 1] as int],
                    );
                } else if c == b && d > b {
                    assert(r@[c] == x && r@[d] == mid[d - 1]);
                } else {
                    assert(r@[c] == mid[c - 1] && r@[d] == mid[d - 1]);
                }
            }
        }
        a = a + 1;
    }
    proof {
        r@.to_multiset_ensures();
        init.to_multiset_ensures();
        assert forall|v: usize| v < stack@.len() implies r@.contains(v) by {
            assert(init.contains(v));
            assert(init.to_multiset().count(v) > 0);
            assert(r@.to_multiset().count(v) > 0);
        }
    }
    r
}

/// Subquery at sorted position `m` may stack under the one at position `i`:
/// a different index at the same or a broader zoom.
pub open spec fn zoom_compatible(
    stack: Seq<PhrasematchSubquery>,
    order: Seq<usize>,
    i: int,
    m: int,
) -> bool {
    stack[order[m] as int].idx != stack[order[i] as int].idx && stack[order[m] as int].zoom
        <= stack[order[i] as int].zoom
}

/// Some compatible subquery sits at zoom `z`.
pub open spec fn zoom_listed(
    stack: Seq<PhrasematchSubquery>,
    order: Seq<usize>,
    i: int,
    z: u16,
) -> bool {
    exists|m: int|
        0 <= m < order.len() && zoom_compatible(stack, order, i, m) && stack[order[m] as int].zoom
            == z
}

/// The zoom levels whose accumulated contexts may stack under subquery
/// `order[i]`: exactly the zooms of compatible subqueries, with consecutive
/// repeats collapsed.
fn compatible_zooms(stack: &Vec<PhrasematchSubquery>, order: &Vec<usize>, i: usize) -> (r: Vec<
    u16,
>)
    requires
        order@.len() == stack@.len(),
        forall|k: int| 0 <= k < order@.len() ==> #[trigger] order@[k] < stack@.len(),
        i < order@.len(),
    ensures
        forall|k: int| 0 <= k < r@.len() ==> #[trigger] r@[k] <= stack@[order@[i as int] as int].zoom,
        forall|k: int| 0 <= k < r@.len() ==> zoom_listed(stack@, order@, i as int, #[trigger] r@[k]),
        forall|m: int| 0 <= m < order@.len() && zoom_compatible(stack@, order@, i as int, m)
            ==> r@.contains(stack@[#[trigger] order@[m] as int].zoom),
{
    let me_idx = stack[order[i]].idx;
    let me_zoom = stack[order[i]].zoom;
    let mut r: Vec<u16> = Vec::new();
    let mut k: usize = 0;
    while k < order.len()
        invariant
            order@.len() == stack@.len(),
            forall|m: int| 0 <= m < order@.len() ==> #[trigger] order@[m] < stack@.len(),
            i < order@.len(),
            k <= order@.len(),
            me_idx == stack@[order@[i as int] as int].idx,
            me_zoom == stack@[order@[i as int] as int].zoom,
            forall|m: int| 0 <= m < r@.len() ==> #[trigger] r@[m] <= me_zoom,
            forall|m: int| 0 <= m < r@.len() ==> zoom_listed(
                stack@,
                order@,
                i as int,
                #[trigger] r@[m],
            ),
            forall|m: int| 0 <= m < k && zoom_compatible(stack@, order@, i as int, m)
                ==> r@.contains(stack@[#[trigger] order@[m] as int].zoom),
        decreases order@.len() - k,
    {
        let b = &stack[order[k]];
        if !(me_idx == b.idx || me_zoom < b.zoom) {
            let repeat = r.len() > 0 && r[r.len() - 1] == b.zoom;
            if !repeat {
                let ghost pr = r@;
                r.push(b.zoom);
                proof {
                    assert(zoom_compatible(stack@, order@, i as int, k as int));
                    assert forall|m: int| 0 <= m < r@.len() implies zoom_listed(
                        stack@,
                        order@,
                        i as int,
                        #[trigger] r@[m],
                    ) by {
                        if m < r@.len() - 1 {
                            assert(r@[m] == pr[m]);
                        } else {
                            assert(r@[m] == stack@[order@[k as int] as int].zoom);
                            assert(0 <= k < order@.len() && zoom_compatible(
                                stack@,
                                order@,
                                i as int,
                                k as int,
                            ) && stack@[order@[k as int] as int].zoom == r@[m]);
                        }
                    }
                    assert forall|m: int|
                        0 <= m < k + 1 && zoom_compatible(
                            stack@,
                            order@,
                            i as int,
                            m,
                        ) implies r@.contains(stack@[#[trigger] order@[m] as int].zoom) by {
                        if m < k {
                            let w = choose|w: int|
                                0 <= w < pr.len() && pr[w] == stack@[order@[m] as int].zoom;
                            assert(r@[w] == stack@[order@[m] as int].zoom);
                        } else {
                            assert(r@[r@.len() - 1] == stack@[order@[m] as int].zoom);
                        }
                    }
                }
            } else {
                proof {
                    assert(r@[r@.len() - 1] == stack@[order@[k as int] as int].zoom);
                }
            }
        }
        k = k + 1;
    }
    r
}

/// Position of a tile key in the accumulated-zoom map, if present.
fn find_key(keys: &Vec<u64>, key: u64) -> (r: Option<usize>)
    ensures
        match r {
            Some(i) => i < keys@.len() && keys@[i as int] == key,
            None => !keys@.contains(key),
        },
{
    let mut i: usize = 0;
    while i < keys.len()
        invariant
            0 <= i <= keys@.len(),
            forall|k: int| 0 <= k < i ==> keys@[k] != key,
        decreases keys@.len() - i,
    {
        if keys[i] == key {
            return Some(i);
        }
        i = i + 1;
    }
    None
}

/// Every phrase in the stack covers at least one query token.
pub open spec fn stack_masks_nonzero(stack: Seq<PhrasematchSubquery>) -> bool {
    forall|i: int| 0 <= i < stack.len() ==> stack[i].mask != 0
}

/// Sum of the entries' weighted relevances, in thousandths.
pub open spec fn sum_relev(s: Seq<CoalesceEntry>) -> int
    decreases s.len(),
{
    if s.len() == 0 {
        0
    } else {
        sum_relev(s.drop_last()) + s.last().grid_entry.relev
    }
}

/// OR of the entries' masks.
pub open spec fn or_masks(s: Seq<CoalesceEntry>) -> u32
    decreases s.len(),
{
    if s.len() == 0 {
        0u32
    } else {
        or_masks(s.drop_last()) | s.last().mask
    }
}

proof fn lemma_sum_or_push(s: Seq<CoalesceEntry>, e: CoalesceEntry)
    ensures
        sum_relev(s.push(e)) == sum_relev(s) + e.grid_entry.relev,
        or_masks(s.push(e)) == or_masks(s) | e.mask,
{
    assert(s.push(e).drop_last() =~= s);
    assert(s.push(e).last() == e);
}

proof fn lemma_sum_relev_bounds(s: Seq<CoalesceEntry>)
    requires
        forall|k: int| 0 <= k < s.len() ==> wf_entry(#[trigger] s[k]),
    ensures
        0 <= sum_relev(s) <= 1000 * s.len(),
    decreases s.len(),
{
    if s.len() > 0 {
        assert(forall|k: int| 0 <= k < s.drop_last().len() ==> wf_entry(
            #[trigger] s.drop_last()[k],
        ));
        lemma_sum_relev_bounds(s.drop_last());
        assert(wf_entry(s.last()));
    }
}

/// Set bits of `m` among its low `w` bits.
pub open spec fn popcnt_rec(m: u32, w: nat) -> nat
    decreases w,
{
    if w == 0 {
        0
    } else {
        ((m & 1) + popcnt_rec(m >> 1, (w - 1) as nat)) as nat
    }
}

/// Number of set bits of a mask.
pub open spec fn popcnt(m: u32) -> nat {
    popcnt_rec(m, 32)
}

proof fn lemma_popcnt_rec_le(m: u32, w: nat)
    ensures
        popcnt_rec(m, w) <= w,
    decreases w,
{
    if w > 0 {
        lemma_popcnt_rec_le(m >> 1, (w - 1) as nat);
        assert((m & 1) <= 1) by (bit_vector);
    }
}

proof fn lemma_popcnt_rec_pos(m: u32, w: nat)
    requires
        m != 0,
        m < vstd::arithmetic::power2::pow2(w),
    ensures
        popcnt_rec(m, w) >= 1,
    decreases w,
{
    vstd::arithmetic::power2::lemma_pow2_pos(w);
    vstd::arithmetic::power2::lemma2_to64();
    if w == 0 {
        assert(m < 1);
        assert(false);
    } else if m & 1 == 1 {
    } else {
        assert(m & 1 == 0 || m & 1 == 1) by (bit_vector);
        assert(m & 1 == 0 ==> (m >> 1) != 0 && m >> 1 == m / 2) by (bit_vector)
            requires
                m != 0,
        ;
        assert((m >> 1) != 0);
        vstd::arithmetic::power2::lemma_pow2_adds((w - 1) as nat, 1);
        vstd::arithmetic::power2::lemma2_to64();
        vstd::arithmetic::power2::lemma_pow2_pos((w - 1) as nat);
        assert(m / 2 < vstd::arithmetic::power2::pow2((w - 1) as nat)) by {
            assert(vstd::arithmetic::power2::pow2(w) == vstd::arithmetic::power2::pow2(
                (w - 1) as nat,
            ) * 2);
        }
        lemma_popcnt_rec_pos(m >> 1, (w - 1) as nat);
    }
}

proof fn lemma_popcnt_nonzero(m: u32)
    requires
        m != 0,
    ensures
        popcnt(m) >= 1,
{
    vstd::arithmetic::power2::lemma2_to64();
    assert(m < vstd::arithmetic::power2::pow2(32));
    lemma_popcnt_rec_pos(m, 32);
}

proof fn lemma_popcnt_rec_or(a: u32, b: u32, w: nat)
    requires
        a & b == 0,
    ensures
        popcnt_rec(a | b, w) == popcnt_rec(a, w) + popcnt_rec(b, w),
    decreases w,
{
    if w > 0 {
        assert(a & b == 0 ==> ((a | b) & 1) == (a & 1) + (b & 1)) by (bit_vector);
        assert((a | b) >> 1 == (a >> 1) | (b >> 1)) by (bit_vector);
        assert(a & b == 0 ==> (a >> 1) & (b >> 1) == 0) by (bit_vector);
        lemma_popcnt_rec_or(a >> 1, b >> 1, (w - 1) as nat);
    }
}

/// The entry is the lift of a grid within the multi-phrase per-subquery cap.
pub open spec fn entry_is_lift_capped(e: CoalesceEntry, stack: Seq<PhrasematchSubquery>) -> bool {
    exists|s: int, g: int|
        0 <= s < stack.len() && 0 <= g < stack[s].grids.len() && g < MULTI_GRID_LIMIT && e
            == spec_lift(stack[s].grids@[g], stack[s])
}

/// Every entry of the context comes from the first `MULTI_GRID_LIMIT`
/// grids of its subquery.
pub open spec fn ctx_entries_capped(c: CoalesceContext, stack: Seq<PhrasematchSubquery>) -> bool {
    forall|k: int| 0 <= k < c.entries.len() ==> entry_is_lift_capped(#[trigger] c.entries[k], stack)
}

proof fn lemma_capped_entries_lift(s: Seq<CoalesceEntry>, stack: Seq<PhrasematchSubquery>)
    requires
        forall|k: int| 0 <= k < s.len() ==> entry_is_lift_capped(#[trigger] s[k], stack),
    ensures
        forall|k: int| 0 <= k < s.len() ==> entry_is_lift(#[trigger] s[k], stack),
{
    assert forall|k: int| 0 <= k < s.len() implies entry_is_lift(#[trigger] s[k], stack) by {
        let (si, gi): (int, int) = choose|si: int, gi: int|
            0 <= si < stack.len() && 0 <= gi < stack[si].grids.len() && gi < MULTI_GRID_LIMIT && s[k]
                == spec_lift(stack[si].grids@[gi], stack[si]);
        assert(0 <= si < stack.len() && 0 <= gi < stack[si].grids.len() && s[k] == spec_lift(
            stack[si].grids@[gi],
            stack[si],
        ));
    }
}

proof fn lemma_lift_mask_nonzero(e: CoalesceEntry, stack: Seq<PhrasematchSubquery>)
    requires
        entry_is_lift(e, stack),
        stack_masks_nonzero(stack),
    ensures
        e.mask != 0,
{
    let (si, gi): (int, int) = choose|si: int, gi: int|
        0 <= si < stack.len() && 0 <= gi < stack[si].grids.len() && e == spec_lift(
            stack[si].grids@[gi],
            stack[si],
        );
    assert(e.mask == stack[si].mask);
}

/// The entry is the lift of a grid of a subquery at or below zoom `z`.
pub open spec fn entry_lift_below(
    e: CoalesceEntry,
    stack: Seq<PhrasematchSubquery>,
    z: u16,
) -> bool {
    exists|s: int, g: int|
        0 <= s < stack.len() && 0 <= g < stack[s].grids.len() && e == spec_lift(
            stack[s].grids@[g],
            stack[s],
        ) && stack[s].zoom <= z
}

/// The lead entry is the lift of a subquery at zoom `z` and every other
/// entry comes from a subquery at or below `z`.
pub open spec fn ctx_lead_at_zoom(
    c: CoalesceContext,
    stack: Seq<PhrasematchSubquery>,
    z: u16,
) -> bool {
    (exists|s: int, g: int|
        0 <= s < stack.len() && 0 <= g < stack[s].grids.len() && c.entries[0] == spec_lift(
            stack[s].grids@[g],
            stack[s],
        ) && stack[s].zoom == z) && (forall|k: int|
        1 <= k < c.entries.len() ==> entry_lift_below(#[trigger] c.entries[k], stack, z))
}

/// The lead entry's subquery zoom dominates every other entry's.
pub open spec fn ctx_lead_deepest(c: CoalesceContext, stack: Seq<PhrasematchSubquery>) -> bool {
    exists|z: u16| ctx_lead_at_zoom(c, stack, z)
}

proof fn lemma_parent_entry_below(
    c: CoalesceContext,
    stack: Seq<PhrasematchSubquery>,
    z: u16,
    q: int,
)
    requires
        ctx_lead_at_zoom(c, stack, z),
        0 <= q < c.entries.len(),
    ensures
        entry_lift_below(c.entries[q], stack, z),
{
    if q == 0 {
        let (si, gi): (int, int) = choose|si: int, gi: int|
            0 <= si < stack.len() && 0 <= gi < stack[si].grids.len() && c.entries[0] == spec_lift(
                stack[si].grids@[gi],
                stack[si],
            ) && stack[si].zoom == z;
        assert(0 <= si < stack.len() && 0 <= gi < stack[si].grids.len() && c.entries[q]
            == spec_lift(stack[si].grids@[gi], stack[si]) && stack[si].zoom <= z);
    }
}

proof fn lemma_below_mono(e: CoalesceEntry, stack: Seq<PhrasematchSubquery>, z1: u16, z2: u16)
    requires
        entry_lift_below(e, stack, z1),
        z1 <= z2,
    ensures
        entry_lift_below(e, stack, z2),
{
    let (si, gi): (int, int) = choose|si: int, gi: int|
        0 <= si < stack.len() && 0 <= gi < stack[si].grids.len() && e == spec_lift(
            stack[si].grids@[gi],
            stack[si],
        ) && stack[si].zoom <= z1;
    assert(0 <= si < stack.len() && 0 <= gi < stack[si].grids.len() && e == spec_lift(
        stack[si].grids@[gi],
        stack[si],
    ) && stack[si].zoom <= z2);
}

/// The context's relevance accounts exactly for its entries: the sum of
/// their weighted relevances, less the small penalty at most once, and a
/// penalty only on the penalizable shapes (a lone entry, or a lead mask
/// above its first parent's).
pub open spec fn ctx_relev_accounted(c: CoalesceContext) -> bool {
    (c.relev == sum_relev(c.entries@) || c.relev == sum_relev(c.entries@) - STACK_PENALTY) && ((
    c.entries.len() > 1 && !(c.entries[0].mask > c.entries[1].mask)) ==> c.relev == sum_relev(
        c.entries@,
    ))
}

/// Exact shape of a context accumulated in the map under a key at zoom
/// `z`, when every phrase mask is nonzero: no penalty yet, the mask is
/// exactly the OR of the entries' masks, and the lead sits at the key's
/// zoom.
pub open spec fn ctx_exact_at(c: CoalesceContext, stack: Seq<PhrasematchSubquery>, z: u16) -> bool {
    c.relev == sum_relev(c.entries@) && c.mask == or_masks(c.entries@) && ctx_lead_at_zoom(
        c,
        stack,
        z,
    )
}

/// What holds of every context accumulated in the zoom map.
pub open spec fn stored_ctx_wf(
    c: CoalesceContext,
    stack: Seq<PhrasematchSubquery>,
    z: u16,
    nz: bool,
) -> bool {
    multi_ctx_wf(c, stack) && ctx_entries_capped(c, stack) && (nz ==> ctx_exact_at(c, stack, z))
}

/// What holds of every context the multi-phrase path emits.
pub open spec fn out_ctx_wf(c: CoalesceContext, stack: Seq<PhrasematchSubquery>, nz: bool) -> bool {
    multi_ctx_wf(c, stack) && ctx_entries_capped(c, stack) && (nz ==> ctx_relev_accounted(c)
        && c.mask == or_masks(c.entries@) && ctx_lead_deepest(c, stack))
}

/// Some accumulated or emitted context accounts for the running maximum
/// relevance: a stored context at or above it, or an emitted one at most
/// the stacking penalty below it.
pub open spec fn relev_witnessed(
    vals: Seq<Vec<CoalesceContext>>,
    contexts: Seq<CoalesceContext>,
    m: i64,
) -> bool {
    (exists|v: int, c: int|
        0 <= v < vals.len() && 0 <= c < vals[v]@.len() && vals[v]@[c].relev >= m) || (exists|k: int|
        0 <= k < contexts.len() && contexts[k].relev + STACK_PENALTY >= m)
}

/// The zoom packed into a map key's top bits.
pub open spec fn key_zoom(k: u64) -> u16 {
    (k >> 32) as u16
}

/// The accumulated-zoom map is well formed: keys and buckets aligned, and
/// every stored context well formed under its key's zoom.
pub open spec fn map_ok(
    keys: Seq<u64>,
    vals: Seq<Vec<CoalesceContext>>,
    stack: Seq<PhrasematchSubquery>,
    nz: bool,
) -> bool {
    keys.len() == vals.len() && forall|v: int, c: int|
        0 <= v < vals.len() && 0 <= c < vals[v]@.len() ==> stored_ctx_wf(
            #[trigger] vals[v]@[c],
            stack,
            key_zoom(keys[v]),
            nz,
        )
}

/// Pack a (zoom, x, y) tile address into one map key.
fn zxy_key(z: u16, x: u16, y: u16) -> (r: u64)
    ensures
        key_zoom(r) == z,
{
    let z64: u64 = z as u64;
    let x64: u64 = x as u64;
    let y64: u64 = y as u64;
    proof {
        assert(z64 < 0x10000 && x64 < 0x10000 && y64 < 0x10000 ==> (((z64 << 32) | (x64 << 16)
            | y64) >> 32) == z64) by (bit_vector);
    }
    (z64 << 32) | (x64 << 16) | y64
}

/// Stack grids from phrases at multiple zoom levels: walk the stack in
/// ascending (zoom, idx) order, join each grid to accumulated contexts of
/// broader compatible zooms by tile containment, aggregate masks and
/// relevance, penalize unstacked and mask-inverted final contexts, window
/// against the best relevance seen, and sort.
fn coalesce_multi(stack: &Vec<PhrasematchSubquery>, match_opts: &MatchOpts) -> (r: Vec<
    CoalesceContext,
>)
    requires
        stack@.len() >= 1,
        wf_stack(stack@),
        forall|i: int| 0 <= i < stack@.len() ==> match_opts.can_adjust(#[trigger] stack@[i].zoom),
    ensures
        ctx_sorted(r@, true),
        all_have_entry(r@),
        forall|i: int| 0 <= i < r@.len() ==> out_ctx_wf(
            #[trigger] r@[i],
            stack@,
            stack_masks_nonzero(stack@),
        ),
        stack@.len() == 2 && (stack@[0].grids.len() >= 1 || stack@[1].grids.len() >= 1)
            ==> r@.len() >= 1,
{
    let ghost nz = stack_masks_nonzero(stack@);
    let order = sorted_order(stack);
    let ghost mut built: bool = false;
    let mut keys: Vec<u64> = Vec::new();
    let mut vals: Vec<Vec<CoalesceContext>> = Vec::new();
    let mut contexts: Vec<CoalesceContext> = Vec::new();
    let mut max_relev: i64 = 0;

    let mut i: usize = 0;
    while i < order.len()
        invariant
            nz == stack_masks_nonzero(stack@),
            order@.len() == stack@.len(),
            forall|k: int| 0 <= k < order@.len() ==> #[trigger] order@[k] < stack@.len(),
            wf_stack(stack@),
            forall|k: int| 0 <= k < stack@.len() ==> match_opts.can_adjust(
                #[trigger] stack@[k].zoom,
            ),
            map_ok(keys@, vals@, stack@, nz),
            forall|k: int| 0 <= k < contexts@.len() ==> out_ctx_wf(
                #[trigger] contexts@[k],
                stack@,
                nz,
            ),
            0 <= max_relev,
            0 < max_relev ==> built,
            forall|k: int| 0 <= k < i && stack@[#[trigger] order@[k] as int].grids.len() >= 1
                ==> built,
            order@.len() == 2 && built ==> relev_witnessed(vals@, contexts@, max_relev),
        decreases order@.len() - i,
    {
        let sqi = order[i];
        let czooms = compatible_zooms(stack, &order, i);
        let adjusted = match_opts.adjust_to_zoom(stack[sqi].zoom);
        let is_last = i == order.len() - 1;
        let sq = &stack[sqi];
        let grid_count = if sq.grids.len() < MULTI_GRID_LIMIT {
            sq.grids.len()
        } else {
            MULTI_GRID_LIMIT
        };

        let mut g: usize = 0;
        while g < grid_count
            invariant
                nz == stack_masks_nonzero(stack@),
                order@.len() == stack@.len(),
                forall|k: int| 0 <= k < order@.len() ==> #[trigger] order@[k] < stack@.len(),
                wf_stack(stack@),
                i < order@.len(),
                sqi == order@[i as int],
                sq == &stack[sqi as int],
                grid_count <= sq.grids@.len(),
                grid_count <= MULTI_GRID_LIMIT,
                adjusted.zoom == stack@[sqi as int].zoom,
                forall|k: int| 0 <= k < czooms@.len() ==> #[trigger] czooms@[k]
                    <= stack@[sqi as int].zoom,
                map_ok(keys@, vals@, stack@, nz),
                forall|k: int| 0 <= k < contexts@.len() ==> out_ctx_wf(
                    #[trigger] contexts@[k],
                    stack@,
                    nz,
                ),
                is_last == (i + 1 == order@.len()),
                0 <= max_relev,
                g >= 1 ==> built,
                0 < max_relev ==> built,
                forall|k: int| 0 <= k < i && stack@[#[trigger] order@[k] as int].grids.len() >= 1
                    ==> built,
                order@.len() == 2 && built ==> relev_witnessed(vals@, contexts@, max_relev),
            decreases grid_count - g,
        {
            let ghost vals0 = vals@;
            let ghost ctxs0 = contexts@;
            let ghost built0 = built;
            let entry = grid_to_coalesce_entry(&sq.grids[g], sq, &adjusted);
            let zxy = zxy_key(sq.zoom, sq.grids[g].grid_entry.x, sq.grids[g].grid_entry.y);

            let mut context_mask: u32 = entry.mask;
            let mut context_relev: i64 = entry.grid_entry.relev as i64;
            let mut entries: Vec<CoalesceEntry> = Vec::new();
            entries.push(entry);
            proof {
                lemma_bits_or_basics(entry.mask, 0);
                assert(entry.mask | context_mask == context_mask);
                assert(entry == spec_lift(stack@[sqi as int].grids@[g as int], stack@[sqi as int]));
                assert(entry_is_lift_capped(entries@[0], stack@));
                assert(entries@.drop_last() =~= Seq::<CoalesceEntry>::empty());
                assert(sum_relev(Seq::<CoalesceEntry>::empty()) == 0);
                assert(or_masks(Seq::<CoalesceEntry>::empty()) == 0u32);
                assert(sum_relev(entries@) == entry.grid_entry.relev);
                lemma_zero_mask_disjoint(entry.mask);
                assert(or_masks(entries@) == entry.mask);
                if nz {
                    assert(entry.mask == stack@[sqi as int].mask);
                    assert(entry.mask != 0);
                    lemma_popcnt_nonzero(context_mask);
                }
            }

            let mut z: usize = 0;
            while z < czooms.len()
                invariant
                    nz == stack_masks_nonzero(stack@),
                    wf_stack(stack@),
                    sqi < stack@.len(),
                    sq == &stack[sqi as int],
                    forall|k: int| 0 <= k < czooms@.len() ==> #[trigger] czooms@[k]
                        <= stack@[sqi as int].zoom,
                    map_ok(keys@, vals@, stack@, nz),
                    entries@.len() >= 1,
                    forall|k: int| 0 <= k < entries@.len() ==> wf_entry(#[trigger] entries@[k]),
                    forall|k: int| 0 <= k < entries@.len() ==> entry_is_lift_capped(
                        #[trigger] entries@[k],
                        stack@,
                    ),
                    entries_disjoint(entries@),
                    entries_under_mask(entries@, context_mask),
                    0 <= context_relev,
                    nz ==> context_relev == sum_relev(entries@),
                    nz ==> context_mask == or_masks(entries@),
                    nz ==> entries@.len() <= popcnt(context_mask),
                    nz ==> entries@[0] == entry,
                    nz ==> forall|k: int|
                        1 <= k < entries@.len() ==> entry_lift_below(
                            #[trigger] entries@[k],
                            stack@,
                            stack@[sqi as int].zoom,
                        ),
                decreases czooms@.len() - z,
            {
                let other_zoom = czooms[z];
                let d = sq.zoom - other_zoom;
                let px = crate::common::div_pow2_u16(entries[0].grid_entry.x, d);
                let py = crate::common::div_pow2_u16(entries[0].grid_entry.y, d);
                let pkey = zxy_key(other_zoom, px, py);

                match find_key(&keys, pkey) {
                    Some(vi) => {
                        let mut prev_mask: u32 = 0;
                        let mut prev_relev: i64 = 0;
                        let mut p: usize = 0;
                        while p < vals[vi].len()
                            invariant
                                nz == stack_masks_nonzero(stack@),
                                wf_stack(stack@),
                                sqi < stack@.len(),
                                map_ok(keys@, vals@, stack@, nz),
                                vi < vals@.len(),
                                keys@[vi as int] == pkey,
                                key_zoom(pkey) == other_zoom,
                                other_zoom <= stack@[sqi as int].zoom,
                                entries@.len() >= 1,
                                forall|k: int| 0 <= k < entries@.len() ==> wf_entry(
                                    #[trigger] entries@[k],
                                ),
                                forall|k: int| 0 <= k < entries@.len() ==> entry_is_lift_capped(
                                    #[trigger] entries@[k],
                                    stack@,
                                ),
                                entries_disjoint(entries@),
                                entries_under_mask(entries@, context_mask),
                                0 <= context_relev,
                                0 <= prev_relev <= RELEV_UNIT,
                                nz ==> context_relev == sum_relev(entries@),
                                nz ==> context_mask == or_masks(entries@),
                                nz ==> entries@.len() <= popcnt(context_mask),
                                nz ==> entries@[0] == entry,
                                nz ==> forall|k: int|
                                    1 <= k < entries@.len() ==> entry_lift_below(
                                        #[trigger] entries@[k],
                                        stack@,
                                        stack@[sqi as int].zoom,
                                    ),
                                prev_mask == 0 && prev_relev == 0 || entries@.last().mask
                                    == prev_mask,
                                nz ==> (prev_mask == 0 && prev_relev == 0 || (entries@.len() >= 2
                                    && entries@.last().mask == prev_mask
                                    && entries@.last().grid_entry.relev == prev_relev)),
                            decreases vals@[vi as int]@.len() - p,
                        {
                            let mut q: usize = 0;
                            while q < vals[vi][p].entries.len()
                                invariant
                                    nz == stack_masks_nonzero(stack@),
                                    wf_stack(stack@),
                                    sqi < stack@.len(),
                                    map_ok(keys@, vals@, stack@, nz),
                                    vi < vals@.len(),
                                    p < vals@[vi as int]@.len(),
                                    keys@[vi as int] == pkey,
                                    key_zoom(pkey) == other_zoom,
                                    other_zoom <= stack@[sqi as int].zoom,
                                    entries@.len() >= 1,
                                    forall|k: int| 0 <= k < entries@.len() ==> wf_entry(
                                        #[trigger] entries@[k],
                                    ),
                                    forall|k: int| 0 <= k < entries@.len() ==> entry_is_lift_capped(
                                        #[trigger] entries@[k],
                                        stack@,
                                    ),
                                    entries_disjoint(entries@),
                                    entries_under_mask(entries@, context_mask),
                                    0 <= context_relev,
                                    0 <= prev_relev <= RELEV_UNIT,
                                    nz ==> context_relev == sum_relev(entries@),
                                    nz ==> context_mask == or_masks(entries@),
                                    nz ==> entries@.len() <= popcnt(context_mask),
                                    nz ==> entries@[0] == entry,
                                    nz ==> forall|k: int|
                                        1 <= k < entries@.len() ==> entry_lift_below(
                                            #[trigger] entries@[k],
                                            stack@,
                                            stack@[sqi as int].zoom,
                                        ),
                                    prev_mask == 0 && prev_relev == 0 || entries@.last().mask
                                        == prev_mask,
                                    nz ==> (prev_mask == 0 && prev_relev == 0 || (entries@.len()
                                        >= 2 && entries@.last().mask == prev_mask
                                        && entries@.last().grid_entry.relev == prev_relev)),
                                decreases vals@[vi as int]@[p as int].entries@.len() - q,
                            {
                                let pe: CoalesceEntry = vals[vi][p].entries[q];
                                proof {
                                    assert(stored_ctx_wf(
                                        vals@[vi as int]@[p as int],
                                        stack@,
                                        key_zoom(keys@[vi as int]),
                                        nz,
                                    ));
                                    assert(multi_ctx_wf(vals@[vi as int]@[p as int], stack@));
                                    assert(wf_entry(pe));
                                    assert(entry_is_lift(pe, stack@));
                                    assert(entry_is_lift_capped(pe, stack@));
                                    if nz {
                                        lemma_parent_entry_below(
                                            vals@[vi as int]@[p as int],
                                            stack@,
                                            other_zoom,
                                            q as int,
                                        );
                                        lemma_below_mono(
                                            pe,
                                            stack@,
                                            other_zoom,
                                            stack@[sqi as int].zoom,
                                        );
                                        lemma_lift_mask_nonzero(pe, stack@);
                                    }
                                }
                                if pe.mask == prev_mask && (pe.grid_entry.relev as i64)
                                    > prev_relev {
                                    let ghost pentries = entries@;
                                    let ghost pre_relev = context_relev;
                                    let _ = entries.pop();
                                    entries.push(pe);
                                    context_relev = sat_sub(context_relev, prev_relev);
                                    context_relev = sat_add(
                                        context_relev,
                                        pe.grid_entry.relev as i64,
                                    );
                                    proof {
                                        let ne = entries@;
                                        assert(ne == pentries.drop_last().push(pe));
                                        assert(ne.len() == pentries.len());
                                        assert(ne.drop_last() =~= pentries.drop_last());
                                        assert(ne.last() == pe);
                                        assert(0 <= context_relev);
                                        lemma_sum_or_push(pentries.drop_last(), pe);
                                        if nz {
                                            lemma_lift_mask_nonzero(pe, stack@);
                                            assert(!(prev_mask == 0 && prev_relev == 0));
                                            assert(pentries.len() >= 2 && pentries.last().mask
                                                == prev_mask && pentries.last().grid_entry.relev
                                                == prev_relev);
                                            assert(ne[0] == pentries[0]);
                                            assert(forall|k: int|
                                                0 <= k < pentries.len() ==> wf_entry(
                                                    #[trigger] pentries[k],
                                                ));
                                            lemma_sum_relev_bounds(pentries);
                                            lemma_popcnt_rec_le(context_mask, 32);
                                            assert(sum_relev(pentries) == sum_relev(
                                                pentries.drop_last(),
                                            ) + pentries.last().grid_entry.relev);
                                            assert(pre_relev <= 1000 * 32);
                                            assert(context_relev == pre_relev - prev_relev
                                                + pe.grid_entry.relev);
                                            assert(context_relev == sum_relev(ne));
                                            assert(or_masks(ne) == or_masks(pentries.drop_last())
                                                | pe.mask);
                                            assert(or_masks(pentries) == or_masks(
                                                pentries.drop_last(),
                                            ) | pentries.last().mask);
                                            assert(or_masks(ne) == context_mask);
                                            assert forall|k: int|
                                                1 <= k < ne.len() implies entry_lift_below(
                                                #[trigger] ne[k],
                                                stack@,
                                                stack@[sqi as int].zoom,
                                            ) by {
                                                if k < ne.len() - 1 {
                                                    assert(ne[k] == pentries[k]);
                                                } else {
                                                    assert(ne[k] == pe);
                                                }
                                            }
                                        }
                                        if pentries.last().mask == prev_mask {
                                            assert forall|a: int, b: int|
                                                0 <= a < b < ne.len() implies ne[a].mask & ne[b].mask
                                                == 0 by {
                                                if b == ne.len() - 1 {
                                                    assert(ne[a] == pentries[a]);
                                                    assert(pentries[a].mask & pentries[pentries.len()
                                                        - 1].mask == 0);
                                                    assert(ne[b].mask == pentries.last().mask);
                                                } else {
                                                    assert(ne[a] == pentries[a] && ne[b]
                                                        == pentries[b]);
                                                }
                                            }
                                            assert(entries_under_mask(ne, context_mask)) by {
                                                assert forall|k: int|
                                                    0 <= k < ne.len() implies (#[trigger] ne[k].mask)
                                                    | context_mask == context_mask by {
                                                    if k < ne.len() - 1 {
                                                        assert(ne[k] == pentries[k]);
                                                    } else {
                                                        assert(ne[k].mask == pentries[pentries.len()
                                                            - 1].mask);
                                                    }
                                                }
                                            }
                                        } else {
                                            assert(prev_mask == 0 && prev_relev == 0);
                                            assert(pe.mask == 0);
                                            assert forall|a: int, b: int|
                                                0 <= a < b < ne.len() implies ne[a].mask & ne[b].mask
                                                == 0 by {
                                                if b == ne.len() - 1 {
                                                    lemma_zero_mask_disjoint(ne[a].mask);
                                                } else {
                                                    assert(ne[a] == pentries[a] && ne[b]
                                                        == pentries[b]);
                                                }
                                            }
                                            assert(entries_under_mask(ne, context_mask)) by {
                                                assert forall|k: int|
                                                    0 <= k < ne.len() implies (#[trigger] ne[k].mask)
                                                    | context_mask == context_mask by {
                                                    if k < ne.len() - 1 {
                                                        assert(ne[k] == pentries[k]);
                                                    } else {
                                                        lemma_zero_mask_disjoint(context_mask);
                                                    }
                                                }
                                            }
                                        }
                                    }
                                    prev_mask = pe.mask;
                                    prev_relev = pe.grid_entry.relev as i64;
                                } else {
                                    let stacks_clean = context_mask & pe.mask == 0;
                                    if stacks_clean {
                                        let ghost pentries = entries@;
                                        let ghost pre_relev = context_relev;
                                        entries.push(pe);
                                        context_relev = sat_add(
                                            context_relev,
                                            pe.grid_entry.relev as i64,
                                        );
                                        let new_mask = context_mask | pe.mask;
                                        proof {
                                            let ne = entries@;
                                            lemma_sum_or_push(pentries, pe);
                                            assert(0 <= context_relev);
                                            if nz {
                                                lemma_lift_mask_nonzero(pe, stack@);
                                                lemma_popcnt_rec_or(context_mask, pe.mask, 32);
                                                lemma_popcnt_nonzero(pe.mask);
                                                lemma_popcnt_rec_le(new_mask, 32);
                                                lemma_popcnt_rec_le(context_mask, 32);
                                                assert(forall|k: int|
                                                    0 <= k < pentries.len() ==> wf_entry(
                                                        #[trigger] pentries[k],
                                                    ));
                                                lemma_sum_relev_bounds(pentries);
                                                assert(pre_relev <= 1000 * 32);
                                                assert(context_relev == pre_relev
                                                    + pe.grid_entry.relev);
                                                assert(context_relev == sum_relev(ne));
                                                assert(or_masks(ne) == new_mask);
                                                assert(ne.len() <= popcnt(new_mask));
                                                assert(ne[0] == pentries[0]);
                                                assert forall|k: int|
                                                    1 <= k < ne.len() implies entry_lift_below(
                                                    #[trigger] ne[k],
                                                    stack@,
                                                    stack@[sqi as int].zoom,
                                                ) by {
                                                    if k < ne.len() - 1 {
                                                        assert(ne[k] == pentries[k]);
                                                    } else {
                                                        assert(ne[k] == pe);
                                                    }
                                                }
                                            }
                                            assert forall|a: int, b: int|
                                                0 <= a < b < ne.len() implies ne[a].mask & ne[b].mask
                                                == 0 by {
                                                if b == ne.len() - 1 {
                                                    lemma_bits_disjoint_of_subset(
                                                        ne[a].mask,
                                                        context_mask,
                                                        pe.mask,
                                                    );
                                                } else {
                                                    assert(ne[a] == pentries[a] && ne[b]
                                                        == pentries[b]);
                                                }
                                            }
                                            assert(entries_under_mask(ne, new_mask)) by {
                                                assert forall|k: int|
                                                    0 <= k < ne.len() implies (#[trigger] ne[k].mask)
                                                    | new_mask == new_mask by {
                                                    if k < ne.len() - 1 {
                                                        lemma_bits_subset_grows(
                                                            ne[k].mask,
                                                            context_mask,
                                                            pe.mask,
                                                        );
                                                    } else {
                                                        lemma_bits_or_basics(pe.mask, context_mask);
                                                    }
                                                }
                                            }
                                        }
                                        context_mask = new_mask;
                                        prev_mask = pe.mask;
                                        prev_relev = pe.grid_entry.relev as i64;
                                    }
                                }
                                q = q + 1;
                            }
                            p = p + 1;
                        }
                    },
                    None => {},
                }
                z = z + 1;
            }

            let ghost pre_max = max_relev;
            if context_relev > max_relev {
                max_relev = context_relev;
            }
            proof {
                built = true;
            }

            proof {
                lemma_capped_entries_lift(entries@, stack@);
                if nz {
                    assert(forall|k: int|
                        0 <= k < entries@.len() ==> wf_entry(#[trigger] entries@[k]));
                    lemma_sum_relev_bounds(entries@);
                    lemma_popcnt_rec_le(context_mask, 32);
                    assert(context_relev <= 1000 * 32);
                    assert(ctx_lead_at_zoom(
                        CoalesceContext { entries: entries, mask: context_mask, relev: 0 },
                        stack@,
                        stack@[sqi as int].zoom,
                    )) by {
                        assert(entries@[0] == entry);
                        assert(entry == spec_lift(
                            stack@[sqi as int].grids@[g as int],
                            stack@[sqi as int],
                        ));
                        assert(stack@[sqi as int].zoom == stack@[sqi as int].zoom);
                    }
                }
            }
            let ghost es = entries@;
            let ghost pre_penalty = context_relev;

            if is_last {
                if entries.len() == 1 {
                    // no stacking at all: slightly penalized
                    context_relev = sat_sub(context_relev, STACK_PENALTY);
                } else if entries[0].mask > entries[1].mask {
                    // lead entry covers higher-bit tokens than its parent
                    context_relev = sat_sub(context_relev, STACK_PENALTY);
                }
                if sat_sub(max_relev, context_relev) < RELEVANCE_WINDOW {
                    let ctx = CoalesceContext {
                        entries,
                        mask: context_mask,
                        relev: context_relev,
                    };
                    proof {
                        assert(ctx.entries@ == es);
                        assert(multi_ctx_wf(ctx, stack@));
                        assert(ctx_entries_capped(ctx, stack@));
                        if nz {
                            assert(ctx.relev == sum_relev(es) || ctx.relev == sum_relev(es)
                                - STACK_PENALTY);
                            assert(es.len() > 1 && !(es[0].mask > es[1].mask) ==> ctx.relev
                                == sum_relev(es));
                            assert(ctx_relev_accounted(ctx));
                            assert(ctx.mask == or_masks(es));
                            assert(ctx_lead_at_zoom(ctx, stack@, stack@[sqi as int].zoom));
                            assert(ctx_lead_deepest(ctx, stack@));
                        }
                        assert(out_ctx_wf(ctx, stack@, nz));
                    }
                    contexts.push(ctx);
                    proof {
                        if order@.len() == 2 {
                            assert(ctx.relev >= pre_penalty - STACK_PENALTY);
                            if pre_penalty >= pre_max {
                                assert(contexts@[contexts@.len() - 1] == ctx);
                                assert(ctx.relev + STACK_PENALTY >= max_relev);
                                assert(relev_witnessed(vals@, contexts@, max_relev));
                            } else {
                                assert(max_relev == pre_max);
                                assert(built0);
                                assert(relev_witnessed(vals0, ctxs0, pre_max));
                                if exists|v: int, c: int|
                                    0 <= v < vals0.len() && 0 <= c < vals0[v]@.len()
                                        && vals0[v]@[c].relev >= pre_max {
                                    let (v0, c0): (int, int) = choose|v0: int, c0: int|
                                        0 <= v0 < vals0.len() && 0 <= c0 < vals0[v0]@.len()
                                            && vals0[v0]@[c0].relev >= pre_max;
                                    assert(vals@[v0]@[c0].relev >= max_relev);
                                } else {
                                    let k0 = choose|k0: int|
                                        0 <= k0 < ctxs0.len() && ctxs0[k0].relev + STACK_PENALTY
                                            >= pre_max;
                                    assert(contexts@[k0].relev + STACK_PENALTY >= max_relev);
                                }
                                assert(relev_witnessed(vals@, contexts@, max_relev));
                            }
                        }
                    }
                } else {
                    proof {
                        if order@.len() == 2 {
                            assert(max_relev == pre_max) by {
                                if max_relev != pre_max {
                                    assert(max_relev == pre_penalty);
                                    assert(context_relev >= pre_penalty - STACK_PENALTY);
                                    assert(false);
                                }
                            }
                            if built0 {
                                assert(vals@ == vals0 && contexts@ == ctxs0);
                                assert(relev_witnessed(vals@, contexts@, max_relev));
                            } else {
                                assert(pre_max == 0);
                                assert(context_relev >= pre_penalty - STACK_PENALTY);
                                assert(context_relev >= 0 - STACK_PENALTY);
                                assert(false);
                            }
                        }
                    }
                }
            } else if i == 0 || entries.len() > 1 {
                let ctx = CoalesceContext { entries, mask: context_mask, relev: context_relev };
                proof {
                    assert(ctx.entries@ == es);
                    assert(multi_ctx_wf(ctx, stack@));
                    assert(ctx_entries_capped(ctx, stack@));
                    if nz {
                        assert(ctx.relev == sum_relev(es));
                        assert(ctx.mask == or_masks(es));
                        assert(ctx_lead_at_zoom(ctx, stack@, stack@[sqi as int].zoom));
                        assert(ctx_exact_at(ctx, stack@, stack@[sqi as int].zoom));
                    }
                    assert(stored_ctx_wf(ctx, stack@, key_zoom(zxy), nz));
                }
                match find_key(&keys, zxy) {
                    Some(vi) => {
                        let ghost pkeys = keys@;
                        let ghost pvals = vals@;
                        let moved_key = keys.swap_remove(vi);
                        let mut bucket = vals.swap_remove(vi);
                        bucket.push(ctx);
                        keys.push(moved_key);
                        vals.push(bucket);
                        proof {
                            let kshrunk = pkeys.update(vi as int, pkeys.last()).drop_last();
                            let shrunk = pvals.update(vi as int, pvals.last()).drop_last();
                            assert(vals@.last()@ == pvals[vi as int]@.push(ctx));
                            assert(keys@.last() == pkeys[vi as int]);
                            assert(keys@.len() == vals@.len());
                            assert forall|v: int, c: int|
                                0 <= v < vals@.len() && 0 <= c < vals@[v]@.len() implies stored_ctx_wf(
                                #[trigger] vals@[v]@[c],
                                stack@,
                                key_zoom(keys@[v]),
                                nz,
                            ) by {
                                if v < vals@.len() - 1 {
                                    assert(vals@[v] == shrunk[v]);
                                    assert(keys@[v] == kshrunk[v]);
                                    if v == vi as int {
                                        assert(shrunk[v] == pvals[pvals.len() - 1]);
                                        assert(kshrunk[v] == pkeys[pkeys.len() - 1]);
                                        assert(stored_ctx_wf(
                                            pvals[pvals.len() - 1]@[c],
                                            stack@,
                                            key_zoom(pkeys[pkeys.len() - 1]),
                                            nz,
                                        ));
                                    } else {
                                        assert(shrunk[v] == pvals[v]);
                                        assert(kshrunk[v] == pkeys[v]);
                                        assert(stored_ctx_wf(
                                            pvals[v]@[c],
                                            stack@,
                                            key_zoom(pkeys[v]),
                                            nz,
                                        ));
                                    }
                                } else {
                                    assert(keys@[v] == pkeys[vi as int]);
                                    assert(pkeys[vi as int] == zxy);
                                    assert(vals@[v]@ == pvals[vi as int]@.push(ctx));
                                    if c < vals@[v]@.len() - 1 {
                                        assert(vals@[v]@[c] == pvals[vi as int]@[c]);
                                        assert(stored_ctx_wf(
                                            pvals[vi as int]@[c],
                                            stack@,
                                            key_zoom(pkeys[vi as int]),
                                            nz,
                                        ));
                                    } else {
                                        assert(vals@[v]@[c] == ctx);
                                    }
                                }
                            }
                            if order@.len() == 2 {
                                if pre_penalty >= pre_max {
                                    let lv = vals@.len() - 1;
                                    assert(vals@[lv]@[vals@[lv]@.len() - 1] == ctx);
                                    assert(ctx.relev >= max_relev);
                                    assert(relev_witnessed(vals@, contexts@, max_relev));
                                } else {
                                    assert(max_relev == pre_max);
                                    assert(built0);
                                    assert(relev_witnessed(vals0, ctxs0, pre_max));
                                    if exists|v: int, c: int|
                                        0 <= v < vals0.len() && 0 <= c < vals0[v]@.len()
                                            && vals0[v]@[c].relev >= pre_max {
                                        let (v0, c0): (int, int) = choose|v0: int, c0: int|
                                            0 <= v0 < vals0.len() && 0 <= c0 < vals0[v0]@.len()
                                                && vals0[v0]@[c0].relev >= pre_max;
                                        if v0 == vi as int {
                                            assert(vals@[vals@.len() - 1]@[c0] == vals0[v0]@[c0]);
                                        } else if v0 == vals0.len() - 1 {
                                            assert(vals@[vi as int] == shrunk[vi as int]);
                                            assert(vals@[vi as int]@[c0] == vals0[v0]@[c0]);
                                        } else {
                                            assert(vals@[v0] == shrunk[v0]);
                                            assert(vals@[v0]@[c0] == vals0[v0]@[c0]);
                                        }
                                    }
                                    assert(relev_witnessed(vals@, contexts@, max_relev));
                                }
                            }
                        }
                    },
                    None => {
                        keys.push(zxy);
                        let mut bucket: Vec<CoalesceContext> = Vec::new();
                        bucket.push(ctx);
                        let ghost pkeys = keys@;
                        let ghost pvals = vals@;
                        vals.push(bucket);
                        proof {
                            assert(keys@.len() == vals@.len());
                            assert forall|v: int, c: int|
                                0 <= v < vals@.len() && 0 <= c < vals@[v]@.len() implies stored_ctx_wf(
                                #[trigger] vals@[v]@[c],
                                stack@,
                                key_zoom(keys@[v]),
                                nz,
                            ) by {
                                if v < vals@.len() - 1 {
                                    assert(vals@[v] == pvals[v]);
                                    assert(keys@[v] == pkeys[v]);
                                    assert(stored_ctx_wf(
                                        pvals[v]@[c],
                                        stack@,
                                        key_zoom(pkeys[v]),
                                        nz,
                                    ));
                                } else {
                                    assert(keys@[v] == zxy);
                                    assert(vals@[v]@[c] == ctx);
                                }
                            }
                            if order@.len() == 2 {
                                if pre_penalty >= pre_max {
                                    assert(vals@[vals@.len() - 1]@[0] == ctx);
                                    assert(ctx.relev >= max_relev);
                                    assert(relev_witnessed(vals@, contexts@, max_relev));
                                } else {
                                    assert(max_relev == pre_max);
                                    assert(built0);
                                    assert(relev_witnessed(vals0, ctxs0, pre_max));
                                    if exists|v: int, c: int|
                                        0 <= v < vals0.len() && 0 <= c < vals0[v]@.len()
                                            && vals0[v]@[c].relev >= pre_max {
                                        let (v0, c0): (int, int) = choose|v0: int, c0: int|
                                            0 <= v0 < vals0.len() && 0 <= c0 < vals0[v0]@.len()
                                                && vals0[v0]@[c0].relev >= pre_max;
                                        assert(vals@[v0] == vals0[v0]);
                                        assert(vals@[v0]@[c0].relev >= max_relev);
                                    }
                                    assert(relev_witnessed(vals@, contexts@, max_relev));
                                }
                            }
                        }
                    },
                }
            }
            g = g + 1;
        }
        i = i + 1;
    }

    while vals.len() > 0
        invariant
            nz == stack_masks_nonzero(stack@),
            wf_stack(stack@),
            map_ok(keys@, vals@, stack@, nz),
            forall|k: int| 0 <= k < contexts@.len() ==> out_ctx_wf(
                #[trigger] contexts@[k],
                stack@,
                nz,
            ),
            0 <= max_relev,
            order@.len() == 2 && built ==> relev_witnessed(vals@, contexts@, max_relev),
        decreases vals@.len(),
    {
        let ghost pkeys = keys@;
        let ghost pvals = vals@;
        let ghost zk = key_zoom(pkeys[pkeys.len() - 1]);
        let _ = keys.pop();
        let bucket_opt = vals.pop();
        let mut bucket = match bucket_opt {
            Some(b) => b,
            None => Vec::new(),
        };
        proof {
            assert forall|c: int| 0 <= c < bucket@.len() implies stored_ctx_wf(
                #[trigger] bucket@[c],
                stack@,
                zk,
                nz,
            ) by {
                assert(bucket@[c] == pvals[pvals.len() - 1]@[c]);
            }
            assert forall|v: int, c: int|
                0 <= v < vals@.len() && 0 <= c < vals@[v]@.len() implies stored_ctx_wf(
                #[trigger] vals@[v]@[c],
                stack@,
                key_zoom(keys@[v]),
                nz,
            ) by {
                assert(vals@[v] == pvals[v]);
                assert(keys@[v] == pkeys[v]);
            }
            if order@.len() == 2 && built {
                if exists|v: int, c: int|
                    0 <= v < pvals.len() && 0 <= c < pvals[v]@.len() && pvals[v]@[c].relev
                        >= max_relev {
                    let (v0, c0): (int, int) = choose|v0: int, c0: int|
                        0 <= v0 < pvals.len() && 0 <= c0 < pvals[v0]@.len() && pvals[v0]@[c0].relev
                            >= max_relev;
                    if v0 < pvals.len() - 1 {
                        assert(vals@[v0]@[c0].relev >= max_relev);
                    } else {
                        assert(bucket@[c0].relev >= max_relev);
                    }
                }
            }
        }
        while bucket.len() > 0
            invariant
                nz == stack_masks_nonzero(stack@),
                wf_stack(stack@),
                forall|c: int| 0 <= c < bucket@.len() ==> stored_ctx_wf(
                    #[trigger] bucket@[c],
                    stack@,
                    zk,
                    nz,
                ),
                forall|k: int| 0 <= k < contexts@.len() ==> out_ctx_wf(
                    #[trigger] contexts@[k],
                    stack@,
                    nz,
                ),
                0 <= max_relev,
                order@.len() == 2 && built ==> relev_witnessed(vals@, contexts@, max_relev) || (
                exists|c: int| 0 <= c < bucket@.len() && bucket@[c].relev >= max_relev),
            decreases bucket@.len(),
        {
            let ghost pbucket = bucket@;
            let ghost pctxs = contexts@;
            let ctx_opt = bucket.pop();
            match ctx_opt {
                Some(ctx) => {
                    if sat_sub(max_relev, ctx.relev) < RELEVANCE_WINDOW {
                        proof {
                            assert(stored_ctx_wf(ctx, stack@, zk, nz));
                            if nz {
                                assert(ctx_lead_at_zoom(ctx, stack@, zk));
                                assert(ctx_lead_deepest(ctx, stack@));
                                assert(ctx_relev_accounted(ctx));
                            }
                            assert(out_ctx_wf(ctx, stack@, nz));
                        }
                        contexts.push(ctx);
                    }
                    proof {
                        if order@.len() == 2 && built {
                            if exists|c: int|
                                0 <= c < pbucket.len() && pbucket[c].relev >= max_relev {
                                let c0 = choose|c0: int|
                                    0 <= c0 < pbucket.len() && pbucket[c0].relev >= max_relev;
                                if c0 < pbucket.len() - 1 {
                                    assert(bucket@[c0].relev >= max_relev);
                                } else {
                                    assert(ctx == pbucket[c0]);
                                    assert(ctx.relev >= max_relev);
                                    assert(contexts@[contexts@.len() - 1] == ctx);
                                    assert(contexts@[contexts@.len() - 1].relev + STACK_PENALTY
                                        >= max_relev);
                                }
                            } else if relev_witnessed(vals@, pctxs, max_relev) {
                                if exists|k: int|
                                    0 <= k < pctxs.len() && pctxs[k].relev + STACK_PENALTY
                                        >= max_relev {
                                    let k0 = choose|k0: int|
                                        0 <= k0 < pctxs.len() && pctxs[k0].relev + STACK_PENALTY
                                            >= max_relev;
                                    assert(contexts@[k0].relev + STACK_PENALTY >= max_relev);
                                }
                            }
                        }
                    }
                },
                None => {},
            }
        }
    }
    proof {
        if order@.len() == 2 && (stack@[0].grids.len() >= 1 || stack@[1].grids.len() >= 1) {
            if stack@[0].grids.len() >= 1 {
                assert(order@.contains(0usize));
                let k = choose|k: int| 0 <= k < order@.len() && order@[k] == 0usize;
                assert(stack@[order@[k] as int].grids.len() >= 1);
            } else {
                assert(order@.contains(1usize));
                let k = choose|k: int| 0 <= k < order@.len() && order@[k] == 1usize;
                assert(stack@[order@[k] as int].grids.len() >= 1);
            }
            assert(built);
            assert(relev_witnessed(vals@, contexts@, max_relev));
            assert(contexts@.len() >= 1);
        }
    }

    proof {
        assert(all_have_entry(contexts@));
    }
    let ghost unsorted = contexts@;
    sort_contexts(&mut contexts, true);
    proof {
        assert forall|k: int| 0 <= k < contexts@.len() implies out_ctx_wf(
            #[trigger] contexts@[k],
            stack@,
            nz,
        ) by {
            let j = choose|j: int| 0 <= j < unsorted.len() && unsorted[j] == contexts@[k];
            assert(out_ctx_wf(unsorted[j], stack@, nz));
        }
        assert(all_have_entry(contexts@));
    }
    contexts
}

/// Fuse a stack of phrase matches into at most `MAX_CONTEXTS` ranked
/// contexts: one-phrase stacks take the single-phrase path, larger stacks
/// the multi-phrase join; the result is sorted under the documented key,
/// de-duplicated by lead temporary id, and cut off `RELEVANCE_WINDOW`
/// below the best relevance.
pub fn coalesce(stack: Vec<PhrasematchSubquery>, match_opts: &MatchOpts) -> (r: Vec<
    CoalesceContext,
>)
    requires
        stack@.len() >= 1,
        wf_stack(stack@),
        stack@.len() == 1 ==> match_opts.zoom == stack@[0].zoom,
        stack@.len() > 1 ==> forall|i: int|
            0 <= i < stack@.len() ==> match_opts.can_adjust(#[trigger] stack@[i].zoom),
    ensures
        r@.len() <= MAX_CONTEXTS,
        ctx_sorted(r@, stack@.len() > 1),
        forall|i: int, j: int| 0 <= i < j < r@.len() ==> r@[i].entries[0].tmp_id
            != r@[j].entries[0].tmp_id,
        forall|i: int| 0 <= i < r@.len() ==> r@[0].relev - #[trigger] r@[i].relev
            < RELEVANCE_WINDOW,
        forall|i: int| 0 <= i < r@.len() ==> multi_ctx_wf(#[trigger] r@[i], stack@),
        stack@.len() > 1 ==> forall|i: int|
            0 <= i < r@.len() ==> ctx_entries_capped(#[trigger] r@[i], stack@),
        stack_masks_nonzero(stack@) ==> forall|i: int|
            0 <= i < r@.len() ==> ctx_relev_accounted(#[trigger] r@[i]) && r@[i].mask == or_masks(
                r@[i].entries@,
            ) && ctx_lead_deepest(r@[i], stack@),
        stack@.len() == 1 ==> forall|i: int|
            0 <= i < r@.len() ==> single_ctx_form(#[trigger] r@[i], stack@[0]),
        stack@.len() == 1 && first_grid_accepted(stack@[0]) ==> r@.len() >= 1,
        stack@.len() == 2 && (stack@[0].grids.len() >= 1 || stack@[1].grids.len() >= 1)
            ==> r@.len() >= 1,
{
    let use_idx = stack.len() > 1;
    let contexts = if !use_idx {
        coalesce_single(&stack[0], match_opts)
    } else {
        coalesce_multi(&stack, match_opts)
    };
    let ghost built = contexts@;
    let out = finalize(contexts, use_idx);
    proof {
        let ghost nz = stack_masks_nonzero(stack@);
        if !use_idx {
            assert forall|i: int| 0 <= i < out@.len() implies single_ctx_form(
                #[trigger] out@[i],
                stack@[0],
            ) by {
                let j = choose|j: int| 0 <= j < built.len() && built[j] == out@[i];
                assert(single_ctx_form(built[j], stack@[0]));
            }
            assert forall|i: int| 0 <= i < out@.len() implies multi_ctx_wf(
                #[trigger] out@[i],
                stack@,
            ) by {
                assert(single_ctx_form(out@[i], stack@[0]));
                let c = out@[i];
                assert(c.entries.len() == 1);
                assert(wf_entry(c.entries[0]));
                lemma_bits_or_basics(c.entries[0].mask, 0);
                assert(entries_under_mask(c.entries@, c.mask));
                assert(entry_is_lift(c.entries[0], stack@)) by {
                    let g = choose|g: int|
                        0 <= g < stack@[0].grids.len() && c.entries[0] == spec_lift(
                            stack@[0].grids@[g],
                            stack@[0],
                        );
                    assert(0 <= 0 < stack@.len() && 0 <= g < stack@[0].grids.len()
                        && c.entries[0] == spec_lift(stack@[0].grids@[g], stack@[0]));
                }
            }
            if nz {
                assert forall|i: int| 0 <= i < out@.len() implies ctx_relev_accounted(
                    #[trigger] out@[i],
                ) && out@[i].mask == or_masks(out@[i].entries@) && ctx_lead_deepest(
                    out@[i],
                    stack@,
                ) by {
                    assert(single_ctx_form(out@[i], stack@[0]));
                    lemma_single_ctx_exact(out@[i], stack@[0], stack@);
                }
            }
        } else {
            assert forall|i: int| 0 <= i < out@.len() implies out_ctx_wf(
                #[trigger] out@[i],
                stack@,
                nz,
            ) by {
                let j = choose|j: int| 0 <= j < built.len() && built[j] == out@[i];
                assert(out_ctx_wf(built[j], stack@, nz));
            }
        }
    }
    out
}

} // verus!
