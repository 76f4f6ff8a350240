use gridstore_coalesce::coalesce::{coalesce, grid_to_coalesce_entry};
use gridstore_coalesce::common::{
    langarray_to_langfield, GridEntry, MatchEntry, MatchOpts, PhrasematchSubquery, MAX_CONTEXTS,
};

fn entry(id: u32, x: u16, y: u16, relev: u32, scoredist: u64) -> MatchEntry {
    MatchEntry {
        grid_entry: GridEntry { id, x, y, relev, score: 0 },
        matches_language: true,
        distance: 0,
        scoredist,
    }
}

fn subquery(grids: Vec<MatchEntry>, weight: u32, idx: u16, zoom: u16, mask: u32)
    -> PhrasematchSubquery {
    PhrasematchSubquery { grids, weight, idx, zoom, mask }
}

fn opts(zoom: u16) -> MatchOpts {
    MatchOpts { zoom, proximity: None, bbox: None }
}

#[test]
fn single_grid_single_context() {
    let sq = subquery(vec![entry(7, 1, 2, 1000, 5000)], 1000, 3, 6, 1);
    let out = coalesce(vec![sq], &opts(6));
    assert_eq!(out.len(), 1);
    assert_eq!(out[0].entries.len(), 1);
    assert_eq!(out[0].entries[0].tmp_id, (3u32 << 25) | 7);
    assert_eq!(out[0].relev, 1000);
    assert_eq!(out[0].mask, 1);
}

#[test]
fn same_feature_keeps_best_scoredist() {
    let mut grids: Vec<MatchEntry> = Vec::new();
    for i in 0..100u64 {
        grids.push(entry(9, 1, 1, 1000, 100000 - i * 10));
    }
    let sq = subquery(grids, 1000, 0, 6, 1);
    let out = coalesce(vec![sq], &opts(6));
    assert_eq!(out.len(), 1);
    assert_eq!(out[0].entries[0].scoredist, 100000);
}

#[test]
fn lifted_entry_scales_relevance_and_packs_id() {
    let m = entry(12, 4, 5, 800, 77);
    let sq = subquery(vec![], 500, 2, 9, 4);
    let e = grid_to_coalesce_entry(&m, &sq, &opts(9));
    assert_eq!(e.grid_entry.relev, 400);
    assert_eq!(e.tmp_id, (2u32 << 25) | 12);
    assert_eq!(e.mask, 4);
    assert_eq!(e.idx, 2);
    assert_eq!(e.scoredist, 77);
}

#[test]
fn nested_tiles_stack_into_one_context() {
    // broad phrase at z6, specific phrase at z10 whose tile nests inside:
    // one stacked context, masks OR'd, relevances added, no penalty since
    // the lead entry covers the lower mask bit
    let broad = subquery(vec![entry(1, 1, 1, 1000, 10)], 1000, 0, 6, 0b10);
    let deep = subquery(vec![entry(2, 16, 16, 1000, 10)], 1000, 1, 10, 0b01);
    let out = coalesce(vec![broad, deep], &opts(10));
    assert_eq!(out.len(), 1);
    assert_eq!(out[0].entries.len(), 2);
    assert_eq!(out[0].mask, 0b11);
    assert_eq!(out[0].relev, 2000);
    assert_eq!(out[0].entries[0].idx, 1);
    assert_eq!(out[0].entries[1].idx, 0);
    assert_eq!(out[0].entries[0].mask & out[0].entries[1].mask, 0);
}

#[test]
fn unstacked_deep_grid_is_penalized() {
    // the deep grid's parent tile holds no broad match: its context stays
    // single-entry and loses a hundredth of relevance
    let broad = subquery(vec![entry(1, 1, 1, 1000, 10)], 1000, 0, 6, 0b10);
    let deep = subquery(vec![entry(2, 32, 32, 1000, 10)], 1000, 1, 10, 0b01);
    let out = coalesce(vec![broad, deep], &opts(10));
    assert_eq!(out.len(), 2);
    // the unpenalized broad context sorts first
    assert_eq!(out[0].relev, 1000);
    assert_eq!(out[0].entries.len(), 1);
    assert_eq!(out[0].entries[0].idx, 0);
    assert_eq!(out[1].relev, 990);
    assert_eq!(out[1].entries.len(), 1);
    assert_eq!(out[1].entries[0].idx, 1);
}

#[test]
fn output_capped_and_lead_features_unique() {
    let mut grids: Vec<MatchEntry> = Vec::new();
    for i in 0..100u32 {
        grids.push(entry(i, i as u16, 0, 1000, 100000 - i as u64));
    }
    let sq = subquery(grids, 1000, 0, 6, 1);
    let out = coalesce(vec![sq], &opts(6));
    assert_eq!(out.len(), MAX_CONTEXTS);
    for i in 0..out.len() {
        for j in 0..out.len() {
            if i != j {
                assert_ne!(out[i].entries[0].tmp_id, out[j].entries[0].tmp_id);
            }
        }
    }
}

#[test]
fn output_sorted_and_within_relevance_window() {
    let grids = vec![
        entry(1, 0, 0, 1000, 50),
        entry(2, 1, 0, 950, 80),
        entry(3, 2, 0, 900, 10),
        entry(4, 3, 0, 600, 99),
    ];
    let sq = subquery(grids, 1000, 0, 6, 1);
    let out = coalesce(vec![sq], &opts(6));
    // relev 600 falls 400 below the best: outside the window
    assert_eq!(out.len(), 3);
    for w in out.windows(2) {
        assert!(w[0].relev >= w[1].relev);
    }
    for c in &out {
        assert!(out[0].relev - c.relev < 250);
    }
}

#[test]
fn equal_zoom_different_idx_phrases_stack() {
    // phrases at the same zoom but different indexes are compatible; the
    // stacked context carries the ascending-mask penalty because its lead
    // entry covers the higher mask bit
    let a = subquery(vec![entry(1, 1, 1, 1000, 10)], 1000, 0, 6, 0b01);
    let b = subquery(vec![entry(2, 1, 1, 1000, 10)], 1000, 1, 6, 0b10);
    let out = coalesce(vec![a, b], &opts(6));
    assert_eq!(out.len(), 1);
    assert_eq!(out[0].entries.len(), 2);
    assert_eq!(out[0].mask, 0b11);
    assert_eq!(out[0].relev, 1990);
}

#[test]
fn equal_relevance_ties_break_on_idx() {
    // two unstacked contexts with equal relevance and score-distance: the
    // multi-phrase sort falls through to ascending idx
    let a = subquery(vec![entry(1, 1, 1, 990, 10)], 1000, 0, 6, 0b01);
    let b = subquery(vec![entry(2, 9, 9, 1000, 10)], 1000, 1, 6, 0b10);
    let out = coalesce(vec![a, b], &opts(6));
    assert_eq!(out.len(), 2);
    assert_eq!(out[0].relev, 990);
    assert_eq!(out[1].relev, 990);
    assert_eq!(out[0].entries[0].idx, 0);
    assert_eq!(out[1].entries[0].idx, 1);
}

#[test]
fn coalesce_twice_gives_identical_output() {
    let broad = subquery(vec![entry(1, 1, 1, 1000, 10)], 1000, 0, 6, 0b10);
    let deep = subquery(
        vec![entry(2, 16, 16, 900, 10), entry(3, 17, 17, 900, 9)],
        1000,
        1,
        10,
        0b01,
    );
    let stack = vec![broad, deep];
    let first = coalesce(stack.clone(), &opts(10));
    let second = coalesce(stack, &opts(10));
    assert_eq!(first, second);
}

#[test]
fn adjust_to_own_zoom_is_identity() {
    let o = MatchOpts { zoom: 14, proximity: Some((5, 9, 14)), bbox: Some([1, 2, 3, 4]) };
    assert_eq!(o.adjust_to_zoom(14), o);
}

#[test]
fn adjust_rescales_between_zooms() {
    let o = MatchOpts { zoom: 14, proximity: Some((5, 9, 14)), bbox: Some([4, 8, 12, 16]) };
    let zoomed_out = o.adjust_to_zoom(12);
    assert_eq!(zoomed_out.zoom, 12);
    assert_eq!(zoomed_out.proximity, Some((1, 2, 12)));
    assert_eq!(zoomed_out.bbox, Some([1, 2, 3, 4]));

    let i = MatchOpts { zoom: 2, proximity: Some((1, 2, 2)), bbox: Some([0, 1, 2, 3]) };
    let zoomed_in = i.adjust_to_zoom(4);
    assert_eq!(zoomed_in.zoom, 4);
    assert_eq!(zoomed_in.proximity, Some((4, 8, 4)));
    assert_eq!(zoomed_in.bbox, Some([0, 4, 8, 12]));
}

#[test]
fn langfield_sets_one_bit_per_language() {
    assert_eq!(langarray_to_langfield(&[0, 1, 3]), 0b1011u128);
    assert_eq!(langarray_to_langfield(&[]), 0);
    assert_eq!(langarray_to_langfield(&[127]), 1u128 << 127);
}
