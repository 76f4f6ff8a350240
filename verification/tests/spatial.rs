use gridstore_coalesce::spatial::{bbox_binary_search, bbox_filter, Coord};

fn coords_from(vals: &[u32]) -> Vec<Coord> {
    let mut out: Vec<Coord> = Vec::new();
    for v in vals {
        out.push(Coord { coord: *v, ids: vec![0] });
    }
    out
}

#[test]
fn coords_within_bbox() {
    let coords = coords_from(&[0, 1, 2, 3]);
    let result = bbox_filter(&coords, [0, 0, 1, 1]);
    assert_eq!(result.len(), 3);
}

#[test]
fn binary_search() {
    // Empty Coord list
    let coords = coords_from(&[]);
    assert_eq!(bbox_binary_search(&coords, 0, 0), Err(0));
    assert_eq!(bbox_binary_search(&coords, 1, 0), Err(0));

    // Single Coord list
    let coords = coords_from(&[0]);
    assert_eq!(bbox_binary_search(&coords, 0, 0), Ok(0));
    assert_eq!(bbox_binary_search(&coords, 1, 0), Err(1));

    // Continuous Coord list
    let coords = coords_from(&[4, 5, 6, 7]);
    assert_eq!(bbox_binary_search(&coords, 0, 0), Err(0));
    assert_eq!(bbox_binary_search(&coords, 4, 0), Ok(0));
    assert_eq!(bbox_binary_search(&coords, 4, 1), Err(1));
    assert_eq!(bbox_binary_search(&coords, 5, 0), Ok(1));
    assert_eq!(bbox_binary_search(&coords, 6, 0), Ok(2));
    assert_eq!(bbox_binary_search(&coords, 7, 0), Ok(3));
    assert_eq!(bbox_binary_search(&coords, 7, 3), Ok(3));
    assert_eq!(bbox_binary_search(&coords, 7, 4), Err(4)); // Offset is out of bounds
    assert_eq!(bbox_binary_search(&coords, 8, 0), Err(4)); // Fails to find value, returns closes pos, the end

    // Sparse Coord list
    let coords = coords_from(&[1, 2, 4, 7]);
    assert_eq!(bbox_binary_search(&coords, 0, 0), Err(0));
    assert_eq!(bbox_binary_search(&coords, 1, 0), Ok(0));
    assert_eq!(bbox_binary_search(&coords, 1, 1), Err(1));
    assert_eq!(bbox_binary_search(&coords, 2, 0), Ok(1));
    assert_eq!(bbox_binary_search(&coords, 4, 0), Ok(2));
    assert_eq!(bbox_binary_search(&coords, 7, 0), Ok(3));
    assert_eq!(bbox_binary_search(&coords, 7, 3), Ok(3));
    assert_eq!(bbox_binary_search(&coords, 7, 4), Err(4)); // Offset is out of bounds
    assert_eq!(bbox_binary_search(&coords, 8, 0), Err(4)); // Fails to find value, returns closes pos, the end
}

#[test]
fn bbox_filter_empty_vector() {
    let coords = coords_from(&[]);
    let result = bbox_filter(&coords, [0, 0, 1, 1]);
    assert_eq!(result.len(), 0);
}

#[test]
fn bbox_filter_point_bbox_excludes_stored_maximum() {
    // the upper search is exclusive at a stored maximum: a bbox whose two
    // corners interleave to the same stored coordinate selects nothing
    let coords = coords_from(&[0, 1, 2, 3]);
    let result = bbox_filter(&coords, [1, 1, 1, 1]);
    assert_eq!(result.len(), 0);
}

#[test]
fn bbox_filter_returns_contiguous_morton_range() {
    // morton(0,0) = 0, morton(3,3) = 15: everything below 15 is kept
    let coords = coords_from(&[0, 2, 5, 9, 10, 11, 12, 40]);
    let result = bbox_filter(&coords, [0, 0, 3, 3]);
    let got: Vec<u32> = result.iter().map(|c| c.coord).collect();
    assert_eq!(got, vec![0, 2, 5, 9, 10, 11, 12]);
    for c in &result {
        assert!(c.coord <= 15);
    }
}
