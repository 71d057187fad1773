use flood_paint::normalize::{normalize_colors, normalize_positions, sort_dedup_u64};

/// Sorting and deduplicating value lists gives the strictly increasing set.
#[test]
fn sort_dedup_orders_and_drops_duplicates() {
    let r = sort_dedup_u64(&vec![5, 3, 9, 3, 5, 1, 9]);
    assert_eq!(r, vec![1, 3, 5, 9]);

    assert_eq!(sort_dedup_u64(&vec![]), Vec::<u64>::new());
    assert_eq!(sort_dedup_u64(&vec![7, 7, 7]), vec![7]);
    assert_eq!(sort_dedup_u64(&vec![2, 1]), vec![1, 2]);
}

/// Seed positions sort lexicographically, duplicates dropped.
#[test]
fn positions_normalize_lexicographically() {
    let r = normalize_positions(&vec![(3, 1), (1, 9), (3, 1), (1, 2), (0, 400)]);
    assert_eq!(r, vec![(0, 400), (1, 2), (1, 9), (3, 1)]);
}

/// Reference colors sort lexicographically by channel, duplicates dropped.
#[test]
fn colors_normalize_lexicographically() {
    let r = normalize_colors(&vec![
        (10, 0, 0),
        (0, 255, 255),
        (10, 0, 0),
        (0, 0, 1),
        (255, 255, 255),
    ]);
    assert_eq!(r, vec![(0, 0, 1), (0, 255, 255), (10, 0, 0), (255, 255, 255)]);
}
