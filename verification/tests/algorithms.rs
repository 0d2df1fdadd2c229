use emosaic::algorithms::compare_matches;
use emosaic::index::NearestNeighbour;

#[test]
fn test_compare_matches() {
    let match_a = vec![NearestNeighbour { distance: 10, item: 1 }];
    let match_b = vec![NearestNeighbour { distance: 20, item: 2 }];

    let ordering = compare_matches(&match_a, &match_b);
    assert_eq!(ordering, std::cmp::Ordering::Greater);
}

#[test]
fn compare_matches_goes_by_the_last() {
    let a = vec![
        NearestNeighbour { distance: 1, item: 1 },
        NearestNeighbour { distance: 30, item: 2 },
    ];
    let b = vec![
        NearestNeighbour { distance: 50, item: 3 },
        NearestNeighbour { distance: 20, item: 4 },
    ];
    assert_eq!(compare_matches(&a, &b), std::cmp::Ordering::Less);
    assert_eq!(compare_matches(&b, &a), std::cmp::Ordering::Greater);
    assert_eq!(compare_matches(&a, &a), std::cmp::Ordering::Equal);
}
