use zkip::is_excluded;

#[test]
fn clear_when_no_range_matches() {
    assert!(is_excluded(134744072, vec![(1534132224, 1534140415)]));
    assert!(is_excluded(5, vec![]));
    assert!(is_excluded(5, vec![(6, 10), (0, 4)]));
}

#[test]
fn excluded_when_inside_a_range() {
    assert!(!is_excluded(1534132225, vec![(1534132224, 1534140415)]));
    assert!(!is_excluded(5, vec![(0, 10)]));
    assert!(!is_excluded(5, vec![(100, 200), (0, 10), (50, 60)]));
}

#[test]
fn bounds_are_inclusive() {
    assert!(!is_excluded(1534132224, vec![(1534132224, 1534140415)]));
    assert!(!is_excluded(1534140415, vec![(1534132224, 1534140415)]));
    assert!(is_excluded(1534132223, vec![(1534132224, 1534140415)]));
    assert!(is_excluded(1534140416, vec![(1534132224, 1534140415)]));
    assert!(!is_excluded(7, vec![(7, 7)]));
}

#[test]
fn order_independent() {
    let a = vec![(0, 10), (20, 30), (40, 50)];
    let b = vec![(40, 50), (0, 10), (20, 30)];
    for ip in [0u32, 5, 15, 25, 35, 45, 55, u32::MAX] {
        assert_eq!(is_excluded(ip, a.clone()), is_excluded(ip, b.clone()));
    }
}

#[test]
fn inverted_range_matches_nothing() {
    // regression: a malformed range with start > end is inert
    assert!(is_excluded(5, vec![(10, 0)]));
    assert!(is_excluded(0, vec![(10, 0)]));
    assert!(is_excluded(10, vec![(10, 0)]));
    assert!(is_excluded(u32::MAX, vec![(u32::MAX, 0)]));
    assert!(!is_excluded(5, vec![(10, 0), (0, 6)]));
}
