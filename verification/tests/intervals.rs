use mbf_bam_quantifier::engine::merged_interval_length;

#[test]
fn test_merged_interval_lengths() {
    assert_eq!(merged_interval_length(&mut []), 0);
    assert_eq!(merged_interval_length(&mut [0..10, 10..20, 20..30]), 30);
    assert_eq!(merged_interval_length(&mut [0..10, 5..15, 10..20]), 20);
    assert_eq!(merged_interval_length(&mut [0..10, 5..15, 10..25]), 25);
    assert_eq!(merged_interval_length(&mut [0..10, 20..55]), 45);
    assert_eq!(
        merged_interval_length(&mut [20..30, 45..50, 28..32]),
        10 + 5 + 2
    );
}

#[test]
fn merged_interval_length_counts_points_once() {
    assert_eq!(merged_interval_length(&mut [5..10, 5..10, 5..10]), 5);
    assert_eq!(merged_interval_length(&mut [0..100, 10..20]), 100);
}

#[test]
fn merged_interval_length_ignores_empty_and_inverted() {
    assert_eq!(merged_interval_length(&mut [3..3]), 0);
    assert_eq!(merged_interval_length(&mut [10..5]), 0);
    assert_eq!(merged_interval_length(&mut [0..4, 10..5, 8..9]), 5);
}

#[test]
fn merged_interval_length_sorts_the_slice() {
    let mut ivs = [20..30, 0..5, 20..25];
    assert_eq!(merged_interval_length(&mut ivs), 15);
    assert_eq!(ivs, [0..5, 20..25, 20..30]);
}
