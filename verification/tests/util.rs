use chloe_vibes::util::MinCutoff;

#[test]
fn test_min_cutoff() {
    assert_eq!(0.5f32.min_cutoff(0.3), 0.5);
    assert_eq!(0.2f32.min_cutoff(0.3), 0.0);
    assert_eq!(0.3f32.min_cutoff(0.3), 0.3);
}

#[test]
fn min_cutoff_on_integers_cuts_to_zero() {
    assert_eq!(7u32.min_cutoff(5), 7);
    assert_eq!(4u32.min_cutoff(5), 0);
    assert_eq!((-3i64).min_cutoff(-2), 0);
}
