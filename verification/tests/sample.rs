use nbody_divergence::sample::step_bounds;

#[test]
fn bounds_of_no_step_counts() {
    assert_eq!(step_bounds(&Vec::new()), (usize::MAX, 0));
}

#[test]
fn bounds_of_a_single_step_count() {
    assert_eq!(step_bounds(&vec![3072]), (3072, 3072));
}

#[test]
fn bounds_of_several_step_counts() {
    assert_eq!(step_bounds(&vec![2048, 1024, 5120, 2048]), (1024, 5120));
}

#[test]
fn bounds_at_the_ends_of_the_range() {
    assert_eq!(step_bounds(&vec![usize::MAX, 0]), (0, usize::MAX));
}
