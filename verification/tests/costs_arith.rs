use ch_router::costs::{add_edge_costs, sat_add, sat_mul, scalarize, zero_costs, COST_DIMENSION};

#[test]
fn saturating_addition_and_multiplication() {
    assert_eq!(sat_add(3, 4), 7);
    assert_eq!(sat_add(u64::MAX, 1), u64::MAX);
    assert_eq!(sat_add(u64::MAX - 2, 5), u64::MAX);
    assert_eq!(sat_mul(6, 7), 42);
    assert_eq!(sat_mul(u64::MAX, 2), u64::MAX);
    assert_eq!(sat_mul(0, u64::MAX), 0);
}

#[test]
fn componentwise_vector_sum() {
    let a = vec![1u64, 2, u64::MAX];
    let b = vec![10u64, 20, 30];
    assert_eq!(add_edge_costs(&a, &b), vec![11, 22, u64::MAX]);
}

#[test]
fn scalarization_is_the_dot_product() {
    let v = vec![3u64, 4, 5];
    let w = vec![2u64, 1, 0];
    assert_eq!(scalarize(&v, &w), 10);
    assert_eq!(scalarize(&zero_costs(), &w), 0);
}

#[test]
fn scalar_and_vector_accumulators_agree_under_saturation() {
    // scalarizing the saturating vector sum equals the saturating sum
    // of the two scalarizations, even when components clamp
    let a = vec![u64::MAX - 1, 7, 0];
    let b = vec![5u64, 8, 0];
    let w = vec![1u64, 2, 3];
    let merged = add_edge_costs(&a, &b);
    assert_eq!(
        scalarize(&merged, &w),
        sat_add(scalarize(&a, &w), scalarize(&b, &w))
    );
}

#[test]
fn dimension_is_three() {
    assert_eq!(COST_DIMENSION, 3);
    assert_eq!(zero_costs().len(), COST_DIMENSION);
}

#[test]
fn one_tag_per_cost_criterion() {
    let tags = ch_router::costs::get_cost_tags();
    assert_eq!(tags.len(), COST_DIMENSION);
    assert_eq!(tags[0], "Distance");
    assert_eq!(tags[1], "Height");
    assert_eq!(tags[2], "Unsuitability");
}
