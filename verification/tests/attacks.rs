//! Toy computations behind the attack-resistance arguments.

#[test]
fn test_anomalous_weak_curve_simulation() {
    let toy_p: u64 = 11;
    let toy_group_order: u64 = 11;
    let toy_t = toy_p + 1 - toy_group_order;
    assert_eq!(toy_t, 1);
}

#[test]
fn test_mov_weak_curve_simulation() {
    let toy_p_bits: u64 = 64;
    let weak_target = toy_p_bits;
    let strong_target = toy_p_bits * 12;
    assert!(strong_target > 10 * weak_target);
}
