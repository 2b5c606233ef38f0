use constraint_theory_core::dcs::{
    is_rigidly_connected, should_use_uniform_rules, LAMAN_NEIGHBOR_THRESHOLD, SWARM_UNIFORMITY_THRESHOLD,
};

#[test]
fn test_laman_threshold() {
    assert_eq!(LAMAN_NEIGHBOR_THRESHOLD, 12);
    assert!(is_rigidly_connected(100, 12));
    assert!(is_rigidly_connected(100, 15));
    assert!(!is_rigidly_connected(100, 11));
}

#[test]
fn test_swarm_threshold() {
    assert!(!should_use_uniform_rules(499));
    assert!(should_use_uniform_rules(500));
    assert!(should_use_uniform_rules(10000));
}

#[test]
fn test_single_agent_is_rigid() {
    assert!(is_rigidly_connected(1, 0));
}

#[test]
fn swarm_threshold_value() {
    assert_eq!(SWARM_UNIFORMITY_THRESHOLD, 500);
    assert!(!is_rigidly_connected(2, 0));
}
