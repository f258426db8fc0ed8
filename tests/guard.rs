use modular_mc::guard::MutationGuard;

#[test]
fn overlapping_claims_exclude() {
    let mut guard = MutationGuard::new(8);
    assert!(guard.try_claim(2, 4));
    assert!(!guard.try_claim(3, 5));
    assert!(!guard.try_claim(1, 3));
    assert!(!guard.try_claim(2, 4));
    guard.release(2, 4);
    assert!(guard.try_claim(3, 5));
}

#[test]
fn disjoint_claims_coexist() {
    let mut guard = MutationGuard::new(8);
    assert!(guard.try_claim(2, 4));
    assert!(guard.try_claim(4, 6));
    assert!(guard.try_claim(0, 2));
    assert_eq!(guard.len(), 8);
}

#[test]
fn failed_claim_takes_nothing() {
    let mut guard = MutationGuard::new(8);
    assert!(guard.try_claim(5, 6));
    assert!(!guard.try_claim(3, 6));
    assert!(guard.try_claim(3, 5));
}
