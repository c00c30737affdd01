use mcscan::ip_iterator::IpIterator;
use mcscan::ADDRESS_SPACE;

#[test]
fn recurrence_follows_the_formula() {
    let first: u64 = 12345;
    let step: u64 = 1_073_741_827;
    let mut it = IpIterator::from_parts(first, step);
    for k in 1..=1000u64 {
        let expected = ((first + k * step) % ADDRESS_SPACE) as u32;
        assert_eq!(it.next(), Some(expected), "emission {}", k);
    }
}

#[test]
fn early_emissions_are_distinct() {
    let mut it = IpIterator::from_parts(7, 2_147_483_659);
    let mut seen = std::collections::HashSet::new();
    for _ in 0..10_000 {
        let v = it.next().expect("the enumerator stays active this early");
        assert!(seen.insert(v), "value {} repeated", v);
    }
}

#[test]
fn non_coprime_step_breaks_the_full_period() {
    // A step of 2^31 shares a factor with 2^32: the recurrence returns
    // to its start after only two emissions instead of 2^32, so the
    // enumerator exhausts almost immediately and the space is left
    // uncovered.
    let mut it = IpIterator::from_parts(0, 1 << 31);
    assert_eq!(it.next(), Some(1u32 << 31));
    assert_eq!(it.next(), Some(0));
    assert_eq!(it.next(), None, "exhausted after closing its short cycle");
    assert_eq!(it.next(), None);
}

#[test]
fn non_coprime_step_keeps_the_start_parity() {
    // With an even step every emission has the parity of the starting
    // point, so the half of the space with the other parity is never
    // covered.
    let mut it = IpIterator::from_parts(5, 6);
    for _ in 0..10_000 {
        let v = it.next().expect("the short cycle is still far off");
        assert_eq!(v % 2, 1, "every emission shares the start's parity");
    }
}

#[test]
fn exhausted_enumerator_stays_exhausted() {
    // Step 0 is the degenerate non-coprime case: the first emission
    // already lands back on the start and closes the cycle.
    let mut it = IpIterator::from_parts(42, 0);
    assert_eq!(it.next(), Some(42));
    for _ in 0..10 {
        assert_eq!(it.next(), None);
    }
}

#[test]
fn random_enumerator_emits_distinct_addresses() {
    let mut it = IpIterator::new();
    let mut seen = std::collections::HashSet::new();
    for _ in 0..10_000 {
        let v = it.next().expect("a fresh enumerator is active");
        assert!(seen.insert(v), "value {} repeated", v);
    }
}
