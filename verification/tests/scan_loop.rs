use mcscan::ip_iterator::IpIterator;
use mcscan::scan::{CompletionOutcome, ScanState, TIMEOUT_USER_DATA};

const ECONNREFUSED: i32 = -111;
const ECANCELED: i32 = -125;

fn fill_one(scan: &mut ScanState<u32>) -> (usize, u32) {
    let addr = scan.next_target().expect("a slot is free and addresses remain");
    let (idx, stored) = scan.register(addr).expect("a slot was free a moment ago");
    assert_eq!(*stored, addr);
    (idx, addr)
}

#[test]
fn admission_never_exceeds_capacity() {
    let mut scan = ScanState::new(2, IpIterator::from_parts(9, 3));
    assert_eq!(scan.in_flight_count(), 0);
    let (a, _) = fill_one(&mut scan);
    assert!(scan.in_flight_count() <= 2);
    let (b, _) = fill_one(&mut scan);
    assert_eq!(scan.in_flight_count(), 2);
    // Saturated: no address is pulled and no admission happens.
    assert_eq!(scan.next_target(), None);
    assert!(scan.register(0).is_none());
    assert!(scan.in_flight_count() <= 2);
    // Interleave timeouts, failures and successes; the bound holds
    // throughout.
    assert!(matches!(
        scan.on_completion(TIMEOUT_USER_DATA, ECANCELED),
        CompletionOutcome::TimeoutTick
    ));
    assert!(scan.in_flight_count() <= 2);
    assert!(matches!(
        scan.on_completion(a as u64, ECONNREFUSED),
        CompletionOutcome::Discard(_)
    ));
    let (c, _) = fill_one(&mut scan);
    assert!(scan.in_flight_count() <= 2);
    assert!(matches!(scan.on_completion(b as u64, 0), CompletionOutcome::Dispatch(_)));
    assert!(matches!(scan.on_completion(c as u64, 0), CompletionOutcome::Dispatch(_)));
    assert_eq!(scan.in_flight_count(), 0);
}

#[test]
fn fill_phase_stalls_until_a_slot_frees() {
    // Scenario: capacity 4, four addresses admitted, the fifth only
    // after a slot frees; two immediate failures free two slots that
    // are reused for the next two addresses before any timeout fires.
    let first: u64 = 100;
    let step: u64 = 7;
    let mut scan = ScanState::new(4, IpIterator::from_parts(first, step));
    let mut held = Vec::new();
    for k in 1..=4u64 {
        let (idx, addr) = fill_one(&mut scan);
        assert_eq!(addr as u64, (first + k * step) % mcscan::ADDRESS_SPACE);
        held.push(idx);
    }
    assert_eq!(scan.next_target(), None, "a fifth address only after a slot frees");
    assert_eq!(scan.in_flight_count(), 4);

    // The first two connects fail immediately.
    for &idx in &held[..2] {
        match scan.on_completion(idx as u64, ECONNREFUSED) {
            CompletionOutcome::Discard(_) => {},
            _ => panic!("an immediate failure is discarded"),
        }
    }
    assert_eq!(scan.in_flight_count(), 2);

    // Their slots are reused for the next two addresses.
    let (e, addr5) = fill_one(&mut scan);
    let (f, addr6) = fill_one(&mut scan);
    assert_eq!(addr5 as u64, (first + 5 * step) % mcscan::ADDRESS_SPACE);
    assert_eq!(addr6 as u64, (first + 6 * step) % mcscan::ADDRESS_SPACE);
    assert!(held[..2].contains(&e));
    assert!(held[..2].contains(&f));
    assert_ne!(e, f);
    assert_eq!(scan.in_flight_count(), 4);
}

#[test]
fn deadline_and_cancelation_release_the_slot_once() {
    // Scenario: a connect neither succeeds nor fails before the
    // deadline. The timeout completion arrives first and touches no
    // slot; the connect is then reported as canceled and its slot is
    // released exactly once, not twice.
    let mut scan = ScanState::new(2, IpIterator::from_parts(0, 5));
    let (idx, _) = fill_one(&mut scan);
    let before = scan.in_flight_count();

    match scan.on_completion(TIMEOUT_USER_DATA, 0) {
        CompletionOutcome::TimeoutTick => {},
        _ => panic!("a timeout completion is only a tick"),
    }
    assert_eq!(scan.in_flight_count(), before, "the timeout touches no slot");

    match scan.on_completion(idx as u64, ECANCELED) {
        CompletionOutcome::Discard(_) => {},
        _ => panic!("a canceled connect is discarded like any failure"),
    }
    assert_eq!(scan.in_flight_count(), before - 1);

    // A stray later completion for the same slot releases nothing.
    match scan.on_completion(idx as u64, ECANCELED) {
        CompletionOutcome::StaleSlot => {},
        _ => panic!("the slot was already released"),
    }
    assert_eq!(scan.in_flight_count(), before - 1);
}

#[test]
fn success_frees_the_slot_before_dispatch() {
    // Scenario: a connect succeeds; the slot is released before the
    // record is handed out, and the freed index is accepted again on
    // the very next fill cycle.
    let mut scan = ScanState::new(1, IpIterator::from_parts(1, 11));
    let (idx, addr) = fill_one(&mut scan);
    assert_eq!(scan.next_target(), None);

    match scan.on_completion(idx as u64, 0) {
        CompletionOutcome::Dispatch(record) => {
            assert_eq!(record, addr);
            assert_eq!(scan.in_flight_count(), 0, "released before the handoff");
        },
        _ => panic!("a zero result dispatches to the probe"),
    }

    let (idx2, _) = fill_one(&mut scan);
    assert_eq!(idx2, idx, "the freed index is reused on the next cycle");
}
