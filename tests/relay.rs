use eth_relay::{
    admit_unsigned, relay_step, validate_unsigned, FetchError, RelayAction, RelayEvent, RelayPhase,
    RelayState, UNSIGNED_LONGEVITY,
};

fn idle(last: Option<u64>) -> RelayState {
    RelayState { phase: RelayPhase::Idle, last_submission: last }
}

#[test]
fn full_cycle() {
    let (s, a) = relay_step(idle(None), RelayEvent::Tick(1), 3);
    assert_eq!(a, RelayAction::Fetch);
    assert_eq!(s.phase, RelayPhase::Fetching);
    let (s, a) = relay_step(s, RelayEvent::Fetched(Ok(436)), 3);
    assert_eq!(a, RelayAction::Submit(436));
    assert_eq!(s.phase, RelayPhase::Submitting);
    let (s, a) = relay_step(s, RelayEvent::Submitted(2), 3);
    assert_eq!(a, RelayAction::Wait);
    assert_eq!(s, RelayState { phase: RelayPhase::Cooldown, last_submission: Some(2) });
    let (s, a) = relay_step(s, RelayEvent::Tick(4), 3);
    assert_eq!((s.phase, a), (RelayPhase::Cooldown, RelayAction::Wait));
    let (s, a) = relay_step(s, RelayEvent::Tick(5), 3);
    assert_eq!((s.phase, a), (RelayPhase::Idle, RelayAction::Wait));
    let (s, a) = relay_step(s, RelayEvent::Tick(6), 3);
    assert_eq!((s.phase, a), (RelayPhase::Fetching, RelayAction::Fetch));
}

#[test]
fn grace_period_holds_back_fetch() {
    let (s, a) = relay_step(idle(Some(10)), RelayEvent::Tick(11), 3);
    assert_eq!((s, a), (idle(Some(10)), RelayAction::Wait));
    let (_, a) = relay_step(idle(Some(10)), RelayEvent::Tick(13), 3);
    assert_eq!(a, RelayAction::Fetch);
}

#[test]
fn failed_fetch_returns_to_idle_without_cooldown() {
    let fetching = RelayState { phase: RelayPhase::Fetching, last_submission: Some(1) };
    let (s, a) = relay_step(fetching, RelayEvent::Fetched(Err(FetchError::BadHex)), 3);
    assert_eq!((s, a), (idle(Some(1)), RelayAction::Wait));
}

#[test]
fn unrelated_events_change_nothing() {
    let (s, a) = relay_step(idle(None), RelayEvent::Submitted(4), 3);
    assert_eq!((s, a), (idle(None), RelayAction::Wait));
}

#[test]
fn unsigned_admission_and_validity() {
    assert!(admit_unsigned(5, None, 10));
    assert!(!admit_unsigned(5, Some(1), 10));
    assert!(admit_unsigned(11, Some(1), 10));
    assert!(validate_unsigned(1 << 20, 5, Some(1), 10).is_none());
    assert!(validate_unsigned(1 << 20, 10, Some(1), 10).is_none());
    let v = validate_unsigned(1 << 20, 11, Some(1), 10).unwrap();
    assert_eq!(v.priority, 1 << 20);
    assert_eq!(v.longevity, UNSIGNED_LONGEVITY);
    assert!(v.propagate);
}
