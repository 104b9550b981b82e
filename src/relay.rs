use vstd::prelude::*;
use crate::fetch::FetchError;

verus! {

/// Where a relay identity stands in its cycle.
#[derive(Clone, Copy, Debug, PartialEq, Eq, Structural)]
pub enum RelayPhase {
    Idle,
    Fetching,
    Submitting,
    Cooldown,
}

/// A relay identity's local state.
#[derive(Clone, Copy, Debug, PartialEq, Eq, Structural)]
pub struct RelayState {
    pub phase: RelayPhase,
    /// Tick of this identity's last submission.
    pub last_submission: Option<u64>,
}

/// What happened since the last step.
#[derive(Clone, Copy, Debug)]
pub enum RelayEvent {
    /// A new tick, numbered.
    Tick(u64),
    /// The fetch of the latest block ended.
    Fetched(Result<u32, FetchError>),
    /// The submission handed over at this tick was accepted or rejected.
    Submitted(u64),
}

/// What the relay asks its runner to do.
#[derive(Clone, Copy, Debug, PartialEq, Eq, Structural)]
pub enum RelayAction {
    Wait,
    /// Request the latest external block.
    Fetch,
    /// Submit the block with this number.
    Submit(u32),
}

/// Whether `grace` ticks have passed since `last` at tick `now`.
pub open spec fn grace_over(last: Option<u64>, now: u64, grace: u64) -> bool {
    match last {
        None => true,
        Some(l) => now >= l && now - l >= grace,
    }
}

pub open spec fn relay_next(s: RelayState, e: RelayEvent, grace: u64) -> (RelayState, RelayAction) {
    match (s.phase, e) {
        (RelayPhase::Idle, RelayEvent::Tick(now)) => if grace_over(s.last_submission, now, grace) {
            (RelayState { phase: RelayPhase::Fetching, ..s }, RelayAction::Fetch)
        } else {
            (s, RelayAction::Wait)
        },
        (RelayPhase::Fetching, RelayEvent::Fetched(Ok(n))) =>
            (RelayState { phase: RelayPhase::Submitting, ..s }, RelayAction::Submit(n)),
        (RelayPhase::Fetching, RelayEvent::Fetched(Err(_))) =>
            (RelayState { phase: RelayPhase::Idle, ..s }, RelayAction::Wait),
        (RelayPhase::Submitting, RelayEvent::Submitted(now)) =>
            (RelayState { phase: RelayPhase::Cooldown, last_submission: Some(now) }, RelayAction::Wait),
        (RelayPhase::Cooldown, RelayEvent::Tick(now)) => if grace_over(s.last_submission, now, grace) {
            (RelayState { phase: RelayPhase::Idle, ..s }, RelayAction::Wait)
        } else {
            (s, RelayAction::Wait)
        },
        _ => (s, RelayAction::Wait),
    }
}

fn grace_elapsed(last: Option<u64>, now: u64, grace: u64) -> (r: bool)
    ensures
        r == grace_over(last, now, grace),
{
    match last {
        None => true,
        Some(l) => now >= l && now - l >= grace,
    }
}

/// One decision of a relay identity: a fetch starts only once `grace` ticks
/// have passed since its last submission; a failed fetch goes back to idle
/// without a new cooldown; a submission, accepted or rejected, starts one.
pub fn relay_step(s: RelayState, e: RelayEvent, grace: u64) -> (r: (RelayState, RelayAction))
    ensures
        r == relay_next(s, e, grace),
{
    match (s.phase, e) {
        (RelayPhase::Idle, RelayEvent::Tick(now)) => if grace_elapsed(s.last_submission, now, grace) {
            (RelayState { phase: RelayPhase::Fetching, last_submission: s.last_submission }, RelayAction::Fetch)
        } else {
            (s, RelayAction::Wait)
        },
        (RelayPhase::Fetching, RelayEvent::Fetched(Ok(n))) =>
            (RelayState { phase: RelayPhase::Submitting, last_submission: s.last_submission }, RelayAction::Submit(n)),
        (RelayPhase::Fetching, RelayEvent::Fetched(Err(_))) =>
            (RelayState { phase: RelayPhase::Idle, last_submission: s.last_submission }, RelayAction::Wait),
        (RelayPhase::Submitting, RelayEvent::Submitted(now)) =>
            (RelayState { phase: RelayPhase::Cooldown, last_submission: Some(now) }, RelayAction::Wait),
        (RelayPhase::Cooldown, RelayEvent::Tick(now)) => if grace_elapsed(s.last_submission, now, grace) {
            (RelayState { phase: RelayPhase::Idle, last_submission: s.last_submission }, RelayAction::Wait)
        } else {
            (s, RelayAction::Wait)
        },
        _ => (s, RelayAction::Wait),
    }
}

/// Whether an unsigned submission at tick `now` clears the network-wide
/// cooldown of `interval` ticks since the last one included.
pub fn admit_unsigned(now: u64, last_included: Option<u64>, interval: u64) -> (r: bool)
    ensures
        r == grace_over(last_included, now, interval),
{
    grace_elapsed(last_included, now, interval)
}

/// How long an unsigned submission stays valid before it is revalidated.
pub const UNSIGNED_LONGEVITY: u64 = 5;

/// How the transaction pool is to treat an unsigned header submission.
#[derive(Clone, Copy, Debug, PartialEq, Eq, Structural)]
pub struct SubmissionValidity {
    pub priority: u64,
    pub longevity: u64,
    pub propagate: bool,
}

/// The validity of an unsigned header submission at tick `now`: none while
/// the network-wide cooldown of `interval` ticks since the last one included
/// runs; otherwise the configured priority, a five-block window, and
/// propagation to peers.
pub fn validate_unsigned(priority: u64, now: u64, last_included: Option<u64>, interval: u64) -> (r: Option<SubmissionValidity>)
    ensures
        r is Some <==> grace_over(last_included, now, interval),
        r is Some ==> r == Some(SubmissionValidity { priority, longevity: UNSIGNED_LONGEVITY, propagate: true }),
{
    if admit_unsigned(now, last_included, interval) {
        Some(SubmissionValidity { priority, longevity: UNSIGNED_LONGEVITY, propagate: true })
    } else {
        None
    }
}

} // verus!
