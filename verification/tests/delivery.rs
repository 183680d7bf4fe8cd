use dronenet::delivery::FragmentState::{Acked, NackedRetryable, NackedTerminal, Sent};
use dronenet::delivery::{apply_ack, apply_nack, DeliveryTracker, FragmentState};
use dronenet::error::ProtocolError;
use dronenet::transport::{handoff_outcome, Handoff};
use dronenet::packet::NackType;

#[test]
fn sessions_get_consecutive_identifiers() {
    let mut tracker = DeliveryTracker::new();
    assert_eq!(tracker.session_count(), 0);
    assert_eq!(tracker.register(3), 0);
    assert_eq!(tracker.register(1), 1);
    assert_eq!(tracker.session_count(), 2);
    assert_eq!(tracker.fragment_count(0), Some(3));
    assert_eq!(tracker.fragment_count(1), Some(1));
    assert_eq!(tracker.fragment_count(2), None);
}

#[test]
fn registered_fragments_are_sent() {
    let mut tracker = DeliveryTracker::new();
    let session = tracker.register(3);
    for i in 0..3 {
        assert_eq!(tracker.fragment_state(session, i), Some(FragmentState::Sent));
    }
    assert_eq!(tracker.fragment_state(session, 3), None);
    assert_eq!(tracker.fragment_state(session + 1, 0), None);
    assert!(!tracker.is_session_complete(session));
}

#[test]
fn acks_for_every_fragment_complete_the_session() {
    let mut tracker = DeliveryTracker::new();
    let session = tracker.register(3);
    assert_eq!(tracker.on_ack(session, 0), Some(FragmentState::Acked));
    assert!(!tracker.is_session_complete(session));
    assert_eq!(tracker.on_ack(session, 2), Some(FragmentState::Acked));
    assert!(!tracker.is_session_complete(session));
    assert_eq!(tracker.on_ack(session, 1), Some(FragmentState::Acked));
    assert!(tracker.is_session_complete(session));
}

#[test]
fn a_dropped_fragment_is_retryable_and_the_others_stay() {
    let mut tracker = DeliveryTracker::new();
    let session = tracker.register(3);
    assert_eq!(tracker.on_ack(session, 0), Some(FragmentState::Acked));
    assert_eq!(
        tracker.on_nack(session, 1, NackType::Dropped),
        Some(FragmentState::NackedRetryable)
    );
    assert_eq!(tracker.fragment_state(session, 0), Some(FragmentState::Acked));
    assert_eq!(tracker.fragment_state(session, 1), Some(FragmentState::NackedRetryable));
    assert_eq!(tracker.fragment_state(session, 2), Some(FragmentState::Sent));
    assert!(!tracker.is_session_complete(session));
}

#[test]
fn a_retried_fragment_can_still_be_acknowledged() {
    let mut tracker = DeliveryTracker::new();
    let session = tracker.register(1);
    assert_eq!(
        tracker.on_nack(session, 0, NackType::ErrorInRouting(4)),
        Some(FragmentState::NackedRetryable)
    );
    assert_eq!(tracker.on_ack(session, 0), Some(FragmentState::Acked));
    assert!(tracker.is_session_complete(session));
}

#[test]
fn a_wrong_route_is_terminal() {
    let mut tracker = DeliveryTracker::new();
    let session = tracker.register(2);
    assert_eq!(
        tracker.on_nack(session, 0, NackType::DestinationIsDrone),
        Some(FragmentState::NackedTerminal)
    );
    assert_eq!(
        tracker.on_nack(session, 1, NackType::UnexpectedRecipient(9)),
        Some(FragmentState::NackedTerminal)
    );
    assert_eq!(tracker.on_ack(session, 0), Some(FragmentState::NackedTerminal));
    assert_eq!(
        tracker.on_nack(session, 1, NackType::Dropped),
        Some(FragmentState::NackedTerminal)
    );
    assert!(!tracker.is_session_complete(session));
}

#[test]
fn an_acknowledged_fragment_stays_acknowledged() {
    let mut tracker = DeliveryTracker::new();
    let session = tracker.register(1);
    assert_eq!(tracker.on_ack(session, 0), Some(FragmentState::Acked));
    assert_eq!(tracker.on_nack(session, 0, NackType::Dropped), Some(FragmentState::Acked));
    assert_eq!(
        tracker.on_nack(session, 0, NackType::DestinationIsDrone),
        Some(FragmentState::Acked)
    );
    assert!(tracker.is_session_complete(session));
}

#[test]
fn acks_for_unknown_fragments_change_nothing() {
    let mut tracker = DeliveryTracker::new();
    let session = tracker.register(2);
    assert_eq!(tracker.on_ack(session, 2), None);
    assert_eq!(tracker.on_ack(session + 1, 0), None);
    assert_eq!(tracker.on_nack(u64::MAX, u64::MAX, NackType::Dropped), None);
    assert_eq!(tracker.fragment_state(session, 0), Some(FragmentState::Sent));
    assert_eq!(tracker.fragment_state(session, 1), Some(FragmentState::Sent));
}

#[test]
fn sessions_are_tracked_apart() {
    let mut tracker = DeliveryTracker::new();
    let first = tracker.register(1);
    let second = tracker.register(1);
    assert_eq!(tracker.on_ack(second, 0), Some(FragmentState::Acked));
    assert!(tracker.is_session_complete(second));
    assert!(!tracker.is_session_complete(first));
    assert_eq!(tracker.fragment_state(first, 0), Some(FragmentState::Sent));
}

#[test]
fn unknown_session_is_not_complete() {
    let tracker = DeliveryTracker::new();
    assert!(!tracker.is_session_complete(0));
}

#[test]
fn state_machine_table() {
    assert_eq!(apply_ack(Sent), Acked);
    assert_eq!(apply_ack(NackedRetryable), Acked);
    assert_eq!(apply_ack(Acked), Acked);
    assert_eq!(apply_ack(NackedTerminal), NackedTerminal);
    for state in [Sent, NackedRetryable] {
        assert_eq!(apply_nack(state, NackType::Dropped), NackedRetryable);
        assert_eq!(apply_nack(state, NackType::ErrorInRouting(3)), NackedRetryable);
        assert_eq!(apply_nack(state, NackType::DestinationIsDrone), NackedTerminal);
        assert_eq!(apply_nack(state, NackType::UnexpectedRecipient(3)), NackedTerminal);
    }
    for state in [Acked, NackedTerminal] {
        assert_eq!(apply_nack(state, NackType::Dropped), state);
        assert_eq!(apply_nack(state, NackType::ErrorInRouting(3)), state);
        assert_eq!(apply_nack(state, NackType::DestinationIsDrone), state);
        assert_eq!(apply_nack(state, NackType::UnexpectedRecipient(3)), state);
    }
}

#[test]
fn a_refused_handoff_is_transport_unavailable() {
    assert_eq!(handoff_outcome(Handoff::Accepted), Ok(()));
    assert_eq!(handoff_outcome(Handoff::Full), Err(ProtocolError::TransportUnavailable));
    assert_eq!(handoff_outcome(Handoff::Closed), Err(ProtocolError::TransportUnavailable));
}
