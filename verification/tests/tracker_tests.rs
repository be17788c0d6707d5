use ldn_demo::data::{CommandPayload, Operation, ResponseOutcome};
use ldn_demo::tracker::{Outcome, Tracker};
use ldn_demo::view::ReplicatedView;

fn view_with_response(entity: i64, request_id: i64, outcome: ResponseOutcome) -> ReplicatedView {
    let mut view = ReplicatedView::new();
    view.process_ops(vec![
        Operation::CommandResponseReceived { entity, request_id, outcome },
    ]);
    view
}

#[test]
fn issue_then_resolve_yields_exactly_one_outcome() {
    let mut tracker = Tracker::new(600);
    let id = tracker.issue(1, CommandPayload::TryChop, 0);
    let view = view_with_response(2, id, ResponseOutcome::Success);
    assert_eq!(tracker.resolve(2, id, &view, 0), Some(Outcome::Success));
    // Resolving the same id a second time yields nothing.
    assert_eq!(tracker.resolve(2, id, &view, 0), None);
}

#[test]
fn resolving_an_unissued_id_yields_none() {
    let mut tracker = Tracker::new(600);
    let view = view_with_response(2, 123, ResponseOutcome::Success);
    assert_eq!(tracker.resolve(2, 123, &view, 0), None);
}

#[test]
fn application_error_resolves_and_removes() {
    let mut tracker = Tracker::new(600);
    let id = tracker.issue(1, CommandPayload::TryChop, 0);
    let view = view_with_response(
        2,
        id,
        ResponseOutcome::ApplicationError(String::from("no resources left")),
    );
    assert_eq!(tracker.resolve(2, id, &view, 0), Some(Outcome::ApplicationError));
    assert_eq!(tracker.resolve(2, id, &view, 0), None);
}

#[test]
fn unresolved_request_waits_until_the_window_elapses() {
    let mut tracker = Tracker::new(10);
    let id = tracker.issue(1, CommandPayload::TryChop, 5);
    let empty = ReplicatedView::new();
    // Within the window: unresolved, entry kept.
    assert_eq!(tracker.resolve(2, id, &empty, 10), None);
    assert_eq!(tracker.resolve(2, id, &empty, 15), None);
    // Beyond the window: an implicit timeout, entry removed.
    assert_eq!(tracker.resolve(2, id, &empty, 16), Some(Outcome::Timeout));
    assert_eq!(tracker.resolve(2, id, &empty, 17), None);
}

#[test]
fn response_for_another_entity_does_not_match() {
    let mut tracker = Tracker::new(600);
    let id = tracker.issue(1, CommandPayload::TryChop, 0);
    // The response is attached to entity 9, but we resolve against 2.
    let view = view_with_response(9, id, ResponseOutcome::Success);
    assert_eq!(tracker.resolve(2, id, &view, 0), None);
}

#[test]
fn transport_level_failure_surfaces_as_application_error() {
    let mut tracker = Tracker::new(600);
    let id = tracker.issue(1, CommandPayload::TryChop, 0);
    let view = view_with_response(2, id, ResponseOutcome::Other);
    assert_eq!(tracker.resolve(2, id, &view, 0), Some(Outcome::ApplicationError));
}

#[test]
fn lookup_finds_the_in_flight_entry_by_entity_and_purpose() {
    let mut tracker = Tracker::new(600);
    let id = tracker.issue(1, CommandPayload::TryChop, 0);
    let other = tracker.issue(2, CommandPayload::Deposit, 0);
    assert_ne!(id, other);
    assert_eq!(tracker.lookup(1, CommandPayload::TryChop), Some(id));
    assert_eq!(tracker.lookup(2, CommandPayload::Deposit), Some(other));
    assert_eq!(tracker.lookup(1, CommandPayload::Deposit), None);
    assert_eq!(tracker.lookup(3, CommandPayload::TryChop), None);
}
