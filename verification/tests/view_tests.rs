use ldn_demo::data::{
    CommandPayload, ComponentKind, ComponentValue, Fire, Operation, Position, ResponseOutcome,
    Tree,
};
use ldn_demo::utils::{Coordinates, COORD_LIMIT};
use ldn_demo::view::ReplicatedView;

fn pos_value(x: i64, y: i64, z: i64) -> ComponentValue {
    ComponentValue::Position(Position { coords: Coordinates { x, y, z } })
}

#[test]
fn entity_liveness_matches_add_remove_history() {
    let mut view = ReplicatedView::new();
    view.process_ops(vec![
        Operation::EntityAdded { entity: 1 },
        Operation::EntityAdded { entity: 2 },
        Operation::CriticalSectionMarker,
        Operation::EntityAdded { entity: 3 },
        Operation::EntityRemoved { entity: 2 },
        Operation::CriticalSectionMarker,
        Operation::EntityAdded { entity: 4 },
        Operation::EntityRemoved { entity: 4 },
    ]);
    assert!(view.has_entity(1));
    assert!(!view.has_entity(2));
    assert!(view.has_entity(3));
    assert!(!view.has_entity(4));
    let ids = view.entity_ids();
    assert_eq!(ids.len(), 2);
    assert!(ids.contains(&1) && ids.contains(&3));
}

#[test]
fn open_critical_section_defers_everything() {
    let mut view = ReplicatedView::new();
    view.process_ops(vec![
        Operation::EntityAdded { entity: 7 },
        Operation::ComponentUpdated { entity: 7, value: ComponentValue::Tree(Tree { resources_left: 5 }) },
    ]);
    view.clear_transient_data();
    // Feed a partial batch: the section opens but never closes.
    view.process_ops(vec![
        Operation::CriticalSectionMarker,
        Operation::ComponentUpdated { entity: 7, value: ComponentValue::Tree(Tree { resources_left: 0 }) },
        Operation::EntityAdded { entity: 8 },
    ]);
    // Queries still reflect the previous complete state.
    assert!(view.in_critical_section());
    assert_eq!(view.get_tree(7), Some(Tree { resources_left: 5 }));
    assert!(!view.has_entity(8));
    assert!(!view.was_component_updated(7, ComponentKind::Tree));
    // The closing marker commits the whole section at once.
    view.process_ops(vec![Operation::CriticalSectionMarker]);
    assert!(!view.in_critical_section());
    assert_eq!(view.get_tree(7), Some(Tree { resources_left: 0 }));
    assert!(view.has_entity(8));
    assert!(view.was_component_updated(7, ComponentKind::Tree));
}

#[test]
fn malformed_input_is_dropped_not_escalated() {
    let mut view = ReplicatedView::new();
    // Update for an unknown entity: dropped.
    view.process_ops(vec![
        Operation::ComponentUpdated { entity: 9, value: ComponentValue::Tree(Tree { resources_left: 3 }) },
    ]);
    assert!(!view.has_entity(9));
    // A position outside the world bound: dropped.
    view.process_ops(vec![
        Operation::EntityAdded { entity: 9 },
        Operation::ComponentUpdated { entity: 9, value: pos_value(COORD_LIMIT + 1, 0, 0) },
    ]);
    assert_eq!(view.get_position(9), None);
    // An in-bounds position: accepted.
    view.process_ops(vec![
        Operation::ComponentUpdated { entity: 9, value: pos_value(5, 6, 7) },
    ]);
    assert_eq!(
        view.get_position(9),
        Some(Position { coords: Coordinates { x: 5, y: 6, z: 7 } })
    );
}

#[test]
fn clear_transient_data_keeps_committed_state() {
    let mut view = ReplicatedView::new();
    view.process_ops(vec![
        Operation::EntityAdded { entity: 1 },
        Operation::ComponentUpdated { entity: 1, value: ComponentValue::Fire(Fire { is_on_fire: true }) },
        Operation::CommandRequestReceived { entity: 1, request_id: 50, payload: CommandPayload::TryChop },
        Operation::CommandResponseReceived { entity: 1, request_id: 60, outcome: ResponseOutcome::Success },
        Operation::EntityAdded { entity: 2 },
        Operation::EntityRemoved { entity: 2 },
    ]);
    assert!(view.was_entity_added(1));
    assert_eq!(view.tree_request_count(1), 1);
    assert!(view.get_command_response(1, 60).is_some());
    assert_eq!(view.removed_count(), 1);
    view.clear_transient_data();
    assert!(!view.was_entity_added(1));
    assert!(!view.was_component_updated(1, ComponentKind::Fire));
    assert_eq!(view.tree_request_count(1), 0);
    assert!(view.get_command_response(1, 60).is_none());
    assert_eq!(view.removed_count(), 0);
    // Committed component state survives the clear.
    assert_eq!(view.get_fire(1), Some(Fire { is_on_fire: true }));
}

#[test]
fn command_requests_route_by_kind_in_arrival_order() {
    let mut view = ReplicatedView::new();
    view.process_ops(vec![
        Operation::EntityAdded { entity: 3 },
        Operation::CommandRequestReceived { entity: 3, request_id: 11, payload: CommandPayload::TryChop },
        Operation::CommandRequestReceived { entity: 3, request_id: 12, payload: CommandPayload::SetOnFire },
        Operation::CommandRequestReceived { entity: 3, request_id: 13, payload: CommandPayload::TryChop },
        Operation::CommandRequestReceived { entity: 3, request_id: 14, payload: CommandPayload::Deposit },
        Operation::CommandRequestReceived { entity: 3, request_id: 15, payload: CommandPayload::ClearFire },
    ]);
    assert_eq!(view.tree_request_count(3), 2);
    assert_eq!(view.tree_request_at(3, 0), 11);
    assert_eq!(view.tree_request_at(3, 1), 13);
    assert_eq!(view.fire_request_count(3), 2);
    assert_eq!(view.fire_request_at(3, 0).0, 12);
    assert_eq!(view.fire_request_at(3, 1).0, 15);
    assert_eq!(view.hq_request_count(3), 1);
    assert_eq!(view.hq_request_at(3, 0), 14);
    // A removal purges the derived request lists in the same pass.
    view.process_ops(vec![Operation::EntityRemoved { entity: 3 }]);
    assert_eq!(view.tree_request_count(3), 0);
    assert_eq!(view.fire_request_count(3), 0);
    assert_eq!(view.hq_request_count(3), 0);
}

#[test]
fn command_response_is_matched_by_entity_and_id() {
    let mut view = ReplicatedView::new();
    view.process_ops(vec![
        Operation::CommandResponseReceived { entity: 4, request_id: 99, outcome: ResponseOutcome::Success },
    ]);
    assert!(matches!(view.get_command_response(4, 99), Some(ResponseOutcome::Success)));
    assert!(view.get_command_response(5, 99).is_none());
    assert!(view.get_command_response(4, 98).is_none());
}
