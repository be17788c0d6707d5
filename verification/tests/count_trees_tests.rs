use ldn_demo::behaviors::count_trees::TrackTreesBehaviour;
use ldn_demo::data::{
    CommandPayload, ComponentValue, Operation, OutgoingOp, Position, Tree, UpdateValue,
};
use ldn_demo::utils::Coordinates;
use ldn_demo::view::ReplicatedView;

fn at(x: i64, y: i64, z: i64) -> Coordinates {
    Coordinates { x, y, z }
}

#[test]
fn the_reduced_server_grants_by_resource_count_alone() {
    let mut view = ReplicatedView::new();
    view.process_ops(vec![
        Operation::EntityAdded { entity: 1 },
        Operation::ComponentUpdated {
            entity: 1,
            value: ComponentValue::Position(Position { coords: at(0, 0, 0) }),
        },
        Operation::ComponentUpdated {
            entity: 1,
            value: ComponentValue::Tree(Tree { resources_left: 2 }),
        },
        Operation::CommandRequestReceived { entity: 1, request_id: 5, payload: CommandPayload::TryChop },
        Operation::CommandRequestReceived { entity: 1, request_id: 6, payload: CommandPayload::TryChop },
        Operation::CommandRequestReceived { entity: 1, request_id: 7, payload: CommandPayload::TryChop },
    ]);
    let mut tracker = TrackTreesBehaviour::new();
    let mut out: Vec<OutgoingOp> = Vec::new();
    tracker.tick(&view, &mut out);
    assert_eq!(out.len(), 4);
    assert!(matches!(
        &out[0],
        OutgoingOp::CommandResponse { request_id: 5, payload: CommandPayload::TryChop }
    ));
    assert!(matches!(
        &out[1],
        OutgoingOp::CommandResponse { request_id: 6, payload: CommandPayload::TryChop }
    ));
    match &out[2] {
        OutgoingOp::CommandFailure { request_id: 7, reason } => {
            assert_eq!(reason, "No more resources.");
        },
        other => panic!("expected the refusal, got {:?}", other),
    }
    assert!(matches!(
        &out[3],
        OutgoingOp::ComponentUpdate { entity: 1, value: UpdateValue::Tree(Tree { resources_left: 0 }), .. }
    ));
    // The node is remembered spatially even while drained.
    assert_eq!(tracker.within(at(0, 0, 0), 1_000), vec![1]);
}
