use ldn_demo::behaviors::trees::TrackTreesBehaviour;
use ldn_demo::data::{
    CommandPayload, ComponentValue, Fire, Operation, OutgoingOp, Position, Tree, UpdateValue,
};
use ldn_demo::utils::Coordinates;
use ldn_demo::view::ReplicatedView;

fn at(x: i64, y: i64, z: i64) -> Coordinates {
    Coordinates { x, y, z }
}

fn node_ops(entity: i64, coords: Coordinates, resources: u32, burning: bool) -> Vec<Operation> {
    vec![
        Operation::EntityAdded { entity },
        Operation::ComponentUpdated {
            entity,
            value: ComponentValue::Position(Position { coords }),
        },
        Operation::ComponentUpdated {
            entity,
            value: ComponentValue::Tree(Tree { resources_left: resources }),
        },
        Operation::ComponentUpdated {
            entity,
            value: ComponentValue::Fire(Fire { is_on_fire: burning }),
        },
    ]
}

#[test]
fn five_requests_on_three_resources_grant_three_in_arrival_order() {
    let mut view = ReplicatedView::new();
    let mut ops = node_ops(10, at(0, 0, 0), 3, false);
    for id in [100, 101, 102, 103, 104] {
        ops.push(Operation::CommandRequestReceived {
            entity: 10,
            request_id: id,
            payload: CommandPayload::TryChop,
        });
    }
    view.process_ops(ops);
    let mut trees = TrackTreesBehaviour::new();
    let mut out: Vec<OutgoingOp> = Vec::new();
    trees.tick(&view, 0, &mut out);
    assert_eq!(out.len(), 7);
    for (i, expected_id) in [100, 101, 102].iter().enumerate() {
        match &out[i] {
            OutgoingOp::CommandResponse { request_id, payload: CommandPayload::TryChop } => {
                assert_eq!(request_id, expected_id);
            },
            other => panic!("expected a harvest response, got {:?}", other),
        }
    }
    for (i, expected_id) in [103, 104].iter().enumerate() {
        match &out[3 + i] {
            OutgoingOp::CommandFailure { request_id, reason } => {
                assert_eq!(request_id, expected_id);
                assert_eq!(reason, "Tree not available.");
            },
            other => panic!("expected an explicit failure, got {:?}", other),
        }
    }
    match &out[5] {
        OutgoingOp::ComponentUpdate { entity: 10, value: UpdateValue::Tree(t), .. } => {
            assert_eq!(t.resources_left, 0);
        },
        other => panic!("expected the resource update, got {:?}", other),
    }
    match &out[6] {
        OutgoingOp::ComponentUpdate { entity: 10, value: UpdateValue::Metadata(label), .. } => {
            assert_eq!(label, "Tree (Empty)");
        },
        other => panic!("expected the label update, got {:?}", other),
    }
    // The drained node moved into the unavailable partition.
    assert!(trees.within(at(0, 0, 0), 1_000).is_empty());
    assert_eq!(trees.within_inactive(at(0, 0, 0), 1_000), vec![10]);
}

#[test]
fn inactive_node_refuses_every_request() {
    let mut view = ReplicatedView::new();
    let mut ops = node_ops(11, at(0, 0, 0), 4, true);
    ops.push(Operation::CommandRequestReceived {
        entity: 11,
        request_id: 200,
        payload: CommandPayload::TryChop,
    });
    view.process_ops(ops);
    let mut trees = TrackTreesBehaviour::new();
    let mut out: Vec<OutgoingOp> = Vec::new();
    trees.tick(&view, 0, &mut out);
    // One failure and the unchanged resource count.
    assert!(matches!(
        &out[0],
        OutgoingOp::CommandFailure { request_id: 200, .. }
    ));
    assert!(matches!(
        &out[1],
        OutgoingOp::ComponentUpdate { entity: 11, value: UpdateValue::Tree(Tree { resources_left: 4 }), .. }
    ));
}

#[test]
fn hazard_requests_toggle_flag_label_and_partition() {
    let mut view = ReplicatedView::new();
    let mut ops = node_ops(12, at(0, 0, 0), 5, false);
    ops.push(Operation::CommandRequestReceived {
        entity: 12,
        request_id: 300,
        payload: CommandPayload::SetOnFire,
    });
    view.process_ops(ops);
    let mut trees = TrackTreesBehaviour::new();
    let mut out: Vec<OutgoingOp> = Vec::new();
    trees.tick(&view, 0, &mut out);
    assert_eq!(out.len(), 3);
    assert!(matches!(
        &out[0],
        OutgoingOp::ComponentUpdate { entity: 12, value: UpdateValue::Fire(Fire { is_on_fire: true }), .. }
    ));
    match &out[1] {
        OutgoingOp::ComponentUpdate { value: UpdateValue::Metadata(label), .. } => {
            assert_eq!(label, "Tree (Fire)");
        },
        other => panic!("expected the label update, got {:?}", other),
    }
    assert!(matches!(
        &out[2],
        OutgoingOp::CommandResponse { request_id: 300, payload: CommandPayload::SetOnFire }
    ));
    assert!(trees.within(at(0, 0, 0), 1_000).is_empty());
    assert_eq!(trees.within_inactive(at(0, 0, 0), 1_000), vec![12]);

    // Clearing the hazard brings it back, resources permitting.
    view.clear_transient_data();
    view.process_ops(vec![Operation::CommandRequestReceived {
        entity: 12,
        request_id: 301,
        payload: CommandPayload::ClearFire,
    }]);
    let mut out2: Vec<OutgoingOp> = Vec::new();
    trees.tick(&view, 0, &mut out2);
    assert!(matches!(
        &out2[0],
        OutgoingOp::ComponentUpdate { entity: 12, value: UpdateValue::Fire(Fire { is_on_fire: false }), .. }
    ));
    match &out2[1] {
        OutgoingOp::ComponentUpdate { value: UpdateValue::Metadata(label), .. } => {
            assert_eq!(label, "Tree");
        },
        other => panic!("expected the label update, got {:?}", other),
    }
    assert!(matches!(
        &out2[2],
        OutgoingOp::CommandResponse { request_id: 301, payload: CommandPayload::ClearFire }
    ));
    assert_eq!(trees.within(at(0, 0, 0), 1_000), vec![12]);
}

#[test]
fn zero_spread_chance_never_requests_a_hazard() {
    let mut view = ReplicatedView::new();
    let mut ops = node_ops(1, at(0, 0, 0), 5, true);
    ops.extend(node_ops(2, at(5_000, 0, 0), 5, false));
    ops.extend(node_ops(3, at(6_000, 0, 0), 5, false));
    view.process_ops(ops);
    let mut trees = TrackTreesBehaviour::with_spread_chance(0, 1);
    let mut out: Vec<OutgoingOp> = Vec::new();
    // Well past the contagion interval.
    trees.tick(&view, 60_000, &mut out);
    for op in &out {
        assert!(
            !matches!(op, OutgoingOp::CommandRequest { payload: CommandPayload::SetOnFire, .. }),
            "no hazard-set request may ever be issued with chance zero"
        );
    }
}

#[test]
fn certain_spread_requests_each_candidate_exactly_once() {
    let mut view = ReplicatedView::new();
    let mut ops = node_ops(1, at(0, 0, 0), 5, true);
    // Two available nodes in radius, one out of radius, one burning.
    ops.extend(node_ops(2, at(5_000, 0, 0), 5, false));
    ops.extend(node_ops(3, at(6_000, 0, 0), 5, false));
    ops.extend(node_ops(4, at(50_000, 0, 0), 5, false));
    view.process_ops(ops);
    let mut trees = TrackTreesBehaviour::with_spread_chance(1, 1);
    let mut out: Vec<OutgoingOp> = Vec::new();
    // Before the interval elapses, nothing spreads.
    trees.tick(&view, 1_000, &mut out);
    assert!(out.is_empty());
    // At the next contagion interval, each candidate gets exactly one.
    trees.tick(&view, 7_000, &mut out);
    let mut targets: Vec<i64> = out
        .iter()
        .filter_map(|op| match op {
            OutgoingOp::CommandRequest {
                entity,
                request_id: None,
                payload: CommandPayload::SetOnFire,
            } => Some(*entity),
            _ => None,
        })
        .collect();
    targets.sort();
    assert_eq!(targets, vec![2, 3]);
}
