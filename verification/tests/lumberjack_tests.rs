use ldn_demo::behaviors::lumberjacks::LumberjackBehavior;
use ldn_demo::behaviors::trees::TrackTreesBehaviour;
use ldn_demo::data::{
    Action, CommandPayload, ComponentValue, Fire, Lumberjack, Operation, OutgoingOp, Position,
    ResponseOutcome, Tree, UpdateValue,
};
use ldn_demo::utils::Coordinates;
use ldn_demo::view::ReplicatedView;

fn at(x: i64, y: i64, z: i64) -> Coordinates {
    Coordinates { x, y, z }
}

fn node_ops(entity: i64, coords: Coordinates, resources: u32) -> Vec<Operation> {
    vec![
        Operation::EntityAdded { entity },
        Operation::ComponentUpdated {
            entity,
            value: ComponentValue::Position(Position { coords }),
        },
        Operation::ComponentUpdated {
            entity,
            value: ComponentValue::Tree(Tree { resources_left: resources }),
        },
        Operation::ComponentUpdated {
            entity,
            value: ComponentValue::Fire(Fire { is_on_fire: false }),
        },
    ]
}

fn harvester_ops(entity: i64, coords: Coordinates) -> Vec<Operation> {
    vec![
        Operation::EntityAdded { entity },
        Operation::ComponentUpdated {
            entity,
            value: ComponentValue::Position(Position { coords }),
        },
        Operation::ComponentUpdated {
            entity,
            value: ComponentValue::Lumberjack(Lumberjack { action: Action::Idle }),
        },
    ]
}

/// Feed a behaviour's own component updates back into the view, the
/// way the transport loops them back.
fn apply_updates(view: &mut ReplicatedView, out: &[OutgoingOp]) {
    let mut ops = Vec::new();
    for op in out {
        if let OutgoingOp::ComponentUpdate { entity, value, .. } = op {
            let component = match value {
                UpdateValue::Position(p) => Some(ComponentValue::Position(*p)),
                UpdateValue::Tree(t) => Some(ComponentValue::Tree(*t)),
                UpdateValue::Fire(f) => Some(ComponentValue::Fire(*f)),
                UpdateValue::Headquarters(h) => Some(ComponentValue::Headquarters(*h)),
                UpdateValue::Lumberjack(l) => Some(ComponentValue::Lumberjack(*l)),
                UpdateValue::Wizard(w) => Some(ComponentValue::Wizard(*w)),
                UpdateValue::Metadata(_) => None,
            };
            if let Some(value) = component {
                ops.push(Operation::ComponentUpdated { entity: *entity, value });
            }
        }
    }
    view.process_ops(ops);
}

#[test]
fn harvester_stays_idle_while_no_node_is_in_range() {
    let mut view = ReplicatedView::new();
    let mut ops = harvester_ops(1, at(0, 0, 0));
    // Nearest node at 200 units; the search radius is 125 units.
    ops.extend(node_ops(2, at(200_000, 0, 0), 5));
    view.process_ops(ops);
    let mut trees = TrackTreesBehaviour::new();
    let mut scratch: Vec<OutgoingOp> = Vec::new();
    trees.tick(&view, 0, &mut scratch);
    let mut harvesters = LumberjackBehavior::new();
    for tick in 0..5u64 {
        let mut out: Vec<OutgoingOp> = Vec::new();
        harvesters.tick(&view, &trees, tick, &mut out);
        assert!(out.is_empty(), "an out-of-range harvester must stay idle");
    }
}

#[test]
fn harvester_walks_monotonically_closer_and_chops_exactly_once() {
    let mut view = ReplicatedView::new();
    let mut ops = harvester_ops(1, at(0, 0, 0));
    // One node inside the search radius: the random pick is forced.
    ops.extend(node_ops(2, at(100_000, 0, 0), 5));
    view.process_ops(ops);
    let mut trees = TrackTreesBehaviour::new();
    let mut scratch: Vec<OutgoingOp> = Vec::new();
    trees.tick(&view, 0, &mut scratch);
    let mut harvesters = LumberjackBehavior::new();

    // First tick: the idle harvester commits to the node.
    let mut out: Vec<OutgoingOp> = Vec::new();
    harvesters.tick(&view, &trees, 0, &mut out);
    assert_eq!(out.len(), 1);
    assert!(matches!(
        &out[0],
        OutgoingOp::ComponentUpdate {
            entity: 1,
            value: UpdateValue::Lumberjack(Lumberjack { action: Action::Fetching { target: 2 } }),
            ..
        }
    ));
    apply_updates(&mut view, &out);

    // Fetching ticks: each step strictly decreases the squared
    // distance until the arrival threshold, then exactly one harvest
    // request goes out.
    let target = at(100_000, 0, 0);
    let mut chop_requests = 0usize;
    let mut last_d = i128::MAX;
    let mut ticks = 0u64;
    loop {
        ticks += 1;
        assert!(ticks < 5_000, "the harvester must arrive eventually");
        let here = view.get_position(1).unwrap().coords;
        let d = ldn_demo::utils::squared_distance(&here, &target);
        assert!(d < last_d, "each step must come strictly closer");
        last_d = d;
        let mut step_out: Vec<OutgoingOp> = Vec::new();
        harvesters.tick(&view, &trees, ticks, &mut step_out);
        for op in &step_out {
            if matches!(
                op,
                OutgoingOp::CommandRequest { entity: 2, payload: CommandPayload::TryChop, .. }
            ) {
                chop_requests += 1;
            }
        }
        apply_updates(&mut view, &step_out);
        if matches!(
            view.get_lumberjack(1).unwrap().action,
            Action::Waiting { .. }
        ) {
            break;
        }
    }
    assert_eq!(chop_requests, 1, "exactly one harvest request on arrival");
    // Arrived: within the threshold of 3 squared units.
    let here = view.get_position(1).unwrap().coords;
    assert!(ldn_demo::utils::squared_distance(&here, &target) <= 3_000_000);
}

#[test]
fn waiting_harvester_heads_for_the_nearest_deposit_target() {
    let mut view = ReplicatedView::new();
    let mut ops = harvester_ops(1, at(0, 0, 0));
    ops.extend(node_ops(2, at(1_000, 0, 0), 5));
    // Two deposit targets; 4 is nearer.
    ops.push(Operation::EntityAdded { entity: 3 });
    ops.push(Operation::ComponentUpdated {
        entity: 3,
        value: ComponentValue::Position(Position { coords: at(90_000, 0, 0) }),
    });
    ops.push(Operation::ComponentUpdated {
        entity: 3,
        value: ComponentValue::Headquarters(ldn_demo::data::Headquarters { score: 0 }),
    });
    ops.push(Operation::EntityAdded { entity: 4 });
    ops.push(Operation::ComponentUpdated {
        entity: 4,
        value: ComponentValue::Position(Position { coords: at(40_000, 0, 0) }),
    });
    ops.push(Operation::ComponentUpdated {
        entity: 4,
        value: ComponentValue::Headquarters(ldn_demo::data::Headquarters { score: 0 }),
    });
    view.process_ops(ops);
    let mut trees = TrackTreesBehaviour::new();
    let mut scratch: Vec<OutgoingOp> = Vec::new();
    trees.tick(&view, 0, &mut scratch);
    let mut harvesters = LumberjackBehavior::new();

    // Idle -> Fetching, and the node is already within the threshold,
    // so the next tick issues the harvest request and waits.
    let mut out: Vec<OutgoingOp> = Vec::new();
    harvesters.tick(&view, &trees, 0, &mut out);
    apply_updates(&mut view, &out);
    let mut out: Vec<OutgoingOp> = Vec::new();
    harvesters.tick(&view, &trees, 1, &mut out);
    let issued = out.iter().find_map(|op| match op {
        OutgoingOp::CommandRequest {
            entity: 2,
            request_id: Some(id),
            payload: CommandPayload::TryChop,
        } => Some(*id),
        _ => None,
    });
    let request_id = issued.expect("the arrived harvester must issue a harvest request");
    apply_updates(&mut view, &out);
    assert!(matches!(view.get_lumberjack(1).unwrap().action, Action::Waiting { target: 2 }));

    // The response arrives; the harvester turns toward the nearest
    // deposit target, which is entity 4.
    view.clear_transient_data();
    view.process_ops(vec![Operation::CommandResponseReceived {
        entity: 2,
        request_id,
        outcome: ResponseOutcome::Success,
    }]);
    let mut out: Vec<OutgoingOp> = Vec::new();
    harvesters.tick(&view, &trees, 2, &mut out);
    assert!(matches!(
        &out[..],
        [OutgoingOp::ComponentUpdate {
            entity: 1,
            value: UpdateValue::Lumberjack(Lumberjack { action: Action::Returning { target: 4 } }),
            ..
        }]
    ));
}

#[test]
fn refused_harvest_sends_the_harvester_back_to_idle() {
    let mut view = ReplicatedView::new();
    let mut ops = harvester_ops(1, at(0, 0, 0));
    ops.extend(node_ops(2, at(1_000, 0, 0), 5));
    view.process_ops(ops);
    let mut trees = TrackTreesBehaviour::new();
    let mut scratch: Vec<OutgoingOp> = Vec::new();
    trees.tick(&view, 0, &mut scratch);
    let mut harvesters = LumberjackBehavior::new();
    let mut out: Vec<OutgoingOp> = Vec::new();
    harvesters.tick(&view, &trees, 0, &mut out);
    apply_updates(&mut view, &out);
    let mut out: Vec<OutgoingOp> = Vec::new();
    harvesters.tick(&view, &trees, 1, &mut out);
    let request_id = out
        .iter()
        .find_map(|op| match op {
            OutgoingOp::CommandRequest { request_id: Some(id), .. } => Some(*id),
            _ => None,
        })
        .unwrap();
    apply_updates(&mut view, &out);
    view.clear_transient_data();
    view.process_ops(vec![Operation::CommandResponseReceived {
        entity: 2,
        request_id,
        outcome: ResponseOutcome::ApplicationError(String::from("Tree not available.")),
    }]);
    let mut out: Vec<OutgoingOp> = Vec::new();
    harvesters.tick(&view, &trees, 2, &mut out);
    assert!(matches!(
        &out[..],
        [OutgoingOp::ComponentUpdate {
            entity: 1,
            value: UpdateValue::Lumberjack(Lumberjack { action: Action::Idle }),
            ..
        }]
    ));
}
