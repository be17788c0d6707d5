use ldn_demo::behaviors::trees::TrackTreesBehaviour;
use ldn_demo::behaviors::wizards::WizardBehavior;
use ldn_demo::data::{
    CommandPayload, ComponentValue, Fire, Operation, OutgoingOp, Position, Tree, UpdateValue,
    Wizard, WizardAction, WizardFaction,
};
use ldn_demo::utils::Coordinates;
use ldn_demo::view::ReplicatedView;

fn at(x: i64, y: i64, z: i64) -> Coordinates {
    Coordinates { x, y, z }
}

fn node_ops(entity: i64, coords: Coordinates, resources: u32, burning: bool) -> Vec<Operation> {
    vec![
        Operation::EntityAdded { entity },
        Operation::ComponentUpdated {
            entity,
            value: ComponentValue::Position(Position { coords }),
        },
        Operation::ComponentUpdated {
            entity,
            value: ComponentValue::Tree(Tree { resources_left: resources }),
        },
        Operation::ComponentUpdated {
            entity,
            value: ComponentValue::Fire(Fire { is_on_fire: burning }),
        },
    ]
}

fn wizard_ops(entity: i64, coords: Coordinates, faction: WizardFaction) -> Vec<Operation> {
    vec![
        Operation::EntityAdded { entity },
        Operation::ComponentUpdated {
            entity,
            value: ComponentValue::Position(Position { coords }),
        },
        Operation::ComponentUpdated {
            entity,
            value: ComponentValue::Wizard(Wizard { faction, action: WizardAction::Idle }),
        },
    ]
}

fn apply_updates(view: &mut ReplicatedView, out: &[OutgoingOp]) {
    let mut ops = Vec::new();
    for op in out {
        if let OutgoingOp::ComponentUpdate { entity, value, .. } = op {
            let component = match value {
                UpdateValue::Position(p) => Some(ComponentValue::Position(*p)),
                UpdateValue::Tree(t) => Some(ComponentValue::Tree(*t)),
                UpdateValue::Fire(f) => Some(ComponentValue::Fire(*f)),
                UpdateValue::Headquarters(h) => Some(ComponentValue::Headquarters(*h)),
                UpdateValue::Lumberjack(l) => Some(ComponentValue::Lumberjack(*l)),
                UpdateValue::Wizard(w) => Some(ComponentValue::Wizard(*w)),
                UpdateValue::Metadata(_) => None,
            };
            if let Some(value) = component {
                ops.push(Operation::ComponentUpdated { entity: *entity, value });
            }
        }
    }
    view.process_ops(ops);
}

#[test]
fn an_evil_caster_walks_to_an_available_node_and_sets_it_alight() {
    let mut view = ReplicatedView::new();
    let mut ops = wizard_ops(1, at(0, 0, 0), WizardFaction::Evil);
    ops.extend(node_ops(2, at(1_000, 0, 0), 5, false));
    view.process_ops(ops);
    let mut trees = TrackTreesBehaviour::new();
    let mut scratch: Vec<OutgoingOp> = Vec::new();
    trees.tick(&view, 0, &mut scratch);
    let mut wizards = WizardBehavior::new();

    // Idle: the only candidate is the available node.
    let mut out: Vec<OutgoingOp> = Vec::new();
    wizards.tick(&view, &trees, &mut out);
    assert!(matches!(
        &out[..],
        [OutgoingOp::ComponentUpdate {
            entity: 1,
            value: UpdateValue::Wizard(Wizard { action: WizardAction::Moving { target: 2, .. }, .. }),
            ..
        }]
    ));
    apply_updates(&mut view, &out);

    // Moving: already within the threshold, so the next tick casts.
    let mut out: Vec<OutgoingOp> = Vec::new();
    wizards.tick(&view, &trees, &mut out);
    assert!(matches!(
        &out[..],
        [OutgoingOp::ComponentUpdate {
            value: UpdateValue::Wizard(Wizard { action: WizardAction::Spell { target: 2, .. }, .. }),
            ..
        }]
    ));
    apply_updates(&mut view, &out);

    // Spell: the hazard-set request goes out and the caster re-idles.
    let mut out: Vec<OutgoingOp> = Vec::new();
    wizards.tick(&view, &trees, &mut out);
    assert_eq!(out.len(), 2);
    assert!(matches!(
        &out[0],
        OutgoingOp::CommandRequest {
            entity: 2,
            request_id: None,
            payload: CommandPayload::SetOnFire,
        }
    ));
    assert!(matches!(
        &out[1],
        OutgoingOp::ComponentUpdate {
            entity: 1,
            value: UpdateValue::Wizard(Wizard { action: WizardAction::Idle, .. }),
            ..
        }
    ));
}

#[test]
fn a_good_caster_targets_hazardous_nodes_and_clears_them() {
    let mut view = ReplicatedView::new();
    let mut ops = wizard_ops(1, at(0, 0, 0), WizardFaction::Good);
    // A burning node (inactive partition) and an available one.
    ops.extend(node_ops(2, at(1_000, 0, 0), 5, true));
    ops.extend(node_ops(3, at(2_000, 0, 0), 5, false));
    view.process_ops(ops);
    let mut trees = TrackTreesBehaviour::new();
    let mut scratch: Vec<OutgoingOp> = Vec::new();
    trees.tick(&view, 0, &mut scratch);
    let mut wizards = WizardBehavior::new();

    let mut out: Vec<OutgoingOp> = Vec::new();
    wizards.tick(&view, &trees, &mut out);
    assert!(matches!(
        &out[..],
        [OutgoingOp::ComponentUpdate {
            value: UpdateValue::Wizard(Wizard { action: WizardAction::Moving { target: 2, .. }, .. }),
            ..
        }]
    ));
    apply_updates(&mut view, &out);
    let mut out: Vec<OutgoingOp> = Vec::new();
    wizards.tick(&view, &trees, &mut out);
    apply_updates(&mut view, &out);
    let mut out: Vec<OutgoingOp> = Vec::new();
    wizards.tick(&view, &trees, &mut out);
    assert!(matches!(
        &out[0],
        OutgoingOp::CommandRequest {
            entity: 2,
            request_id: None,
            payload: CommandPayload::ClearFire,
        }
    ));
}

#[test]
fn an_idle_caster_widens_its_search_up_to_four_times() {
    let mut view = ReplicatedView::new();
    let mut ops = wizard_ops(1, at(0, 0, 0), WizardFaction::Evil);
    // Outside the base radius of 150 units, inside 2 x 150.
    ops.extend(node_ops(2, at(200_000, 0, 0), 5, false));
    view.process_ops(ops);
    let mut trees = TrackTreesBehaviour::new();
    let mut scratch: Vec<OutgoingOp> = Vec::new();
    trees.tick(&view, 0, &mut scratch);
    let mut wizards = WizardBehavior::new();
    let mut out: Vec<OutgoingOp> = Vec::new();
    wizards.tick(&view, &trees, &mut out);
    assert!(matches!(
        &out[..],
        [OutgoingOp::ComponentUpdate {
            value: UpdateValue::Wizard(Wizard { action: WizardAction::Moving { target: 2, .. }, .. }),
            ..
        }]
    ));
}

#[test]
fn an_idle_caster_prefers_the_narrowest_ring_with_a_find() {
    let mut view = ReplicatedView::new();
    let mut ops = wizard_ops(1, at(0, 0, 0), WizardFaction::Evil);
    // One node inside the base radius, one only inside the second ring:
    // the narrow find must win.
    ops.extend(node_ops(2, at(100_000, 0, 0), 5, false));
    ops.extend(node_ops(3, at(250_000, 0, 0), 5, false));
    view.process_ops(ops);
    let mut trees = TrackTreesBehaviour::new();
    let mut scratch: Vec<OutgoingOp> = Vec::new();
    trees.tick(&view, 0, &mut scratch);
    let mut wizards = WizardBehavior::new();
    let mut out: Vec<OutgoingOp> = Vec::new();
    wizards.tick(&view, &trees, &mut out);
    assert!(matches!(
        &out[..],
        [OutgoingOp::ComponentUpdate {
            value: UpdateValue::Wizard(Wizard { action: WizardAction::Moving { target: 2, .. }, .. }),
            ..
        }]
    ));
}

#[test]
fn a_caster_with_no_candidates_stays_idle() {
    let mut view = ReplicatedView::new();
    let mut ops = wizard_ops(1, at(0, 0, 0), WizardFaction::Evil);
    // Beyond even the widest attempt (4 x 150 units).
    ops.extend(node_ops(2, at(700_000, 0, 0), 5, false));
    view.process_ops(ops);
    let mut trees = TrackTreesBehaviour::new();
    let mut scratch: Vec<OutgoingOp> = Vec::new();
    trees.tick(&view, 0, &mut scratch);
    let mut wizards = WizardBehavior::new();
    let mut out: Vec<OutgoingOp> = Vec::new();
    wizards.tick(&view, &trees, &mut out);
    assert!(out.is_empty());
}
