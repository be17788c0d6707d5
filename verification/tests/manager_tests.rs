use ldn_demo::behaviors::hq::HqBehaviour;
use ldn_demo::behaviors::lumberjacks::LumberjackBehavior;
use ldn_demo::behaviors::trees::TrackTreesBehaviour;
use ldn_demo::data::{
    CommandPayload, ComponentValue, Fire, Operation, OutgoingOp, Position, Tree,
};
use ldn_demo::manager::{BehaviorKind, BehaviorManager};
use ldn_demo::utils::Coordinates;

fn at(x: i64, y: i64, z: i64) -> Coordinates {
    Coordinates { x, y, z }
}

#[test]
fn the_driver_holds_behaviours_back_until_the_section_closes() {
    let mut manager = BehaviorManager::new();
    manager.register_behaviour(BehaviorKind::Trees(TrackTreesBehaviour::new()));
    manager.register_behaviour(BehaviorKind::Lumberjacks(LumberjackBehavior::new()));
    manager.register_behaviour(BehaviorKind::Hqs(HqBehaviour::new()));

    manager.begin_tick();
    // The first poll opens a critical section and leaves it open.
    manager.process_ops(vec![
        Operation::CriticalSectionMarker,
        Operation::EntityAdded { entity: 1 },
        Operation::ComponentUpdated {
            entity: 1,
            value: ComponentValue::Position(Position { coords: at(0, 0, 0) }),
        },
        Operation::ComponentUpdated {
            entity: 1,
            value: ComponentValue::Tree(Tree { resources_left: 2 }),
        },
        Operation::ComponentUpdated {
            entity: 1,
            value: ComponentValue::Fire(Fire { is_on_fire: false }),
        },
        Operation::CommandRequestReceived {
            entity: 1,
            request_id: 40,
            payload: CommandPayload::TryChop,
        },
    ]);
    assert!(manager.in_critical_section());
    assert!(!manager.current_view().has_entity(1));
    // The driver keeps polling; the next batch closes the section.
    manager.process_ops(vec![Operation::CriticalSectionMarker]);
    assert!(!manager.in_critical_section());
    assert!(manager.current_view().has_entity(1));

    // Behaviours now run on the consistent snapshot: the node answers
    // its pending harvest request.
    let mut out: Vec<OutgoingOp> = Vec::new();
    manager.tick(0, &mut out);
    assert!(out.iter().any(|op| matches!(
        op,
        OutgoingOp::CommandResponse { request_id: 40, payload: CommandPayload::TryChop }
    )));
}

#[test]
fn a_zero_chance_driver_without_casters_never_spreads_fire() {
    let mut manager = BehaviorManager::new();
    manager.register_behaviour(BehaviorKind::Trees(TrackTreesBehaviour::with_spread_chance(0, 1)));
    manager.register_behaviour(BehaviorKind::Lumberjacks(LumberjackBehavior::new()));
    manager.register_behaviour(BehaviorKind::Hqs(HqBehaviour::new()));
    manager.begin_tick();
    manager.process_ops(vec![
        Operation::EntityAdded { entity: 1 },
        Operation::ComponentUpdated {
            entity: 1,
            value: ComponentValue::Position(Position { coords: at(0, 0, 0) }),
        },
        Operation::ComponentUpdated {
            entity: 1,
            value: ComponentValue::Tree(Tree { resources_left: 5 }),
        },
        Operation::ComponentUpdated {
            entity: 1,
            value: ComponentValue::Fire(Fire { is_on_fire: true }),
        },
        Operation::EntityAdded { entity: 2 },
        Operation::ComponentUpdated {
            entity: 2,
            value: ComponentValue::Position(Position { coords: at(4_000, 0, 0) }),
        },
        Operation::ComponentUpdated {
            entity: 2,
            value: ComponentValue::Tree(Tree { resources_left: 5 }),
        },
        Operation::ComponentUpdated {
            entity: 2,
            value: ComponentValue::Fire(Fire { is_on_fire: false }),
        },
    ]);
    let mut out: Vec<OutgoingOp> = Vec::new();
    manager.tick(60_000, &mut out);
    for op in &out {
        assert!(
            !matches!(op, OutgoingOp::CommandRequest { payload: CommandPayload::SetOnFire, .. }),
            "a zero-chance driver without casters may never request a hazard"
        );
    }
}

#[test]
fn begin_tick_clears_the_previous_change_set() {
    let mut manager = BehaviorManager::new();
    manager.process_ops(vec![Operation::EntityAdded { entity: 2 }]);
    assert!(manager.current_view().was_entity_added(2));
    manager.begin_tick();
    assert!(!manager.current_view().was_entity_added(2));
    assert!(manager.current_view().has_entity(2));
}
