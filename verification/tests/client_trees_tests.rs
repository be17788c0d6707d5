use ldn_demo::behaviors::client_trees::TrackTreesBehaviour;
use ldn_demo::data::{ComponentValue, Fire, Operation, Position, Tree};
use ldn_demo::spatial::Partition;
use ldn_demo::utils::Coordinates;
use ldn_demo::view::ReplicatedView;

fn at(x: i64, y: i64, z: i64) -> Coordinates {
    Coordinates { x, y, z }
}

fn node_ops(entity: i64, coords: Coordinates, resources: u32, burning: bool) -> Vec<Operation> {
    vec![
        Operation::EntityAdded { entity },
        Operation::ComponentUpdated {
            entity,
            value: ComponentValue::Position(Position { coords }),
        },
        Operation::ComponentUpdated {
            entity,
            value: ComponentValue::Tree(Tree { resources_left: resources }),
        },
        Operation::ComponentUpdated {
            entity,
            value: ComponentValue::Fire(Fire { is_on_fire: burning }),
        },
    ]
}

#[test]
fn updates_reclassify_membership_in_the_same_tick() {
    let mut view = ReplicatedView::new();
    view.process_ops(node_ops(1, at(0, 0, 0), 5, false));
    let mut tracker = TrackTreesBehaviour::new();
    tracker.tick(&view);
    assert!(tracker.contains(Partition::Active, 1));

    // The node drains dry: it moves to the inactive partition.
    view.clear_transient_data();
    view.process_ops(vec![Operation::ComponentUpdated {
        entity: 1,
        value: ComponentValue::Tree(Tree { resources_left: 0 }),
    }]);
    tracker.tick(&view);
    assert!(!tracker.contains(Partition::Active, 1));
    assert!(tracker.contains(Partition::Inactive, 1));

    // The hazard flag clears with no resources left: it stays put
    // until the flag toggles; a cleared flag moves it back only from
    // the hazard side, which is where it is.
    view.clear_transient_data();
    view.process_ops(vec![Operation::ComponentUpdated {
        entity: 1,
        value: ComponentValue::Fire(Fire { is_on_fire: true }),
    }]);
    tracker.tick(&view);
    assert!(tracker.contains(Partition::Inactive, 1));
    view.clear_transient_data();
    view.process_ops(vec![Operation::ComponentUpdated {
        entity: 1,
        value: ComponentValue::Fire(Fire { is_on_fire: false }),
    }]);
    tracker.tick(&view);
    assert!(tracker.contains(Partition::Active, 1));
}

#[test]
fn a_removed_node_is_purged_from_every_partition() {
    let mut view = ReplicatedView::new();
    view.process_ops(node_ops(1, at(0, 0, 0), 5, false));
    view.process_ops(node_ops(2, at(10, 0, 0), 0, false));
    let mut tracker = TrackTreesBehaviour::new();
    tracker.tick(&view);
    assert!(tracker.contains(Partition::Active, 1));
    assert!(tracker.contains(Partition::Inactive, 2));
    view.clear_transient_data();
    view.process_ops(vec![
        Operation::EntityRemoved { entity: 1 },
        Operation::EntityRemoved { entity: 2 },
    ]);
    tracker.tick(&view);
    assert!(!tracker.contains(Partition::Active, 1));
    assert!(!tracker.contains(Partition::Inactive, 1));
    assert!(!tracker.contains(Partition::Active, 2));
    assert!(!tracker.contains(Partition::Inactive, 2));
}
