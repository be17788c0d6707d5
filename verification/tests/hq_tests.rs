use ldn_demo::behaviors::hq::HqBehaviour;
use ldn_demo::data::{
    CommandPayload, ComponentValue, Headquarters, Operation, OutgoingOp, UpdateValue,
};
use ldn_demo::view::ReplicatedView;

#[test]
fn deposits_are_accepted_unconditionally_and_counted() {
    let mut view = ReplicatedView::new();
    view.process_ops(vec![
        Operation::EntityAdded { entity: 5 },
        Operation::ComponentUpdated {
            entity: 5,
            value: ComponentValue::Headquarters(Headquarters { score: 7 }),
        },
        Operation::CommandRequestReceived { entity: 5, request_id: 70, payload: CommandPayload::Deposit },
        Operation::CommandRequestReceived { entity: 5, request_id: 71, payload: CommandPayload::Deposit },
        Operation::CommandRequestReceived { entity: 5, request_id: 72, payload: CommandPayload::Deposit },
    ]);
    let mut hqs = HqBehaviour::new();
    let mut out: Vec<OutgoingOp> = Vec::new();
    hqs.tick(&view, &mut out);
    assert_eq!(out.len(), 4);
    for (i, expected_id) in [70, 71, 72].iter().enumerate() {
        match &out[i] {
            OutgoingOp::CommandResponse { request_id, payload: CommandPayload::Deposit } => {
                assert_eq!(request_id, expected_id);
            },
            other => panic!("expected a deposit response, got {:?}", other),
        }
    }
    assert!(matches!(
        &out[3],
        OutgoingOp::ComponentUpdate {
            entity: 5,
            value: UpdateValue::Headquarters(Headquarters { score: 10 }),
            ..
        }
    ));
}

#[test]
fn a_target_without_requests_is_left_alone() {
    let mut view = ReplicatedView::new();
    view.process_ops(vec![
        Operation::EntityAdded { entity: 5 },
        Operation::ComponentUpdated {
            entity: 5,
            value: ComponentValue::Headquarters(Headquarters { score: 7 }),
        },
    ]);
    let mut hqs = HqBehaviour::new();
    let mut out: Vec<OutgoingOp> = Vec::new();
    hqs.tick(&view, &mut out);
    assert!(out.is_empty());
}

#[test]
fn the_score_saturates_instead_of_wrapping() {
    let mut view = ReplicatedView::new();
    view.process_ops(vec![
        Operation::EntityAdded { entity: 6 },
        Operation::ComponentUpdated {
            entity: 6,
            value: ComponentValue::Headquarters(Headquarters { score: u32::MAX - 1 }),
        },
        Operation::CommandRequestReceived { entity: 6, request_id: 80, payload: CommandPayload::Deposit },
        Operation::CommandRequestReceived { entity: 6, request_id: 81, payload: CommandPayload::Deposit },
        Operation::CommandRequestReceived { entity: 6, request_id: 82, payload: CommandPayload::Deposit },
    ]);
    let mut hqs = HqBehaviour::new();
    let mut out: Vec<OutgoingOp> = Vec::new();
    hqs.tick(&view, &mut out);
    assert!(matches!(
        out.last(),
        Some(OutgoingOp::ComponentUpdate {
            entity: 6,
            value: UpdateValue::Headquarters(Headquarters { score: u32::MAX }),
            ..
        })
    ));
}
