//! Entity component data, inbound operations and outgoing calls.
//!
//! An entity is a stable 64-bit identifier plus a partial bundle of
//! typed components.  Workers observe entities only through an ordered
//! stream of [`Operation`]s and act on the world only through
//! [`OutgoingOp`]s handed to the transport.

use vstd::prelude::*;
use crate::utils::Coordinates;

verus! {

/// World position component.
#[derive(Clone, Copy, Debug, PartialEq, Eq, Structural)]
pub struct Position {
    pub coords: Coordinates,
}

/// A harvestable resource node.
#[derive(Clone, Copy, Debug, PartialEq, Eq, Structural)]
pub struct Tree {
    pub resources_left: u32,
}

/// Hazard flag on a resource node.
#[derive(Clone, Copy, Debug, PartialEq, Eq, Structural)]
pub struct Fire {
    pub is_on_fire: bool,
}

/// A deposit target keeping the global score.
#[derive(Clone, Copy, Debug, PartialEq, Eq, Structural)]
pub struct Headquarters {
    pub score: u32,
}

/// Harvester state machine; the payload fields exist exactly in the
/// states that use them.
#[derive(Clone, Copy, Debug, PartialEq, Eq, Structural)]
pub enum Action {
    Idle,
    Fetching { target: i64 },
    Waiting { target: i64 },
    Returning { target: i64 },
}

/// Harvester component.
#[derive(Clone, Copy, Debug, PartialEq, Eq, Structural)]
pub struct Lumberjack {
    pub action: Action,
}

/// Which side a caster serves.
#[derive(Clone, Copy, Debug, PartialEq, Eq, Structural)]
pub enum WizardFaction {
    Good,
    Evil,
}

/// Caster state machine.
#[derive(Clone, Copy, Debug, PartialEq, Eq, Structural)]
pub enum WizardAction {
    Idle,
    Moving { target: i64, target_pos: Coordinates },
    Spell { target: i64, target_pos: Coordinates },
}

/// Caster component.
#[derive(Clone, Copy, Debug, PartialEq, Eq, Structural)]
pub struct Wizard {
    pub faction: WizardFaction,
    pub action: WizardAction,
}

/// The closed set of component kinds the view tracks.
#[derive(Clone, Copy, Debug, PartialEq, Eq, Structural)]
pub enum ComponentKind {
    Position,
    Tree,
    Fire,
    Headquarters,
    Lumberjack,
    Wizard,
}

/// One component value carried by an inbound update operation.
#[derive(Clone, Copy, Debug, PartialEq, Eq, Structural)]
pub enum ComponentValue {
    Position(Position),
    Tree(Tree),
    Fire(Fire),
    Headquarters(Headquarters),
    Lumberjack(Lumberjack),
    Wizard(Wizard),
}

/// The kind of a component value.
pub open spec fn kind_of(v: ComponentValue) -> ComponentKind {
    match v {
        ComponentValue::Position(_) => ComponentKind::Position,
        ComponentValue::Tree(_) => ComponentKind::Tree,
        ComponentValue::Fire(_) => ComponentKind::Fire,
        ComponentValue::Headquarters(_) => ComponentKind::Headquarters,
        ComponentValue::Lumberjack(_) => ComponentKind::Lumberjack,
        ComponentValue::Wizard(_) => ComponentKind::Wizard,
    }
}

impl ComponentValue {
    /// The kind of this component value.
    pub fn kind(&self) -> (r: ComponentKind)
        ensures
            r == kind_of(*self),
    {
        match self {
            ComponentValue::Position(_) => ComponentKind::Position,
            ComponentValue::Tree(_) => ComponentKind::Tree,
            ComponentValue::Fire(_) => ComponentKind::Fire,
            ComponentValue::Headquarters(_) => ComponentKind::Headquarters,
            ComponentValue::Lumberjack(_) => ComponentKind::Lumberjack,
            ComponentValue::Wizard(_) => ComponentKind::Wizard,
        }
    }
}

/// All component data the view holds for one entity.  Partial presence
/// is normal: an entity may carry any subset of the kinds.
#[derive(Clone, Copy, Debug, PartialEq, Eq, Structural)]
pub struct EntityData {
    pub position: Option<Position>,
    pub tree: Option<Tree>,
    pub fire: Option<Fire>,
    pub headquarters: Option<Headquarters>,
    pub lumberjack: Option<Lumberjack>,
    pub wizard: Option<Wizard>,
}

impl EntityData {
    /// An entity with no components yet.
    pub open spec fn empty_spec() -> EntityData {
        EntityData {
            position: None,
            tree: None,
            fire: None,
            headquarters: None,
            lumberjack: None,
            wizard: None,
        }
    }

    /// An entity with no components yet.
    pub fn empty() -> (r: EntityData)
        ensures
            r == EntityData::empty_spec(),
    {
        EntityData {
            position: None,
            tree: None,
            fire: None,
            headquarters: None,
            lumberjack: None,
            wizard: None,
        }
    }

    /// The data with one component replaced (last writer wins).
    pub open spec fn with_component_spec(self, v: ComponentValue) -> EntityData {
        match v {
            ComponentValue::Position(p) => EntityData { position: Some(p), ..self },
            ComponentValue::Tree(t) => EntityData { tree: Some(t), ..self },
            ComponentValue::Fire(f) => EntityData { fire: Some(f), ..self },
            ComponentValue::Headquarters(h) => EntityData { headquarters: Some(h), ..self },
            ComponentValue::Lumberjack(l) => EntityData { lumberjack: Some(l), ..self },
            ComponentValue::Wizard(w) => EntityData { wizard: Some(w), ..self },
        }
    }

    /// The data with one component replaced (last writer wins).
    pub fn with_component(self, v: ComponentValue) -> (r: EntityData)
        ensures
            r == self.with_component_spec(v),
    {
        match v {
            ComponentValue::Position(p) => EntityData { position: Some(p), ..self },
            ComponentValue::Tree(t) => EntityData { tree: Some(t), ..self },
            ComponentValue::Fire(f) => EntityData { fire: Some(f), ..self },
            ComponentValue::Headquarters(h) => EntityData { headquarters: Some(h), ..self },
            ComponentValue::Lumberjack(l) => EntityData { lumberjack: Some(l), ..self },
            ComponentValue::Wizard(w) => EntityData { wizard: Some(w), ..self },
        }
    }

    /// Every position this entity carries lies inside the world bound.
    pub open spec fn positions_in_bounds(self) -> bool {
        self.position matches Some(p) ==> p.coords.in_bounds()
    }
}

/// Request sent to a hazard component: set or clear the flag.
#[derive(Clone, Copy, Debug, PartialEq, Eq, Structural)]
pub enum FireRequest {
    SetOnFire,
    ClearFire,
}

/// Payload of a command request or response.
#[derive(Clone, Copy, Debug, PartialEq, Eq, Structural)]
pub enum CommandPayload {
    TryChop,
    SetOnFire,
    ClearFire,
    Deposit,
}

/// Outcome carried by an inbound command response.
#[derive(Debug)]
pub enum ResponseOutcome {
    /// The responder applied the command.
    Success,
    /// The responder refused the command for the stated reason.
    ApplicationError(String),
    /// Any transport-level status that is neither of the two above.
    Other,
}

/// One inbound incremental operation.
#[derive(Debug)]
pub enum Operation {
    EntityAdded { entity: i64 },
    EntityRemoved { entity: i64 },
    ComponentUpdated { entity: i64, value: ComponentValue },
    CommandRequestReceived { entity: i64, request_id: i64, payload: CommandPayload },
    CommandResponseReceived { entity: i64, request_id: i64, outcome: ResponseOutcome },
    CriticalSectionMarker,
}

/// Partial component update sent out by a behaviour.
#[derive(Debug)]
pub enum UpdateValue {
    Position(Position),
    Tree(Tree),
    Fire(Fire),
    Headquarters(Headquarters),
    Lumberjack(Lumberjack),
    Wizard(Wizard),
    Metadata(String),
}

/// An element below the length of a prefix is the same in the longer
/// sequence.
pub proof fn lemma_seq_prefix_index<T>(pre: Seq<T>, post: Seq<T>, j: int)
    requires
        pre.is_prefix_of(post),
        0 <= j < pre.len(),
    ensures
        post[j] == pre[j],
{
    assert(pre =~= post.subrange(0, pre.len() as int));
    assert(post.subrange(0, pre.len() as int)[j] == post[j]);
}

/// Prefixes compose: a prefix of a prefix is a prefix.
pub proof fn lemma_seq_prefix_trans<T>(a: Seq<T>, b: Seq<T>, c: Seq<T>)
    requires
        a.is_prefix_of(b),
        b.is_prefix_of(c),
    ensures
        a.is_prefix_of(c),
{
    assert forall|j: int| 0 <= j < a.len() implies a[j] == c[j] by {
        lemma_seq_prefix_index(a, b, j);
        lemma_seq_prefix_index(b, c, j);
    }
    assert(a =~= c.subrange(0, a.len() as int));
}

/// One outgoing call to the transport.
#[derive(Debug)]
pub enum OutgoingOp {
    /// Send a component update; `loopback` lets this worker observe its
    /// own update in a later operation batch.
    ComponentUpdate { entity: i64, value: UpdateValue, loopback: bool },
    /// Send a command request; a correlated request carries the id the
    /// tracker issued, a fire-and-forget request carries none.
    CommandRequest { entity: i64, request_id: Option<i64>, payload: CommandPayload },
    /// Answer a received command request with success.
    CommandResponse { request_id: i64, payload: CommandPayload },
    /// Answer a received command request with an explicit failure.
    CommandFailure { request_id: i64, reason: String },
}

/// An operation already present in the emitted region stays there
/// when the output only grows.
pub proof fn lemma_op_witness_survives(
    pre: Seq<OutgoingOp>,
    post: Seq<OutgoingOp>,
    base: int,
    p: spec_fn(OutgoingOp) -> bool,
)
    requires
        pre.is_prefix_of(post),
        0 <= base,
    ensures
        (exists|j: int| base <= j < pre.len() && p(#[trigger] pre[j])) ==> (exists|j: int|
            base <= j < post.len() && p(#[trigger] post[j])),
{
    if exists|j: int| base <= j < pre.len() && p(#[trigger] pre[j]) {
        let j = choose|j: int| base <= j < pre.len() && p(#[trigger] pre[j]);
        lemma_seq_prefix_index(pre, post, j);
        assert(p(post[j]));
    }
}

} // verus!
