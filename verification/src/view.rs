//! The replicated view: a process-local snapshot of entity component
//! state, rebuilt incrementally from an ordered operation stream.
//!
//! Operations between a pair of critical-section markers are buffered
//! and applied as one indivisible unit: no query observes a partially
//! applied section.  The view also tracks, per tick, which entities
//! were added, removed or updated, and the command requests and
//! responses that arrived; those transients are cleared at the start
//! of each tick.
//!
//! The meaning of every method is given over [`ViewModel`], a
//! mathematical image of the view, and the whole ingestion path is
//! proved equal to the transition function [`step`].

use vstd::prelude::*;
use crate::data::{
    CommandPayload, ComponentKind, ComponentValue, EntityData, FireRequest, Operation, Position,
    ResponseOutcome, kind_of,
};
use crate::idmap::IdMap;
use crate::utils::{Coordinates, coords_in_bounds};

verus! {

/// The committed snapshot together with this tick's transient data.
#[verifier::ext_equal]
pub ghost struct SnapModel {
    /// Component data per live entity.
    pub entities: Map<i64, EntityData>,
    /// Entities added since the transients were last cleared.
    pub added: Set<i64>,
    /// Entities removed since the transients were last cleared.
    pub removed: Set<i64>,
    /// (entity, component kind) pairs updated since the last clear.
    pub updated: Set<(i64, ComponentKind)>,
    /// Pending harvest command requests per entity, in arrival order.
    pub tree_requests: Map<i64, Seq<i64>>,
    /// Pending hazard command requests per entity, in arrival order.
    pub fire_requests: Map<i64, Seq<(i64, FireRequest)>>,
    /// Pending deposit command requests per entity, in arrival order.
    pub hq_requests: Map<i64, Seq<i64>>,
    /// Command responses observed this tick, by request id.
    pub responses: Map<i64, (i64, ResponseOutcome)>,
}

impl SnapModel {
    /// The snapshot of a freshly created view.
    pub open spec fn init() -> SnapModel {
        SnapModel {
            entities: Map::empty(),
            added: Set::empty(),
            removed: Set::empty(),
            updated: Set::empty(),
            tree_requests: Map::empty(),
            fire_requests: Map::empty(),
            hq_requests: Map::empty(),
            responses: Map::empty(),
        }
    }

    /// The snapshot with all per-tick transients dropped.
    pub open spec fn cleared(self) -> SnapModel {
        SnapModel {
            entities: self.entities,
            added: Set::empty(),
            removed: Set::empty(),
            updated: Set::empty(),
            tree_requests: Map::empty(),
            fire_requests: Map::empty(),
            hq_requests: Map::empty(),
            responses: Map::empty(),
        }
    }
}

/// The mathematical image of a [`ReplicatedView`].
#[verifier::ext_equal]
pub ghost struct ViewModel {
    /// Committed snapshot and transients, as queries observe them.
    pub snap: SnapModel,
    /// Operations buffered inside a still-open critical section.
    pub pending: Seq<Operation>,
    /// Whether a critical section is currently open.
    pub in_section: bool,
}

impl ViewModel {
    /// The model of a freshly created view.
    pub open spec fn init() -> ViewModel {
        ViewModel { snap: SnapModel::init(), pending: Seq::empty(), in_section: false }
    }
}

/// The request list under a key, or the empty list.
pub open spec fn req_seq<T>(m: Map<i64, Seq<T>>, e: i64) -> Seq<T> {
    if m.dom().contains(e) {
        m[e]
    } else {
        Seq::empty()
    }
}

/// Whether an inbound component update is accepted.  A position
/// outside the world bound is malformed input and is dropped.
pub open spec fn update_admissible(v: ComponentValue) -> bool {
    v matches ComponentValue::Position(p) ==> p.coords.in_bounds()
}

/// Effect of one operation on the committed snapshot.  Total over all
/// operations; malformed input (an update or request for an unknown
/// entity) leaves the snapshot unchanged, and markers are handled one
/// level up, in [`step`].
pub open spec fn apply_committed(s: SnapModel, op: Operation) -> SnapModel {
    match op {
        Operation::EntityAdded { entity } => {
            if s.entities.dom().contains(entity) {
                s
            } else {
                SnapModel {
                    entities: s.entities.insert(entity, EntityData::empty_spec()),
                    added: s.added.insert(entity),
                    ..s
                }
            }
        },
        Operation::EntityRemoved { entity } => SnapModel {
            entities: s.entities.remove(entity),
            removed: s.removed.insert(entity),
            tree_requests: s.tree_requests.remove(entity),
            fire_requests: s.fire_requests.remove(entity),
            hq_requests: s.hq_requests.remove(entity),
            ..s
        },
        Operation::ComponentUpdated { entity, value } => {
            if s.entities.dom().contains(entity) && update_admissible(value) {
                SnapModel {
                    entities: s.entities.insert(
                        entity,
                        s.entities[entity].with_component_spec(value),
                    ),
                    updated: s.updated.insert((entity, kind_of(value))),
                    ..s
                }
            } else {
                s
            }
        },
        Operation::CommandRequestReceived { entity, request_id, payload } => {
            if s.entities.dom().contains(entity) {
                match payload {
                    CommandPayload::TryChop => SnapModel {
                        tree_requests: s.tree_requests.insert(
                            entity,
                            req_seq(s.tree_requests, entity).push(request_id),
                        ),
                        ..s
                    },
                    CommandPayload::SetOnFire => SnapModel {
                        fire_requests: s.fire_requests.insert(
                            entity,
                            req_seq(s.fire_requests, entity).push(
                                (request_id, FireRequest::SetOnFire),
                            ),
                        ),
                        ..s
                    },
                    CommandPayload::ClearFire => SnapModel {
                        fire_requests: s.fire_requests.insert(
                            entity,
                            req_seq(s.fire_requests, entity).push(
                                (request_id, FireRequest::ClearFire),
                            ),
                        ),
                        ..s
                    },
                    CommandPayload::Deposit => SnapModel {
                        hq_requests: s.hq_requests.insert(
                            entity,
                            req_seq(s.hq_requests, entity).push(request_id),
                        ),
                        ..s
                    },
                }
            } else {
                s
            }
        },
        Operation::CommandResponseReceived { entity, request_id, outcome } => SnapModel {
            responses: s.responses.insert(request_id, (entity, outcome)),
            ..s
        },
        Operation::CriticalSectionMarker => s,
    }
}

/// Fold a buffered critical section into the committed snapshot.
pub open spec fn flush(s: SnapModel, ops: Seq<Operation>) -> SnapModel
    decreases ops.len(),
{
    if ops.len() == 0 {
        s
    } else {
        flush(apply_committed(s, ops.first()), ops.drop_first())
    }
}

/// Effect of one operation on the whole view: outside a section it is
/// applied at once; inside a section it is buffered; a marker opens a
/// section or closes it and commits the buffer atomically.
pub open spec fn step(m: ViewModel, op: Operation) -> ViewModel {
    match op {
        Operation::CriticalSectionMarker => {
            if m.in_section {
                ViewModel {
                    snap: flush(m.snap, m.pending),
                    pending: Seq::empty(),
                    in_section: false,
                }
            } else {
                ViewModel { snap: m.snap, pending: m.pending, in_section: true }
            }
        },
        _ => {
            if m.in_section {
                ViewModel { snap: m.snap, pending: m.pending.push(op), in_section: true }
            } else {
                ViewModel { snap: apply_committed(m.snap, op), pending: m.pending, in_section: false }
            }
        },
    }
}

/// Effect of a whole batch, first operation first.
pub open spec fn steps(m: ViewModel, ops: Seq<Operation>) -> ViewModel
    decreases ops.len(),
{
    if ops.len() == 0 {
        m
    } else {
        steps(step(m, ops.first()), ops.drop_first())
    }
}

/// Folding a batch extended by one operation ends with that operation.
pub proof fn lemma_steps_snoc(m: ViewModel, ops: Seq<Operation>, op: Operation)
    ensures
        steps(m, ops.push(op)) == step(steps(m, ops), op),
    decreases ops.len(),
{
    if ops.len() == 0 {
        assert(ops.push(op).first() == op);
        assert(ops.push(op).drop_first() =~= Seq::<Operation>::empty());
        assert(steps(m, ops.push(op)) == steps(step(m, op), Seq::<Operation>::empty()));
        assert(steps(step(m, op), Seq::<Operation>::empty()) == step(m, op));
        assert(steps(m, ops) == m);
    } else {
        assert(ops.push(op).first() == ops.first());
        assert(ops.push(op).drop_first() =~= ops.drop_first().push(op));
        lemma_steps_snoc(step(m, ops.first()), ops.drop_first(), op);
        assert(steps(m, ops.push(op)) == steps(step(m, ops.first()), ops.drop_first().push(op)));
        assert(steps(m, ops) == steps(step(m, ops.first()), ops.drop_first()));
    }
}

/// Flushing a buffer extended by one operation ends with that operation.
pub proof fn lemma_flush_snoc(s: SnapModel, ops: Seq<Operation>, op: Operation)
    ensures
        flush(s, ops.push(op)) == apply_committed(flush(s, ops), op),
    decreases ops.len(),
{
    if ops.len() == 0 {
        assert(ops.push(op).first() == op);
        assert(ops.push(op).drop_first() =~= Seq::<Operation>::empty());
        assert(flush(s, ops.push(op)) == flush(apply_committed(s, op), Seq::<Operation>::empty()));
        assert(flush(apply_committed(s, op), Seq::<Operation>::empty()) == apply_committed(s, op));
        assert(flush(s, ops) == s);
    } else {
        assert(ops.push(op).first() == ops.first());
        assert(ops.push(op).drop_first() =~= ops.drop_first().push(op));
        lemma_flush_snoc(apply_committed(s, ops.first()), ops.drop_first(), op);
        assert(flush(s, ops.push(op)) == flush(
            apply_committed(s, ops.first()),
            ops.drop_first().push(op),
        ));
        assert(flush(s, ops) == flush(apply_committed(s, ops.first()), ops.drop_first()));
    }
}

/// Appending one element to a sequence adds it to the element set.
proof fn lemma_push_to_set<A>(s: Seq<A>, a: A)
    ensures
        s.push(a).to_set() == s.to_set().insert(a),
{
    assert forall|x: A| s.push(a).to_set().contains(x) <==> s.to_set().insert(a).contains(
        x,
    ) by {
        if s.push(a).contains(x) {
            let i = choose|i: int| 0 <= i < s.push(a).len() && s.push(a)[i] == x;
            if i < s.len() {
                assert(s[i] == x);
                assert(s.contains(x));
            } else {
                assert(x == a);
            }
        }
        if s.contains(x) {
            let i = choose|i: int| 0 <= i < s.len() && s[i] == x;
            assert(s.push(a)[i] == x);
            assert(s.push(a).contains(x));
        }
        if x == a {
            assert(s.push(a)[s.len() as int] == x);
            assert(s.push(a).contains(x));
        }
    }
    assert(s.push(a).to_set() =~= s.to_set().insert(a));
}

/// The process-local replicated view.
pub struct ReplicatedView {
    entities: IdMap<EntityData>,
    added: Vec<i64>,
    removed: Vec<i64>,
    updated: Vec<(i64, ComponentKind)>,
    tree_requests: IdMap<Vec<i64>>,
    fire_requests: IdMap<Vec<(i64, FireRequest)>>,
    hq_requests: IdMap<Vec<i64>>,
    responses: IdMap<(i64, ResponseOutcome)>,
    pending: Vec<Operation>,
    in_section: bool,
}

/// The mathematical image of a map of request lists.
pub open spec fn req_map_view<T>(m: Map<i64, Vec<T>>) -> Map<i64, Seq<T>> {
    Map::new(|k: i64| m.dom().contains(k), |k: i64| m[k]@)
}

impl ReplicatedView {
    /// Entities removed since the last clear, in arrival order
    /// (repetitions possible when the stream repeats a removal).
    pub closed spec fn removed_seq(self) -> Seq<i64> {
        self.removed@
    }

    /// Internal image of the committed snapshot and transients.
    pub closed spec fn snap_model(self) -> SnapModel {
        SnapModel {
            entities: self.entities@,
            added: self.added@.to_set(),
            removed: self.removed@.to_set(),
            updated: self.updated@.to_set(),
            tree_requests: req_map_view(self.tree_requests@),
            fire_requests: req_map_view(self.fire_requests@),
            hq_requests: req_map_view(self.hq_requests@),
            responses: self.responses@,
        }
    }

    /// The mathematical image of the whole view.
    pub closed spec fn view(self) -> ViewModel {
        ViewModel {
            snap: self.snap_model(),
            pending: self.pending@,
            in_section: self.in_section,
        }
    }

    /// Structural well-formedness: distinct keys in every backing map,
    /// every stored position inside the world bound, and request lists
    /// only for live entities.
    pub closed spec fn wf(self) -> bool {
        &&& self.entities.wf()
        &&& self.tree_requests.wf()
        &&& self.fire_requests.wf()
        &&& self.hq_requests.wf()
        &&& self.responses.wf()
        &&& forall|e: i64|
            self@.snap.entities.dom().contains(e) ==> (
            #[trigger] self@.snap.entities[e]).positions_in_bounds()
        &&& forall|e: i64|
            #[trigger] self@.snap.tree_requests.dom().contains(e)
                ==> self@.snap.entities.dom().contains(e)
        &&& forall|e: i64|
            #[trigger] self@.snap.fire_requests.dom().contains(e)
                ==> self@.snap.entities.dom().contains(e)
        &&& forall|e: i64|
            #[trigger] self@.snap.hq_requests.dom().contains(e)
                ==> self@.snap.entities.dom().contains(e)
    }

    /// Every position a well-formed view stores is inside the world bound.
    pub proof fn lemma_wf_position(self, e: i64)
        requires
            self.wf(),
            self@.snap.entities.dom().contains(e),
        ensures
            self@.snap.entities[e].positions_in_bounds(),
    {
    }

    /// A fresh, empty view.
    pub fn new() -> (r: ReplicatedView)
        ensures
            r.wf(),
            r@ == ViewModel::init(),
    {
        let r = ReplicatedView {
            entities: IdMap::new(),
            added: Vec::new(),
            removed: Vec::new(),
            updated: Vec::new(),
            tree_requests: IdMap::new(),
            fire_requests: IdMap::new(),
            hq_requests: IdMap::new(),
            responses: IdMap::new(),
            pending: Vec::new(),
            in_section: false,
        };
        proof {
            assert(r@.snap.added =~= Set::<i64>::empty());
            assert(r@.snap.removed =~= Set::<i64>::empty());
            assert(r@.snap.updated =~= Set::<(i64, ComponentKind)>::empty());
            assert(r@.snap.tree_requests =~= Map::<i64, Seq<i64>>::empty());
            assert(r@.snap.fire_requests =~= Map::<i64, Seq<(i64, FireRequest)>>::empty());
            assert(r@.snap.hq_requests =~= Map::<i64, Seq<i64>>::empty());
            assert(r@ =~~= ViewModel::init());
        }
        r
    }

    /// Drop the per-tick transient data; the committed entity state,
    /// any buffered section and the section flag stay as they are.
    /// Called by the driver at the start of every tick, before new
    /// operations are applied.
    pub fn clear_transient_data(&mut self)
        requires
            old(self).wf(),
        ensures
            final(self).wf(),
            final(self)@.snap == old(self)@.snap.cleared(),
            final(self)@.pending == old(self)@.pending,
            final(self)@.in_section == old(self)@.in_section,
    {
        self.added = Vec::new();
        self.removed = Vec::new();
        self.updated = Vec::new();
        self.tree_requests = IdMap::new();
        self.fire_requests = IdMap::new();
        self.hq_requests = IdMap::new();
        self.responses = IdMap::new();
        proof {
            assert(self@.snap.added =~= Set::<i64>::empty());
            assert(self@.snap.removed =~= Set::<i64>::empty());
            assert(self@.snap.updated =~= Set::<(i64, ComponentKind)>::empty());
            assert(self@.snap.tree_requests =~= Map::<i64, Seq<i64>>::empty());
            assert(self@.snap.fire_requests =~= Map::<i64, Seq<(i64, FireRequest)>>::empty());
            assert(self@.snap.hq_requests =~= Map::<i64, Seq<i64>>::empty());
            assert(self@.snap =~~= old(self)@.snap.cleared());
        }
    }

    /// Whether a critical section is still open; the driver keeps
    /// polling for more operation batches while it is.
    pub fn in_critical_section(&self) -> (r: bool)
        ensures
            r == self@.in_section,
    {
        self.in_section
    }

    /// Apply one operation to the committed snapshot.
    fn apply_one(&mut self, op: Operation)
        requires
            old(self).wf(),
        ensures
            final(self).wf(),
            final(self)@.snap == apply_committed(old(self)@.snap, op),
            final(self)@.pending == old(self)@.pending,
            final(self)@.in_section == old(self)@.in_section,
    {
        match op {
            Operation::EntityAdded { entity } => {
                if !self.entities.contains_key(entity) {
                    self.entities.insert(entity, EntityData::empty());
                    self.added.push(entity);
                    proof {
                        lemma_push_to_set(old(self).added@, entity);
                        assert(self@.snap.added =~= old(self)@.snap.added.insert(entity));
                        assert(self@.snap =~~= apply_committed(old(self)@.snap, op));
                    }
                } else {
                    proof {
                        assert(self@.snap =~~= apply_committed(old(self)@.snap, op));
                    }
                }
            },
            Operation::EntityRemoved { entity } => {
                self.entities.remove(entity);
                self.removed.push(entity);
                self.tree_requests.remove(entity);
                self.fire_requests.remove(entity);
                self.hq_requests.remove(entity);
                proof {
                    lemma_push_to_set(old(self).removed@, entity);
                    assert(self@.snap.removed =~= old(self)@.snap.removed.insert(entity));
                    assert(self@.snap.tree_requests =~~= old(self)@.snap.tree_requests.remove(
                        entity,
                    ));
                    assert(self@.snap.fire_requests =~~= old(self)@.snap.fire_requests.remove(
                        entity,
                    ));
                    assert(self@.snap.hq_requests =~~= old(self)@.snap.hq_requests.remove(entity));
                    assert(self@.snap =~~= apply_committed(old(self)@.snap, op));
                }
            },
            Operation::ComponentUpdated { entity, value } => {
                let admissible: bool = match value {
                    ComponentValue::Position(p) => coords_in_bounds(&p.coords),
                    _ => true,
                };
                let present = self.entities.contains_key(entity);
                if present && admissible {
                    let data: EntityData = match self.entities.get(entity) {
                        Some(d) => *d,
                        None => EntityData::empty(),
                    };
                    let kind = value.kind();
                    self.entities.insert(entity, data.with_component(value));
                    self.updated.push((entity, kind));
                    proof {
                        lemma_push_to_set(old(self).updated@, (entity, kind));
                        assert(self@.snap.updated =~= old(self)@.snap.updated.insert(
                            (entity, kind_of(value)),
                        ));
                        assert(self@.snap =~~= apply_committed(old(self)@.snap, op));
                    }
                } else {
                    proof {
                        assert(self@.snap =~~= apply_committed(old(self)@.snap, op));
                    }
                }
            },
            Operation::CommandRequestReceived { entity, request_id, payload } => {
                if self.entities.contains_key(entity) {
                    match payload {
                        CommandPayload::TryChop => {
                            let mut list: Vec<i64> = match self.tree_requests.take(entity) {
                                Some(v) => v,
                                None => Vec::new(),
                            };
                            list.push(request_id);
                            self.tree_requests.insert(entity, list);
                            proof {
                                assert(self@.snap.tree_requests =~~= old(
                                    self,
                                )@.snap.tree_requests.insert(
                                    entity,
                                    req_seq(old(self)@.snap.tree_requests, entity).push(
                                        request_id,
                                    ),
                                ));
                                assert(self@.snap =~~= apply_committed(old(self)@.snap, op));
                            }
                        },
                        CommandPayload::SetOnFire => {
                            let mut list: Vec<(i64, FireRequest)> = match self.fire_requests.take(
                                entity,
                            ) {
                                Some(v) => v,
                                None => Vec::new(),
                            };
                            list.push((request_id, FireRequest::SetOnFire));
                            self.fire_requests.insert(entity, list);
                            proof {
                                assert(self@.snap.fire_requests =~~= old(
                                    self,
                                )@.snap.fire_requests.insert(
                                    entity,
                                    req_seq(old(self)@.snap.fire_requests, entity).push(
                                        (request_id, FireRequest::SetOnFire),
                                    ),
                                ));
                                assert(self@.snap =~~= apply_committed(old(self)@.snap, op));
                            }
                        },
                        CommandPayload::ClearFire => {
                            let mut list: Vec<(i64, FireRequest)> = match self.fire_requests.take(
                                entity,
                            ) {
                                Some(v) => v,
                                None => Vec::new(),
                            };
                            list.push((request_id, FireRequest::ClearFire));
                            self.fire_requests.insert(entity, list);
                            proof {
                                assert(self@.snap.fire_requests =~~= old(
                                    self,
                                )@.snap.fire_requests.insert(
                                    entity,
                                    req_seq(old(self)@.snap.fire_requests, entity).push(
                                        (request_id, FireRequest::ClearFire),
                                    ),
                                ));
                                assert(self@.snap =~~= apply_committed(old(self)@.snap, op));
                            }
                        },
                        CommandPayload::Deposit => {
                            let mut list: Vec<i64> = match self.hq_requests.take(entity) {
                                Some(v) => v,
                                None => Vec::new(),
                            };
                            list.push(request_id);
                            self.hq_requests.insert(entity, list);
                            proof {
                                assert(self@.snap.hq_requests =~~= old(
                                    self,
                                )@.snap.hq_requests.insert(
                                    entity,
                                    req_seq(old(self)@.snap.hq_requests, entity).push(request_id),
                                ));
                                assert(self@.snap =~~= apply_committed(old(self)@.snap, op));
                            }
                        },
                    }
                } else {
                    proof {
                        assert(self@.snap =~~= apply_committed(old(self)@.snap, op));
                    }
                }
            },
            Operation::CommandResponseReceived { entity, request_id, outcome } => {
                self.responses.insert(request_id, (entity, outcome));
                proof {
                    assert(self@.snap =~~= apply_committed(old(self)@.snap, op));
                }
            },
            Operation::CriticalSectionMarker => {
                proof {
                    assert(self@.snap =~~= apply_committed(old(self)@.snap, op));
                }
            },
        }
    }

    /// Commit a closed critical section: apply the buffered operations
    /// in order and empty the buffer.
    fn flush_pending(&mut self)
        requires
            old(self).wf(),
            !old(self).in_section,
        ensures
            final(self).wf(),
            final(self)@.snap == flush(old(self)@.snap, old(self)@.pending),
            final(self)@.pending == Seq::<Operation>::empty(),
            final(self)@.in_section == old(self)@.in_section,
    {
        let mut buffered: Vec<Operation> = Vec::new();
        core::mem::swap(&mut self.pending, &mut buffered);
        let ghost p0 = buffered@;
        let ghost mut idx: int = 0;
        proof {
            assert(self@.snap =~~= old(self)@.snap);
            assert(self@.pending =~= Seq::<Operation>::empty());
            assert(p0.subrange(0, 0) =~= Seq::<Operation>::empty());
        }
        while buffered.len() > 0
            invariant
                self.wf(),
                0 <= idx <= p0.len(),
                buffered@ =~= p0.subrange(idx, p0.len() as int),
                self@.snap == flush(old(self)@.snap, p0.subrange(0, idx)),
                self@.pending == Seq::<Operation>::empty(),
                self@.in_section == old(self)@.in_section,
            decreases buffered@.len(),
        {
            let op = buffered.remove(0);
            proof {
                assert(op == p0[idx]);
            }
            let ghost snap_before = self@.snap;
            self.apply_one(op);
            proof {
                lemma_flush_snoc(old(self)@.snap, p0.subrange(0, idx), p0[idx]);
                assert(p0.subrange(0, idx).push(p0[idx]) =~= p0.subrange(0, idx + 1));
                idx = idx + 1;
                assert(buffered@ =~= p0.subrange(idx, p0.len() as int));
            }
        }
        proof {
            assert(p0.subrange(0, idx) =~= p0);
        }
    }

    /// Process one operation of a batch.
    fn process_one(&mut self, op: Operation)
        requires
            old(self).wf(),
        ensures
            final(self).wf(),
            final(self)@ == step(old(self)@, op),
    {
        match op {
            Operation::CriticalSectionMarker => {
                if self.in_section {
                    self.in_section = false;
                    proof {
                        assert(self@.snap =~~= old(self)@.snap);
                    }
                    self.flush_pending();
                    proof {
                        assert(self@ =~~= step(old(self)@, Operation::CriticalSectionMarker));
                    }
                } else {
                    self.in_section = true;
                    proof {
                        assert(self@ =~~= step(old(self)@, Operation::CriticalSectionMarker));
                    }
                }
            },
            buffered_or_direct => {
                if self.in_section {
                    self.pending.push(buffered_or_direct);
                    proof {
                        assert(self@ =~~= step(old(self)@, op));
                    }
                } else {
                    self.apply_one(buffered_or_direct);
                    proof {
                        assert(self@ =~~= step(old(self)@, op));
                    }
                }
            },
        }
    }

    /// Fold a whole batch of inbound operations into the view, in
    /// arrival order, honouring critical-section grouping.
    pub fn process_ops(&mut self, ops: Vec<Operation>)
        requires
            old(self).wf(),
        ensures
            final(self).wf(),
            final(self)@ == steps(old(self)@, ops@),
    {
        let ghost ops0 = ops@;
        let mut ops = ops;
        let ghost mut idx: int = 0;
        proof {
            assert(ops0.subrange(0, 0) =~= Seq::<Operation>::empty());
        }
        while ops.len() > 0
            invariant
                self.wf(),
                0 <= idx <= ops0.len(),
                ops@ =~= ops0.subrange(idx, ops0.len() as int),
                self@ == steps(old(self)@, ops0.subrange(0, idx)),
            decreases ops@.len(),
        {
            let op = ops.remove(0);
            proof {
                assert(op == ops0[idx]);
            }
            self.process_one(op);
            proof {
                lemma_steps_snoc(old(self)@, ops0.subrange(0, idx), ops0[idx]);
                assert(ops0.subrange(0, idx).push(ops0[idx]) =~= ops0.subrange(0, idx + 1));
                idx = idx + 1;
                assert(ops@ =~= ops0.subrange(idx, ops0.len() as int));
            }
        }
        proof {
            assert(ops0.subrange(0, idx) =~= ops0);
        }
    }

    /// The transient removal set is exactly the membership of the
    /// removal notices.
    pub proof fn lemma_removed_seq(self)
        ensures
            forall|e: i64|
                self@.snap.removed.contains(e) <==> self.removed_seq().contains(e),
    {
    }

    /// Command requests are only held for live entities: a removal
    /// purges them in the same pass.
    pub proof fn lemma_requests_live(self)
        requires
            self.wf(),
        ensures
            forall|e: i64|
                #[trigger] self@.snap.tree_requests.dom().contains(e)
                    ==> self@.snap.entities.dom().contains(e),
            forall|e: i64|
                #[trigger] self@.snap.fire_requests.dom().contains(e)
                    ==> self@.snap.entities.dom().contains(e),
            forall|e: i64|
                #[trigger] self@.snap.hq_requests.dom().contains(e)
                    ==> self@.snap.entities.dom().contains(e),
    {
    }

    /// Whether the entity is live in the committed snapshot.
    pub fn has_entity(&self, entity: i64) -> (r: bool)
        requires
            self.wf(),
        ensures
            r == self@.snap.entities.dom().contains(entity),
    {
        self.entities.contains_key(entity)
    }

    /// The live entities, each exactly once, in a stable order.
    pub fn entity_ids(&self) -> (r: Vec<i64>)
        requires
            self.wf(),
        ensures
            r@.no_duplicates(),
            forall|e: i64| r@.contains(e) <==> self@.snap.entities.dom().contains(e),
    {
        self.entities.keys()
    }

    /// The position component of the entity, if any.
    pub fn get_position(&self, entity: i64) -> (r: Option<Position>)
        requires
            self.wf(),
        ensures
            r == data_of(self@, entity).position,
            r matches Some(p) ==> p.coords.in_bounds(),
    {
        match self.entities.get(entity) {
            Some(d) => d.position,
            None => None,
        }
    }

    /// The resource component of the entity, if any.
    pub fn get_tree(&self, entity: i64) -> (r: Option<crate::data::Tree>)
        requires
            self.wf(),
        ensures
            r == data_of(self@, entity).tree,
    {
        match self.entities.get(entity) {
            Some(d) => d.tree,
            None => None,
        }
    }

    /// The hazard component of the entity, if any.
    pub fn get_fire(&self, entity: i64) -> (r: Option<crate::data::Fire>)
        requires
            self.wf(),
        ensures
            r == data_of(self@, entity).fire,
    {
        match self.entities.get(entity) {
            Some(d) => d.fire,
            None => None,
        }
    }

    /// The scorekeeping component of the entity, if any.
    pub fn get_headquarters(&self, entity: i64) -> (r: Option<crate::data::Headquarters>)
        requires
            self.wf(),
        ensures
            r == data_of(self@, entity).headquarters,
    {
        match self.entities.get(entity) {
            Some(d) => d.headquarters,
            None => None,
        }
    }

    /// The harvester component of the entity, if any.
    pub fn get_lumberjack(&self, entity: i64) -> (r: Option<crate::data::Lumberjack>)
        requires
            self.wf(),
        ensures
            r == data_of(self@, entity).lumberjack,
    {
        match self.entities.get(entity) {
            Some(d) => d.lumberjack,
            None => None,
        }
    }

    /// The caster component of the entity, if any.
    pub fn get_wizard(&self, entity: i64) -> (r: Option<crate::data::Wizard>)
        requires
            self.wf(),
        ensures
            r == data_of(self@, entity).wizard,
    {
        match self.entities.get(entity) {
            Some(d) => d.wizard,
            None => None,
        }
    }

    /// Whether the entity was added since the transients were cleared.
    pub fn was_entity_added(&self, entity: i64) -> (r: bool)
        requires
            self.wf(),
        ensures
            r == self@.snap.added.contains(entity),
    {
        let n = self.added.len();
        let mut i: usize = 0;
        while i < n
            invariant
                n == self.added@.len(),
                i <= n,
                forall|j: int| 0 <= j < i ==> self.added@[j] != entity,
            decreases n - i,
        {
            if self.added[i] == entity {
                proof {
                    assert(self.added@.contains(entity));
                }
                return true;
            }
            i = i + 1;
        }
        proof {
            if self.added@.contains(entity) {
                let j = choose|j: int| 0 <= j < self.added@.len() && self.added@[j] == entity;
                assert(false);
            }
        }
        return false;
    }

    /// How many removal notices arrived since the last clear.
    pub fn removed_count(&self) -> (r: usize)
        ensures
            r == self.removed_seq().len(),
    {
        self.removed.len()
    }

    /// The `i`-th removal notice; every removed entity appears here.
    pub fn removed_at(&self, i: usize) -> (r: i64)
        requires
            i < self.removed_seq().len(),
        ensures
            r == self.removed_seq()[i as int],
            self@.snap.removed.contains(r),
    {
        let r = self.removed[i];
        proof {
            assert(self.removed@.contains(r));
        }
        r
    }

    /// Whether the component kind of the entity was updated since the
    /// transients were cleared.
    pub fn was_component_updated(&self, entity: i64, kind: ComponentKind) -> (r: bool)
        requires
            self.wf(),
        ensures
            r == self@.snap.updated.contains((entity, kind)),
    {
        let n = self.updated.len();
        let mut i: usize = 0;
        while i < n
            invariant
                n == self.updated@.len(),
                i <= n,
                forall|j: int| 0 <= j < i ==> #[trigger] self.updated@[j] !== (entity, kind),
            decreases n - i,
        {
            let it = self.updated[i];
            if it.0 == entity && it.1 == kind {
                proof {
                    assert(self.updated@.contains((entity, kind)));
                }
                return true;
            }
            i = i + 1;
        }
        proof {
            if self.updated@.contains((entity, kind)) {
                let j = choose|j: int|
                    0 <= j < self.updated@.len() && self.updated@[j] == (entity, kind);
                assert(false);
            }
        }
        return false;
    }

    /// Number of pending harvest requests addressed to the entity.
    pub fn tree_request_count(&self, entity: i64) -> (r: usize)
        requires
            self.wf(),
        ensures
            r == req_seq(self@.snap.tree_requests, entity).len(),
    {
        match self.tree_requests.get(entity) {
            Some(v) => v.len(),
            None => 0,
        }
    }

    /// The id of the `i`-th pending harvest request, in arrival order.
    pub fn tree_request_at(&self, entity: i64, i: usize) -> (r: i64)
        requires
            self.wf(),
            i < req_seq(self@.snap.tree_requests, entity).len(),
        ensures
            r == req_seq(self@.snap.tree_requests, entity)[i as int],
    {
        match self.tree_requests.get(entity) {
            Some(v) => v[i],
            None => 0,
        }
    }

    /// Number of pending hazard requests addressed to the entity.
    pub fn fire_request_count(&self, entity: i64) -> (r: usize)
        requires
            self.wf(),
        ensures
            r == req_seq(self@.snap.fire_requests, entity).len(),
    {
        match self.fire_requests.get(entity) {
            Some(v) => v.len(),
            None => 0,
        }
    }

    /// The `i`-th pending hazard request, in arrival order.
    pub fn fire_request_at(&self, entity: i64, i: usize) -> (r: (i64, FireRequest))
        requires
            self.wf(),
            i < req_seq(self@.snap.fire_requests, entity).len(),
        ensures
            r == req_seq(self@.snap.fire_requests, entity)[i as int],
    {
        match self.fire_requests.get(entity) {
            Some(v) => v[i],
            None => (0, FireRequest::SetOnFire),
        }
    }

    /// Number of pending deposit requests addressed to the entity.
    pub fn hq_request_count(&self, entity: i64) -> (r: usize)
        requires
            self.wf(),
        ensures
            r == req_seq(self@.snap.hq_requests, entity).len(),
    {
        match self.hq_requests.get(entity) {
            Some(v) => v.len(),
            None => 0,
        }
    }

    /// The id of the `i`-th pending deposit request, in arrival order.
    pub fn hq_request_at(&self, entity: i64, i: usize) -> (r: i64)
        requires
            self.wf(),
            i < req_seq(self@.snap.hq_requests, entity).len(),
        ensures
            r == req_seq(self@.snap.hq_requests, entity)[i as int],
    {
        match self.hq_requests.get(entity) {
            Some(v) => v[i],
            None => 0,
        }
    }

    /// The response observed this tick for a request sent to `entity`
    /// under `request_id`, if any.
    pub fn get_command_response(&self, entity: i64, request_id: i64) -> (r: Option<
        &ResponseOutcome,
    >)
        requires
            self.wf(),
        ensures
            match r {
                Some(o) => self@.snap.responses.dom().contains(request_id)
                    && self@.snap.responses[request_id].0 == entity
                    && self@.snap.responses[request_id].1 == *o,
                None => !(self@.snap.responses.dom().contains(request_id)
                    && self@.snap.responses[request_id].0 == entity),
            },
    {
        match self.responses.get(request_id) {
            Some(pair) => {
                if pair.0 == entity {
                    Some(&pair.1)
                } else {
                    None
                }
            },
            None => None,
        }
    }
}

/// The component data the committed snapshot holds for an entity, or
/// an empty bundle for an unknown one.
pub open spec fn data_of(m: ViewModel, e: i64) -> EntityData {
    if m.snap.entities.dom().contains(e) {
        m.snap.entities[e]
    } else {
        EntityData::empty_spec()
    }
}

/// Which entities exist after one operation, ignoring everything but
/// additions and removals.
pub open spec fn live_step(s: Set<i64>, op: Operation) -> Set<i64> {
    match op {
        Operation::EntityAdded { entity } => s.insert(entity),
        Operation::EntityRemoved { entity } => s.remove(entity),
        _ => s,
    }
}

/// Which entities exist after a stream of operations: the entities
/// added and not subsequently removed.
pub open spec fn live_fold(s: Set<i64>, ops: Seq<Operation>) -> Set<i64>
    decreases ops.len(),
{
    if ops.len() == 0 {
        s
    } else {
        live_fold(live_step(s, ops.first()), ops.drop_first())
    }
}

proof fn lemma_live_fold_concat(s: Set<i64>, a: Seq<Operation>, b: Seq<Operation>)
    ensures
        live_fold(s, a + b) == live_fold(live_fold(s, a), b),
    decreases a.len(),
{
    if a.len() == 0 {
        assert(a + b =~= b);
        assert(live_fold(s, a) == s);
    } else {
        assert((a + b).first() == a.first());
        assert((a + b).drop_first() =~= a.drop_first() + b);
        lemma_live_fold_concat(live_step(s, a.first()), a.drop_first(), b);
    }
}

proof fn lemma_apply_committed_live(s: SnapModel, op: Operation)
    ensures
        apply_committed(s, op).entities.dom() == live_step(s.entities.dom(), op),
{
    match op {
        Operation::EntityAdded { entity } => {
            assert(apply_committed(s, op).entities.dom() =~= s.entities.dom().insert(entity));
        },
        Operation::EntityRemoved { entity } => {
            assert(apply_committed(s, op).entities.dom() =~= s.entities.dom().remove(entity));
        },
        Operation::ComponentUpdated { entity, value } => {
            assert(apply_committed(s, op).entities.dom() =~= s.entities.dom());
        },
        _ => {
            assert(apply_committed(s, op).entities.dom() =~= s.entities.dom());
        },
    }
}

proof fn lemma_flush_live(s: SnapModel, ops: Seq<Operation>)
    ensures
        flush(s, ops).entities.dom() == live_fold(s.entities.dom(), ops),
    decreases ops.len(),
{
    if ops.len() > 0 {
        lemma_apply_committed_live(s, ops.first());
        lemma_flush_live(apply_committed(s, ops.first()), ops.drop_first());
    }
}

proof fn lemma_steps_live(m: ViewModel, ops: Seq<Operation>)
    requires
        !m.in_section ==> m.pending == Seq::<Operation>::empty(),
    ensures
        ({
            let m2 = steps(m, ops);
            &&& (!m2.in_section ==> m2.pending == Seq::<Operation>::empty())
            &&& (!m2.in_section ==> m2.snap.entities.dom() == live_fold(
                m.snap.entities.dom(),
                m.pending + ops,
            ))
        }),
    decreases ops.len(),
{
    if ops.len() == 0 {
        if !m.in_section {
            assert(m.pending + ops =~= Seq::<Operation>::empty());
        }
    } else {
        let op = ops.first();
        let rest = ops.drop_first();
        let m1 = step(m, op);
        lemma_steps_live(m1, rest);
        let m2 = steps(m, ops);
        assert(m2 == steps(m1, rest));
        if !m2.in_section {
            match op {
                Operation::CriticalSectionMarker => {
                    if m.in_section {
                        lemma_flush_live(m.snap, m.pending);
                        lemma_live_fold_concat(m.snap.entities.dom(), m.pending, rest);
                        assert(m1.pending + rest =~= rest);
                        lemma_live_fold_concat(m.snap.entities.dom(), m.pending, ops);
                        assert(live_fold(live_fold(m.snap.entities.dom(), m.pending), ops)
                            == live_fold(
                            live_step(live_fold(m.snap.entities.dom(), m.pending), op),
                            rest,
                        ));
                        assert(live_step(live_fold(m.snap.entities.dom(), m.pending), op)
                            == live_fold(m.snap.entities.dom(), m.pending));
                    } else {
                        assert(m.pending =~= Seq::<Operation>::empty());
                        assert(m1.pending + rest =~= rest);
                        assert(m.pending + ops =~= ops);
                        assert(live_fold(m.snap.entities.dom(), ops) == live_fold(
                            live_step(m.snap.entities.dom(), op),
                            rest,
                        ));
                        assert(live_step(m.snap.entities.dom(), op) == m.snap.entities.dom());
                        assert(rest =~= Seq::<Operation>::empty() + rest);
                    }
                },
                _ => {
                    if m.in_section {
                        assert(m1.pending + rest =~= m.pending + ops);
                    } else {
                        assert(m.pending =~= Seq::<Operation>::empty());
                        lemma_apply_committed_live(m.snap, op);
                        assert(m1.pending + rest =~= rest);
                        assert(m.pending + ops =~= ops);
                        assert(live_fold(m.snap.entities.dom(), ops) == live_fold(
                            live_step(m.snap.entities.dom(), op),
                            rest,
                        ));
                        assert(rest =~= Seq::<Operation>::empty() + rest);
                    }
                },
            }
        }
    }
}

/// Where a critical-section marker stands in the stream makes no
/// difference to which entities exist: the grouping only defers
/// visibility, it never changes the outcome.
pub proof fn lemma_live_fold_ignores_markers(s: Set<i64>, a: Seq<Operation>, b: Seq<Operation>)
    ensures
        live_fold(s, a + seq![Operation::CriticalSectionMarker] + b) == live_fold(s, a + b),
{
    let marker = seq![Operation::CriticalSectionMarker];
    assert(marker.len() == 1);
    assert(marker[0] == Operation::CriticalSectionMarker);
    assert((a + marker + b) =~= (a + marker) + b);
    lemma_live_fold_concat(s, a + marker, b);
    lemma_live_fold_concat(s, a, marker);
    let x = live_fold(s, a);
    assert(marker.first() == Operation::CriticalSectionMarker);
    assert(marker.drop_first() =~= Seq::<Operation>::empty());
    assert(live_fold(x, marker) == live_fold(live_step(x, marker.first()), marker.drop_first()));
    assert(live_step(x, Operation::CriticalSectionMarker) == x);
    assert(live_fold(x, Seq::<Operation>::empty()) == x);
    lemma_live_fold_concat(s, a, b);
}

/// For every operation stream fed to a fresh view: once every critical
/// section has closed, the set of live entities is exactly the set of
/// entities added and not subsequently removed — however the stream
/// was grouped into critical sections.
pub proof fn lemma_entity_liveness(ops: Seq<Operation>)
    ensures
        ({
            let m = steps(ViewModel::init(), ops);
            !m.in_section ==> m.snap.entities.dom() == live_fold(Set::<i64>::empty(), ops)
        }),
{
    lemma_steps_live(ViewModel::init(), ops);
    let m = steps(ViewModel::init(), ops);
    if !m.in_section {
        assert(Seq::<Operation>::empty() + ops =~= ops);
        assert(ViewModel::init().snap.entities.dom() =~= Set::<i64>::empty());
    }
}

/// Operations fed while a critical section stays open change nothing a
/// query can observe: the snapshot is still the one of the previous
/// completed application.
pub proof fn lemma_open_section_defers(m: ViewModel, ops: Seq<Operation>)
    requires
        m.in_section,
        forall|i: int| 0 <= i < ops.len() ==> !((#[trigger] ops[i]) is CriticalSectionMarker),
    ensures
        steps(m, ops).snap == m.snap,
        steps(m, ops).in_section,
    decreases ops.len(),
{
    if ops.len() > 0 {
        assert(ops[0] == ops.first());
        let m1 = step(m, ops.first());
        assert(m1.snap == m.snap && m1.in_section);
        assert(forall|i: int|
            0 <= i < ops.drop_first().len() ==> !((#[trigger] ops.drop_first()[i])
                is CriticalSectionMarker));
        lemma_open_section_defers(m1, ops.drop_first());
    }
}

/// A batch that opens a critical section and does not close it leaves
/// every query result unchanged: readers keep seeing the previous
/// complete tick, never partial new data.
pub proof fn lemma_unclosed_section_defers(m: ViewModel, ops: Seq<Operation>)
    requires
        !m.in_section,
        ops.len() > 0,
        ops.first() is CriticalSectionMarker,
        forall|i: int| 1 <= i < ops.len() ==> !((#[trigger] ops[i]) is CriticalSectionMarker),
    ensures
        steps(m, ops).snap == m.snap,
{
    let m1 = step(m, ops.first());
    assert(m1.snap == m.snap && m1.in_section);
    assert(forall|i: int|
        0 <= i < ops.drop_first().len() ==> !((#[trigger] ops.drop_first()[i])
            is CriticalSectionMarker));
    lemma_open_section_defers(m1, ops.drop_first());
}

} // verus!
