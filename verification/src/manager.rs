//! The tick driver: one authoritative loop owner holding the view and
//! the registered behaviours.
//!
//! A tick runs as: `begin_tick` clears the view's transients; the
//! caller polls the transport and feeds each batch to `process_ops`,
//! polling again while `in_critical_section` reports an open section;
//! `tick` then runs every registered behaviour exactly once, in fixed
//! registration order, against the now-consistent snapshot.  No
//! behaviour ever observes a partially applied critical section.

use vstd::prelude::*;
use crate::behaviors::hq::HqBehaviour;
use crate::behaviors::lumberjacks::LumberjackBehavior;
use crate::behaviors::trees::TrackTreesBehaviour;
use crate::behaviors::wizards::WizardBehavior;
use crate::behaviors::hq::{
    deposit_answered, hq_score, hq_update_in, is_deposit_response, is_hq_traffic_op, is_hq_update,
    lemma_deposits_survive, lemma_hq_update_survives, only_hq_traffic, raised_score,
};
use crate::behaviors::lumberjacks::{
    chop_request_in, deposit_request_in, entity_coords, fetch_committed, harvester_action,
    idle_candidate, is_harvester, lemma_owed_survive, move_update_in, unique_match, update_in,
    DISTANCE_THRESHOLD_SQ,
};
use crate::behaviors::trees::{
    chop_answered, fire_answered, is_any_set_fire_request, lemma_answers_survive,
};
use crate::behaviors::wizards::{
    caster_action, caster_coords, caster_faction, is_caster, moving_committed, spell_request_in,
    wizard_candidate, wizard_move_in, wizard_update_in, SEARCH_RADIUS,
    WIZARD_DISTANCE_THRESHOLD_SQ,
};
use crate::data::{Action, CommandPayload, Operation, OutgoingOp, WizardAction};
use crate::tracker::{resolve_result, response_for, Outcome};
use crate::utils::sq_dist;
use crate::view::{ReplicatedView, data_of, req_seq, steps};

verus! {

/// A behaviour handed to the driver at startup.
pub enum BehaviorKind {
    Trees(TrackTreesBehaviour),
    Lumberjacks(LumberjackBehavior),
    Hqs(HqBehaviour),
    Wizards(WizardBehavior),
}

/// The tick driver of one worker process.
pub struct BehaviorManager {
    view: ReplicatedView,
    tick_count: u64,
    trees: Option<TrackTreesBehaviour>,
    lumberjacks: Option<LumberjackBehavior>,
    hqs: Option<HqBehaviour>,
    wizards: Option<WizardBehavior>,
}

impl BehaviorManager {
    /// The driver's replicated view.
    pub closed spec fn view_spec(self) -> ReplicatedView {
        self.view
    }

    /// How many ticks have run.
    pub closed spec fn tick_count_spec(self) -> u64 {
        self.tick_count
    }

    /// The registered node tracker, if any.
    pub closed spec fn trees_spec(self) -> Option<TrackTreesBehaviour> {
        self.trees
    }

    /// The registered harvester behaviour, if any.
    pub closed spec fn lumberjacks_spec(self) -> Option<LumberjackBehavior> {
        self.lumberjacks
    }

    /// The registered scorekeeper behaviour, if any.
    pub closed spec fn hqs_spec(self) -> Option<HqBehaviour> {
        self.hqs
    }

    /// The registered caster behaviour, if any.
    pub closed spec fn wizards_spec(self) -> Option<WizardBehavior> {
        self.wizards
    }

    /// The view and every registered behaviour are well formed.
    pub closed spec fn wf(self) -> bool {
        &&& self.view.wf()
        &&& (self.trees matches Some(t) ==> t.wf())
        &&& (self.lumberjacks matches Some(l) ==> l.wf())
    }

    /// A driver with a fresh view and no behaviours registered.
    pub fn new() -> (r: BehaviorManager)
        ensures
            r.wf(),
            r.view_spec()@ == crate::view::ViewModel::init(),
            r.tick_count_spec() == 0,
    {
        BehaviorManager {
            view: ReplicatedView::new(),
            tick_count: 0,
            trees: None,
            lumberjacks: None,
            hqs: None,
            wizards: None,
        }
    }

    /// Hand a behaviour to the driver; each kind has one slot, and
    /// registering a kind again replaces it.  The tick order is fixed:
    /// node tracker, harvesters, scorekeepers, casters.
    pub fn register_behaviour(&mut self, behaviour: BehaviorKind)
        requires
            old(self).wf(),
            behaviour matches BehaviorKind::Trees(t) ==> t.wf(),
            behaviour matches BehaviorKind::Lumberjacks(l) ==> l.wf(),
        ensures
            final(self).wf(),
            final(self).view_spec() == old(self).view_spec(),
            final(self).tick_count_spec() == old(self).tick_count_spec(),
            behaviour matches BehaviorKind::Trees(t) ==> final(self).trees_spec() == Some(t)
                && final(self).lumberjacks_spec() == old(self).lumberjacks_spec() && final(self).hqs_spec() == old(self).hqs_spec() && final(self).wizards_spec() == old(self).wizards_spec(),
            behaviour matches BehaviorKind::Lumberjacks(l) ==> final(self).lumberjacks_spec()
                == Some(l) && final(self).trees_spec() == old(self).trees_spec() && final(self).hqs_spec() == old(self).hqs_spec() && final(self).wizards_spec() == old(self).wizards_spec(),
            behaviour matches BehaviorKind::Hqs(h) ==> final(self).hqs_spec() == Some(h)
                && final(self).trees_spec() == old(self).trees_spec() && final(self).lumberjacks_spec() == old(self).lumberjacks_spec() && final(self).wizards_spec()
                == old(self).wizards_spec(),
            behaviour matches BehaviorKind::Wizards(w) ==> final(self).wizards_spec() == Some(w)
                && final(self).trees_spec() == old(self).trees_spec() && final(self).lumberjacks_spec() == old(self).lumberjacks_spec() && final(self).hqs_spec() == old(self).hqs_spec(),
    {
        match behaviour {
            BehaviorKind::Trees(t) => {
                self.trees = Some(t);
            },
            BehaviorKind::Lumberjacks(l) => {
                self.lumberjacks = Some(l);
            },
            BehaviorKind::Hqs(h) => {
                self.hqs = Some(h);
            },
            BehaviorKind::Wizards(w) => {
                self.wizards = Some(w);
            },
        }
    }

    /// Read access to the driver's view.
    pub fn current_view(&self) -> (r: &ReplicatedView)
        ensures
            r == self.view_spec(),
    {
        &self.view
    }

    /// Start a tick: drop the view's per-tick transient data before
    /// new operations are applied.
    pub fn begin_tick(&mut self)
        requires
            old(self).wf(),
        ensures
            final(self).wf(),
            final(self).view_spec()@.snap == old(self).view_spec()@.snap.cleared(),
            final(self).view_spec()@.pending == old(self).view_spec()@.pending,
            final(self).view_spec()@.in_section == old(self).view_spec()@.in_section,
            final(self).tick_count_spec() == old(self).tick_count_spec(),
    {
        self.view.clear_transient_data();
    }

    /// Fold one polled batch of operations into the view.
    pub fn process_ops(&mut self, ops: Vec<Operation>)
        requires
            old(self).wf(),
        ensures
            final(self).wf(),
            final(self).view_spec()@ == steps(old(self).view_spec()@, ops@),
            final(self).tick_count_spec() == old(self).tick_count_spec(),
    {
        self.view.process_ops(ops);
    }

    /// Whether a critical section is still open; the caller keeps
    /// polling for more batches while it is.
    pub fn in_critical_section(&self) -> (r: bool)
        ensures
            r == self.view_spec()@.in_section,
    {
        self.view.in_critical_section()
    }

    /// Run every registered behaviour exactly once, in fixed order,
    /// against the current snapshot, and count the tick.  The
    /// registered behaviours' guarantees carry up: a registered node
    /// tracker answers every pending harvest and hazard request; a
    /// registered scorekeeper accepts every pending deposit and
    /// publishes the raised score; and with a zero contagion chance
    /// and no caster registered, no hazard-set request is emitted.
    pub fn tick(&mut self, now_millis: u64, out: &mut Vec<OutgoingOp>)
        requires
            old(self).wf(),
        ensures
            final(self).wf(),
            final(self).view_spec() == old(self).view_spec(),
            old(out)@.is_prefix_of(final(out)@),
            final(self).tick_count_spec() == (if old(self).tick_count_spec() < u64::MAX {
                old(self).tick_count_spec() + 1
            } else {
                u64::MAX as int
            }),
            old(self).trees_spec() is Some ==> ({
                let m = old(self).view_spec()@;
                &&& forall|e: i64, k: int|
                    0 <= k < req_seq(m.snap.fire_requests, e).len() ==> fire_answered(
                        final(out)@,
                        old(out)@.len() as int,
                        (#[trigger] req_seq(m.snap.fire_requests, e)[k]).0,
                    )
                &&& forall|e: i64, k: int|
                    data_of(m, e).tree is Some && 0 <= k < req_seq(
                        m.snap.tree_requests,
                        e,
                    ).len() ==> chop_answered(
                        final(out)@,
                        old(out)@.len() as int,
                        #[trigger] req_seq(m.snap.tree_requests, e)[k],
                    )
            }),
            old(self).hqs_spec() is Some ==> ({
                let m = old(self).view_spec()@;
                &&& forall|e: i64, k: int|
                    data_of(m, e).headquarters is Some && 0 <= k < req_seq(
                        m.snap.hq_requests,
                        e,
                    ).len() ==> deposit_answered(
                        final(out)@,
                        old(out)@.len() as int,
                        #[trigger] req_seq(m.snap.hq_requests, e)[k],
                    )
                &&& forall|e: i64|
                    data_of(m, e).headquarters is Some && #[trigger] req_seq(
                        m.snap.hq_requests,
                        e,
                    ).len() > 0 ==> hq_update_in(
                        final(out)@,
                        old(out)@.len() as int,
                        e,
                        raised_score(
                            hq_score(m, e),
                            req_seq(m.snap.hq_requests, e).len() as int,
                        ) as u32,
                    )
            }),
            (old(self).trees_spec() matches Some(t) && t.spread_num_spec() == 0 && old(
                self,
            ).wizards_spec() is None) ==> forall|i: int|
                old(out)@.len() <= i < final(out)@.len() ==> !is_any_set_fire_request(
                    #[trigger] final(out)@[i],
                ),
    {
        let ghost base0 = out@.len() as int;
        match &mut self.trees {
            Some(t) => {
                t.tick(&self.view, now_millis, out);
            },
            None => {},
        }
        let ghost out_trees = out@;
        match (&mut self.lumberjacks, &self.trees) {
            (Some(l), Some(t)) => {
                l.tick(&self.view, t, self.tick_count, out);
            },
            _ => {},
        }
        let ghost out_lj = out@;
        proof {
            crate::data::lemma_seq_prefix_trans(old(out)@, out_trees, out@);
            if old(self).trees_spec() is Some {
                let m = self.view@;
                assert forall|e: i64, k: int|
                    0 <= k < req_seq(m.snap.fire_requests, e).len() implies fire_answered(
                    out@,
                    base0,
                    (#[trigger] req_seq(m.snap.fire_requests, e)[k]).0,
                ) by {
                    assert(fire_answered(out_trees, base0, req_seq(m.snap.fire_requests, e)[k].0));
                    lemma_answers_survive(
                        out_trees,
                        out@,
                        base0,
                        req_seq(m.snap.fire_requests, e)[k].0,
                    );
                }
                assert forall|e: i64, k: int|
                    data_of(m, e).tree is Some && 0 <= k < req_seq(
                        m.snap.tree_requests,
                        e,
                    ).len() implies chop_answered(
                    out@,
                    base0,
                    #[trigger] req_seq(m.snap.tree_requests, e)[k],
                ) by {
                    assert(chop_answered(out_trees, base0, req_seq(m.snap.tree_requests, e)[k]));
                    lemma_answers_survive(
                        out_trees,
                        out@,
                        base0,
                        req_seq(m.snap.tree_requests, e)[k],
                    );
                }
            }
        }
        match &mut self.hqs {
            Some(h) => {
                h.tick(&self.view, out);
            },
            None => {},
        }
        let ghost out_hq = out@;
        proof {
            crate::data::lemma_seq_prefix_trans(old(out)@, out_lj, out@);
            if old(self).trees_spec() is Some {
                let m = self.view@;
                assert forall|e: i64, k: int|
                    0 <= k < req_seq(m.snap.fire_requests, e).len() implies fire_answered(
                    out@,
                    base0,
                    (#[trigger] req_seq(m.snap.fire_requests, e)[k]).0,
                ) by {
                    lemma_answers_survive(
                        out_lj,
                        out@,
                        base0,
                        req_seq(m.snap.fire_requests, e)[k].0,
                    );
                }
                assert forall|e: i64, k: int|
                    data_of(m, e).tree is Some && 0 <= k < req_seq(
                        m.snap.tree_requests,
                        e,
                    ).len() implies chop_answered(
                    out@,
                    base0,
                    #[trigger] req_seq(m.snap.tree_requests, e)[k],
                ) by {
                    lemma_answers_survive(
                        out_lj,
                        out@,
                        base0,
                        req_seq(m.snap.tree_requests, e)[k],
                    );
                }
            }
            if self.hqs is Some {
                let m = self.view@;
                assert forall|e: i64, k: int|
                    data_of(m, e).headquarters is Some && 0 <= k < req_seq(
                        m.snap.hq_requests,
                        e,
                    ).len() implies deposit_answered(
                    out@,
                    base0,
                    #[trigger] req_seq(m.snap.hq_requests, e)[k],
                ) by {
                    assert(deposit_answered(out@, out_lj.len() as int, req_seq(
                        m.snap.hq_requests,
                        e,
                    )[k]));
                    let j = choose|j: int|
                        out_lj.len() as int <= j < out@.len() && is_deposit_response(
                            #[trigger] out@[j],
                            req_seq(m.snap.hq_requests, e)[k],
                        );
                    assert(base0 <= j);
                }
                assert forall|e: i64|
                    data_of(m, e).headquarters is Some && #[trigger] req_seq(
                        m.snap.hq_requests,
                        e,
                    ).len() > 0 implies hq_update_in(
                    out@,
                    base0,
                    e,
                    raised_score(
                        hq_score(m, e),
                        req_seq(m.snap.hq_requests, e).len() as int,
                    ) as u32,
                ) by {
                    assert(hq_update_in(out@, out_lj.len() as int, e, raised_score(
                        hq_score(m, e),
                        req_seq(m.snap.hq_requests, e).len() as int,
                    ) as u32));
                    let j = choose|j: int|
                        out_lj.len() as int <= j < out@.len() && is_hq_update(
                            #[trigger] out@[j],
                            e,
                            raised_score(
                                hq_score(m, e),
                                req_seq(m.snap.hq_requests, e).len() as int,
                            ) as u32,
                        );
                    assert(base0 <= j);
                }
            }
        }
        match (&mut self.wizards, &self.trees) {
            (Some(w), Some(t)) => {
                w.tick(&self.view, t, out);
            },
            _ => {},
        }
        proof {
            crate::data::lemma_seq_prefix_trans(old(out)@, out_hq, out@);
            if old(self).trees_spec() is Some {
                let m = self.view@;
                assert forall|e: i64, k: int|
                    0 <= k < req_seq(m.snap.fire_requests, e).len() implies fire_answered(
                    out@,
                    base0,
                    (#[trigger] req_seq(m.snap.fire_requests, e)[k]).0,
                ) by {
                    lemma_answers_survive(
                        out_hq,
                        out@,
                        base0,
                        req_seq(m.snap.fire_requests, e)[k].0,
                    );
                }
                assert forall|e: i64, k: int|
                    data_of(m, e).tree is Some && 0 <= k < req_seq(
                        m.snap.tree_requests,
                        e,
                    ).len() implies chop_answered(
                    out@,
                    base0,
                    #[trigger] req_seq(m.snap.tree_requests, e)[k],
                ) by {
                    lemma_answers_survive(
                        out_hq,
                        out@,
                        base0,
                        req_seq(m.snap.tree_requests, e)[k],
                    );
                }
            }
            if self.hqs is Some {
                let m = self.view@;
                assert forall|e: i64, k: int|
                    data_of(m, e).headquarters is Some && 0 <= k < req_seq(
                        m.snap.hq_requests,
                        e,
                    ).len() implies deposit_answered(
                    out@,
                    base0,
                    #[trigger] req_seq(m.snap.hq_requests, e)[k],
                ) by {
                    lemma_deposits_survive(
                        out_hq,
                        out@,
                        base0,
                        req_seq(m.snap.hq_requests, e)[k],
                    );
                }
                assert forall|e: i64|
                    data_of(m, e).headquarters is Some && #[trigger] req_seq(
                        m.snap.hq_requests,
                        e,
                    ).len() > 0 implies hq_update_in(
                    out@,
                    base0,
                    e,
                    raised_score(
                        hq_score(m, e),
                        req_seq(m.snap.hq_requests, e).len() as int,
                    ) as u32,
                ) by {
                    lemma_hq_update_survives(
                        out_hq,
                        out@,
                        base0,
                        e,
                        raised_score(
                            hq_score(m, e),
                            req_seq(m.snap.hq_requests, e).len() as int,
                        ) as u32,
                    );
                }
            }
            match old(self).trees_spec() {
                Some(t) => if t.spread_num_spec() == 0 && old(self).wizards_spec() is None {
                    assert forall|i: int|
                        base0 <= i < out@.len() implies !is_any_set_fire_request(
                        #[trigger] out@[i],
                    ) by {
                        if i < out_trees.len() {
                            crate::data::lemma_seq_prefix_index(out_trees, out@, i);
                        } else if i < out_lj.len() {
                            crate::data::lemma_seq_prefix_index(out_lj, out@, i);
                        } else if i < out_hq.len() {
                            crate::data::lemma_seq_prefix_index(out_hq, out@, i);
                            assert(is_hq_traffic_op(out_hq[i]));
                            if exists|rid: i64| is_deposit_response(#[trigger] out_hq[i], rid) {
                                let rid = choose|rid: i64|
                                    is_deposit_response(#[trigger] out_hq[i], rid);
                            } else {
                                let (e2, sc2) = choose|e2: i64, sc2: u32|
                                    is_hq_update(out_hq[i], e2, sc2);
                            }
                        }
                    }
                } else {
                },
                None => {},
            }
        }
        proof {
            let m = self.view@;
            if old(self).trees_spec() is Some && old(self).lumberjacks_spec() is Some {
                match self.trees_spec() {
                    Some(t2) => {
                        assert forall|e: i64|
                            #[trigger] is_harvester(m, e) && harvester_action(m, e)
                                == Action::Idle && (exists|t: i64|
                                idle_candidate(t2, entity_coords(m, e), t)) implies fetch_committed(
                            out@,
                            base0,
                            t2,
                            entity_coords(m, e),
                            e,
                        ) by {
                            let pos = entity_coords(m, e);
                            assert(fetch_committed(out_lj, out_trees.len() as int, t2, pos, e));
                            let (j, tt) = choose|j: int, tt: i64|
                                out_trees.len() as int <= j < out_lj.len() && #[trigger] idle_candidate(
                                    t2,
                                    pos,
                                    tt,
                                ) && crate::behaviors::lumberjacks::is_lumberjack_update(
                                    #[trigger] out_lj[j],
                                    e,
                                    Action::Fetching { target: tt },
                                );
                            assert(base0 <= j);
                            assert(fetch_committed(out_lj, base0, t2, pos, e));
                            lemma_owed_survive(
                                out_lj,
                                out@,
                                base0,
                                t2,
                                pos,
                                e,
                                Action::Idle,
                                pos,
                                pos,
                                0,
                            );
                        }
                        assert forall|e: i64|
                            #[trigger] is_harvester(m, e) implies (harvester_action(m, e) matches
                        Action::Returning { target } ==> (match data_of(m, target).position {
                            None => true,
                            Some(p) => {
                                if sq_dist(entity_coords(m, e), p.coords)
                                    > DISTANCE_THRESHOLD_SQ as int {
                                    move_update_in(out@, base0, e, entity_coords(m, e), p.coords)
                                } else {
                                    update_in(out@, base0, e, Action::Idle) && deposit_request_in(
                                        out@,
                                        base0,
                                        target,
                                    )
                                }
                            },
                        })) by {
                            let pos = entity_coords(m, e);
                            match harvester_action(m, e) {
                                Action::Returning { target } => {
                                    match data_of(m, target).position {
                                        Some(p) => {
                                            if sq_dist(pos, p.coords)
                                                > DISTANCE_THRESHOLD_SQ as int {
                                                assert(move_update_in(
                                                    out_lj,
                                                    out_trees.len() as int,
                                                    e,
                                                    pos,
                                                    p.coords,
                                                ));
                                                let j = choose|j: int|
                                                    out_trees.len() as int <= j < out_lj.len()
                                                        && crate::behaviors::lumberjacks::is_move_update(
                                                        #[trigger] out_lj[j],
                                                        e,
                                                        pos,
                                                        p.coords,
                                                    );
                                                assert(base0 <= j);
                                                assert(move_update_in(
                                                    out_lj,
                                                    base0,
                                                    e,
                                                    pos,
                                                    p.coords,
                                                ));
                                            } else {
                                                assert(update_in(
                                                    out_lj,
                                                    out_trees.len() as int,
                                                    e,
                                                    Action::Idle,
                                                ));
                                                let j = choose|j: int|
                                                    out_trees.len() as int <= j < out_lj.len()
                                                        && crate::behaviors::lumberjacks::is_lumberjack_update(
                                                        #[trigger] out_lj[j],
                                                        e,
                                                        Action::Idle,
                                                    );
                                                assert(base0 <= j);
                                                assert(update_in(out_lj, base0, e, Action::Idle));
                                                assert(deposit_request_in(
                                                    out_lj,
                                                    out_trees.len() as int,
                                                    target,
                                                ));
                                                let j2 = choose|j2: int|
                                                    out_trees.len() as int <= j2 < out_lj.len()
                                                        && crate::behaviors::lumberjacks::is_deposit_request(
                                                        #[trigger] out_lj[j2],
                                                        target,
                                                    );
                                                assert(base0 <= j2);
                                                assert(deposit_request_in(
                                                    out_lj,
                                                    base0,
                                                    target,
                                                ));
                                            }
                                            lemma_owed_survive(
                                                out_lj,
                                                out@,
                                                base0,
                                                t2,
                                                pos,
                                                e,
                                                Action::Idle,
                                                pos,
                                                p.coords,
                                                target,
                                            );
                                        },
                                        None => {},
                                    }
                                },
                                _ => {},
                            }
                        }
                        match old(self).lumberjacks_spec() {
                            Some(l) => {
                                assert forall|e: i64, target: i64, id: i64|
                                    #![trigger unique_match(l.tracker_spec()@, e, CommandPayload::TryChop, id),
                                        harvester_action(m, e), resolve_result(
                                        l.tracker_spec()@,
                                        target,
                                        id,
                                        response_for(m, id),
                                        old(self).tick_count_spec(),
                                        l.tracker_spec().timeout_spec(),
                                    )]
                                    is_harvester(m, e) && harvester_action(m, e) == (
                                    Action::Waiting { target }) && unique_match(
                                        l.tracker_spec()@,
                                        e,
                                        CommandPayload::TryChop,
                                        id,
                                    ) && resolve_result(
                                        l.tracker_spec()@,
                                        target,
                                        id,
                                        response_for(m, id),
                                        old(self).tick_count_spec(),
                                        l.tracker_spec().timeout_spec(),
                                    ) == Some(Outcome::ApplicationError) implies update_in(
                                    out@,
                                    base0,
                                    e,
                                    Action::Idle,
                                ) by {
                                    assert(update_in(
                                        out_lj,
                                        out_trees.len() as int,
                                        e,
                                        Action::Idle,
                                    ));
                                    let j = choose|j: int|
                                        out_trees.len() as int <= j < out_lj.len()
                                            && crate::behaviors::lumberjacks::is_lumberjack_update(
                                            #[trigger] out_lj[j],
                                            e,
                                            Action::Idle,
                                        );
                                    assert(base0 <= j);
                                    assert(update_in(out_lj, base0, e, Action::Idle));
                                    lemma_owed_survive(
                                        out_lj,
                                        out@,
                                        base0,
                                        t2,
                                        entity_coords(m, e),
                                        e,
                                        Action::Idle,
                                        entity_coords(m, e),
                                        entity_coords(m, e),
                                        0,
                                    );
                                }
                            },
                            None => {},
                        }
                    },
                    None => {},
                }
            }
            if old(self).trees_spec() is Some && old(self).wizards_spec() is Some {
                match self.trees_spec() {
                    Some(t2) => {
                        assert forall|e: i64|
                            #[trigger] is_caster(m, e) && caster_action(m, e)
                                == WizardAction::Idle && (exists|a: int, t: i64|
                                1 <= a <= 4 && #[trigger] wizard_candidate(
                                    t2,
                                    caster_faction(m, e),
                                    caster_coords(m, e),
                                    a * SEARCH_RADIUS as int,
                                    t,
                                )) && (forall|t: i64|
                                #[trigger] wizard_candidate(
                                    t2,
                                    caster_faction(m, e),
                                    caster_coords(m, e),
                                    4 * SEARCH_RADIUS as int,
                                    t,
                                ) ==> data_of(m, t).position is Some) implies moving_committed(
                            out@,
                            base0,
                            t2,
                            caster_faction(m, e),
                            caster_coords(m, e),
                            m,
                            e,
                        ) by {
                            assert(moving_committed(
                                out@,
                                out_hq.len() as int,
                                t2,
                                caster_faction(m, e),
                                caster_coords(m, e),
                                m,
                                e,
                            ));
                            crate::behaviors::wizards::lemma_moving_committed_widen(
                                out@,
                                out_hq.len() as int,
                                base0,
                                t2,
                                caster_faction(m, e),
                                caster_coords(m, e),
                                m,
                                e,
                            );
                        }
                        assert forall|e: i64|
                            #[trigger] is_caster(m, e) implies (caster_action(m, e) matches
                        WizardAction::Moving { target, target_pos } ==> ({
                            if !target_pos.in_bounds() {
                                true
                            } else if sq_dist(caster_coords(m, e), target_pos)
                                > WIZARD_DISTANCE_THRESHOLD_SQ as int {
                                wizard_move_in(out@, base0, e, caster_coords(m, e), target_pos)
                            } else {
                                wizard_update_in(
                                    out@,
                                    base0,
                                    e,
                                    WizardAction::Spell { target, target_pos },
                                )
                            }
                        })) by {
                            let pos = caster_coords(m, e);
                            match caster_action(m, e) {
                                WizardAction::Moving { target, target_pos } => {
                                    if target_pos.in_bounds() {
                                        if sq_dist(pos, target_pos)
                                            > WIZARD_DISTANCE_THRESHOLD_SQ as int {
                                            assert(wizard_move_in(
                                                out@,
                                                out_hq.len() as int,
                                                e,
                                                pos,
                                                target_pos,
                                            ));
                                            let j = choose|j: int|
                                                out_hq.len() as int <= j < out@.len()
                                                    && crate::behaviors::wizards::is_wizard_move_update(
                                                    #[trigger] out@[j],
                                                    e,
                                                    pos,
                                                    target_pos,
                                                );
                                            assert(base0 <= j);
                                            assert(wizard_move_in(
                                                out@,
                                                base0,
                                                e,
                                                pos,
                                                target_pos,
                                            ));
                                        } else {
                                            assert(wizard_update_in(
                                                out@,
                                                out_hq.len() as int,
                                                e,
                                                WizardAction::Spell { target, target_pos },
                                            ));
                                            let j = choose|j: int|
                                                out_hq.len() as int <= j < out@.len()
                                                    && crate::behaviors::wizards::is_wizard_update(
                                                    #[trigger] out@[j],
                                                    e,
                                                    WizardAction::Spell { target, target_pos },
                                                );
                                            assert(base0 <= j);
                                            assert(wizard_update_in(
                                                out@,
                                                base0,
                                                e,
                                                WizardAction::Spell { target, target_pos },
                                            ));
                                        }
                                    }
                                },
                                _ => {},
                            }
                        }
                        assert forall|e: i64|
                            #[trigger] is_caster(m, e) implies (caster_action(m, e) matches
                        WizardAction::Spell { target, target_pos } ==> (spell_request_in(
                            out@,
                            base0,
                            caster_faction(m, e),
                            target,
                        ) && wizard_update_in(out@, base0, e, WizardAction::Idle))) by {
                            match caster_action(m, e) {
                                WizardAction::Spell { target, target_pos } => {
                                    assert(spell_request_in(
                                        out@,
                                        out_hq.len() as int,
                                        caster_faction(m, e),
                                        target,
                                    ));
                                    let j = choose|j: int|
                                        out_hq.len() as int <= j < out@.len()
                                            && crate::behaviors::wizards::is_spell_request(
                                            #[trigger] out@[j],
                                            caster_faction(m, e),
                                            target,
                                        );
                                    assert(base0 <= j);
                                    assert(spell_request_in(
                                        out@,
                                        base0,
                                        caster_faction(m, e),
                                        target,
                                    ));
                                    assert(wizard_update_in(
                                        out@,
                                        out_hq.len() as int,
                                        e,
                                        WizardAction::Idle,
                                    ));
                                    let j2 = choose|j2: int|
                                        out_hq.len() as int <= j2 < out@.len()
                                            && crate::behaviors::wizards::is_wizard_update(
                                            #[trigger] out@[j2],
                                            e,
                                            WizardAction::Idle,
                                        );
                                    assert(base0 <= j2);
                                    assert(wizard_update_in(out@, base0, e, WizardAction::Idle));
                                },
                                _ => {},
                            }
                        }
                    },
                    None => {},
                }
            }
        }
        if self.tick_count < u64::MAX {
            self.tick_count = self.tick_count + 1;
        }
    }
}

} // verus!
