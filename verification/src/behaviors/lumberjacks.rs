//! The harvester behaviour.
//!
//! Each harvester runs a four-state machine: `Idle` picks a random
//! available node within the search radius; `Fetching` walks toward
//! it and, on arrival, issues a harvest request; `Waiting` polls the
//! correlation tracker and, on success, heads for the nearest deposit
//! target; `Returning` walks there and hands the load in.

use vstd::prelude::*;
use crate::behaviors::trees::TrackTreesBehaviour;
use crate::data::{Action, CommandPayload, Lumberjack, OutgoingOp, Position, UpdateValue};
use crate::rng::{choose_index, fresh_rng};
use crate::spatial::Partition;
use crate::tracker::{InFlight, Outcome, Tracker, resolve_result, response_for};
use crate::utils::{Coordinates, move_to, sq_dist, step_delta, step_mag, squared_distance};
use crate::view::{ReplicatedView, ViewModel, data_of};

verus! {

/// How far an idle harvester looks for an available node, in
/// milli-units.
pub const SEARCH_DISTANCE: i64 = 125_000;

/// How far a harvester walks per tick, in milli-units.
pub const MOVE_SPEED: i64 = 50;

/// Squared-distance threshold that counts as "arrived".
pub const DISTANCE_THRESHOLD_SQ: i128 = 3_000_000;

/// Ticks a harvest request may stay unresolved before it counts as
/// timed out and is re-issued.
pub const REQUEST_TIMEOUT_TICKS: u64 = 600;

/// A harvester state update sent for the entity.
pub open spec fn is_lumberjack_update(op: OutgoingOp, entity: i64, action: Action) -> bool {
    op matches OutgoingOp::ComponentUpdate {
        entity: e,
        value: UpdateValue::Lumberjack(l),
        loopback,
    } && e == entity && l.action == action && loopback
}

/// A position update moving the entity one step from `from` toward `to`.
pub open spec fn is_move_update(op: OutgoingOp, entity: i64, from: Coordinates, to: Coordinates) -> bool {
    op matches OutgoingOp::ComponentUpdate {
        entity: e,
        value: UpdateValue::Position(p),
        loopback,
    } && e == entity && loopback && p.coords.x == from.x + step_delta(
        to.x - from.x,
        MOVE_SPEED as int,
        step_mag(from, to),
    ) && p.coords.y == from.y + step_delta(to.y - from.y, MOVE_SPEED as int, step_mag(from, to))
        && p.coords.z == from.z + step_delta(to.z - from.z, MOVE_SPEED as int, step_mag(from, to))
}

/// A correlated harvest request addressed to `target` under `id`.
pub open spec fn is_chop_request(op: OutgoingOp, target: i64, id: i64) -> bool {
    op matches OutgoingOp::CommandRequest {
        entity: e,
        request_id: Some(rid),
        payload: CommandPayload::TryChop,
    } && e == target && rid == id
}

/// A fire-and-forget deposit request addressed to `target`.
pub open spec fn is_deposit_request(op: OutgoingOp, target: i64) -> bool {
    op matches OutgoingOp::CommandRequest {
        entity: e,
        request_id: None,
        payload: CommandPayload::Deposit,
    } && e == target
}

/// Whether the entity is a deposit target with a known position.
pub open spec fn hq_with_position(m: ViewModel, e: i64) -> bool {
    &&& m.snap.entities.dom().contains(e)
    &&& data_of(m, e).headquarters is Some
    &&& data_of(m, e).position is Some
}

/// The position of an entity; meaningful only when it has one.
pub open spec fn entity_coords(m: ViewModel, e: i64) -> Coordinates {
    match data_of(m, e).position {
        Some(p) => p.coords,
        None => Coordinates { x: 0, y: 0, z: 0 },
    }
}

/// A deposit target at least as close to `pos` as every other one.
pub open spec fn is_nearest_hq(m: ViewModel, pos: Coordinates, h: i64) -> bool {
    &&& hq_with_position(m, h)
    &&& forall|e: i64|
        #[trigger] hq_with_position(m, e) ==> sq_dist(pos, entity_coords(m, h)) <= sq_dist(
            pos,
            entity_coords(m, e),
        )
}

/// The one in-flight entry for this entity and purpose, when exactly
/// one exists.
pub open spec fn unique_match(
    t: Map<i64, InFlight>,
    entity: i64,
    purpose: CommandPayload,
    id: i64,
) -> bool {
    &&& t.dom().contains(id)
    &&& t[id].entity == entity
    &&& t[id].purpose == purpose
    &&& forall|other: i64|
        t.dom().contains(other) && (#[trigger] t[other]).entity == entity && t[other].purpose
            == purpose ==> other == id
}

/// Whether the view knows this entity as a harvester: it carries the
/// harvester component and a position.
pub open spec fn is_harvester(m: ViewModel, e: i64) -> bool {
    &&& m.snap.entities.dom().contains(e)
    &&& data_of(m, e).lumberjack is Some
    &&& data_of(m, e).position is Some
}

/// The state of a harvester in the view (idle when it carries no
/// harvester component).
pub open spec fn harvester_action(m: ViewModel, e: i64) -> Action {
    match data_of(m, e).lumberjack {
        Some(l) => l.action,
        None => Action::Idle,
    }
}

/// A state update for the entity somewhere in `s[base..]`.
pub open spec fn update_in(s: Seq<OutgoingOp>, base: int, e: i64, a: Action) -> bool {
    exists|j: int| base <= j < s.len() && is_lumberjack_update(#[trigger] s[j], e, a)
}

/// A commitment to fetch some candidate node, somewhere in `s[base..]`.
pub open spec fn fetch_committed(
    s: Seq<OutgoingOp>,
    base: int,
    trees: TrackTreesBehaviour,
    pos: Coordinates,
    e: i64,
) -> bool {
    exists|j: int, t: i64|
        base <= j < s.len() && #[trigger] idle_candidate(trees, pos, t) && is_lumberjack_update(
            #[trigger] s[j],
            e,
            Action::Fetching { target: t },
        )
}

/// A movement step from `from` toward `to` for the entity, somewhere
/// in `s[base..]`.
pub open spec fn move_update_in(
    s: Seq<OutgoingOp>,
    base: int,
    e: i64,
    from: Coordinates,
    to: Coordinates,
) -> bool {
    exists|j: int| base <= j < s.len() && is_move_update(#[trigger] s[j], e, from, to)
}

/// A correlated harvest request addressed to `target`, somewhere in
/// `s[base..]`.
pub open spec fn chop_request_in(s: Seq<OutgoingOp>, base: int, target: i64) -> bool {
    exists|j: int, id: i64| base <= j < s.len() && #[trigger] is_chop_request(s[j], target, id)
}

/// A fire-and-forget deposit request addressed to `target`, somewhere
/// in `s[base..]`.
pub open spec fn deposit_request_in(s: Seq<OutgoingOp>, base: int, target: i64) -> bool {
    exists|j: int| base <= j < s.len() && is_deposit_request(#[trigger] s[j], target)
}

/// Owed effects already in the emitted region survive when the
/// output only grows.
pub(crate) proof fn lemma_owed_survive(
    pre: Seq<OutgoingOp>,
    post: Seq<OutgoingOp>,
    base: int,
    trees: TrackTreesBehaviour,
    pos: Coordinates,
    e: i64,
    a: Action,
    from: Coordinates,
    to: Coordinates,
    target: i64,
)
    requires
        pre.is_prefix_of(post),
        0 <= base,
    ensures
        update_in(pre, base, e, a) ==> update_in(post, base, e, a),
        fetch_committed(pre, base, trees, pos, e) ==> fetch_committed(post, base, trees, pos, e),
        move_update_in(pre, base, e, from, to) ==> move_update_in(post, base, e, from, to),
        chop_request_in(pre, base, target) ==> chop_request_in(post, base, target),
        deposit_request_in(pre, base, target) ==> deposit_request_in(post, base, target),
{
    if update_in(pre, base, e, a) {
        let j = choose|j: int| base <= j < pre.len() && is_lumberjack_update(#[trigger] pre[j], e, a);
        crate::data::lemma_seq_prefix_index(pre, post, j);
        assert(is_lumberjack_update(post[j], e, a));
    }
    if fetch_committed(pre, base, trees, pos, e) {
        let (j, t) = choose|j: int, t: i64|
            base <= j < pre.len() && #[trigger] idle_candidate(trees, pos, t)
                && is_lumberjack_update(#[trigger] pre[j], e, Action::Fetching { target: t });
        crate::data::lemma_seq_prefix_index(pre, post, j);
        assert(idle_candidate(trees, pos, t) && is_lumberjack_update(
            post[j],
            e,
            Action::Fetching { target: t },
        ));
    }
    if move_update_in(pre, base, e, from, to) {
        let j = choose|j: int| base <= j < pre.len() && is_move_update(#[trigger] pre[j], e, from, to);
        crate::data::lemma_seq_prefix_index(pre, post, j);
        assert(is_move_update(post[j], e, from, to));
    }
    if chop_request_in(pre, base, target) {
        let (j, id) = choose|j: int, id: i64|
            base <= j < pre.len() && #[trigger] is_chop_request(pre[j], target, id);
        crate::data::lemma_seq_prefix_index(pre, post, j);
        assert(is_chop_request(post[j], target, id));
    }
    if deposit_request_in(pre, base, target) {
        let j = choose|j: int| base <= j < pre.len() && is_deposit_request(#[trigger] pre[j], target);
        crate::data::lemma_seq_prefix_index(pre, post, j);
        assert(is_deposit_request(post[j], target));
    }
}

/// An available node within the idle search radius of `pos`.
pub open spec fn idle_candidate(trees: TrackTreesBehaviour, pos: Coordinates, t: i64) -> bool {
    &&& trees.index_spec().part(Partition::Active).dom().contains(t)
    &&& sq_dist(trees.index_spec().part(Partition::Active)[t], pos) < SEARCH_DISTANCE as int
        * SEARCH_DISTANCE as int
}

/// The harvester behaviour of the game-logic worker.
pub struct LumberjackBehavior {
    rng: rand::rngs::ThreadRng,
    tracker: Tracker,
}

impl LumberjackBehavior {
    /// The correlation tracker holding this behaviour's in-flight
    /// harvest requests.
    pub closed spec fn tracker_spec(self) -> Tracker {
        self.tracker
    }

    /// The tracker is well formed.
    pub open spec fn wf(self) -> bool {
        self.tracker_spec().wf()
    }

    /// A harvester behaviour with no requests in flight.
    pub fn new() -> (r: LumberjackBehavior)
        ensures
            r.wf(),
            r.tracker_spec()@ == Map::<i64, InFlight>::empty(),
            r.tracker_spec().timeout_spec() == REQUEST_TIMEOUT_TICKS,
    {
        LumberjackBehavior { rng: fresh_rng(), tracker: Tracker::new(REQUEST_TIMEOUT_TICKS) }
    }

    /// The nearest deposit target to `pos`, with its position.
    pub fn nearest_hq(view: &ReplicatedView, pos: Coordinates) -> (r: Option<(i64, Coordinates)>)
        requires
            view.wf(),
            pos.in_bounds(),
        ensures
            match r {
                Some((h, c)) => is_nearest_hq(view@, pos, h) && c == entity_coords(view@, h),
                None => forall|e: i64| !(#[trigger] hq_with_position(view@, e)),
            },
    {
        let ids = view.entity_ids();
        let n = ids.len();
        let mut best: Option<(i64, Coordinates)> = None;
        let mut best_d: i128 = 0;
        let mut i: usize = 0;
        while i < n
            invariant
                view.wf(),
                pos.in_bounds(),
                i <= n,
                n == ids@.len(),
                forall|e: i64| ids@.contains(e) <==> view@.snap.entities.dom().contains(e),
                match best {
                    Some((h, c)) => {
                        &&& hq_with_position(view@, h)
                        &&& c == entity_coords(view@, h)
                        &&& best_d == sq_dist(pos, c)
                        &&& forall|j: int|
                            0 <= j < i && hq_with_position(view@, #[trigger] ids@[j]) ==> best_d
                                <= sq_dist(pos, entity_coords(view@, ids@[j]))
                    },
                    None => forall|j: int|
                        0 <= j < i ==> !hq_with_position(view@, #[trigger] ids@[j]),
                },
            decreases n - i,
        {
            let e = ids[i];
            let has_hq = match view.get_headquarters(e) {
                Some(_) => true,
                None => false,
            };
            if has_hq {
                match view.get_position(e) {
                    Some(p) => {
                        let d = squared_distance(&pos, &p.coords);
                        let take = match best {
                            Some(_) => d < best_d,
                            None => true,
                        };
                        if take {
                            best = Some((e, p.coords));
                            best_d = d;
                        }
                    },
                    None => {},
                }
            }
            i = i + 1;
        }
        proof {
            match best {
                Some((h, c)) => {
                    assert forall|e: i64| #[trigger] hq_with_position(view@, e) implies sq_dist(
                        pos,
                        entity_coords(view@, h),
                    ) <= sq_dist(pos, entity_coords(view@, e)) by {
                        assert(ids@.contains(e));
                        let j = choose|j: int| 0 <= j < ids@.len() && ids@[j] == e;
                    }
                },
                None => {
                    assert forall|e: i64| !(#[trigger] hq_with_position(view@, e)) by {
                        if hq_with_position(view@, e) {
                            assert(ids@.contains(e));
                            let j = choose|j: int| 0 <= j < ids@.len() && ids@[j] == e;
                        }
                    }
                },
            }
        }
        best
    }

    /// Idle: sample one candidate uniformly at random from the
    /// available nodes within the search radius and head for it; stay
    /// idle when none is in range.
    pub fn do_idle(
        &mut self,
        entity: i64,
        pos: Coordinates,
        trees: &TrackTreesBehaviour,
        out: &mut Vec<OutgoingOp>,
    )
        requires
            old(self).wf(),
            trees.wf(),
            pos.in_bounds(),
        ensures
            final(self).wf(),
            final(self).tracker_spec() == old(self).tracker_spec(),
            old(out)@.is_prefix_of(final(out)@),
            (forall|t: i64| !(#[trigger] idle_candidate(*trees, pos, t))) ==> final(out)@ == old(
                out,
            )@,
            (exists|t: i64| #[trigger] idle_candidate(*trees, pos, t)) ==> ({
                &&& final(out)@.len() == old(out)@.len() + 1
                &&& exists|t: i64|
                    #[trigger] idle_candidate(*trees, pos, t) && is_lumberjack_update(
                        final(out)@.last(),
                        entity,
                        Action::Fetching { target: t },
                    )
            }),
            forall|i: int|
                old(out)@.len() <= i < final(out)@.len()
                    ==> !crate::behaviors::trees::is_any_set_fire_request(
                    #[trigger] final(out)@[i],
                ),
    {
        let targets = trees.within(pos, SEARCH_DISTANCE);
        if targets.len() > 0 {
            let idx = choose_index(&mut self.rng, targets.len());
            let t = targets[idx];
            proof {
                assert(targets@.contains(t));
                assert(idle_candidate(*trees, pos, t));
            }
            let op = OutgoingOp::ComponentUpdate {
                entity,
                value: UpdateValue::Lumberjack(
                    Lumberjack { action: Action::Fetching { target: t } },
                ),
                loopback: true,
            };
            let ghost opg = op;
            out.push(op);
            proof {
                assert(out@.last() == opg);
                assert(is_lumberjack_update(out@.last(), entity, Action::Fetching { target: t }));
            }
        } else {
            proof {
                assert forall|t: i64| !(#[trigger] idle_candidate(*trees, pos, t)) by {
                    assert(!targets@.contains(t));
                }
            }
        }
    }

    /// Fetching: walk one step toward the target while it is farther
    /// than the arrival threshold; once arrived, issue a harvest
    /// request, record it, and start waiting.  A target with no known
    /// position is stale: the tick is a no-op and the harvester
    /// retries next tick.
    pub fn do_fetch(
        &mut self,
        entity: i64,
        pos: Coordinates,
        target: i64,
        view: &ReplicatedView,
        now_tick: u64,
        out: &mut Vec<OutgoingOp>,
    )
        requires
            old(self).wf(),
            view.wf(),
            pos.in_bounds(),
        ensures
            final(self).wf(),
            final(self).tracker_spec().timeout_spec() == old(self).tracker_spec().timeout_spec(),
            final(self).tracker_spec().next_id_spec() >= old(self).tracker_spec().next_id_spec(),
            old(out)@.is_prefix_of(final(out)@),
            ({
                let tp = data_of(view@, target).position;
                match tp {
                    None => final(out)@ == old(out)@ && final(self).tracker_spec() == old(
                        self,
                    ).tracker_spec(),
                    Some(p) => {
                        if sq_dist(pos, p.coords) > DISTANCE_THRESHOLD_SQ as int {
                            &&& final(out)@.len() == old(out)@.len() + 1
                            &&& is_move_update(final(out)@.last(), entity, pos, p.coords)
                            &&& final(self).tracker_spec() == old(self).tracker_spec()
                        } else if old(self).tracker_spec().next_id_spec() < i64::MAX {
                            &&& final(out)@.len() == old(out)@.len() + 2
                            &&& exists|id: i64|
                                is_chop_request(#[trigger] final(out)@[final(out)@.len() - 2], target, id)
                                    && !old(self).tracker_spec()@.dom().contains(id) && final(self).tracker_spec()@ == old(self).tracker_spec()@.insert(
                                    id,
                                    InFlight {
                                        entity,
                                        purpose: CommandPayload::TryChop,
                                        issued_tick: now_tick,
                                    },
                                )
                            &&& is_lumberjack_update(
                                final(out)@.last(),
                                entity,
                                Action::Waiting { target },
                            )
                        } else {
                            // The id space is exhausted: a machine limit no
                            // process reaches.  The tick is a no-op.
                            &&& final(out)@ == old(out)@
                            &&& final(self).tracker_spec() == old(self).tracker_spec()
                        }
                    },
                }
            }),
            forall|id: i64|
                old(self).tracker_spec()@.dom().contains(id) && (#[trigger] old(
                    self,
                ).tracker_spec()@[id]).entity != entity ==> final(self).tracker_spec()@.dom().contains(id) && final(self).tracker_spec()@[id] == old(
                    self,
                ).tracker_spec()@[id],
            forall|id: i64|
                #[trigger] final(self).tracker_spec()@.dom().contains(id) && (!old(
                    self,
                ).tracker_spec()@.dom().contains(id) || final(self).tracker_spec()@[id] != old(
                    self,
                ).tracker_spec()@[id]) ==> final(self).tracker_spec()@[id].entity == entity
                && final(self).tracker_spec()@[id].purpose == CommandPayload::TryChop,
            forall|i: int|
                old(out)@.len() <= i < final(out)@.len() ==> !crate::behaviors::trees::is_any_set_fire_request(
                    #[trigger] final(out)@[i],
                ),
    {
        let target_position = match view.get_position(target) {
            Some(p) => p,
            None => {
                return ;
            },
        };
        let d = squared_distance(&pos, &target_position.coords);
        if d > DISTANCE_THRESHOLD_SQ {
            proof {
                crate::utils::lemma_sq_dist_symmetric(pos, target_position.coords);
            }
            let stepped = move_to(&pos, &target_position.coords, MOVE_SPEED);
            out.push(
                OutgoingOp::ComponentUpdate {
                    entity,
                    value: UpdateValue::Position(Position { coords: stepped }),
                    loopback: true,
                },
            );
        } else {
            if !self.tracker.has_capacity() {
                return ;
            }
            let id = self.tracker.issue(entity, CommandPayload::TryChop, now_tick);
            out.push(
                OutgoingOp::CommandRequest {
                    entity: target,
                    request_id: Some(id),
                    payload: CommandPayload::TryChop,
                },
            );
            out.push(
                OutgoingOp::ComponentUpdate {
                    entity,
                    value: UpdateValue::Lumberjack(
                        Lumberjack { action: Action::Waiting { target } },
                    ),
                    loopback: true,
                },
            );
        }
    }

    /// Waiting: poll the tracker.  Success sends the harvester to the
    /// nearest deposit target; an application error sends it back to
    /// idle; a timeout re-issues the same request; an unresolved
    /// request keeps waiting.  A waiting harvester with no tracked
    /// request is an invariant violation: the invocation is abandoned
    /// without crashing the tick.
    pub fn do_wait(
        &mut self,
        entity: i64,
        pos: Coordinates,
        target: i64,
        view: &ReplicatedView,
        now_tick: u64,
        out: &mut Vec<OutgoingOp>,
    )
        requires
            old(self).wf(),
            view.wf(),
            pos.in_bounds(),
        ensures
            final(self).wf(),
            final(self).tracker_spec().timeout_spec() == old(self).tracker_spec().timeout_spec(),
            final(self).tracker_spec().next_id_spec() >= old(self).tracker_spec().next_id_spec(),
            old(out)@.is_prefix_of(final(out)@),
            final(out)@.len() <= old(out)@.len() + 1,
            (forall|id: i64|
                old(self).tracker_spec()@.dom().contains(id) ==> !((#[trigger] old(
                    self,
                ).tracker_spec()@[id]).entity == entity && old(self).tracker_spec()@[id].purpose
                    == CommandPayload::TryChop)) ==> (final(out)@ == old(out)@ && final(self).tracker_spec() == old(self).tracker_spec()),
            forall|id: i64|
                #[trigger] unique_match(
                    old(self).tracker_spec()@,
                    entity,
                    CommandPayload::TryChop,
                    id,
                ) ==> ({
                    let res = resolve_result(
                        old(self).tracker_spec()@,
                        target,
                        id,
                        response_for(view@, id),
                        now_tick,
                        old(self).tracker_spec().timeout_spec(),
                    );
                    match res {
                        None => final(out)@ == old(out)@ && final(self).tracker_spec()@ == old(
                            self,
                        ).tracker_spec()@,
                        Some(o) => {
                            if o is Success {
                                &&& final(self).tracker_spec()@ == old(
                                    self,
                                ).tracker_spec()@.remove(id)
                                &&& (exists|e: i64| #[trigger] hq_with_position(view@, e)) ==> ({
                                    &&& final(out)@.len() == old(out)@.len() + 1
                                    &&& exists|h: i64|
                                        #[trigger] is_nearest_hq(view@, pos, h)
                                            && is_lumberjack_update(
                                            final(out)@.last(),
                                            entity,
                                            Action::Returning { target: h },
                                        )
                                })
                                &&& (forall|e: i64| !(#[trigger] hq_with_position(view@, e)))
                                    ==> final(out)@ == old(out)@
                            } else if o is ApplicationError {
                                &&& final(self).tracker_spec()@ == old(
                                    self,
                                ).tracker_spec()@.remove(id)
                                &&& final(out)@.len() == old(out)@.len() + 1
                                &&& is_lumberjack_update(final(out)@.last(), entity, Action::Idle)
                            } else if old(self).tracker_spec().next_id_spec() < i64::MAX {
                                &&& final(out)@.len() == old(out)@.len() + 1
                                &&& exists|nid: i64|
                                    is_chop_request(#[trigger] final(out)@.last(), target, nid)
                                        && !old(self).tracker_spec()@.remove(id).dom().contains(
                                        nid,
                                    ) && final(self).tracker_spec()@ == old(
                                        self,
                                    ).tracker_spec()@.remove(id).insert(
                                        nid,
                                        InFlight {
                                            entity,
                                            purpose: CommandPayload::TryChop,
                                            issued_tick: now_tick,
                                        },
                                    )
                            } else {
                                // The id space is exhausted: a machine limit
                                // no process reaches.  The request is dropped.
                                &&& final(out)@ == old(out)@
                                &&& final(self).tracker_spec()@ == old(
                                    self,
                                ).tracker_spec()@.remove(id)
                            }
                        },
                    }
                }),
            forall|id: i64|
                old(self).tracker_spec()@.dom().contains(id) && (#[trigger] old(
                    self,
                ).tracker_spec()@[id]).entity != entity ==> final(self).tracker_spec()@.dom().contains(id) && final(self).tracker_spec()@[id] == old(
                    self,
                ).tracker_spec()@[id],
            forall|id: i64|
                #[trigger] final(self).tracker_spec()@.dom().contains(id) && (!old(
                    self,
                ).tracker_spec()@.dom().contains(id) || final(self).tracker_spec()@[id] != old(
                    self,
                ).tracker_spec()@[id]) ==> final(self).tracker_spec()@[id].entity == entity
                && final(self).tracker_spec()@[id].purpose == CommandPayload::TryChop,
            forall|i: int|
                old(out)@.len() <= i < final(out)@.len() ==> ({
                    ||| is_lumberjack_update(final(out)@[i], entity, Action::Idle)
                    ||| exists|h: i64|
                        is_lumberjack_update(
                            #[trigger] final(out)@[i],
                            entity,
                            Action::Returning { target: h },
                        )
                    ||| exists|nid: i64| is_chop_request(final(out)@[i], target, nid)
                }),
            forall|i: int|
                old(out)@.len() <= i < final(out)@.len()
                    ==> !crate::behaviors::trees::is_any_set_fire_request(
                    #[trigger] final(out)@[i],
                ),
    {
        let id = match self.tracker.lookup(entity, CommandPayload::TryChop) {
            Some(id) => id,
            None => {
                return ;
            },
        };
        proof {
            assert forall|idq: i64| #[trigger] unique_match(
                old(self).tracker_spec()@,
                entity,
                CommandPayload::TryChop,
                idq,
            ) implies idq == id by {
                assert(old(self).tracker_spec()@[id].entity == entity);
            }
        }
        match self.tracker.resolve(target, id, view, now_tick) {
            None => {},
            Some(Outcome::Success) => {
                match Self::nearest_hq(view, pos) {
                    Some((h, _)) => {
                        let op = OutgoingOp::ComponentUpdate {
                            entity,
                            value: UpdateValue::Lumberjack(
                                Lumberjack { action: Action::Returning { target: h } },
                            ),
                            loopback: true,
                        };
                        let ghost opg = op;
                        out.push(op);
                        proof {
                            assert(out@.last() == opg);
                            assert(is_lumberjack_update(
                                out@.last(),
                                entity,
                                Action::Returning { target: h },
                            ));
                        }
                    },
                    None => {},
                }
            },
            Some(Outcome::ApplicationError) => {
                let op = OutgoingOp::ComponentUpdate {
                    entity,
                    value: UpdateValue::Lumberjack(Lumberjack { action: Action::Idle }),
                    loopback: true,
                };
                let ghost opg = op;
                out.push(op);
                proof {
                    assert(out@.last() == opg);
                    assert(is_lumberjack_update(out@.last(), entity, Action::Idle));
                }
            },
            Some(Outcome::Timeout) => {
                if !self.tracker.has_capacity() {
                    return ;
                }
                let nid = self.tracker.issue(entity, CommandPayload::TryChop, now_tick);
                let op = OutgoingOp::CommandRequest {
                    entity: target,
                    request_id: Some(nid),
                    payload: CommandPayload::TryChop,
                };
                let ghost opg = op;
                out.push(op);
                proof {
                    assert(out@.last() == opg);
                    assert(is_chop_request(out@.last(), target, nid));
                }
            },
        }
    }

    /// Returning: walk one step toward the deposit target while far
    /// from it; on arrival, go idle and hand the load in with a
    /// fire-and-forget deposit request.  A target with no known
    /// position is stale: the tick is a no-op.
    pub fn do_return(
        &mut self,
        entity: i64,
        pos: Coordinates,
        target: i64,
        view: &ReplicatedView,
        out: &mut Vec<OutgoingOp>,
    )
        requires
            old(self).wf(),
            view.wf(),
            pos.in_bounds(),
        ensures
            final(self).wf(),
            final(self).tracker_spec() == old(self).tracker_spec(),
            old(out)@.is_prefix_of(final(out)@),
            ({
                let tp = data_of(view@, target).position;
                match tp {
                    None => final(out)@ == old(out)@,
                    Some(p) => {
                        if sq_dist(pos, p.coords) > DISTANCE_THRESHOLD_SQ as int {
                            &&& final(out)@.len() == old(out)@.len() + 1
                            &&& is_move_update(final(out)@.last(), entity, pos, p.coords)
                        } else {
                            &&& final(out)@.len() == old(out)@.len() + 2
                            &&& is_lumberjack_update(
                                final(out)@[final(out)@.len() - 2],
                                entity,
                                Action::Idle,
                            )
                            &&& is_deposit_request(final(out)@.last(), target)
                        }
                    },
                }
            }),
            forall|i: int|
                old(out)@.len() <= i < final(out)@.len()
                    ==> !crate::behaviors::trees::is_any_set_fire_request(
                    #[trigger] final(out)@[i],
                ),
    {
        let target_position = match view.get_position(target) {
            Some(p) => p,
            None => {
                return ;
            },
        };
        let d = squared_distance(&pos, &target_position.coords);
        if d > DISTANCE_THRESHOLD_SQ {
            proof {
                crate::utils::lemma_sq_dist_symmetric(pos, target_position.coords);
            }
            let stepped = move_to(&pos, &target_position.coords, MOVE_SPEED);
            out.push(
                OutgoingOp::ComponentUpdate {
                    entity,
                    value: UpdateValue::Position(Position { coords: stepped }),
                    loopback: true,
                },
            );
        } else {
            out.push(
                OutgoingOp::ComponentUpdate {
                    entity,
                    value: UpdateValue::Lumberjack(Lumberjack { action: Action::Idle }),
                    loopback: true,
                },
            );
            out.push(
                OutgoingOp::CommandRequest {
                    entity: target,
                    request_id: None,
                    payload: CommandPayload::Deposit,
                },
            );
        }
    }

    /// One tick: run the state machine of every harvester the view
    /// knows, in the view's enumeration order.  Every harvester's owed
    /// step appears in the appended output: an idle one with a
    /// candidate in range commits to some candidate; a fetching or
    /// returning one with a known target position walks, or acts on
    /// arrival; a waiting one whose uniquely tracked request was
    /// refused falls back to idle.  No hazard-set request is ever
    /// emitted here.
    pub fn tick(
        &mut self,
        view: &ReplicatedView,
        trees: &TrackTreesBehaviour,
        now_tick: u64,
        out: &mut Vec<OutgoingOp>,
    )
        requires
            old(self).wf(),
            view.wf(),
            trees.wf(),
        ensures
            final(self).wf(),
            final(self).tracker_spec().timeout_spec() == old(self).tracker_spec().timeout_spec(),
            old(out)@.is_prefix_of(final(out)@),
            forall|i: int|
                old(out)@.len() <= i < final(out)@.len()
                    ==> !crate::behaviors::trees::is_any_set_fire_request(
                    #[trigger] final(out)@[i],
                ),
            forall|e: i64|
                #[trigger] is_harvester(view@, e) && harvester_action(view@, e) == Action::Idle
                    && (exists|t: i64| idle_candidate(*trees, entity_coords(view@, e), t))
                    ==> fetch_committed(
                    final(out)@,
                    old(out)@.len() as int,
                    *trees,
                    entity_coords(view@, e),
                    e,
                ),
            forall|e: i64|
                #[trigger] is_harvester(view@, e) ==> (harvester_action(view@, e) matches
                Action::Fetching { target } ==> (match data_of(view@, target).position {
                    None => true,
                    Some(p) => {
                        if sq_dist(entity_coords(view@, e), p.coords)
                            > DISTANCE_THRESHOLD_SQ as int {
                            move_update_in(
                                final(out)@,
                                old(out)@.len() as int,
                                e,
                                entity_coords(view@, e),
                                p.coords,
                            )
                        } else {
                            (chop_request_in(final(out)@, old(out)@.len() as int, target)
                                && update_in(
                                final(out)@,
                                old(out)@.len() as int,
                                e,
                                Action::Waiting { target },
                            )) || final(self).tracker_spec().next_id_spec() == i64::MAX
                        }
                    },
                })),
            forall|e: i64|
                #[trigger] is_harvester(view@, e) ==> (harvester_action(view@, e) matches
                Action::Returning { target } ==> (match data_of(view@, target).position {
                    None => true,
                    Some(p) => {
                        if sq_dist(entity_coords(view@, e), p.coords)
                            > DISTANCE_THRESHOLD_SQ as int {
                            move_update_in(
                                final(out)@,
                                old(out)@.len() as int,
                                e,
                                entity_coords(view@, e),
                                p.coords,
                            )
                        } else {
                            update_in(final(out)@, old(out)@.len() as int, e, Action::Idle)
                                && deposit_request_in(
                                final(out)@,
                                old(out)@.len() as int,
                                target,
                            )
                        }
                    },
                })),
            forall|e: i64, target: i64, id: i64|
                #![trigger unique_match(old(self).tracker_spec()@, e, CommandPayload::TryChop, id),
                    harvester_action(view@, e), resolve_result(
                    old(self).tracker_spec()@,
                    target,
                    id,
                    response_for(view@, id),
                    now_tick,
                    old(self).tracker_spec().timeout_spec(),
                )]
                is_harvester(view@, e) && harvester_action(view@, e) == (Action::Waiting {
                    target,
                }) && unique_match(old(self).tracker_spec()@, e, CommandPayload::TryChop, id)
                    && resolve_result(
                    old(self).tracker_spec()@,
                    target,
                    id,
                    response_for(view@, id),
                    now_tick,
                    old(self).tracker_spec().timeout_spec(),
                ) == Some(Outcome::ApplicationError) ==> update_in(
                    final(out)@,
                    old(out)@.len() as int,
                    e,
                    Action::Idle,
                ),
    {
        let ghost base0 = out@.len() as int;
        let ghost t0 = old(self).tracker_spec()@;
        let ids = view.entity_ids();
        let n = ids.len();
        let mut i: usize = 0;
        while i < n
            invariant
                self.wf(),
                view.wf(),
                trees.wf(),
                i <= n,
                n == ids@.len(),
                ids@.no_duplicates(),
                forall|e2: i64| ids@.contains(e2) <==> view@.snap.entities.dom().contains(e2),
                self.tracker_spec().timeout_spec() == old(self).tracker_spec().timeout_spec(),
                t0 == old(self).tracker_spec()@,
                0 <= base0 <= out@.len(),
                base0 == old(out)@.len(),
                old(out)@.is_prefix_of(out@),
                forall|i2: int|
                    base0 <= i2 < out@.len()
                        ==> !crate::behaviors::trees::is_any_set_fire_request(
                        #[trigger] out@[i2],
                    ),
                forall|id: i64|
                    t0.dom().contains(id) && !ids@.subrange(0, i as int).contains(
                        (#[trigger] t0[id]).entity,
                    ) ==> self.tracker_spec()@.dom().contains(id) && self.tracker_spec()@[id]
                        == t0[id],
                forall|id: i64|
                    #[trigger] self.tracker_spec()@.dom().contains(id) && (!t0.dom().contains(id)
                        || self.tracker_spec()@[id] != t0[id]) ==> ids@.subrange(
                        0,
                        i as int,
                    ).contains(self.tracker_spec()@[id].entity),
                forall|j2: int|
                    0 <= j2 < i && is_harvester(view@, #[trigger] ids@[j2]) && harvester_action(
                        view@,
                        ids@[j2],
                    ) == Action::Idle && (exists|t: i64|
                        idle_candidate(*trees, entity_coords(view@, ids@[j2]), t))
                        ==> fetch_committed(
                        out@,
                        base0,
                        *trees,
                        entity_coords(view@, ids@[j2]),
                        ids@[j2],
                    ),
                forall|j2: int|
                    0 <= j2 < i && is_harvester(view@, #[trigger] ids@[j2])
                        ==> (harvester_action(view@, ids@[j2]) matches Action::Fetching {
                        target,
                    } ==> (match data_of(view@, target).position {
                        None => true,
                        Some(p) => {
                            if sq_dist(entity_coords(view@, ids@[j2]), p.coords)
                                > DISTANCE_THRESHOLD_SQ as int {
                                move_update_in(
                                    out@,
                                    base0,
                                    ids@[j2],
                                    entity_coords(view@, ids@[j2]),
                                    p.coords,
                                )
                            } else {
                                (chop_request_in(out@, base0, target) && update_in(
                                    out@,
                                    base0,
                                    ids@[j2],
                                    Action::Waiting { target },
                                )) || self.tracker_spec().next_id_spec() == i64::MAX
                            }
                        },
                    })),
                forall|j2: int|
                    0 <= j2 < i && is_harvester(view@, #[trigger] ids@[j2])
                        ==> (harvester_action(view@, ids@[j2]) matches Action::Returning {
                        target,
                    } ==> (match data_of(view@, target).position {
                        None => true,
                        Some(p) => {
                            if sq_dist(entity_coords(view@, ids@[j2]), p.coords)
                                > DISTANCE_THRESHOLD_SQ as int {
                                move_update_in(
                                    out@,
                                    base0,
                                    ids@[j2],
                                    entity_coords(view@, ids@[j2]),
                                    p.coords,
                                )
                            } else {
                                update_in(out@, base0, ids@[j2], Action::Idle)
                                    && deposit_request_in(out@, base0, target)
                            }
                        },
                    })),
                forall|j2: int, target: i64, id: i64|
                    #![trigger unique_match(t0, ids@.index(j2), CommandPayload::TryChop, id),
                        resolve_result(
                        t0,
                        target,
                        id,
                        response_for(view@, id),
                        now_tick,
                        old(self).tracker_spec().timeout_spec(),
                    )]
                    0 <= j2 < i && is_harvester(view@, ids@[j2]) && harvester_action(
                        view@,
                        ids@[j2],
                    ) == (Action::Waiting { target }) && unique_match(
                        t0,
                        ids@[j2],
                        CommandPayload::TryChop,
                        id,
                    ) && resolve_result(
                        t0,
                        target,
                        id,
                        response_for(view@, id),
                        now_tick,
                        old(self).tracker_spec().timeout_spec(),
                    ) == Some(Outcome::ApplicationError) ==> update_in(
                        out@,
                        base0,
                        ids@[j2],
                        Action::Idle,
                    ),
            decreases n - i,
        {
            let e = ids[i];
            proof {
                assert(ids@[i as int] == e);
                assert forall|j: int| 0 <= j < i implies ids@[j] != e by {}
            }
            let lj = view.get_lumberjack(e);
            let p = view.get_position(e);
            let ghost out_prev = out@;
            let ghost tr_prev = self.tracker_spec();
            match (lj, p) {
                (Some(l), Some(position)) => {
                    match l.action {
                        Action::Idle => {
                            self.do_idle(e, position.coords, trees, out);
                            proof {
                                assert(entity_coords(view@, e) == position.coords);
                                if exists|t: i64|
                                    idle_candidate(*trees, position.coords, t) {
                                    let t = choose|t: i64|
                                        #[trigger] idle_candidate(*trees, position.coords, t)
                                            && is_lumberjack_update(
                                            out@.last(),
                                            e,
                                            Action::Fetching { target: t },
                                        );
                                    assert(is_lumberjack_update(
                                        out@[out@.len() - 1],
                                        e,
                                        Action::Fetching { target: t },
                                    ));
                                    assert(fetch_committed(
                                        out@,
                                        base0,
                                        *trees,
                                        position.coords,
                                        e,
                                    ));
                                }
                            }
                        },
                        Action::Fetching { target } => {
                            self.do_fetch(e, position.coords, target, view, now_tick, out);
                            proof {
                                assert(entity_coords(view@, e) == position.coords);
                                match data_of(view@, target).position {
                                    Some(tp) => {
                                        if sq_dist(position.coords, tp.coords)
                                            > DISTANCE_THRESHOLD_SQ as int {
                                            assert(is_move_update(
                                                out@[out@.len() - 1],
                                                e,
                                                position.coords,
                                                tp.coords,
                                            ));
                                            assert(move_update_in(
                                                out@,
                                                base0,
                                                e,
                                                position.coords,
                                                tp.coords,
                                            ));
                                        } else if tr_prev.next_id_spec() < i64::MAX {
                                            let id = choose|id: i64|
                                                is_chop_request(
                                                    #[trigger] out@[out@.len() - 2],
                                                    target,
                                                    id,
                                                ) && !tr_prev@.dom().contains(id)
                                                    && self.tracker_spec()@ == tr_prev@.insert(
                                                    id,
                                                    InFlight {
                                                        entity: e,
                                                        purpose: CommandPayload::TryChop,
                                                        issued_tick: now_tick,
                                                    },
                                                );
                                            assert(chop_request_in(out@, base0, target));
                                            assert(is_lumberjack_update(
                                                out@[out@.len() - 1],
                                                e,
                                                Action::Waiting { target },
                                            ));
                                            assert(update_in(
                                                out@,
                                                base0,
                                                e,
                                                Action::Waiting { target },
                                            ));
                                        } else {
                                            tr_prev.lemma_next_id_range();
                                            assert(self.tracker_spec().next_id_spec()
                                                == i64::MAX);
                                        }
                                    },
                                    None => {},
                                }
                            }
                        },
                        Action::Waiting { target } => {
                            proof {
                                assert forall|idq: i64|
                                    unique_match(t0, e, CommandPayload::TryChop, idq)
                                        && resolve_result(
                                        t0,
                                        target,
                                        idq,
                                        response_for(view@, idq),
                                        now_tick,
                                        old(self).tracker_spec().timeout_spec(),
                                    ) == Some(
                                    Outcome::ApplicationError,
                                ) implies #[trigger] unique_match(
                                    tr_prev@,
                                    e,
                                    CommandPayload::TryChop,
                                    idq,
                                ) && resolve_result(
                                    tr_prev@,
                                    target,
                                    idq,
                                    response_for(view@, idq),
                                    now_tick,
                                    tr_prev.timeout_spec(),
                                ) == Some(Outcome::ApplicationError) by {
                                    assert(!ids@.subrange(0, i as int).contains(e));
                                    assert(tr_prev@.dom().contains(idq) && tr_prev@[idq]
                                        == t0[idq]);
                                    assert forall|id2: i64|
                                        tr_prev@.dom().contains(id2)
                                            && (#[trigger] tr_prev@[id2]).entity == e
                                            && tr_prev@[id2].purpose
                                            == CommandPayload::TryChop implies id2 == idq by {
                                        if !t0.dom().contains(id2) || tr_prev@[id2] != t0[id2] {
                                            assert(ids@.subrange(0, i as int).contains(
                                                tr_prev@[id2].entity,
                                            ));
                                            let jx = choose|jx: int|
                                                0 <= jx < i && ids@.subrange(0, i as int)[jx]
                                                    == tr_prev@[id2].entity;
                                            assert(ids@[jx] == e);
                                            assert(false);
                                        } else {
                                            assert(t0[id2].entity == e && t0[id2].purpose
                                                == CommandPayload::TryChop);
                                        }
                                    }
                                }
                            }
                            self.do_wait(e, position.coords, target, view, now_tick, out);
                            proof {
                                assert forall|idq: i64|
                                    #[trigger] unique_match(t0, e, CommandPayload::TryChop, idq)
                                        && resolve_result(
                                        t0,
                                        target,
                                        idq,
                                        response_for(view@, idq),
                                        now_tick,
                                        old(self).tracker_spec().timeout_spec(),
                                    ) == Some(Outcome::ApplicationError) implies update_in(
                                    out@,
                                    base0,
                                    e,
                                    Action::Idle,
                                ) by {
                                    assert(unique_match(
                                        tr_prev@,
                                        e,
                                        CommandPayload::TryChop,
                                        idq,
                                    ));
                                    assert(resolve_result(
                                        tr_prev@,
                                        target,
                                        idq,
                                        response_for(view@, idq),
                                        now_tick,
                                        tr_prev.timeout_spec(),
                                    ) == Some(Outcome::ApplicationError));
                                    assert(is_lumberjack_update(
                                        out@[out@.len() - 1],
                                        e,
                                        Action::Idle,
                                    ));
                                    assert(update_in(out@, base0, e, Action::Idle));
                                }
                            }
                        },
                        Action::Returning { target } => {
                            self.do_return(e, position.coords, target, view, out);
                            proof {
                                assert(entity_coords(view@, e) == position.coords);
                                match data_of(view@, target).position {
                                    Some(tp) => {
                                        if sq_dist(position.coords, tp.coords)
                                            > DISTANCE_THRESHOLD_SQ as int {
                                            assert(is_move_update(
                                                out@[out@.len() - 1],
                                                e,
                                                position.coords,
                                                tp.coords,
                                            ));
                                            assert(move_update_in(
                                                out@,
                                                base0,
                                                e,
                                                position.coords,
                                                tp.coords,
                                            ));
                                        } else {
                                            assert(is_lumberjack_update(
                                                out@[out@.len() - 2],
                                                e,
                                                Action::Idle,
                                            ));
                                            assert(update_in(out@, base0, e, Action::Idle));
                                            assert(is_deposit_request(
                                                out@[out@.len() - 1],
                                                target,
                                            ));
                                            assert(deposit_request_in(out@, base0, target));
                                        }
                                    },
                                    None => {},
                                }
                            }
                        },
                    }
                },
                _ => {},
            }
            proof {
                crate::data::lemma_seq_prefix_trans(old(out)@, out_prev, out@);
                assert forall|i2: int|
                    base0 <= i2 < out@.len()
                        implies !crate::behaviors::trees::is_any_set_fire_request(
                    #[trigger] out@[i2],
                ) by {
                    if i2 < out_prev.len() {
                        crate::data::lemma_seq_prefix_index(out_prev, out@, i2);
                    }
                }
                // the subrange one entity longer excludes no fewer entities
                assert forall|x: i64|
                    !ids@.subrange(0, i + 1 as int).contains(x) implies !ids@.subrange(
                    0,
                    i as int,
                ).contains(x) by {
                    if ids@.subrange(0, i as int).contains(x) {
                        let j = choose|j: int|
                            0 <= j < i && ids@.subrange(0, i as int)[j] == x;
                        assert(ids@.subrange(0, i + 1 as int)[j] == x);
                    }
                }
                assert(ids@.subrange(0, i + 1 as int)[i as int] == e);
                assert(ids@.subrange(0, i + 1 as int).contains(e));
                // entries of still-unprocessed harvesters stay untouched
                assert forall|id: i64|
                    t0.dom().contains(id) && !ids@.subrange(0, i + 1 as int).contains(
                        (#[trigger] t0[id]).entity,
                    ) implies self.tracker_spec()@.dom().contains(id) && self.tracker_spec()@[id]
                    == t0[id] by {
                    assert(tr_prev@.dom().contains(id) && tr_prev@[id] == t0[id]);
                    assert(t0[id].entity != e);
                }
                // changed entries belong to processed harvesters
                assert forall|id: i64|
                    #[trigger] self.tracker_spec()@.dom().contains(id) && (!t0.dom().contains(id)
                        || self.tracker_spec()@[id] != t0[id]) implies ids@.subrange(
                    0,
                    i + 1 as int,
                ).contains(self.tracker_spec()@[id].entity) by {
                    if tr_prev@.dom().contains(id) && self.tracker_spec()@[id] == tr_prev@[id] {
                        if !t0.dom().contains(id) || tr_prev@[id] != t0[id] {
                            assert(ids@.subrange(0, i as int).contains(tr_prev@[id].entity));
                            let j = choose|j: int|
                                0 <= j < i && ids@.subrange(0, i as int)[j]
                                    == tr_prev@[id].entity;
                            assert(ids@.subrange(0, i + 1 as int)[j] == tr_prev@[id].entity);
                        }
                    } else {
                        assert(self.tracker_spec()@[id].entity == e);
                    }
                }
                self.tracker_spec().lemma_next_id_range();
                tr_prev.lemma_next_id_range();
                // owed effects of earlier harvesters survive this append
                assert forall|j2: int|
                    0 <= j2 < i + 1 && is_harvester(view@, #[trigger] ids@[j2]) implies ({
                    let e2 = ids@[j2];
                    let pos2 = entity_coords(view@, e2);
                    &&& (harvester_action(view@, e2) == Action::Idle && (exists|t: i64|
                        idle_candidate(*trees, pos2, t)) ==> fetch_committed(
                        out@,
                        base0,
                        *trees,
                        pos2,
                        e2,
                    ))
                    &&& (harvester_action(view@, e2) matches Action::Fetching { target }
                        ==> (match data_of(view@, target).position {
                        None => true,
                        Some(p2) => {
                            if sq_dist(pos2, p2.coords) > DISTANCE_THRESHOLD_SQ as int {
                                move_update_in(out@, base0, e2, pos2, p2.coords)
                            } else {
                                (chop_request_in(out@, base0, target) && update_in(
                                    out@,
                                    base0,
                                    e2,
                                    Action::Waiting { target },
                                )) || self.tracker_spec().next_id_spec() == i64::MAX
                            }
                        },
                    }))
                    &&& (harvester_action(view@, e2) matches Action::Returning { target }
                        ==> (match data_of(view@, target).position {
                        None => true,
                        Some(p2) => {
                            if sq_dist(pos2, p2.coords) > DISTANCE_THRESHOLD_SQ as int {
                                move_update_in(out@, base0, e2, pos2, p2.coords)
                            } else {
                                update_in(out@, base0, e2, Action::Idle) && deposit_request_in(
                                    out@,
                                    base0,
                                    target,
                                )
                            }
                        },
                    }))
                }) by {
                    let e2 = ids@[j2];
                    let pos2 = entity_coords(view@, e2);
                    if j2 < i {
                        match harvester_action(view@, e2) {
                            Action::Idle => {
                                lemma_owed_survive(
                                    out_prev,
                                    out@,
                                    base0,
                                    *trees,
                                    pos2,
                                    e2,
                                    Action::Idle,
                                    pos2,
                                    pos2,
                                    0,
                                );
                            },
                            Action::Fetching { target } => {
                                match data_of(view@, target).position {
                                    Some(p2) => {
                                        lemma_owed_survive(
                                            out_prev,
                                            out@,
                                            base0,
                                            *trees,
                                            pos2,
                                            e2,
                                            Action::Waiting { target },
                                            pos2,
                                            p2.coords,
                                            target,
                                        );
                                    },
                                    None => {},
                                }
                            },
                            Action::Waiting { target } => {},
                            Action::Returning { target } => {
                                match data_of(view@, target).position {
                                    Some(p2) => {
                                        lemma_owed_survive(
                                            out_prev,
                                            out@,
                                            base0,
                                            *trees,
                                            pos2,
                                            e2,
                                            Action::Idle,
                                            pos2,
                                            p2.coords,
                                            target,
                                        );
                                    },
                                    None => {},
                                }
                            },
                        }
                    }
                }
                // waiting harvesters already settled keep their idle update
                assert forall|j2: int, target: i64, id: i64|
                    #![trigger unique_match(t0, ids@.index(j2), CommandPayload::TryChop, id),
                        resolve_result(
                        t0,
                        target,
                        id,
                        response_for(view@, id),
                        now_tick,
                        old(self).tracker_spec().timeout_spec(),
                    )]
                    0 <= j2 < i + 1 && is_harvester(view@, ids@[j2]) && harvester_action(
                        view@,
                        ids@[j2],
                    ) == (Action::Waiting { target }) && unique_match(
                        t0,
                        ids@[j2],
                        CommandPayload::TryChop,
                        id,
                    ) && resolve_result(
                        t0,
                        target,
                        id,
                        response_for(view@, id),
                        now_tick,
                        old(self).tracker_spec().timeout_spec(),
                    ) == Some(Outcome::ApplicationError) implies update_in(
                    out@,
                    base0,
                    ids@[j2],
                    Action::Idle,
                ) by {
                    let e2 = ids@[j2];
                    if j2 < i {
                        lemma_owed_survive(
                            out_prev,
                            out@,
                            base0,
                            *trees,
                            entity_coords(view@, e2),
                            e2,
                            Action::Idle,
                            entity_coords(view@, e2),
                            entity_coords(view@, e2),
                            0,
                        );
                    } else {
                        assert(e2 == e);
                    }
                }
            }
            i = i + 1;
        }
        proof {
            assert forall|e: i64|
                #[trigger] is_harvester(view@, e) implies ids@.contains(e) by {
                assert(view@.snap.entities.dom().contains(e));
            }
            assert forall|e: i64, target: i64, id: i64|
                is_harvester(view@, e) && harvester_action(view@, e) == (Action::Waiting {
                    target,
                }) && #[trigger] unique_match(t0, e, CommandPayload::TryChop, id)
                    && #[trigger] resolve_result(
                    t0,
                    target,
                    id,
                    response_for(view@, id),
                    now_tick,
                    old(self).tracker_spec().timeout_spec(),
                ) == Some(Outcome::ApplicationError) implies update_in(
                out@,
                base0,
                e,
                Action::Idle,
            ) by {
                assert(ids@.contains(e));
                let j2 = choose|j2: int| 0 <= j2 < ids@.len() && ids@[j2] == e;
                assert(unique_match(t0, ids@[j2], CommandPayload::TryChop, id));
            }
            assert forall|e: i64|
                #[trigger] is_harvester(view@, e) implies ({
                let pos2 = entity_coords(view@, e);
                &&& (harvester_action(view@, e) == Action::Idle && (exists|t: i64|
                    idle_candidate(*trees, pos2, t)) ==> fetch_committed(
                    out@,
                    base0,
                    *trees,
                    pos2,
                    e,
                ))
            }) by {
                let j2 = choose|j2: int| 0 <= j2 < ids@.len() && ids@[j2] == e;
            }
            assert forall|e: i64|
                #[trigger] is_harvester(view@, e) implies ({
                &&& (harvester_action(view@, e) matches Action::Fetching { target }
                    ==> (match data_of(view@, target).position {
                    None => true,
                    Some(p2) => {
                        if sq_dist(entity_coords(view@, e), p2.coords)
                            > DISTANCE_THRESHOLD_SQ as int {
                            move_update_in(out@, base0, e, entity_coords(view@, e), p2.coords)
                        } else {
                            (chop_request_in(out@, base0, target) && update_in(
                                out@,
                                base0,
                                e,
                                Action::Waiting { target },
                            )) || self.tracker_spec().next_id_spec() == i64::MAX
                        }
                    },
                }))
                &&& (harvester_action(view@, e) matches Action::Returning { target }
                    ==> (match data_of(view@, target).position {
                    None => true,
                    Some(p2) => {
                        if sq_dist(entity_coords(view@, e), p2.coords)
                            > DISTANCE_THRESHOLD_SQ as int {
                            move_update_in(out@, base0, e, entity_coords(view@, e), p2.coords)
                        } else {
                            update_in(out@, base0, e, Action::Idle) && deposit_request_in(
                                out@,
                                base0,
                                target,
                            )
                        }
                    },
                }))
            }) by {
                let j2 = choose|j2: int| 0 <= j2 < ids@.len() && ids@[j2] == e;
            }
        }
    }
}

} // verus!
