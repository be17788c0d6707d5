//! The caster behaviour.
//!
//! Each caster runs a three-state machine: `Idle` picks a random
//! target from a faction-dependent partition, widening its search
//! radius over up to four attempts; `Moving` walks toward the target;
//! `Spell` fires a faction-dependent remote effect at it and goes
//! straight back to idle.

use vstd::prelude::*;
use crate::behaviors::trees::TrackTreesBehaviour;
use crate::data::{CommandPayload, OutgoingOp, UpdateValue, Wizard, WizardAction, WizardFaction};
use crate::data::Position;
use crate::rng::{choose_index, fresh_rng};
use crate::spatial::Partition;
use crate::utils::{Coordinates, coords_in_bounds, move_to, sq_dist, step_delta, step_mag,
    squared_distance};
use crate::view::{ReplicatedView, ViewModel, data_of};

verus! {

/// Base search radius of an idle caster, in milli-units; attempt `a`
/// searches within `a` times this radius.
pub const SEARCH_RADIUS: i64 = 150_000;

/// How far a caster walks per tick, in milli-units.
pub const WIZARD_MOVE_SPEED: i64 = 50;

/// Squared-distance threshold that counts as "arrived".
pub const WIZARD_DISTANCE_THRESHOLD_SQ: i128 = 3_000_000;

/// The partition a faction hunts in: the good side clears hazards off
/// unavailable nodes, the evil side sets them on available ones.
pub open spec fn faction_partition(faction: WizardFaction) -> Partition {
    match faction {
        WizardFaction::Good => Partition::Inactive,
        WizardFaction::Evil => Partition::Active,
    }
}

/// A caster state update sent for the entity.
pub open spec fn is_wizard_update(op: OutgoingOp, entity: i64, action: WizardAction) -> bool {
    op matches OutgoingOp::ComponentUpdate {
        entity: e,
        value: UpdateValue::Wizard(w),
        loopback,
    } && e == entity && w.action == action && loopback
}

/// A position update moving the entity one step from `from` toward `to`.
pub open spec fn is_wizard_move_update(
    op: OutgoingOp,
    entity: i64,
    from: Coordinates,
    to: Coordinates,
) -> bool {
    op matches OutgoingOp::ComponentUpdate {
        entity: e,
        value: UpdateValue::Position(p),
        loopback,
    } && e == entity && loopback && p.coords.x == from.x + step_delta(
        to.x - from.x,
        WIZARD_MOVE_SPEED as int,
        step_mag(from, to),
    ) && p.coords.y == from.y + step_delta(
        to.y - from.y,
        WIZARD_MOVE_SPEED as int,
        step_mag(from, to),
    ) && p.coords.z == from.z + step_delta(
        to.z - from.z,
        WIZARD_MOVE_SPEED as int,
        step_mag(from, to),
    )
}

/// The faction-dependent remote effect request: hazard-set for the
/// evil side, hazard-clear for the good side, fire-and-forget.
pub open spec fn is_spell_request(op: OutgoingOp, faction: WizardFaction, target: i64) -> bool {
    match faction {
        WizardFaction::Evil => op matches OutgoingOp::CommandRequest {
            entity: e,
            request_id: None,
            payload: CommandPayload::SetOnFire,
        } && e == target,
        WizardFaction::Good => op matches OutgoingOp::CommandRequest {
            entity: e,
            request_id: None,
            payload: CommandPayload::ClearFire,
        } && e == target,
    }
}

/// A node the faction may target within the given radius of `pos`.
pub open spec fn wizard_candidate(
    trees: TrackTreesBehaviour,
    faction: WizardFaction,
    pos: Coordinates,
    radius: int,
    t: i64,
) -> bool {
    &&& trees.index_spec().part(faction_partition(faction)).dom().contains(t)
    &&& sq_dist(trees.index_spec().part(faction_partition(faction))[t], pos) < radius * radius
}

/// Whether the view knows this entity as a caster: it carries the
/// caster component and a position.
pub open spec fn is_caster(m: ViewModel, e: i64) -> bool {
    &&& m.snap.entities.dom().contains(e)
    &&& data_of(m, e).wizard is Some
    &&& data_of(m, e).position is Some
}

/// The state of a caster in the view (idle when it carries no caster
/// component).
pub open spec fn caster_action(m: ViewModel, e: i64) -> WizardAction {
    match data_of(m, e).wizard {
        Some(w) => w.action,
        None => WizardAction::Idle,
    }
}

/// The faction of a caster in the view.
pub open spec fn caster_faction(m: ViewModel, e: i64) -> WizardFaction {
    match data_of(m, e).wizard {
        Some(w) => w.faction,
        None => WizardFaction::Good,
    }
}

/// The position of an entity; meaningful only when it has one.
pub open spec fn caster_coords(m: ViewModel, e: i64) -> Coordinates {
    match data_of(m, e).position {
        Some(p) => p.coords,
        None => Coordinates { x: 0, y: 0, z: 0 },
    }
}

/// A caster state update for the entity somewhere in `s[base..]`.
pub open spec fn wizard_update_in(s: Seq<OutgoingOp>, base: int, e: i64, a: WizardAction) -> bool {
    exists|j: int| base <= j < s.len() && is_wizard_update(#[trigger] s[j], e, a)
}

/// The faction's remote effect request addressed to `target`,
/// somewhere in `s[base..]`.
pub open spec fn spell_request_in(
    s: Seq<OutgoingOp>,
    base: int,
    faction: WizardFaction,
    target: i64,
) -> bool {
    exists|j: int| base <= j < s.len() && is_spell_request(#[trigger] s[j], faction, target)
}

/// A movement step from `from` toward `to` for the entity, somewhere
/// in `s[base..]`.
pub open spec fn wizard_move_in(
    s: Seq<OutgoingOp>,
    base: int,
    e: i64,
    from: Coordinates,
    to: Coordinates,
) -> bool {
    exists|j: int| base <= j < s.len() && is_wizard_move_update(#[trigger] s[j], e, from, to)
}

/// A commitment to move on some found candidate with a known
/// position, somewhere in `s[base..]`.
pub open spec fn moving_committed(
    s: Seq<OutgoingOp>,
    base: int,
    trees: TrackTreesBehaviour,
    faction: WizardFaction,
    pos: Coordinates,
    m: ViewModel,
    e: i64,
) -> bool {
    exists|j: int, a: int, t: i64|
        #![trigger wizard_candidate(trees, faction, pos, a * SEARCH_RADIUS as int, t), s.index(j)]
        base <= j < s.len() && 1 <= a <= 4 && wizard_candidate(
            trees,
            faction,
            pos,
            a * SEARCH_RADIUS as int,
            t,
        ) && no_candidate_below(trees, faction, pos, a) && (data_of(m, t).position matches Some(
            p,
        ) && is_wizard_update(s[j], e, WizardAction::Moving { target: t, target_pos: p.coords }))
}

/// No candidate exists at any attempt below `a`: the widening search
/// stops at the first non-empty ring, so a commitment at attempt `a`
/// means every narrower ring came up empty.
pub open spec fn no_candidate_below(
    trees: TrackTreesBehaviour,
    faction: WizardFaction,
    pos: Coordinates,
    a: int,
) -> bool {
    forall|a2: int, t: i64|
        1 <= a2 < a ==> !(#[trigger] wizard_candidate(
            trees,
            faction,
            pos,
            a2 * SEARCH_RADIUS as int,
            t,
        ))
}

/// A commitment found above one base also stands above any smaller
/// base.
pub(crate) proof fn lemma_moving_committed_widen(
    s: Seq<OutgoingOp>,
    b1: int,
    b0: int,
    trees: TrackTreesBehaviour,
    faction: WizardFaction,
    pos: Coordinates,
    m: ViewModel,
    e: i64,
)
    requires
        0 <= b0 <= b1,
        moving_committed(s, b1, trees, faction, pos, m, e),
    ensures
        moving_committed(s, b0, trees, faction, pos, m, e),
{
    let (j, a, t) = choose|j: int, a: int, t: i64|
        #![trigger wizard_candidate(trees, faction, pos, a * SEARCH_RADIUS as int, t), s.index(j)]
        b1 <= j < s.len() && 1 <= a <= 4 && wizard_candidate(
            trees,
            faction,
            pos,
            a * SEARCH_RADIUS as int,
            t,
        ) && no_candidate_below(trees, faction, pos, a) && (data_of(m, t).position matches Some(
            p,
        ) && is_wizard_update(s[j], e, WizardAction::Moving { target: t, target_pos: p.coords }));
    assert(b0 <= j < s.len());
}

/// A candidate found at any attempt is a candidate at the widest
/// attempt: the search radii are nested.
proof fn lemma_radius_nested(
    trees: TrackTreesBehaviour,
    faction: WizardFaction,
    pos: Coordinates,
    a: int,
    t: i64,
)
    requires
        1 <= a <= 4,
        wizard_candidate(trees, faction, pos, a * SEARCH_RADIUS as int, t),
    ensures
        wizard_candidate(trees, faction, pos, 4 * SEARCH_RADIUS as int, t),
{
    assert((a * SEARCH_RADIUS as int) * (a * SEARCH_RADIUS as int) <= (4 * SEARCH_RADIUS as int)
        * (4 * SEARCH_RADIUS as int)) by (nonlinear_arith)
        requires
            1 <= a <= 4,
    ;
}

/// Owed effects already in the emitted region survive when the
/// output only grows.
pub(crate) proof fn lemma_caster_owed_survive(
    pre: Seq<OutgoingOp>,
    post: Seq<OutgoingOp>,
    base: int,
    trees: TrackTreesBehaviour,
    faction: WizardFaction,
    pos: Coordinates,
    m: ViewModel,
    e: i64,
    a: WizardAction,
    from: Coordinates,
    to: Coordinates,
    target: i64,
)
    requires
        pre.is_prefix_of(post),
        0 <= base,
    ensures
        wizard_update_in(pre, base, e, a) ==> wizard_update_in(post, base, e, a),
        spell_request_in(pre, base, faction, target) ==> spell_request_in(
            post,
            base,
            faction,
            target,
        ),
        wizard_move_in(pre, base, e, from, to) ==> wizard_move_in(post, base, e, from, to),
        moving_committed(pre, base, trees, faction, pos, m, e) ==> moving_committed(
            post,
            base,
            trees,
            faction,
            pos,
            m,
            e,
        ),
{
    if wizard_update_in(pre, base, e, a) {
        let j = choose|j: int| base <= j < pre.len() && is_wizard_update(#[trigger] pre[j], e, a);
        crate::data::lemma_seq_prefix_index(pre, post, j);
        assert(is_wizard_update(post[j], e, a));
    }
    if spell_request_in(pre, base, faction, target) {
        let j = choose|j: int|
            base <= j < pre.len() && is_spell_request(#[trigger] pre[j], faction, target);
        crate::data::lemma_seq_prefix_index(pre, post, j);
        assert(is_spell_request(post[j], faction, target));
    }
    if wizard_move_in(pre, base, e, from, to) {
        let j = choose|j: int|
            base <= j < pre.len() && is_wizard_move_update(#[trigger] pre[j], e, from, to);
        crate::data::lemma_seq_prefix_index(pre, post, j);
        assert(is_wizard_move_update(post[j], e, from, to));
    }
    if moving_committed(pre, base, trees, faction, pos, m, e) {
        let (j, a2, t) = choose|j: int, a2: int, t: i64|
            #![trigger wizard_candidate(trees, faction, pos, a2 * SEARCH_RADIUS as int, t), pre.index(j)]
            base <= j < pre.len() && 1 <= a2 <= 4 && wizard_candidate(
                trees,
                faction,
                pos,
                a2 * SEARCH_RADIUS as int,
                t,
            ) && no_candidate_below(trees, faction, pos, a2) && (data_of(m, t).position matches
            Some(p) && is_wizard_update(
                pre[j],
                e,
                WizardAction::Moving { target: t, target_pos: p.coords },
            ));
        crate::data::lemma_seq_prefix_index(pre, post, j);
        assert(moving_committed(post, base, trees, faction, pos, m, e));
    }
}

/// The caster behaviour of the client worker.
pub struct WizardBehavior {
    rng: rand::rngs::ThreadRng,
}

impl WizardBehavior {
    /// A caster behaviour.
    pub fn new() -> (r: WizardBehavior)
        ensures
            true,
    {
        WizardBehavior { rng: fresh_rng() }
    }

    /// The nodes the faction may target within `radius` of `coords`.
    pub fn find_targets(
        faction: WizardFaction,
        coords: &Coordinates,
        radius: i64,
        trees: &TrackTreesBehaviour,
    ) -> (r: Vec<i64>)
        requires
            trees.wf(),
            coords.in_bounds(),
            0 <= radius,
        ensures
            r@.no_duplicates(),
            forall|t: i64|
                r@.contains(t) <==> wizard_candidate(*trees, faction, *coords, radius as int, t),
    {
        match faction {
            WizardFaction::Good => trees.within_inactive(*coords, radius),
            WizardFaction::Evil => trees.within(*coords, radius),
        }
    }

    /// Idle: search a faction-dependent partition within an expanding
    /// radius, up to four widening attempts; head for a random find,
    /// or stay idle when every attempt comes up empty.
    pub fn do_idle(
        &mut self,
        entity: i64,
        pos: Coordinates,
        faction: WizardFaction,
        view: &ReplicatedView,
        trees: &TrackTreesBehaviour,
        out: &mut Vec<OutgoingOp>,
    )
        requires
            view.wf(),
            trees.wf(),
            pos.in_bounds(),
        ensures
            old(out)@.is_prefix_of(final(out)@),
            final(out)@.len() <= old(out)@.len() + 1,
            (forall|a: int, t: i64|
                1 <= a <= 4 ==> !(#[trigger] wizard_candidate(
                    *trees,
                    faction,
                    pos,
                    a * SEARCH_RADIUS as int,
                    t,
                ))) ==> final(out)@ == old(out)@,
            forall|i: int|
                old(out)@.len() <= i < final(out)@.len() ==> (exists|a: int, t: i64|
                    {
                        &&& 1 <= a <= 4
                        &&& #[trigger] wizard_candidate(
                            *trees,
                            faction,
                            pos,
                            a * SEARCH_RADIUS as int,
                            t,
                        )
                        &&& no_candidate_below(*trees, faction, pos, a)
                        &&& data_of(view@, t).position matches Some(p)
                        &&& is_wizard_update(
                            #[trigger] final(out)@[i],
                            entity,
                            WizardAction::Moving { target: t, target_pos: p.coords },
                        )
                    }),
            // Success is owed where nothing outside decides against it:
            // some candidate in range and every candidate in the widest
            // range still has a known position.
            (exists|a: int, t: i64|
                1 <= a <= 4 && #[trigger] wizard_candidate(
                    *trees,
                    faction,
                    pos,
                    a * SEARCH_RADIUS as int,
                    t,
                )) && (forall|t: i64|
                #[trigger] wizard_candidate(*trees, faction, pos, 4 * SEARCH_RADIUS as int, t)
                    ==> data_of(view@, t).position is Some) ==> final(out)@.len() == old(
                out,
            )@.len() + 1,
    {
        let mut attempt: i64 = 1;
        while attempt < 5
            invariant
                view.wf(),
                trees.wf(),
                pos.in_bounds(),
                1 <= attempt <= 5,
                out@ == old(out)@,
                forall|a: int, t: i64|
                    1 <= a < attempt ==> !(#[trigger] wizard_candidate(
                        *trees,
                        faction,
                        pos,
                        a * SEARCH_RADIUS as int,
                        t,
                    )),
            decreases 5 - attempt,
        {
            let radius: i64 = SEARCH_RADIUS * attempt;
            let targets = Self::find_targets(faction, &pos, radius, trees);
            if targets.len() > 0 {
                let idx = choose_index(&mut self.rng, targets.len());
                let t = targets[idx];
                proof {
                    assert(targets@.contains(t));
                    assert(wizard_candidate(*trees, faction, pos, attempt * SEARCH_RADIUS as int, t));
                    assert(no_candidate_below(*trees, faction, pos, attempt as int));
                }
                match view.get_position(t) {
                    Some(tp) => {
                        let op = OutgoingOp::ComponentUpdate {
                            entity,
                            value: UpdateValue::Wizard(
                                Wizard {
                                    faction,
                                    action: WizardAction::Moving {
                                        target: t,
                                        target_pos: tp.coords,
                                    },
                                },
                            ),
                            loopback: true,
                        };
                        let ghost opg = op;
                        out.push(op);
                        proof {
                            assert(out@.last() == opg);
                            assert(is_wizard_update(
                                out@.last(),
                                entity,
                                WizardAction::Moving { target: t, target_pos: tp.coords },
                            ));
                        }
                        return ;
                    },
                    None => {
                        // The pick is stale: the index knows the node but the
                        // view no longer has its position.  Recoverable no-op;
                        // the caster retries next tick.
                        proof {
                            lemma_radius_nested(
                                *trees,
                                faction,
                                pos,
                                attempt as int,
                                t,
                            );
                        }
                        return ;
                    },
                }
            } else {
                proof {
                    assert forall|t: i64| !(#[trigger] wizard_candidate(
                        *trees,
                        faction,
                        pos,
                        attempt * SEARCH_RADIUS as int,
                        t,
                    )) by {
                        assert(!targets@.contains(t));
                    }
                }
            }
            attempt = attempt + 1;
        }
        proof {
            if exists|a: int, t: i64|
                1 <= a <= 4 && #[trigger] wizard_candidate(
                    *trees,
                    faction,
                    pos,
                    a * SEARCH_RADIUS as int,
                    t,
                ) {
                let (a, t) = choose|a: int, t: i64|
                    1 <= a <= 4 && #[trigger] wizard_candidate(
                        *trees,
                        faction,
                        pos,
                        a * SEARCH_RADIUS as int,
                        t,
                    );
                assert(false);
            }
        }
    }

    /// Moving: walk one step toward the recorded target position while
    /// far from it; on arrival, switch to casting.  A recorded target
    /// position outside the world bound is malformed state and the
    /// tick is a no-op.
    pub fn do_move(
        &mut self,
        entity: i64,
        pos: Coordinates,
        faction: WizardFaction,
        target: i64,
        target_pos: Coordinates,
        out: &mut Vec<OutgoingOp>,
    )
        requires
            pos.in_bounds(),
        ensures
            old(out)@.is_prefix_of(final(out)@),
            ({
                if !target_pos.in_bounds() {
                    final(out)@ == old(out)@
                } else if sq_dist(pos, target_pos) > WIZARD_DISTANCE_THRESHOLD_SQ as int {
                    &&& final(out)@.len() == old(out)@.len() + 1
                    &&& is_wizard_move_update(final(out)@.last(), entity, pos, target_pos)
                } else {
                    &&& final(out)@.len() == old(out)@.len() + 1
                    &&& is_wizard_update(
                        final(out)@.last(),
                        entity,
                        WizardAction::Spell { target, target_pos },
                    )
                }
            }),
    {
        if !coords_in_bounds(&target_pos) {
            return ;
        }
        let d = squared_distance(&pos, &target_pos);
        if d > WIZARD_DISTANCE_THRESHOLD_SQ {
            proof {
                crate::utils::lemma_sq_dist_symmetric(pos, target_pos);
            }
            let stepped = move_to(&pos, &target_pos, WIZARD_MOVE_SPEED);
            out.push(
                OutgoingOp::ComponentUpdate {
                    entity,
                    value: UpdateValue::Position(Position { coords: stepped }),
                    loopback: true,
                },
            );
        } else {
            out.push(
                OutgoingOp::ComponentUpdate {
                    entity,
                    value: UpdateValue::Wizard(
                        Wizard { faction, action: WizardAction::Spell { target, target_pos } },
                    ),
                    loopback: true,
                },
            );
        }
    }

    /// Spell: fire the faction-dependent effect at the target and go
    /// straight back to idle (fire-and-forget; no waiting state).
    pub fn do_spell(
        &mut self,
        entity: i64,
        faction: WizardFaction,
        target: i64,
        out: &mut Vec<OutgoingOp>,
    )
        ensures
            old(out)@.is_prefix_of(final(out)@),
            final(out)@.len() == old(out)@.len() + 2,
            is_spell_request(final(out)@[final(out)@.len() - 2], faction, target),
            is_wizard_update(final(out)@.last(), entity, WizardAction::Idle),
    {
        match faction {
            WizardFaction::Good => {
                out.push(
                    OutgoingOp::CommandRequest {
                        entity: target,
                        request_id: None,
                        payload: CommandPayload::ClearFire,
                    },
                );
            },
            WizardFaction::Evil => {
                out.push(
                    OutgoingOp::CommandRequest {
                        entity: target,
                        request_id: None,
                        payload: CommandPayload::SetOnFire,
                    },
                );
            },
        }
        out.push(
            OutgoingOp::ComponentUpdate {
                entity,
                value: UpdateValue::Wizard(Wizard { faction, action: WizardAction::Idle }),
                loopback: true,
            },
        );
    }

    /// One tick: run the state machine of every caster the view
    /// knows, in the view's enumeration order.  Every caster's owed
    /// step appears in the appended output: an idle one with a
    /// candidate in range (and no stale candidate at the widest range)
    /// commits to some found node; a moving one walks, or switches to
    /// casting on arrival; a casting one fires its faction's effect
    /// and goes back to idle.
    pub fn tick(
        &mut self,
        view: &ReplicatedView,
        trees: &TrackTreesBehaviour,
        out: &mut Vec<OutgoingOp>,
    )
        requires
            view.wf(),
            trees.wf(),
        ensures
            old(out)@.is_prefix_of(final(out)@),
            forall|e: i64|
                #[trigger] is_caster(view@, e) && caster_action(view@, e) == WizardAction::Idle
                    && (exists|a: int, t: i64|
                    1 <= a <= 4 && #[trigger] wizard_candidate(
                        *trees,
                        caster_faction(view@, e),
                        caster_coords(view@, e),
                        a * SEARCH_RADIUS as int,
                        t,
                    )) && (forall|t: i64|
                    #[trigger] wizard_candidate(
                        *trees,
                        caster_faction(view@, e),
                        caster_coords(view@, e),
                        4 * SEARCH_RADIUS as int,
                        t,
                    ) ==> data_of(view@, t).position is Some) ==> moving_committed(
                    final(out)@,
                    old(out)@.len() as int,
                    *trees,
                    caster_faction(view@, e),
                    caster_coords(view@, e),
                    view@,
                    e,
                ),
            forall|e: i64|
                #[trigger] is_caster(view@, e) ==> (caster_action(view@, e) matches
                WizardAction::Moving { target, target_pos } ==> ({
                    if !target_pos.in_bounds() {
                        true
                    } else if sq_dist(caster_coords(view@, e), target_pos)
                        > WIZARD_DISTANCE_THRESHOLD_SQ as int {
                        wizard_move_in(
                            final(out)@,
                            old(out)@.len() as int,
                            e,
                            caster_coords(view@, e),
                            target_pos,
                        )
                    } else {
                        wizard_update_in(
                            final(out)@,
                            old(out)@.len() as int,
                            e,
                            WizardAction::Spell { target, target_pos },
                        )
                    }
                })),
            forall|e: i64|
                #[trigger] is_caster(view@, e) ==> (caster_action(view@, e) matches
                WizardAction::Spell { target, target_pos } ==> (spell_request_in(
                    final(out)@,
                    old(out)@.len() as int,
                    caster_faction(view@, e),
                    target,
                ) && wizard_update_in(final(out)@, old(out)@.len() as int, e, WizardAction::Idle))),
    {
        let ghost base0 = out@.len() as int;
        let ids = view.entity_ids();
        let n = ids.len();
        let mut i: usize = 0;
        while i < n
            invariant
                view.wf(),
                trees.wf(),
                i <= n,
                n == ids@.len(),
                forall|e2: i64| ids@.contains(e2) <==> view@.snap.entities.dom().contains(e2),
                0 <= base0 <= out@.len(),
                base0 == old(out)@.len(),
                old(out)@.is_prefix_of(out@),
                forall|j2: int|
                    0 <= j2 < i && is_caster(view@, #[trigger] ids@[j2]) && caster_action(
                        view@,
                        ids@[j2],
                    ) == WizardAction::Idle && (exists|a: int, t: i64|
                        1 <= a <= 4 && #[trigger] wizard_candidate(
                            *trees,
                            caster_faction(view@, ids@[j2]),
                            caster_coords(view@, ids@[j2]),
                            a * SEARCH_RADIUS as int,
                            t,
                        )) && (forall|t: i64|
                        #[trigger] wizard_candidate(
                            *trees,
                            caster_faction(view@, ids@[j2]),
                            caster_coords(view@, ids@[j2]),
                            4 * SEARCH_RADIUS as int,
                            t,
                        ) ==> data_of(view@, t).position is Some) ==> moving_committed(
                        out@,
                        base0,
                        *trees,
                        caster_faction(view@, ids@[j2]),
                        caster_coords(view@, ids@[j2]),
                        view@,
                        ids@[j2],
                    ),
                forall|j2: int|
                    0 <= j2 < i && is_caster(view@, #[trigger] ids@[j2]) ==> (caster_action(
                        view@,
                        ids@[j2],
                    ) matches WizardAction::Moving { target, target_pos } ==> ({
                        if !target_pos.in_bounds() {
                            true
                        } else if sq_dist(caster_coords(view@, ids@[j2]), target_pos)
                            > WIZARD_DISTANCE_THRESHOLD_SQ as int {
                            wizard_move_in(
                                out@,
                                base0,
                                ids@[j2],
                                caster_coords(view@, ids@[j2]),
                                target_pos,
                            )
                        } else {
                            wizard_update_in(
                                out@,
                                base0,
                                ids@[j2],
                                WizardAction::Spell { target, target_pos },
                            )
                        }
                    })),
                forall|j2: int|
                    0 <= j2 < i && is_caster(view@, #[trigger] ids@[j2]) ==> (caster_action(
                        view@,
                        ids@[j2],
                    ) matches WizardAction::Spell { target, target_pos } ==> (spell_request_in(
                        out@,
                        base0,
                        caster_faction(view@, ids@[j2]),
                        target,
                    ) && wizard_update_in(out@, base0, ids@[j2], WizardAction::Idle))),
            decreases n - i,
        {
            let e = ids[i];
            let wiz = view.get_wizard(e);
            let p = view.get_position(e);
            let ghost out_prev = out@;
            match (wiz, p) {
                (Some(w), Some(position)) => {
                    match w.action {
                        WizardAction::Idle => {
                            self.do_idle(e, position.coords, w.faction, view, trees, out);
                            proof {
                                assert(caster_coords(view@, e) == position.coords);
                                if out@.len() > out_prev.len() {
                                    let j = out@.len() - 1;
                                    assert(base0 <= j < out@.len());
                                    let (a, t) = choose|a: int, t: i64|
                                        {
                                            &&& 1 <= a <= 4
                                            &&& #[trigger] wizard_candidate(
                                                *trees,
                                                w.faction,
                                                position.coords,
                                                a * SEARCH_RADIUS as int,
                                                t,
                                            )
                                            &&& no_candidate_below(
                                                *trees,
                                                w.faction,
                                                position.coords,
                                                a,
                                            )
                                            &&& data_of(view@, t).position matches Some(p)
                                            &&& is_wizard_update(
                                                #[trigger] out@[j],
                                                e,
                                                WizardAction::Moving {
                                                    target: t,
                                                    target_pos: p.coords,
                                                },
                                            )
                                        };
                                    assert(moving_committed(
                                        out@,
                                        base0,
                                        *trees,
                                        w.faction,
                                        position.coords,
                                        view@,
                                        e,
                                    ));
                                }
                            }
                        },
                        WizardAction::Moving { target, target_pos } => {
                            self.do_move(e, position.coords, w.faction, target, target_pos, out);
                            proof {
                                assert(caster_coords(view@, e) == position.coords);
                                if target_pos.in_bounds() {
                                    if sq_dist(position.coords, target_pos)
                                        > WIZARD_DISTANCE_THRESHOLD_SQ as int {
                                        assert(is_wizard_move_update(
                                            out@[out@.len() - 1],
                                            e,
                                            position.coords,
                                            target_pos,
                                        ));
                                        assert(wizard_move_in(
                                            out@,
                                            base0,
                                            e,
                                            position.coords,
                                            target_pos,
                                        ));
                                    } else {
                                        assert(is_wizard_update(
                                            out@[out@.len() - 1],
                                            e,
                                            WizardAction::Spell { target, target_pos },
                                        ));
                                        assert(wizard_update_in(
                                            out@,
                                            base0,
                                            e,
                                            WizardAction::Spell { target, target_pos },
                                        ));
                                    }
                                }
                            }
                        },
                        WizardAction::Spell { target, target_pos } => {
                            let _ = target_pos;
                            self.do_spell(e, w.faction, target, out);
                            proof {
                                assert(is_spell_request(
                                    out@[out@.len() - 2],
                                    w.faction,
                                    target,
                                ));
                                assert(spell_request_in(out@, base0, w.faction, target));
                                assert(is_wizard_update(
                                    out@[out@.len() - 1],
                                    e,
                                    WizardAction::Idle,
                                ));
                                assert(wizard_update_in(out@, base0, e, WizardAction::Idle));
                            }
                        },
                    }
                },
                _ => {},
            }
            proof {
                crate::data::lemma_seq_prefix_trans(old(out)@, out_prev, out@);
                assert forall|j2: int|
                    0 <= j2 < i && is_caster(view@, #[trigger] ids@[j2]) implies ({
                    let e2 = ids@[j2];
                    let pos2 = caster_coords(view@, e2);
                    let f2 = caster_faction(view@, e2);
                    &&& (caster_action(view@, e2) == WizardAction::Idle && (exists|a: int, t: i64|
                        1 <= a <= 4 && #[trigger] wizard_candidate(
                            *trees,
                            f2,
                            pos2,
                            a * SEARCH_RADIUS as int,
                            t,
                        )) && (forall|t: i64|
                        #[trigger] wizard_candidate(
                            *trees,
                            f2,
                            pos2,
                            4 * SEARCH_RADIUS as int,
                            t,
                        ) ==> data_of(view@, t).position is Some) ==> moving_committed(
                        out@,
                        base0,
                        *trees,
                        f2,
                        pos2,
                        view@,
                        e2,
                    ))
                    &&& (caster_action(view@, e2) matches WizardAction::Moving {
                        target,
                        target_pos,
                    } ==> ({
                        if !target_pos.in_bounds() {
                            true
                        } else if sq_dist(pos2, target_pos)
                            > WIZARD_DISTANCE_THRESHOLD_SQ as int {
                            wizard_move_in(out@, base0, e2, pos2, target_pos)
                        } else {
                            wizard_update_in(
                                out@,
                                base0,
                                e2,
                                WizardAction::Spell { target, target_pos },
                            )
                        }
                    }))
                    &&& (caster_action(view@, e2) matches WizardAction::Spell {
                        target,
                        target_pos,
                    } ==> (spell_request_in(out@, base0, f2, target) && wizard_update_in(
                        out@,
                        base0,
                        e2,
                        WizardAction::Idle,
                    )))
                }) by {
                    let e2 = ids@[j2];
                    let pos2 = caster_coords(view@, e2);
                    let f2 = caster_faction(view@, e2);
                    match caster_action(view@, e2) {
                        WizardAction::Idle => {
                            lemma_caster_owed_survive(
                                out_prev,
                                out@,
                                base0,
                                *trees,
                                f2,
                                pos2,
                                view@,
                                e2,
                                WizardAction::Idle,
                                pos2,
                                pos2,
                                0,
                            );
                        },
                        WizardAction::Moving { target, target_pos } => {
                            lemma_caster_owed_survive(
                                out_prev,
                                out@,
                                base0,
                                *trees,
                                f2,
                                pos2,
                                view@,
                                e2,
                                WizardAction::Spell { target, target_pos },
                                pos2,
                                target_pos,
                                target,
                            );
                        },
                        WizardAction::Spell { target, target_pos } => {
                            lemma_caster_owed_survive(
                                out_prev,
                                out@,
                                base0,
                                *trees,
                                f2,
                                pos2,
                                view@,
                                e2,
                                WizardAction::Idle,
                                pos2,
                                target_pos,
                                target,
                            );
                        },
                    }
                }
            }
            i = i + 1;
        }
        proof {
            assert forall|e: i64|
                #[trigger] is_caster(view@, e) implies ids@.contains(e) by {
                assert(view@.snap.entities.dom().contains(e));
            }
            assert forall|e: i64|
                #[trigger] is_caster(view@, e) implies 0 <= (choose|j2: int|
                0 <= j2 < ids@.len() && ids@[j2] == e) < ids@.len() by {
                assert(ids@.contains(e));
            }
        }
    }
}

} // verus!
