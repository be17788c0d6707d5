//! The resource-node and hazard behaviour.
//!
//! It keeps the spatial membership index in step with the view
//! (available nodes in the `Active` partition, depleted or burning
//! ones in `Inactive`), answers harvest and hazard command requests,
//! and periodically spreads fire from burning nodes to available
//! nodes nearby, with a node-local random draw per candidate.

use vstd::prelude::*;
use crate::data::{CommandPayload, Fire, FireRequest, OutgoingOp, Tree, UpdateValue};
use crate::rng::{draw_ratio, fresh_rng};
use crate::spatial::{Partition, SpatialIndex};
use crate::utils::{Coordinates, sq_dist};
use crate::view::{ReplicatedView, ViewModel, data_of, req_seq};

verus! {

/// How far fire can jump from a burning node, in milli-units.
pub const FIRE_SPREAD_RADIUS: i64 = 10_000;

/// Default chance that fire jumps to one candidate: numerator and
/// denominator of one draw.
pub const FIRE_SPREAD_NUM: u32 = 1;

/// See [`FIRE_SPREAD_NUM`].
pub const FIRE_SPREAD_DEN: u32 = 10;

/// Wall-clock interval between contagion passes, in milliseconds.
pub const FIRE_SPREAD_TIMEOUT_MS: u64 = 5_000;

/// Resource count of an entity in the view, zero when it carries none.
pub open spec fn tree_resources(m: ViewModel, e: i64) -> int {
    match data_of(m, e).tree {
        Some(t) => t.resources_left as int,
        None => 0,
    }
}

/// Whether the node still holds any resources.
pub open spec fn node_has_resources(m: ViewModel, e: i64) -> bool {
    tree_resources(m, e) > 0
}

/// Whether the entity is a burning node with a known position.
pub open spec fn is_burning(m: ViewModel, e: i64) -> bool {
    &&& m.snap.entities.dom().contains(e)
    &&& data_of(m, e).fire matches Some(f) && f.is_on_fire
    &&& data_of(m, e).position is Some
}

/// The position of an entity in the view; meaningful only when the
/// entity has one.
pub open spec fn view_coords(m: ViewModel, e: i64) -> Coordinates {
    match data_of(m, e).position {
        Some(p) => p.coords,
        None => Coordinates { x: 0, y: 0, z: 0 },
    }
}

/// A candidate for contagion: an available node within the spread
/// radius of some burning node.
pub open spec fn spread_target(m: ViewModel, active: Map<i64, Coordinates>, t: i64) -> bool {
    &&& active.dom().contains(t)
    &&& exists|b: i64|
        is_burning(m, b) && sq_dist(active[t], view_coords(m, b)) < FIRE_SPREAD_RADIUS as int
            * FIRE_SPREAD_RADIUS as int
}

/// A granted harvest: a success response to the given request id.
pub open spec fn is_chop_response(op: OutgoingOp, request_id: i64) -> bool {
    op matches OutgoingOp::CommandResponse { request_id: id, payload: CommandPayload::TryChop }
        && id == request_id
}

/// A refused harvest: an explicit failure naming the request id.
pub open spec fn is_chop_failure(op: OutgoingOp, request_id: i64) -> bool {
    op matches OutgoingOp::CommandFailure { request_id: id, reason } && id == request_id
        && reason@ == "Tree not available."@
}

/// A resource-count update for the entity.
pub open spec fn is_tree_update(op: OutgoingOp, entity: i64, resources_left: u32) -> bool {
    op matches OutgoingOp::ComponentUpdate { entity: e, value: UpdateValue::Tree(t), loopback }
        && e == entity && t.resources_left == resources_left && loopback
}

/// A hazard-flag update for the entity.
pub open spec fn is_fire_update(op: OutgoingOp, entity: i64, on: bool) -> bool {
    op matches OutgoingOp::ComponentUpdate { entity: e, value: UpdateValue::Fire(f), loopback }
        && e == entity && f.is_on_fire == on && loopback
}

/// A human-readable label update for the entity.
pub open spec fn is_metadata_update(op: OutgoingOp, entity: i64, label: Seq<char>) -> bool {
    op matches OutgoingOp::ComponentUpdate { entity: e, value: UpdateValue::Metadata(s), loopback }
        && e == entity && s@ == label && loopback
}

/// A fire-and-forget hazard-set request addressed to the entity.
pub open spec fn is_set_fire_request(op: OutgoingOp, target: i64) -> bool {
    op matches OutgoingOp::CommandRequest {
        entity: e,
        request_id: None,
        payload: CommandPayload::SetOnFire,
    } && e == target
}

/// Whether the outgoing operation is a hazard-set request at all.
pub open spec fn is_any_set_fire_request(op: OutgoingOp) -> bool {
    op matches OutgoingOp::CommandRequest { payload: CommandPayload::SetOnFire, .. }
}

/// The target of a hazard-set request (zero for any other operation).
pub open spec fn set_fire_target(op: OutgoingOp) -> i64 {
    match op {
        OutgoingOp::CommandRequest { entity, .. } => entity,
        _ => 0,
    }
}

/// The three operations answering one hazard request: the flag
/// update, the label update, and the response.
pub open spec fn fire_ops_for(
    s: Seq<OutgoingOp>,
    at: int,
    entity: i64,
    request_id: i64,
    req: FireRequest,
    has_res: bool,
) -> bool {
    match req {
        FireRequest::SetOnFire => {
            &&& is_fire_update(s[at], entity, true)
            &&& is_metadata_update(s[at + 1], entity, "Tree (Fire)"@)
            &&& s[at + 2] matches OutgoingOp::CommandResponse {
                request_id: id,
                payload: CommandPayload::SetOnFire,
            } && id == request_id
        },
        FireRequest::ClearFire => {
            &&& is_fire_update(s[at], entity, false)
            &&& is_metadata_update(
                s[at + 1],
                entity,
                if has_res {
                    "Tree"@
                } else {
                    "Tree (Empty)"@
                },
            )
            &&& s[at + 2] matches OutgoingOp::CommandResponse {
                request_id: id,
                payload: CommandPayload::ClearFire,
            } && id == request_id
        },
    }
}

/// A response (of any payload) naming the given request id.
pub open spec fn is_response_to(op: OutgoingOp, request_id: i64) -> bool {
    op matches OutgoingOp::CommandResponse { request_id: id, .. } && id == request_id
}

/// Whether the given harvest request id got an answer — a grant or an
/// explicit failure — somewhere in `s[base..]`.
pub open spec fn chop_answered(s: Seq<OutgoingOp>, base: int, request_id: i64) -> bool {
    exists|j: int|
        base <= j < s.len() && (is_chop_response(#[trigger] s[j], request_id) || is_chop_failure(
            s[j],
            request_id,
        ))
}

/// Whether the given hazard request id got its response somewhere in
/// `s[base..]`.
pub open spec fn fire_answered(s: Seq<OutgoingOp>, base: int, request_id: i64) -> bool {
    exists|j: int| base <= j < s.len() && is_response_to(#[trigger] s[j], request_id)
}

/// Answers already given survive when the output only grows.
pub proof fn lemma_answers_survive(pre: Seq<OutgoingOp>, post: Seq<OutgoingOp>, base: int, rid: i64)
    requires
        pre.is_prefix_of(post),
        0 <= base,
    ensures
        chop_answered(pre, base, rid) ==> chop_answered(post, base, rid),
        fire_answered(pre, base, rid) ==> fire_answered(post, base, rid),
{
    if chop_answered(pre, base, rid) {
        let j = choose|j: int|
            base <= j < pre.len() && (is_chop_response(#[trigger] pre[j], rid) || is_chop_failure(
                pre[j],
                rid,
            ));
        crate::data::lemma_seq_prefix_index(pre, post, j);
        assert(is_chop_response(post[j], rid) || is_chop_failure(post[j], rid));
    }
    if fire_answered(pre, base, rid) {
        let j = choose|j: int| base <= j < pre.len() && is_response_to(#[trigger] pre[j], rid);
        crate::data::lemma_seq_prefix_index(pre, post, j);
        assert(is_response_to(post[j], rid));
    }
}

/// The contiguous block of operations answering one node's harvest
/// requests: `g` grants in arrival order, explicit failures for the
/// rest, then the published leftover count.
pub open spec fn chop_block_at(
    s: Seq<OutgoingOp>,
    b: int,
    e: i64,
    reqs: Seq<i64>,
    g: int,
    leftover: u32,
) -> bool {
    &&& 0 <= b && b + reqs.len() + 1 <= s.len()
    &&& 0 <= g <= reqs.len()
    &&& forall|k: int| 0 <= k < g ==> is_chop_response(#[trigger] s[b + k], reqs[k])
    &&& forall|k: int| g <= k < reqs.len() ==> is_chop_failure(#[trigger] s[b + k], reqs[k])
    &&& is_tree_update(s[b + reqs.len()], e, leftover)
}

/// The contiguous block of operations answering one node's hazard
/// requests: per request the flag update, the label update and the
/// response, in arrival order.
pub open spec fn fire_block_at(
    s: Seq<OutgoingOp>,
    b: int,
    e: i64,
    reqs: Seq<(i64, FireRequest)>,
    has_res: bool,
) -> bool {
    &&& 0 <= b && b + 3 * reqs.len() <= s.len()
    &&& forall|j: int|
        0 <= j < reqs.len() ==> fire_ops_for(s, b + 3 * j, e, (#[trigger] reqs[j]).0, reqs[j].1, has_res)
}

/// The node's hazard answers stand as one contiguous block somewhere
/// in `s[base..]`.
pub open spec fn fire_block_answered(
    s: Seq<OutgoingOp>,
    base: int,
    m: ViewModel,
    e: i64,
) -> bool {
    exists|b: int|
        base <= b && #[trigger] fire_block_at(
            s,
            b,
            e,
            req_seq(m.snap.fire_requests, e),
            node_has_resources(m, e),
        )
}

/// The node's harvest answers stand as one contiguous block somewhere
/// in `s[base..]`: the grant is exactly `min(pending, resources_left)`
/// when the node is available as the harvest pass reaches it (started
/// from the index `s0`), and zero when it is held unavailable.
pub open spec fn chop_block_answered(
    s: Seq<OutgoingOp>,
    base: int,
    s0: SpatialIndex,
    m: ViewModel,
    e: i64,
) -> bool {
    exists|b: int|
        base <= b && #[trigger] chop_block_at(
            s,
            b,
            e,
            req_seq(m.snap.tree_requests, e),
            grant_of(s0, m, e),
            leftover_of(grant_of(s0, m, e), tree_resources(m, e)) as u32,
        )
}

/// The first `upto` enumerated entities all have their harvest
/// answer blocks in `s[base..]`.
pub open spec fn chop_blocks_done(
    s: Seq<OutgoingOp>,
    base: int,
    s0: SpatialIndex,
    m: ViewModel,
    ids: Seq<i64>,
    upto: int,
) -> bool {
    forall|j2: int|
        0 <= j2 < upto && data_of(m, ids[j2]).tree is Some && #[trigger] req_seq(
            m.snap.tree_requests,
            ids[j2],
        ).len() > 0 ==> chop_block_answered(s, base, s0, m, ids[j2])
}

/// Answering one more entity's harvest requests extends the done
/// prefix by one.
proof fn lemma_chop_blocks_step(
    out_pre: Seq<OutgoingOp>,
    out_post: Seq<OutgoingOp>,
    base: int,
    s0: SpatialIndex,
    m: ViewModel,
    ids: Seq<i64>,
    i: int,
    b: int,
)
    requires
        0 <= i < ids.len(),
        0 <= base <= b,
        out_pre.is_prefix_of(out_post),
        chop_blocks_done(out_pre, base, s0, m, ids, i),
        chop_block_at(
            out_post,
            b,
            ids[i],
            req_seq(m.snap.tree_requests, ids[i]),
            grant_of(s0, m, ids[i]),
            leftover_of(grant_of(s0, m, ids[i]), tree_resources(m, ids[i])) as u32,
        ),
    ensures
        chop_blocks_done(out_post, base, s0, m, ids, i + 1),
{
    assert forall|j2: int|
        0 <= j2 < i + 1 && data_of(m, ids[j2]).tree is Some && #[trigger] req_seq(
            m.snap.tree_requests,
            ids[j2],
        ).len() > 0 implies chop_block_answered(out_post, base, s0, m, ids[j2]) by {
        if j2 < i {
            let b2 = choose|b2: int|
                base <= b2 && #[trigger] chop_block_at(
                    out_pre,
                    b2,
                    ids[j2],
                    req_seq(m.snap.tree_requests, ids[j2]),
                    grant_of(s0, m, ids[j2]),
                    leftover_of(grant_of(s0, m, ids[j2]), tree_resources(m, ids[j2])) as u32,
                );
            lemma_blocks_survive(
                out_pre,
                out_post,
                b2,
                ids[j2],
                req_seq(m.snap.tree_requests, ids[j2]),
                grant_of(s0, m, ids[j2]),
                leftover_of(grant_of(s0, m, ids[j2]), tree_resources(m, ids[j2])) as u32,
                Seq::empty(),
                false,
            );
        }
    }
}

/// An entity with nothing to answer extends the done prefix for free.
proof fn lemma_chop_blocks_skip(
    s: Seq<OutgoingOp>,
    base: int,
    s0: SpatialIndex,
    m: ViewModel,
    ids: Seq<i64>,
    i: int,
)
    requires
        0 <= i < ids.len(),
        chop_blocks_done(s, base, s0, m, ids, i),
        !(data_of(m, ids[i]).tree is Some && req_seq(m.snap.tree_requests, ids[i]).len() > 0),
    ensures
        chop_blocks_done(s, base, s0, m, ids, i + 1),
{
    assert forall|j2: int|
        0 <= j2 < i + 1 && data_of(m, ids[j2]).tree is Some && #[trigger] req_seq(
            m.snap.tree_requests,
            ids[j2],
        ).len() > 0 implies chop_block_answered(s, base, s0, m, ids[j2]) by {}
}

/// Hazard-request folding never conjures membership out of nothing.
proof fn lemma_fire_fold_mem_false(reqs: Seq<(i64, FireRequest)>, has_res: bool)
    ensures
        fire_fold_mem(false, false, reqs, has_res) == (false, false),
    decreases reqs.len(),
{
    if reqs.len() > 0 {
        lemma_fire_fold_mem_false(reqs.drop_first(), has_res);
    }
}

/// The leftover resource count after `g` grants out of `res`.
pub open spec fn leftover_of(g: int, res: int) -> int {
    if g >= res {
        0
    } else {
        res - g
    }
}

/// Answer blocks already emitted survive when the output only grows.
proof fn lemma_blocks_survive(
    pre: Seq<OutgoingOp>,
    post: Seq<OutgoingOp>,
    b: int,
    e: i64,
    chop_reqs: Seq<i64>,
    g: int,
    leftover: u32,
    fire_reqs: Seq<(i64, FireRequest)>,
    has_res: bool,
)
    requires
        pre.is_prefix_of(post),
    ensures
        chop_block_at(pre, b, e, chop_reqs, g, leftover) ==> chop_block_at(
            post,
            b,
            e,
            chop_reqs,
            g,
            leftover,
        ),
        fire_block_at(pre, b, e, fire_reqs, has_res) ==> fire_block_at(
            post,
            b,
            e,
            fire_reqs,
            has_res,
        ),
{
    if chop_block_at(pre, b, e, chop_reqs, g, leftover) {
        assert forall|k: int| 0 <= k < g implies is_chop_response(
            #[trigger] post[b + k],
            chop_reqs[k],
        ) by {
            crate::data::lemma_seq_prefix_index(pre, post, b + k);
        }
        assert forall|k: int| g <= k < chop_reqs.len() implies is_chop_failure(
            #[trigger] post[b + k],
            chop_reqs[k],
        ) by {
            crate::data::lemma_seq_prefix_index(pre, post, b + k);
        }
        crate::data::lemma_seq_prefix_index(pre, post, b + chop_reqs.len());
        assert(is_tree_update(post[b + chop_reqs.len()], e, leftover));
    }
    if fire_block_at(pre, b, e, fire_reqs, has_res) {
        assert forall|j: int| 0 <= j < fire_reqs.len() implies fire_ops_for(
            post,
            b + 3 * j,
            e,
            (#[trigger] fire_reqs[j]).0,
            fire_reqs[j].1,
            has_res,
        ) by {
            crate::data::lemma_seq_prefix_index(pre, post, b + 3 * j);
            crate::data::lemma_seq_prefix_index(pre, post, b + 3 * j + 1);
            crate::data::lemma_seq_prefix_index(pre, post, b + 3 * j + 2);
            match fire_reqs[j].1 {
                FireRequest::SetOnFire => {},
                FireRequest::ClearFire => {},
            }
        }
    }
}

/// Whether the entity's hazard flag is set in the view.
pub open spec fn node_burning(m: ViewModel, e: i64) -> bool {
    match data_of(m, e).fire {
        Some(f) => f.is_on_fire,
        None => false,
    }
}

/// Whether a newly observed entity carries everything a node needs to
/// be classified: the resource, position and hazard components.
pub open spec fn classify_applies(m: ViewModel, e: i64) -> bool {
    &&& m.snap.added.contains(e)
    &&& data_of(m, e).tree is Some
    &&& data_of(m, e).position is Some
    &&& data_of(m, e).fire is Some
}

/// The availability predicate: resources remain and no hazard is set.
pub open spec fn classify_available(m: ViewModel, e: i64) -> bool {
    tree_resources(m, e) > 0 && !node_burning(m, e)
}

/// Membership in the available partition after the purge pass.
pub open spec fn post_purge_active(s0: SpatialIndex, m: ViewModel, e: i64) -> bool {
    s0.part(Partition::Active).dom().contains(e) && !m.snap.removed.contains(e)
}

/// Membership in the unavailable partition after the purge pass.
pub open spec fn post_purge_inactive(s0: SpatialIndex, m: ViewModel, e: i64) -> bool {
    s0.part(Partition::Inactive).dom().contains(e) && !m.snap.removed.contains(e)
}

/// Membership in the available partition after newly observed nodes
/// are classified.
pub open spec fn post_classify_active(s0: SpatialIndex, m: ViewModel, e: i64) -> bool {
    if classify_applies(m, e) {
        classify_available(m, e)
    } else {
        post_purge_active(s0, m, e)
    }
}

/// Membership in the unavailable partition after classification.
pub open spec fn post_classify_inactive(s0: SpatialIndex, m: ViewModel, e: i64) -> bool {
    if classify_applies(m, e) {
        !classify_available(m, e)
    } else {
        post_purge_inactive(s0, m, e)
    }
}

/// One hazard request's effect on a node's (available, unavailable)
/// membership: a hazard set moves it out of the available partition,
/// a hazard clear moves it back iff resources remain.
pub open spec fn fire_step_mem(a: bool, ina: bool, req: FireRequest, has_res: bool) -> (
    bool,
    bool,
) {
    match req {
        FireRequest::SetOnFire => {
            if a {
                (false, true)
            } else {
                (a, ina)
            }
        },
        FireRequest::ClearFire => {
            if has_res && ina {
                (true, false)
            } else {
                (a, ina)
            }
        },
    }
}

/// A node's membership after its hazard requests, in arrival order.
pub open spec fn fire_fold_mem(
    a: bool,
    ina: bool,
    reqs: Seq<(i64, FireRequest)>,
    has_res: bool,
) -> (bool, bool)
    decreases reqs.len(),
{
    if reqs.len() == 0 {
        (a, ina)
    } else {
        let stepped = fire_step_mem(a, ina, reqs.first().1, has_res);
        fire_fold_mem(stepped.0, stepped.1, reqs.drop_first(), has_res)
    }
}

/// Folding one more hazard request steps the fold once at the end.
proof fn lemma_fire_fold_mem_snoc(
    a: bool,
    ina: bool,
    reqs: Seq<(i64, FireRequest)>,
    req: (i64, FireRequest),
    has_res: bool,
)
    ensures
        fire_fold_mem(a, ina, reqs.push(req), has_res) == fire_step_mem(
            fire_fold_mem(a, ina, reqs, has_res).0,
            fire_fold_mem(a, ina, reqs, has_res).1,
            req.1,
            has_res,
        ),
    decreases reqs.len(),
{
    if reqs.len() == 0 {
        assert(reqs.push(req).first() == req);
        assert(reqs.push(req).drop_first() =~= Seq::<(i64, FireRequest)>::empty());
        let stepped = fire_step_mem(a, ina, req.1, has_res);
        assert(fire_fold_mem(a, ina, reqs.push(req), has_res) == fire_fold_mem(
            stepped.0,
            stepped.1,
            Seq::<(i64, FireRequest)>::empty(),
            has_res,
        ));
        assert(fire_fold_mem(a, ina, reqs, has_res) == (a, ina));
    } else {
        assert(reqs.push(req).first() == reqs.first());
        assert(reqs.push(req).drop_first() =~= reqs.drop_first().push(req));
        let stepped = fire_step_mem(a, ina, reqs.first().1, has_res);
        lemma_fire_fold_mem_snoc(stepped.0, stepped.1, reqs.drop_first(), req, has_res);
        assert(fire_fold_mem(a, ina, reqs.push(req), has_res) == fire_fold_mem(
            stepped.0,
            stepped.1,
            reqs.drop_first().push(req),
            has_res,
        ));
        assert(fire_fold_mem(a, ina, reqs, has_res) == fire_fold_mem(
            stepped.0,
            stepped.1,
            reqs.drop_first(),
            has_res,
        ));
    }
}

/// A node's membership when the harvest pass reaches it: classified,
/// then stepped by each of its hazard requests.
pub open spec fn pre_chop_membership(s0: SpatialIndex, m: ViewModel, e: i64) -> (bool, bool) {
    fire_fold_mem(
        post_classify_active(s0, m, e),
        post_classify_inactive(s0, m, e),
        req_seq(m.snap.fire_requests, e),
        node_has_resources(m, e),
    )
}

/// Whether the node sits in the unavailable partition when its
/// harvest requests are answered.
pub open spec fn inactive_at_chop(s0: SpatialIndex, m: ViewModel, e: i64) -> bool {
    pre_chop_membership(s0, m, e).1
}

/// The harvest grant: zero for a node held unavailable, otherwise
/// `min(pending, resources_left)`.
pub open spec fn grant_of(s0: SpatialIndex, m: ViewModel, e: i64) -> int {
    if inactive_at_chop(s0, m, e) {
        0
    } else if req_seq(m.snap.tree_requests, e).len() <= tree_resources(m, e) {
        req_seq(m.snap.tree_requests, e).len() as int
    } else {
        tree_resources(m, e)
    }
}

/// Whether the harvest pass answers this entity at all.
pub open spec fn chop_applies(m: ViewModel, e: i64) -> bool {
    data_of(m, e).tree is Some && req_seq(m.snap.tree_requests, e).len() > 0
}

/// Whether answering the harvest requests drains the node dry.
pub open spec fn chop_drains(s0: SpatialIndex, m: ViewModel, e: i64) -> bool {
    chop_applies(m, e) && leftover_of(grant_of(s0, m, e), tree_resources(m, e)) == 0
        && tree_resources(m, e) > 0
}

/// Membership in the available partition when the tick ends.
pub open spec fn final_active(s0: SpatialIndex, m: ViewModel, e: i64) -> bool {
    if chop_drains(s0, m, e) {
        false
    } else {
        pre_chop_membership(s0, m, e).0
    }
}

/// Membership in the unavailable partition when the tick ends.
pub open spec fn final_inactive(s0: SpatialIndex, m: ViewModel, e: i64) -> bool {
    if chop_drains(s0, m, e) && pre_chop_membership(s0, m, e).0 {
        true
    } else {
        pre_chop_membership(s0, m, e).1
    }
}

/// One element more in the prefix adds exactly that element to what
/// the prefix contains.
proof fn lemma_subrange_grow(ids: Seq<i64>, i: int, x: i64)
    requires
        0 <= i < ids.len(),
    ensures
        ids.subrange(0, i + 1).contains(x) <==> (ids.subrange(0, i).contains(x) || x == ids[i]),
{
    if ids.subrange(0, i + 1).contains(x) {
        let j = choose|j: int| 0 <= j < i + 1 && #[trigger] ids.subrange(0, i + 1)[j] == x;
        if j < i {
            assert(ids.subrange(0, i)[j] == x);
        }
    }
    if ids.subrange(0, i).contains(x) {
        let j = choose|j: int| 0 <= j < i && #[trigger] ids.subrange(0, i)[j] == x;
        assert(ids.subrange(0, i + 1)[j] == x);
    }
    if x == ids[i] {
        assert(ids.subrange(0, i + 1)[i] == x);
    }
}

/// Whether a contagion pass is due at `now`, the last one having run
/// at `last` (both in milliseconds).
pub open spec fn spread_due(last: u64, now: u64) -> bool {
    now > last && now - last > FIRE_SPREAD_TIMEOUT_MS
}

/// The resource-node and hazard behaviour of the game-logic worker.
pub struct TrackTreesBehaviour {
    index: SpatialIndex,
    rng: rand::rngs::ThreadRng,
    last_spread_millis: u64,
    spread_num: u32,
    spread_den: u32,
}

impl TrackTreesBehaviour {
    /// The spatial membership index this behaviour maintains.
    pub closed spec fn index_spec(self) -> SpatialIndex {
        self.index
    }

    /// Numerator of the per-candidate contagion chance.
    pub closed spec fn spread_num_spec(self) -> u32 {
        self.spread_num
    }

    /// Denominator of the per-candidate contagion chance.
    pub closed spec fn spread_den_spec(self) -> u32 {
        self.spread_den
    }

    /// When the last contagion pass ran, in milliseconds.
    pub closed spec fn last_spread_spec(self) -> u64 {
        self.last_spread_millis
    }

    /// The index is well formed and the chance is a valid ratio.
    pub open spec fn wf(self) -> bool {
        &&& self.index_spec().wf()
        &&& 0 < self.spread_den_spec()
        &&& self.spread_num_spec() <= self.spread_den_spec()
    }

    /// A tracker with the default contagion chance.
    pub fn new() -> (r: TrackTreesBehaviour)
        ensures
            r.wf(),
            r.index_spec().part(Partition::Active) == Map::<i64, Coordinates>::empty(),
            r.index_spec().part(Partition::Inactive) == Map::<i64, Coordinates>::empty(),
            r.spread_num_spec() == FIRE_SPREAD_NUM,
            r.spread_den_spec() == FIRE_SPREAD_DEN,
            r.last_spread_spec() == 0,
    {
        TrackTreesBehaviour {
            index: SpatialIndex::new(),
            rng: fresh_rng(),
            last_spread_millis: 0,
            spread_num: FIRE_SPREAD_NUM,
            spread_den: FIRE_SPREAD_DEN,
        }
    }

    /// A tracker with an explicit contagion chance of `num` in `den`.
    pub fn with_spread_chance(num: u32, den: u32) -> (r: TrackTreesBehaviour)
        requires
            0 < den,
            num <= den,
        ensures
            r.wf(),
            r.index_spec().part(Partition::Active) == Map::<i64, Coordinates>::empty(),
            r.index_spec().part(Partition::Inactive) == Map::<i64, Coordinates>::empty(),
            r.spread_num_spec() == num,
            r.spread_den_spec() == den,
            r.last_spread_spec() == 0,
    {
        TrackTreesBehaviour {
            index: SpatialIndex::new(),
            rng: fresh_rng(),
            last_spread_millis: 0,
            spread_num: num,
            spread_den: den,
        }
    }

    /// The available nodes strictly within `radius` of `coords`.
    pub fn within(&self, coords: Coordinates, radius: i64) -> (r: Vec<i64>)
        requires
            self.wf(),
            coords.in_bounds(),
            0 <= radius,
        ensures
            r@.no_duplicates(),
            forall|e: i64|
                r@.contains(e) <==> (self.index_spec().part(Partition::Active).dom().contains(e)
                    && sq_dist(self.index_spec().part(Partition::Active)[e], coords) < radius
                    * radius),
    {
        self.index.query_within(Partition::Active, &coords, radius)
    }

    /// The depleted or burning nodes strictly within `radius` of `coords`.
    pub fn within_inactive(&self, coords: Coordinates, radius: i64) -> (r: Vec<i64>)
        requires
            self.wf(),
            coords.in_bounds(),
            0 <= radius,
        ensures
            r@.no_duplicates(),
            forall|e: i64|
                r@.contains(e) <==> (self.index_spec().part(
                    Partition::Inactive,
                ).dom().contains(e) && sq_dist(
                    self.index_spec().part(Partition::Inactive)[e],
                    coords,
                ) < radius * radius),
    {
        self.index.query_within(Partition::Inactive, &coords, radius)
    }

    /// Answer the pending harvest requests of one node: grant up to
    /// `min(pending, resources_left)` in arrival order (none at all if
    /// the node is in the inactive partition), refuse the rest with an
    /// explicit reason, publish the new resource count, and reclassify
    /// the node as inactive when it just ran dry.
    pub fn handle_chop_requests(
        &mut self,
        view: &ReplicatedView,
        entity: i64,
        out: &mut Vec<OutgoingOp>,
    )
        requires
            old(self).wf(),
            view.wf(),
            data_of(view@, entity).tree is Some,
        ensures
            final(self).wf(),
            final(self).spread_num_spec() == old(self).spread_num_spec(),
            final(self).spread_den_spec() == old(self).spread_den_spec(),
            final(self).last_spread_spec() == old(self).last_spread_spec(),
            old(out)@.is_prefix_of(final(out)@),
            ({
                let reqs = req_seq(view@.snap.tree_requests, entity);
                let res = tree_resources(view@, entity);
                let inactive0 = old(self).index_spec().part(Partition::Inactive).dom().contains(
                    entity,
                );
                let grant: int = if inactive0 {
                    0
                } else if reqs.len() <= res {
                    reqs.len() as int
                } else {
                    res
                };
                let leftover: int = if grant >= res {
                    0
                } else {
                    res - grant
                };
                let reclass = leftover == 0 && res > 0;
                let base = old(out)@.len() as int;
                &&& final(out)@.len() == base + reqs.len() + 1 + (if reclass {
                    1int
                } else {
                    0int
                })
                &&& forall|i: int|
                    0 <= i < grant ==> is_chop_response(#[trigger] final(out)@[base + i], reqs[i])
                &&& forall|i: int|
                    grant <= i < reqs.len() ==> is_chop_failure(
                        #[trigger] final(out)@[base + i],
                        reqs[i],
                    )
                &&& is_tree_update(final(out)@[base + reqs.len()], entity, leftover as u32)
                &&& (reclass ==> is_metadata_update(
                    final(out)@[base + reqs.len() + 1],
                    entity,
                    "Tree (Empty)"@,
                ))
                &&& (if reclass && old(self).index_spec().part(Partition::Active).dom().contains(
                    entity,
                ) {
                    &&& final(self).index_spec().part(Partition::Inactive) == old(
                        self,
                    ).index_spec().part(Partition::Inactive).insert(
                        entity,
                        old(self).index_spec().part(Partition::Active)[entity],
                    )
                    &&& final(self).index_spec().part(Partition::Active) == old(
                        self,
                    ).index_spec().part(Partition::Active).remove(entity)
                } else {
                    &&& final(self).index_spec().part(Partition::Active) == old(
                        self,
                    ).index_spec().part(Partition::Active)
                    &&& final(self).index_spec().part(Partition::Inactive) == old(
                        self,
                    ).index_spec().part(Partition::Inactive)
                })
            }),
    {
        let ghost reqs = req_seq(view@.snap.tree_requests, entity);
        let ghost base = out@.len() as int;
        let count = view.tree_request_count(entity);
        let resources_left: u32 = match view.get_tree(entity) {
            Some(t) => t.resources_left,
            None => 0,
        };
        let grant: usize = if self.index.contains(Partition::Inactive, entity) {
            0
        } else if count <= resources_left as usize {
            count
        } else {
            resources_left as usize
        };
        let mut i: usize = 0;
        while i < grant
            invariant
                view.wf(),
                i <= grant,
                grant <= count,
                count == reqs.len(),
                grant <= tree_resources(view@, entity) || grant == 0,
                reqs == req_seq(view@.snap.tree_requests, entity),
                out@.len() == base + i,
                base == old(out)@.len(),
                old(out)@.is_prefix_of(out@),
                forall|j: int| 0 <= j < i ==> is_chop_response(#[trigger] out@[base + j], reqs[j]),
            decreases grant - i,
        {
            let id = view.tree_request_at(entity, i);
            out.push(
                OutgoingOp::CommandResponse { request_id: id, payload: CommandPayload::TryChop },
            );
            i = i + 1;
        }
        let mut i: usize = grant;
        while i < count
            invariant
                view.wf(),
                grant <= i <= count,
                count == reqs.len(),
                reqs == req_seq(view@.snap.tree_requests, entity),
                out@.len() == base + i,
                base == old(out)@.len(),
                old(out)@.is_prefix_of(out@),
                forall|j: int| 0 <= j < grant ==> is_chop_response(#[trigger] out@[base + j], reqs[j]),
                forall|j: int| grant <= j < i ==> is_chop_failure(#[trigger] out@[base + j], reqs[j]),
            decreases count - i,
        {
            let id = view.tree_request_at(entity, i);
            out.push(
                OutgoingOp::CommandFailure {
                    request_id: id,
                    reason: "Tree not available.".to_owned(),
                },
            );
            i = i + 1;
        }
        let leftover: u32 = if grant as u32 >= resources_left {
            0
        } else {
            resources_left - grant as u32
        };
        out.push(
            OutgoingOp::ComponentUpdate {
                entity,
                value: UpdateValue::Tree(Tree { resources_left: leftover }),
                loopback: true,
            },
        );
        if leftover == 0 && resources_left > 0 {
            out.push(
                OutgoingOp::ComponentUpdate {
                    entity,
                    value: UpdateValue::Metadata("Tree (Empty)".to_owned()),
                    loopback: true,
                },
            );
            match self.index.position_in(Partition::Active, entity) {
                Some(coords) => {
                    self.index.upsert(entity, coords, Partition::Inactive);
                },
                None => {},
            }
        }
    }

    /// Answer the pending hazard requests of one node, in arrival
    /// order: toggle the flag, update the label, always respond, and
    /// reclassify the node (hazard set makes it unavailable; hazard
    /// cleared makes it available again iff resources remain).
    pub fn handle_fire_requests(
        &mut self,
        view: &ReplicatedView,
        entity: i64,
        out: &mut Vec<OutgoingOp>,
    )
        requires
            old(self).wf(),
            view.wf(),
        ensures
            final(self).wf(),
            final(self).spread_num_spec() == old(self).spread_num_spec(),
            final(self).spread_den_spec() == old(self).spread_den_spec(),
            final(self).last_spread_spec() == old(self).last_spread_spec(),
            old(out)@.is_prefix_of(final(out)@),
            final(self).index_spec().part(Partition::Active).remove(entity) == old(
                self,
            ).index_spec().part(Partition::Active).remove(entity),
            final(self).index_spec().part(Partition::Inactive).remove(entity) == old(
                self,
            ).index_spec().part(Partition::Inactive).remove(entity),
            ({
                let reqs = req_seq(view@.snap.fire_requests, entity);
                let base = old(out)@.len() as int;
                let has_res = tree_resources(view@, entity) > 0;
                &&& final(out)@.len() == base + 3 * reqs.len()
                &&& forall|j: int|
                    0 <= j < reqs.len() ==> fire_ops_for(
                        final(out)@,
                        base + 3 * j,
                        entity,
                        (#[trigger] reqs[j]).0,
                        reqs[j].1,
                        has_res,
                    )
                &&& (reqs.len() > 0 && reqs.last().1 is SetOnFire
                    ==> !final(self).index_spec().part(Partition::Active).dom().contains(entity))
                &&& (reqs.len() > 0 && reqs.last().1 is ClearFire && has_res
                    ==> !final(self).index_spec().part(Partition::Inactive).dom().contains(
                    entity,
                ))
                &&& final(self).index_spec().part(Partition::Active).dom().contains(entity)
                    == fire_fold_mem(
                    old(self).index_spec().part(Partition::Active).dom().contains(entity),
                    old(self).index_spec().part(Partition::Inactive).dom().contains(entity),
                    reqs,
                    node_has_resources(view@, entity),
                ).0
                &&& final(self).index_spec().part(Partition::Inactive).dom().contains(entity)
                    == fire_fold_mem(
                    old(self).index_spec().part(Partition::Active).dom().contains(entity),
                    old(self).index_spec().part(Partition::Inactive).dom().contains(entity),
                    reqs,
                    node_has_resources(view@, entity),
                ).1
            }),
    {
        let ghost a0 = old(self).index_spec().part(Partition::Active).dom().contains(entity);
        let ghost i0 = old(self).index_spec().part(Partition::Inactive).dom().contains(entity);
        let ghost reqs = req_seq(view@.snap.fire_requests, entity);
        let ghost base = out@.len() as int;
        let count = view.fire_request_count(entity);
        let has_res: bool = match view.get_tree(entity) {
            Some(t) => t.resources_left > 0,
            None => false,
        };
        proof {
            assert(reqs.subrange(0, 0) =~= Seq::<(i64, FireRequest)>::empty());
        }
        let mut j: usize = 0;
        while j < count
            invariant
                self.wf(),
                view.wf(),
                j <= count,
                count == reqs.len(),
                reqs == req_seq(view@.snap.fire_requests, entity),
                has_res == (tree_resources(view@, entity) > 0),
                out@.len() == base + 3 * j,
                base == old(out)@.len(),
                old(out)@.is_prefix_of(out@),
                self.spread_num_spec() == old(self).spread_num_spec(),
                self.spread_den_spec() == old(self).spread_den_spec(),
                self.last_spread_spec() == old(self).last_spread_spec(),
                self.index_spec().part(Partition::Active).remove(entity) == old(
                    self,
                ).index_spec().part(Partition::Active).remove(entity),
                self.index_spec().part(Partition::Inactive).remove(entity) == old(
                    self,
                ).index_spec().part(Partition::Inactive).remove(entity),
                forall|k: int|
                    0 <= k < j ==> fire_ops_for(
                        out@,
                        base + 3 * k,
                        entity,
                        (#[trigger] reqs[k]).0,
                        reqs[k].1,
                        has_res,
                    ),
                j > 0 && reqs[j - 1].1 is SetOnFire ==> !self.index_spec().part(
                    Partition::Active,
                ).dom().contains(entity),
                j > 0 && reqs[j - 1].1 is ClearFire && has_res ==> !self.index_spec().part(
                    Partition::Inactive,
                ).dom().contains(entity),
                a0 == old(self).index_spec().part(Partition::Active).dom().contains(entity),
                i0 == old(self).index_spec().part(Partition::Inactive).dom().contains(entity),
                has_res == node_has_resources(view@, entity),
                self.index_spec().part(Partition::Active).dom().contains(entity)
                    == fire_fold_mem(a0, i0, reqs.subrange(0, j as int), has_res).0,
                self.index_spec().part(Partition::Inactive).dom().contains(entity)
                    == fire_fold_mem(a0, i0, reqs.subrange(0, j as int), has_res).1,
            decreases count - j,
        {
            let ghost out_before = out@;
            let (request_id, req) = view.fire_request_at(entity, j);
            match req {
                FireRequest::SetOnFire => {
                    out.push(
                        OutgoingOp::ComponentUpdate {
                            entity,
                            value: UpdateValue::Fire(Fire { is_on_fire: true }),
                            loopback: true,
                        },
                    );
                    out.push(
                        OutgoingOp::ComponentUpdate {
                            entity,
                            value: UpdateValue::Metadata("Tree (Fire)".to_owned()),
                            loopback: true,
                        },
                    );
                    out.push(
                        OutgoingOp::CommandResponse {
                            request_id,
                            payload: CommandPayload::SetOnFire,
                        },
                    );
                    match self.index.position_in(Partition::Active, entity) {
                        Some(coords) => {
                            self.index.upsert(entity, coords, Partition::Inactive);
                            proof {
                                assert(self.index_spec().part(Partition::Active).remove(entity)
                                    =~= old(self).index_spec().part(Partition::Active).remove(
                                    entity,
                                ));
                                assert(self.index_spec().part(Partition::Inactive).remove(entity)
                                    =~= old(self).index_spec().part(Partition::Inactive).remove(
                                    entity,
                                ));
                            }
                        },
                        None => {},
                    }
                },
                FireRequest::ClearFire => {
                    out.push(
                        OutgoingOp::ComponentUpdate {
                            entity,
                            value: UpdateValue::Fire(Fire { is_on_fire: false }),
                            loopback: true,
                        },
                    );
                    if has_res {
                        out.push(
                            OutgoingOp::ComponentUpdate {
                                entity,
                                value: UpdateValue::Metadata("Tree".to_owned()),
                                loopback: true,
                            },
                        );
                    } else {
                        out.push(
                            OutgoingOp::ComponentUpdate {
                                entity,
                                value: UpdateValue::Metadata("Tree (Empty)".to_owned()),
                                loopback: true,
                            },
                        );
                    }
                    out.push(
                        OutgoingOp::CommandResponse {
                            request_id,
                            payload: CommandPayload::ClearFire,
                        },
                    );
                    if has_res {
                        match self.index.position_in(Partition::Inactive, entity) {
                            Some(coords) => {
                                self.index.upsert(entity, coords, Partition::Active);
                                proof {
                                    assert(self.index_spec().part(Partition::Active).remove(
                                        entity,
                                    ) =~= old(self).index_spec().part(Partition::Active).remove(
                                        entity,
                                    ));
                                    assert(self.index_spec().part(Partition::Inactive).remove(
                                        entity,
                                    ) =~= old(self).index_spec().part(Partition::Inactive).remove(
                                        entity,
                                    ));
                                }
                            },
                            None => {},
                        }
                    }
                },
            }
            proof {
                lemma_fire_fold_mem_snoc(a0, i0, reqs.subrange(0, j as int), reqs[j as int], has_res);
                assert(reqs.subrange(0, j as int).push(reqs[j as int]) =~= reqs.subrange(
                    0,
                    j + 1 as int,
                ));
                assert(out_before.is_prefix_of(out@));
                assert forall|k: int| 0 <= k < j + 1 implies fire_ops_for(
                    out@,
                    base + 3 * k,
                    entity,
                    (#[trigger] reqs[k]).0,
                    reqs[k].1,
                    has_res,
                ) by {
                    if k < j {
                        assert(fire_ops_for(
                            out_before,
                            base + 3 * k,
                            entity,
                            reqs[k].0,
                            reqs[k].1,
                            has_res,
                        ));
                        assert(out@[base + 3 * k] == out_before[base + 3 * k]);
                        assert(out@[base + 3 * k + 1] == out_before[base + 3 * k + 1]);
                        assert(out@[base + 3 * k + 2] == out_before[base + 3 * k + 2]);
                    }
                }
            }
            j = j + 1;
        }
        proof {
            assert(reqs.subrange(0, count as int) =~= reqs);
        }
    }

    /// One contagion pass: for every available node within the spread
    /// radius of some burning node, draw once with the configured
    /// chance and, when the draw says so, send it a fire-and-forget
    /// hazard-set request.  With chance zero nothing is ever sent;
    /// with chance one every such node receives exactly one request.
    pub fn spread_fires(&mut self, view: &ReplicatedView, out: &mut Vec<OutgoingOp>)
        requires
            old(self).wf(),
            view.wf(),
        ensures
            final(self).wf(),
            final(self).spread_num_spec() == old(self).spread_num_spec(),
            final(self).spread_den_spec() == old(self).spread_den_spec(),
            final(self).last_spread_spec() == old(self).last_spread_spec(),
            final(self).index_spec().part(Partition::Active) == old(self).index_spec().part(
                Partition::Active,
            ),
            final(self).index_spec().part(Partition::Inactive) == old(self).index_spec().part(
                Partition::Inactive,
            ),
            old(out)@.is_prefix_of(final(out)@),
            ({
                let base = old(out)@.len() as int;
                let act = old(self).index_spec().part(Partition::Active);
                &&& forall|i: int|
                    base <= i < final(out)@.len() ==> is_set_fire_request(
                        #[trigger] final(out)@[i],
                        set_fire_target(final(out)@[i]),
                    ) && spread_target(view@, act, set_fire_target(final(out)@[i]))
                &&& forall|i: int, k: int|
                    base <= i < k < final(out)@.len() ==> set_fire_target(
                        #[trigger] final(out)@[i],
                    ) != set_fire_target(#[trigger] final(out)@[k])
                &&& (old(self).spread_num_spec() == 0 ==> final(out)@.len() == base)
                &&& (old(self).spread_num_spec() == old(self).spread_den_spec() ==> forall|t: i64|
                    spread_target(view@, act, t) ==> exists|i: int|
                        base <= i < final(out)@.len() && is_set_fire_request(
                            #[trigger] final(out)@[i],
                            t,
                        ))
            }),
    {
        let ghost act = self.index_spec().part(Partition::Active);
        let ghost base = out@.len() as int;
        let ids = view.entity_ids();
        let mut targets = crate::idmap::IdSet::new();
        let n = ids.len();
        let mut i: usize = 0;
        while i < n
            invariant
                self.wf(),
                view.wf(),
                i <= n,
                n == ids@.len(),
                act == self.index_spec().part(Partition::Active),
                forall|e: i64| ids@.contains(e) <==> view@.snap.entities.dom().contains(e),
                targets.wf(),
                forall|t: i64| #[trigger] targets@.contains(t) ==> spread_target(view@, act, t),
                forall|t: i64, bj: int|
                    0 <= bj < i && is_burning(view@, ids@[bj]) && act.dom().contains(t) && sq_dist(
                        act[t],
                        view_coords(view@, ids@[bj]),
                    ) < FIRE_SPREAD_RADIUS as int * FIRE_SPREAD_RADIUS as int
                        ==> targets@.contains(t),
            decreases n - i,
        {
            let b = ids[i];
            let burning: bool = match view.get_fire(b) {
                Some(f) => f.is_on_fire,
                None => false,
            };
            if burning {
                match view.get_position(b) {
                    Some(p) => {
                        let near = self.index.query_within(
                            Partition::Active,
                            &p.coords,
                            FIRE_SPREAD_RADIUS,
                        );
                        let mut k: usize = 0;
                        while k < near.len()
                            invariant
                                self.wf(),
                                view.wf(),
                                k <= near@.len(),
                                i < n == ids@.len(),
                                b == ids@[i as int],
                                act == self.index_spec().part(Partition::Active),
                                is_burning(view@, b),
                                p.coords == view_coords(view@, b),
                                forall|e: i64|
                                    near@.contains(e) <==> (act.dom().contains(e) && sq_dist(
                                        act[e],
                                        p.coords,
                                    ) < FIRE_SPREAD_RADIUS as int * FIRE_SPREAD_RADIUS as int),
                                targets.wf(),
                                forall|t: i64|
                                    #[trigger] targets@.contains(t) ==> spread_target(
                                        view@,
                                        act,
                                        t,
                                    ),
                                forall|t: i64, bj: int|
                                    0 <= bj < i && is_burning(view@, ids@[bj])
                                        && act.dom().contains(t) && sq_dist(
                                        act[t],
                                        view_coords(view@, ids@[bj]),
                                    ) < FIRE_SPREAD_RADIUS as int * FIRE_SPREAD_RADIUS as int
                                        ==> targets@.contains(t),
                                forall|kk: int|
                                    0 <= kk < k ==> targets@.contains(#[trigger] near@[kk]),
                            decreases near@.len() - k,
                        {
                            let t = near[k];
                            proof {
                                assert(near@.contains(t));
                                assert(spread_target(view@, act, t));
                            }
                            targets.insert(t);
                            k = k + 1;
                        }
                        proof {
                            assert forall|t: i64, bj: int|
                                0 <= bj < i + 1 && is_burning(view@, ids@[bj])
                                    && act.dom().contains(t) && sq_dist(
                                    act[t],
                                    view_coords(view@, ids@[bj]),
                                ) < FIRE_SPREAD_RADIUS as int * FIRE_SPREAD_RADIUS as int
                                    implies targets@.contains(t) by {
                                if bj == i {
                                    assert(near@.contains(t));
                                    let kk = choose|kk: int|
                                        0 <= kk < near@.len() && near@[kk] == t;
                                }
                            }
                        }
                    },
                    None => {},
                }
            }
            i = i + 1;
        }
        proof {
            assert forall|t: i64| spread_target(view@, act, t) implies targets@.contains(t) by {
                let b = choose|b: i64|
                    is_burning(view@, b) && sq_dist(act[t], view_coords(view@, b))
                        < FIRE_SPREAD_RADIUS as int * FIRE_SPREAD_RADIUS as int;
                assert(view@.snap.entities.dom().contains(b));
                assert(ids@.contains(b));
                let bj = choose|bj: int| 0 <= bj < ids@.len() && ids@[bj] == b;
            }
        }
        let m = targets.len();
        let mut k: usize = 0;
        while k < m
            invariant
                self.wf(),
                view.wf(),
                k <= m,
                m == targets.items_seq().len(),
                targets.wf(),
                act == self.index_spec().part(Partition::Active),
                self.spread_num_spec() == old(self).spread_num_spec(),
                self.spread_den_spec() == old(self).spread_den_spec(),
                self.last_spread_spec() == old(self).last_spread_spec(),
                self.index_spec() == old(self).index_spec(),
                base == old(out)@.len(),
                old(out)@.is_prefix_of(out@),
                forall|t: i64| #[trigger] targets@.contains(t) ==> spread_target(view@, act, t),
                forall|t: i64| spread_target(view@, act, t) ==> #[trigger] targets@.contains(t),
                forall|i2: int|
                    base <= i2 < out@.len() ==> is_set_fire_request(
                        #[trigger] out@[i2],
                        set_fire_target(out@[i2]),
                    ) && (exists|kk: int|
                        0 <= kk < k && set_fire_target(out@[i2]) == targets.items_seq()[kk]),
                forall|i2: int, k2: int|
                    base <= i2 < k2 < out@.len() ==> set_fire_target(#[trigger] out@[i2])
                        != set_fire_target(#[trigger] out@[k2]),
                self.spread_num_spec() == 0 ==> out@.len() == base,
                self.spread_num_spec() == self.spread_den_spec() ==> forall|kk: int|
                    0 <= kk < k ==> exists|i2: int|
                        base <= i2 < out@.len() && is_set_fire_request(
                            #[trigger] out@[i2],
                            #[trigger] targets.items_seq()[kk],
                        ),
            decreases m - k,
        {
            let t = targets.item_at(k);
            let num = self.spread_num;
            let den = self.spread_den;
            let ghost out_before = out@;
            if draw_ratio(&mut self.rng, num, den) {
                proof {
                    assert(targets.items_seq().contains(t));
                    assert(targets@.contains(t));
                    assert forall|i2: int|
                        base <= i2 < out_before.len() implies set_fire_target(
                        #[trigger] out_before[i2],
                    ) != t by {
                        let kk = choose|kk: int|
                            0 <= kk < k && set_fire_target(out_before[i2])
                                == targets.items_seq()[kk];
                        assert(targets.items_seq()[kk] != targets.items_seq()[k as int]);
                    }
                }
                let op = OutgoingOp::CommandRequest {
                    entity: t,
                    request_id: None,
                    payload: CommandPayload::SetOnFire,
                };
                let ghost opg = op;
                out.push(op);
                proof {
                    let last = out@.len() - 1;
                    assert(out@ =~= out_before.push(opg));
                    assert(out@[last] == opg);
                    assert(is_set_fire_request(out@[last], targets.items_seq()[k as int]));
                    assert forall|kk: int|
                        self.spread_num_spec() == self.spread_den_spec() && 0 <= kk < k
                            + 1 implies exists|i2: int|
                        base <= i2 < out@.len() && is_set_fire_request(
                            #[trigger] out@[i2],
                            #[trigger] targets.items_seq()[kk],
                        ) by {
                        if kk < k {
                            let i2 = choose|i2: int|
                                base <= i2 < out_before.len() && is_set_fire_request(
                                    out_before[i2],
                                    targets.items_seq()[kk],
                                );
                            assert(out@[i2] == out_before[i2]);
                        } else {
                            assert(is_set_fire_request(out@[last], targets.items_seq()[kk]));
                        }
                    }
                }
            } else {
                proof {
                    assert(self.spread_num_spec() != self.spread_den_spec());
                }
            }
            k = k + 1;
        }
        proof {
            assert forall|i2: int| base <= i2 < out@.len() implies is_set_fire_request(
                #[trigger] out@[i2],
                set_fire_target(out@[i2]),
            ) && spread_target(view@, act, set_fire_target(out@[i2])) by {
                let kk = choose|kk: int|
                    0 <= kk < k && set_fire_target(out@[i2]) == targets.items_seq()[kk];
                assert(targets.items_seq().contains(targets.items_seq()[kk]));
                assert(targets@.contains(set_fire_target(out@[i2])));
            }
            if self.spread_num_spec() == self.spread_den_spec() {
                assert forall|t: i64| spread_target(view@, act, t) implies exists|i2: int|
                    base <= i2 < out@.len() && is_set_fire_request(#[trigger] out@[i2], t) by {
                    assert(targets@.contains(t));
                    assert(targets.items_seq().contains(t));
                    let kk = choose|kk: int|
                        0 <= kk < targets.items_seq().len() && targets.items_seq()[kk] == t;
                    assert(0 <= kk < k);
                    assert(exists|i2: int|
                        base <= i2 < out@.len() && is_set_fire_request(
                            #[trigger] out@[i2],
                            #[trigger] targets.items_seq()[kk],
                        ));
                }
            }
            if self.spread_num_spec() == 0 {
                assert(out@.len() == base);
            }
        }
    }

    /// Purge every entity the view removed this tick from both
    /// partitions: derived spatial state never outlives the view's.
    /// Afterwards an entity is a member exactly if it was one before
    /// and was not removed.
    fn purge_removed(&mut self, view: &ReplicatedView)
        requires
            old(self).wf(),
            view.wf(),
        ensures
            final(self).wf(),
            final(self).spread_num_spec() == old(self).spread_num_spec(),
            final(self).spread_den_spec() == old(self).spread_den_spec(),
            final(self).last_spread_spec() == old(self).last_spread_spec(),
            forall|e: i64|
                #[trigger] final(self).index_spec().part(Partition::Active).dom().contains(e)
                    == post_purge_active(old(self).index_spec(), view@, e),
            forall|e: i64|
                #[trigger] final(self).index_spec().part(Partition::Inactive).dom().contains(e)
                    == post_purge_inactive(old(self).index_spec(), view@, e),
            crate::behaviors::client_trees::purged(final(self).index_spec(), view@),
    {
        let removed = view.removed_count();
        let mut i: usize = 0;
        while i < removed
            invariant
                self.wf(),
                view.wf(),
                i <= removed,
                removed == view.removed_seq().len(),
                self.spread_num_spec() == old(self).spread_num_spec(),
                self.spread_den_spec() == old(self).spread_den_spec(),
                self.last_spread_spec() == old(self).last_spread_spec(),
                forall|e: i64|
                    #[trigger] self.index_spec().part(Partition::Active).dom().contains(e) == (
                    old(self).index_spec().part(Partition::Active).dom().contains(e)
                        && !view.removed_seq().subrange(0, i as int).contains(e)),
                forall|e: i64|
                    #[trigger] self.index_spec().part(Partition::Inactive).dom().contains(e) == (
                    old(self).index_spec().part(Partition::Inactive).dom().contains(e)
                        && !view.removed_seq().subrange(0, i as int).contains(e)),
            decreases removed - i,
        {
            let ghost before = self.index_spec();
            let e = view.removed_at(i);
            self.index.remove(e);
            proof {
                assert forall|e2: i64|
                    #[trigger] self.index_spec().part(Partition::Active).dom().contains(e2) == (
                old(self).index_spec().part(Partition::Active).dom().contains(e2)
                    && !view.removed_seq().subrange(0, i + 1 as int).contains(e2)) by {
                    if e2 == e {
                        assert(view.removed_seq().subrange(0, i + 1 as int)[i as int] == e2);
                        assert(view.removed_seq().subrange(0, i + 1 as int).contains(e2));
                    } else {
                        assert(self.index_spec().part(Partition::Active).dom().contains(e2)
                            == before.part(Partition::Active).dom().contains(e2));
                        assert forall|x: i64|
                            view.removed_seq().subrange(0, i + 1 as int).contains(x) && x != e
                                implies view.removed_seq().subrange(0, i as int).contains(
                            x,
                        ) by {
                            let j = choose|j: int|
                                0 <= j < i + 1 && #[trigger] view.removed_seq().subrange(
                                    0,
                                    i + 1 as int,
                                )[j] == x;
                            assert(j < i);
                            assert(view.removed_seq().subrange(0, i as int)[j] == x);
                        }
                        if view.removed_seq().subrange(0, i as int).contains(e2) {
                            let j = choose|j: int|
                                0 <= j < i && #[trigger] view.removed_seq().subrange(
                                    0,
                                    i as int,
                                )[j] == e2;
                            assert(view.removed_seq().subrange(0, i + 1 as int)[j] == e2);
                        }
                    }
                }
                assert forall|e2: i64|
                    #[trigger] self.index_spec().part(Partition::Inactive).dom().contains(e2) == (
                old(self).index_spec().part(Partition::Inactive).dom().contains(e2)
                    && !view.removed_seq().subrange(0, i + 1 as int).contains(e2)) by {
                    if e2 == e {
                        assert(view.removed_seq().subrange(0, i + 1 as int)[i as int] == e2);
                        assert(view.removed_seq().subrange(0, i + 1 as int).contains(e2));
                    } else {
                        assert(self.index_spec().part(Partition::Inactive).dom().contains(e2)
                            == before.part(Partition::Inactive).dom().contains(e2));
                        assert forall|x: i64|
                            view.removed_seq().subrange(0, i + 1 as int).contains(x) && x != e
                                implies view.removed_seq().subrange(0, i as int).contains(
                            x,
                        ) by {
                            let j = choose|j: int|
                                0 <= j < i + 1 && #[trigger] view.removed_seq().subrange(
                                    0,
                                    i + 1 as int,
                                )[j] == x;
                            assert(j < i);
                            assert(view.removed_seq().subrange(0, i as int)[j] == x);
                        }
                        if view.removed_seq().subrange(0, i as int).contains(e2) {
                            let j = choose|j: int|
                                0 <= j < i && #[trigger] view.removed_seq().subrange(
                                    0,
                                    i as int,
                                )[j] == e2;
                            assert(view.removed_seq().subrange(0, i + 1 as int)[j] == e2);
                        }
                    }
                }
            }
            i = i + 1;
        }
        proof {
            view.lemma_removed_seq();
            assert(view.removed_seq().subrange(0, removed as int) =~= view.removed_seq());
            assert forall|e2: i64|
                #[trigger] self.index_spec().part(Partition::Active).dom().contains(e2)
                    == post_purge_active(old(self).index_spec(), view@, e2) by {
                assert(view.removed_seq().contains(e2) == view@.snap.removed.contains(e2));
            }
            assert forall|e2: i64|
                #[trigger] self.index_spec().part(Partition::Inactive).dom().contains(e2)
                    == post_purge_inactive(old(self).index_spec(), view@, e2) by {
                assert(view.removed_seq().contains(e2) == view@.snap.removed.contains(e2));
            }
            assert forall|e2: i64|
                view@.snap.removed.contains(e2)
                    && !view@.snap.entities.dom().contains(e2) implies !(
            #[trigger] self.index_spec().part(Partition::Active).dom().contains(e2))
                && !self.index_spec().part(Partition::Inactive).dom().contains(e2) by {}
            assert(crate::behaviors::client_trees::purged(self.index_spec(), view@));
        }
    }

    /// One tick of the behaviour: purge removed entities from the
    /// index, classify newly observed nodes, answer hazard and harvest
    /// requests, and run the contagion pass when its wall-clock
    /// interval has elapsed.  With a zero spread chance no hazard-set
    /// request is ever emitted.
    #[verifier::rlimit(100)]
    pub fn tick(&mut self, view: &ReplicatedView, now_millis: u64, out: &mut Vec<OutgoingOp>)
        requires
            old(self).wf(),
            view.wf(),
        ensures
            final(self).wf(),
            final(self).spread_num_spec() == old(self).spread_num_spec(),
            final(self).spread_den_spec() == old(self).spread_den_spec(),
            old(out)@.is_prefix_of(final(out)@),
            old(self).spread_num_spec() == 0 ==> forall|i: int|
                old(out)@.len() <= i < final(out)@.len() ==> !is_any_set_fire_request(
                    #[trigger] final(out)@[i],
                ),
            final(self).last_spread_spec() == (if spread_due(
                old(self).last_spread_spec(),
                now_millis,
            ) {
                now_millis
            } else {
                old(self).last_spread_spec()
            }),
            forall|e: i64, k: int|
                0 <= k < req_seq(view@.snap.fire_requests, e).len() ==> fire_answered(
                    final(out)@,
                    old(out)@.len() as int,
                    (#[trigger] req_seq(view@.snap.fire_requests, e)[k]).0,
                ),
            forall|e: i64, k: int|
                data_of(view@, e).tree is Some && 0 <= k < req_seq(
                    view@.snap.tree_requests,
                    e,
                ).len() ==> chop_answered(
                    final(out)@,
                    old(out)@.len() as int,
                    #[trigger] req_seq(view@.snap.tree_requests, e)[k],
                ),
            // Fire spreads only at its wall-clock interval: a tick
            // before it elapses emits no hazard-set request.
            !spread_due(old(self).last_spread_spec(), now_millis) ==> forall|i: int|
                old(out)@.len() <= i < final(out)@.len() ==> !is_any_set_fire_request(
                    #[trigger] final(out)@[i],
                ),
            // Every hazard-set request this tick targets a contagion
            // candidate of the index the tick leaves behind, and no
            // target is requested twice.
            forall|i: int|
                old(out)@.len() <= i < final(out)@.len() && is_any_set_fire_request(
                    #[trigger] final(out)@[i],
                ) ==> spread_target(
                    view@,
                    final(self).index_spec().part(Partition::Active),
                    set_fire_target(final(out)@[i]),
                ),
            forall|i: int, k: int|
                old(out)@.len() <= i < k < final(out)@.len() && is_any_set_fire_request(
                    #[trigger] final(out)@[i],
                ) && is_any_set_fire_request(#[trigger] final(out)@[k]) ==> set_fire_target(
                    final(out)@[i],
                ) != set_fire_target(final(out)@[k]),
            // With a certain chance, at the contagion interval, every
            // candidate of the index the tick leaves behind receives a
            // hazard-set request (and by the above, exactly one).
            (old(self).spread_num_spec() == old(self).spread_den_spec() && spread_due(
                old(self).last_spread_spec(),
                now_millis,
            )) ==> forall|t: i64|
                #[trigger] spread_target(
                    view@,
                    final(self).index_spec().part(Partition::Active),
                    t,
                ) ==> exists|i: int|
                    old(out)@.len() <= i < final(out)@.len() && is_set_fire_request(
                        #[trigger] final(out)@[i],
                        t,
                    ),
            // Derived spatial state is purged with the removal, in the
            // same tick: a removed entity the view no longer knows is
            // in neither partition when the tick ends.
            crate::behaviors::client_trees::purged(final(self).index_spec(), view@),
            // Per node, its hazard answers stand as one contiguous
            // block, in arrival order.
            forall|e: i64|
                #[trigger] req_seq(view@.snap.fire_requests, e).len() > 0 ==> fire_block_answered(
                    final(out)@,
                    old(out)@.len() as int,
                    view@,
                    e,
                ),
            // Per node, its harvest answers stand as one contiguous
            // block: grants to the first requests in arrival order,
            // explicit failures for the rest, then the leftover count
            // — where the grant is `min(pending, resources_left)`, or
            // zero for a node in the unavailable partition.
            forall|e: i64|
                data_of(view@, e).tree is Some && #[trigger] req_seq(
                    view@.snap.tree_requests,
                    e,
                ).len() > 0 ==> chop_block_answered(
                    final(out)@,
                    old(out)@.len() as int,
                    old(self).index_spec(),
                    view@,
                    e,
                ),
            // The index the tick leaves behind, exactly: purge, then
            // classification of newly observed nodes, then the hazard
            // moves in arrival order, then the drain reclassification.
            forall|e: i64|
                #[trigger] final(self).index_spec().part(Partition::Active).dom().contains(e)
                    == final_active(old(self).index_spec(), view@, e),
            forall|e: i64|
                #[trigger] final(self).index_spec().part(Partition::Inactive).dom().contains(e)
                    == final_inactive(old(self).index_spec(), view@, e),
    {
        let ghost base0 = out@.len() as int;
        self.purge_removed(view);
        let ids = view.entity_ids();
        let n = ids.len();
        let mut i: usize = 0;
        while i < n
            invariant
                self.wf(),
                view.wf(),
                i <= n,
                n == ids@.len(),
                ids@.no_duplicates(),
                forall|e: i64| ids@.contains(e) <==> view@.snap.entities.dom().contains(e),
                self.spread_num_spec() == old(self).spread_num_spec(),
                self.spread_den_spec() == old(self).spread_den_spec(),
                self.last_spread_spec() == old(self).last_spread_spec(),
                crate::behaviors::client_trees::purged(self.index_spec(), view@),
                forall|e: i64|
                    #[trigger] self.index_spec().part(Partition::Active).dom().contains(e) == (
                    if classify_applies(view@, e) && ids@.subrange(0, i as int).contains(e) {
                        classify_available(view@, e)
                    } else {
                        post_purge_active(old(self).index_spec(), view@, e)
                    }),
                forall|e: i64|
                    #[trigger] self.index_spec().part(Partition::Inactive).dom().contains(e) == (
                    if classify_applies(view@, e) && ids@.subrange(0, i as int).contains(e) {
                        !classify_available(view@, e)
                    } else {
                        post_purge_inactive(old(self).index_spec(), view@, e)
                    }),
            decreases n - i,
        {
            let e = ids[i];
            proof {
                assert(ids@.contains(e));
                assert(view@.snap.entities.dom().contains(e));
            }
            let ghost mem_prev = self.index_spec();
            if view.was_entity_added(e) {
                let tree = view.get_tree(e);
                let pos = view.get_position(e);
                let fire = view.get_fire(e);
                match (tree, pos, fire) {
                    (Some(t), Some(p), Some(f)) => {
                        let partition = if t.resources_left > 0 && !f.is_on_fire {
                            Partition::Active
                        } else {
                            Partition::Inactive
                        };
                        let ghost prev = self.index_spec();
                        self.index.upsert(e, p.coords, partition);
                        proof {
                            crate::behaviors::client_trees::lemma_purged_step(
                                prev,
                                self.index_spec(),
                                e,
                                partition,
                                view@,
                            );
                        }
                    },
                    _ => {},
                }
            }
            proof {
                assert forall|e2: i64|
                    #[trigger] self.index_spec().part(Partition::Active).dom().contains(e2) == (
                if classify_applies(view@, e2) && ids@.subrange(0, i + 1 as int).contains(e2) {
                    classify_available(view@, e2)
                } else {
                    post_purge_active(old(self).index_spec(), view@, e2)
                }) by {
                    lemma_subrange_grow(ids@, i as int, e2);
                    if e2 != e {
                        assert(self.index_spec().part(Partition::Active).dom().contains(e2)
                            == mem_prev.part(Partition::Active).dom().contains(e2));
                    }
                }
                assert forall|e2: i64|
                    #[trigger] self.index_spec().part(Partition::Inactive).dom().contains(e2)
                        == (
                if classify_applies(view@, e2) && ids@.subrange(0, i + 1 as int).contains(e2) {
                    !classify_available(view@, e2)
                } else {
                    post_purge_inactive(old(self).index_spec(), view@, e2)
                }) by {
                    lemma_subrange_grow(ids@, i as int, e2);
                    if e2 != e {
                        assert(self.index_spec().part(Partition::Inactive).dom().contains(e2)
                            == mem_prev.part(Partition::Inactive).dom().contains(e2));
                    }
                }
            }
            i = i + 1;
        }
        proof {
            assert(ids@.subrange(0, n as int) =~= ids@);
            view.lemma_requests_live();
            assert forall|e2: i64|
                #[trigger] self.index_spec().part(Partition::Active).dom().contains(e2)
                    == post_classify_active(old(self).index_spec(), view@, e2) by {
                if classify_applies(view@, e2) {
                    assert(view@.snap.entities.dom().contains(e2));
                    assert(ids@.contains(e2));
                }
            }
            assert forall|e2: i64|
                #[trigger] self.index_spec().part(Partition::Inactive).dom().contains(e2)
                    == post_classify_inactive(old(self).index_spec(), view@, e2) by {
                if classify_applies(view@, e2) {
                    assert(view@.snap.entities.dom().contains(e2));
                    assert(ids@.contains(e2));
                }
            }
        }
        let mut i: usize = 0;
        while i < n
            invariant
                self.wf(),
                view.wf(),
                i <= n,
                n == ids@.len(),
                self.spread_num_spec() == old(self).spread_num_spec(),
                self.spread_den_spec() == old(self).spread_den_spec(),
                self.last_spread_spec() == old(self).last_spread_spec(),
                forall|e2: i64| ids@.contains(e2) <==> view@.snap.entities.dom().contains(e2),
                0 <= base0 <= out@.len(),
                old(out)@.is_prefix_of(out@),
                crate::behaviors::client_trees::purged(self.index_spec(), view@),
                forall|i2: int|
                    base0 <= i2 < out@.len() ==> !is_any_set_fire_request(#[trigger] out@[i2]),
                forall|j2: int, k: int|
                    0 <= j2 < i && 0 <= k < req_seq(
                        view@.snap.fire_requests,
                        ids@[j2],
                    ).len() ==> fire_answered(
                        out@,
                        base0,
                        (#[trigger] req_seq(view@.snap.fire_requests, ids@[j2])[k]).0,
                    ),
                forall|j2: int|
                    0 <= j2 < i && #[trigger] req_seq(
                        view@.snap.fire_requests,
                        ids@[j2],
                    ).len() > 0 ==> fire_block_answered(out@, base0, view@, ids@[j2]),
                ids@.no_duplicates(),
                forall|e: i64|
                    #[trigger] self.index_spec().part(Partition::Active).dom().contains(e) == (
                    if ids@.subrange(0, i as int).contains(e) {
                        pre_chop_membership(old(self).index_spec(), view@, e).0
                    } else {
                        post_classify_active(old(self).index_spec(), view@, e)
                    }),
                forall|e: i64|
                    #[trigger] self.index_spec().part(Partition::Inactive).dom().contains(e) == (
                    if ids@.subrange(0, i as int).contains(e) {
                        pre_chop_membership(old(self).index_spec(), view@, e).1
                    } else {
                        post_classify_inactive(old(self).index_spec(), view@, e)
                    }),
            decreases n - i,
        {
            let e = ids[i];
            proof {
                assert(ids@.contains(e));
                assert(view@.snap.entities.dom().contains(e));
            }
            let ghost mem_prev = self.index_spec();
            if view.fire_request_count(e) > 0 {
                let ghost out_before = out@;
                let ghost idx_before = self.index_spec();
                self.handle_fire_requests(view, e, out);
                proof {
                    let reqs = req_seq(view@.snap.fire_requests, e);
                    let has_res = tree_resources(view@, e) > 0;
                    let b = out_before.len() as int;
                    assert forall|i2: int|
                        base0 <= i2 < out@.len() implies !is_any_set_fire_request(
                        #[trigger] out@[i2],
                    ) by {
                        if i2 >= b {
                            let x = i2 - b;
                            vstd::arithmetic::div_mod::lemma_fundamental_div_mod(x, 3);
                            vstd::arithmetic::div_mod::lemma_mod_bound(x, 3);
                            vstd::arithmetic::div_mod::lemma_div_pos_is_pos(x, 3);
                            let j = x / 3;
                            assert(x == 3 * j + x % 3);
                            assert(0 <= x % 3 < 3);
                            assert(x < 3 * reqs.len());
                            assert(j < reqs.len());
                            assert(fire_ops_for(out@, b + 3 * j, e, reqs[j].0, reqs[j].1, has_res));
                            assert(i2 == b + 3 * j || i2 == b + 3 * j + 1 || i2 == b + 3 * j + 2);
                        } else {
                            assert(out_before =~= out@.subrange(0, b));
                            assert(out@.subrange(0, b)[i2] == out@[i2]);
                            assert(out@[i2] == out_before[i2]);
                        }
                    }
                    assert forall|j2: int, k: int|
                        0 <= j2 < i + 1 && 0 <= k < req_seq(
                            view@.snap.fire_requests,
                            ids@[j2],
                        ).len() implies fire_answered(
                        out@,
                        base0,
                        (#[trigger] req_seq(view@.snap.fire_requests, ids@[j2])[k]).0,
                    ) by {
                        let rid = req_seq(view@.snap.fire_requests, ids@[j2])[k].0;
                        if j2 < i {
                            assert(fire_answered(out_before, base0, rid));
                            lemma_answers_survive(out_before, out@, base0, rid);
                        } else {
                            assert(ids@[j2] == e);
                            assert(fire_ops_for(out@, b + 3 * k, e, reqs[k].0, reqs[k].1, has_res));
                            assert(is_response_to(out@[b + 3 * k + 2], rid));
                            assert(base0 <= b + 3 * k + 2 < out@.len());
                        }
                    }
                    crate::behaviors::client_trees::lemma_purged_after_move(
                        idx_before,
                        self.index_spec(),
                        e,
                        view@,
                    );
                    assert(fire_block_at(out@, b, e, reqs, node_has_resources(view@, e)));
                    assert forall|j2: int|
                        0 <= j2 < i + 1 && #[trigger] req_seq(
                            view@.snap.fire_requests,
                            ids@[j2],
                        ).len() > 0 implies fire_block_answered(
                        out@,
                        base0,
                        view@,
                        ids@[j2],
                    ) by {
                        if j2 < i {
                            let b2 = choose|b2: int|
                                base0 <= b2 && #[trigger] fire_block_at(
                                    out_before,
                                    b2,
                                    ids@[j2],
                                    req_seq(view@.snap.fire_requests, ids@[j2]),
                                    node_has_resources(view@, ids@[j2]),
                                );
                            lemma_blocks_survive(
                                out_before,
                                out@,
                                b2,
                                ids@[j2],
                                Seq::empty(),
                                0,
                                0,
                                req_seq(view@.snap.fire_requests, ids@[j2]),
                                node_has_resources(view@, ids@[j2]),
                            );
                        } else {
                            assert(ids@[j2] == e);
                        }
                    }
                }
            } else {
                proof {
                    assert forall|j2: int, k: int|
                        0 <= j2 < i + 1 && 0 <= k < req_seq(
                            view@.snap.fire_requests,
                            ids@[j2],
                        ).len() implies fire_answered(
                        out@,
                        base0,
                        (#[trigger] req_seq(view@.snap.fire_requests, ids@[j2])[k]).0,
                    ) by {
                        if j2 == i {
                            assert(ids@[j2] == e);
                            assert(req_seq(view@.snap.fire_requests, e).len() == 0);
                        }
                    }
                }
            }
            proof {
                assert forall|e2: i64|
                    #[trigger] self.index_spec().part(Partition::Active).dom().contains(e2) == (
                if ids@.subrange(0, i + 1 as int).contains(e2) {
                    pre_chop_membership(old(self).index_spec(), view@, e2).0
                } else {
                    post_classify_active(old(self).index_spec(), view@, e2)
                }) by {
                    lemma_subrange_grow(ids@, i as int, e2);
                    if e2 != e {
                        assert(self.index_spec().part(Partition::Active).remove(e)
                            .dom().contains(e2) == self.index_spec().part(
                            Partition::Active,
                        ).dom().contains(e2));
                        assert(mem_prev.part(Partition::Active).remove(e).dom().contains(e2)
                            == mem_prev.part(Partition::Active).dom().contains(e2));
                    } else {
                        if req_seq(view@.snap.fire_requests, e).len() == 0 {
                            assert(pre_chop_membership(old(self).index_spec(), view@, e)
                                == fire_fold_mem(
                                post_classify_active(old(self).index_spec(), view@, e),
                                post_classify_inactive(old(self).index_spec(), view@, e),
                                Seq::<(i64, FireRequest)>::empty(),
                                node_has_resources(view@, e),
                            ));
                        }
                    }
                }
                assert forall|e2: i64|
                    #[trigger] self.index_spec().part(Partition::Inactive).dom().contains(e2)
                        == (
                if ids@.subrange(0, i + 1 as int).contains(e2) {
                    pre_chop_membership(old(self).index_spec(), view@, e2).1
                } else {
                    post_classify_inactive(old(self).index_spec(), view@, e2)
                }) by {
                    lemma_subrange_grow(ids@, i as int, e2);
                    if e2 != e {
                        assert(self.index_spec().part(Partition::Inactive).remove(e)
                            .dom().contains(e2) == self.index_spec().part(
                            Partition::Inactive,
                        ).dom().contains(e2));
                        assert(mem_prev.part(Partition::Inactive).remove(e).dom().contains(e2)
                            == mem_prev.part(Partition::Inactive).dom().contains(e2));
                    } else {
                        if req_seq(view@.snap.fire_requests, e).len() == 0 {
                            assert(pre_chop_membership(old(self).index_spec(), view@, e)
                                == fire_fold_mem(
                                post_classify_active(old(self).index_spec(), view@, e),
                                post_classify_inactive(old(self).index_spec(), view@, e),
                                Seq::<(i64, FireRequest)>::empty(),
                                node_has_resources(view@, e),
                            ));
                        }
                    }
                }
            }
            i = i + 1;
        }
        let ghost out_after_fire = out@;
        proof {
            assert(ids@.subrange(0, n as int) =~= ids@);
            view.lemma_requests_live();
            assert forall|e2: i64|
                #[trigger] self.index_spec().part(Partition::Active).dom().contains(e2)
                    == pre_chop_membership(old(self).index_spec(), view@, e2).0 by {
                if !ids@.contains(e2) {
                    assert(!view@.snap.entities.dom().contains(e2));
                    assert(req_seq(view@.snap.fire_requests, e2) =~= Seq::<(
                        i64,
                        FireRequest,
                    )>::empty());
                }
            }
            assert forall|e2: i64|
                #[trigger] self.index_spec().part(Partition::Inactive).dom().contains(e2)
                    == pre_chop_membership(old(self).index_spec(), view@, e2).1 by {
                if !ids@.contains(e2) {
                    assert(!view@.snap.entities.dom().contains(e2));
                    assert(req_seq(view@.snap.fire_requests, e2) =~= Seq::<(
                        i64,
                        FireRequest,
                    )>::empty());
                }
            }
            assert(chop_blocks_done(
                out@,
                base0,
                old(self).index_spec(),
                view@,
                ids@,
                0,
            ));
        }
        let mut i: usize = 0;
        while i < n
            invariant
                self.wf(),
                view.wf(),
                i <= n,
                n == ids@.len(),
                self.spread_num_spec() == old(self).spread_num_spec(),
                self.spread_den_spec() == old(self).spread_den_spec(),
                self.last_spread_spec() == old(self).last_spread_spec(),
                forall|e2: i64| ids@.contains(e2) <==> view@.snap.entities.dom().contains(e2),
                0 <= base0 <= out@.len(),
                old(out)@.is_prefix_of(out@),
                out_after_fire.is_prefix_of(out@),
                crate::behaviors::client_trees::purged(self.index_spec(), view@),
                forall|i2: int|
                    base0 <= i2 < out@.len() ==> !is_any_set_fire_request(#[trigger] out@[i2]),
                forall|j2: int, k: int|
                    0 <= j2 < i && data_of(view@, ids@[j2]).tree is Some && 0 <= k < req_seq(
                        view@.snap.tree_requests,
                        ids@[j2],
                    ).len() ==> chop_answered(
                        out@,
                        base0,
                        #[trigger] req_seq(view@.snap.tree_requests, ids@[j2])[k],
                    ),
                forall|j2: int|
                    0 <= j2 < n && #[trigger] req_seq(
                        view@.snap.fire_requests,
                        ids@[j2],
                    ).len() > 0 ==> fire_block_answered(out@, base0, view@, ids@[j2]),
                chop_blocks_done(
                    out@,
                    base0,
                    old(self).index_spec(),
                    view@,
                    ids@,
                    i as int,
                ),
                ids@.no_duplicates(),
                forall|e: i64|
                    #[trigger] self.index_spec().part(Partition::Active).dom().contains(e) == (
                    if ids@.subrange(0, i as int).contains(e) {
                        final_active(old(self).index_spec(), view@, e)
                    } else {
                        pre_chop_membership(old(self).index_spec(), view@, e).0
                    }),
                forall|e: i64|
                    #[trigger] self.index_spec().part(Partition::Inactive).dom().contains(e) == (
                    if ids@.subrange(0, i as int).contains(e) {
                        final_inactive(old(self).index_spec(), view@, e)
                    } else {
                        pre_chop_membership(old(self).index_spec(), view@, e).1
                    }),
            decreases n - i,
        {
            let e = ids[i];
            proof {
                assert(ids@.contains(e));
                assert(view@.snap.entities.dom().contains(e));
            }
            let ghost mem_prev = self.index_spec();
            let ghost had_tree_requests = req_seq(view@.snap.tree_requests, e).len() > 0;
            if view.tree_request_count(e) > 0 {
                let has_tree = match view.get_tree(e) {
                    Some(_) => true,
                    None => false,
                };
                if has_tree {
                    let ghost out_before = out@;
                    let ghost self_before = *self;
                    let ghost idx_before = self.index_spec();
                    self.handle_chop_requests(view, e, out);
                    proof {
                        let reqs = req_seq(view@.snap.tree_requests, e);
                        let res = tree_resources(view@, e);
                        let b = out_before.len() as int;
                        let inactive0 = self_before.index_spec().part(
                            Partition::Inactive,
                        ).dom().contains(e);
                        assert(inactive0 == inactive_at_chop(old(self).index_spec(), view@, e));
                        let grant: int = if inactive0 {
                            0
                        } else if reqs.len() <= res {
                            reqs.len() as int
                        } else {
                            res
                        };
                        assert(grant == grant_of(old(self).index_spec(), view@, e));
                        let leftover: int = if grant >= res {
                            0
                        } else {
                            res - grant
                        };
                        let reclass = leftover == 0 && res > 0;
                        assert(reclass == chop_drains(old(self).index_spec(), view@, e));
                        assert forall|i2: int|
                            base0 <= i2 < out@.len() implies !is_any_set_fire_request(
                            #[trigger] out@[i2],
                        ) by {
                            if i2 < b {
                                assert(out_before =~= out@.subrange(0, b));
                                assert(out@.subrange(0, b)[i2] == out@[i2]);
                                assert(out@[i2] == out_before[i2]);
                            } else if i2 < b + grant {
                                assert(is_chop_response(out@[b + (i2 - b)], reqs[i2 - b]));
                            } else if i2 < b + reqs.len() {
                                assert(is_chop_failure(out@[b + (i2 - b)], reqs[i2 - b]));
                            } else if i2 == b + reqs.len() {
                                assert(is_tree_update(out@[i2], e, leftover as u32));
                            } else {
                                assert(i2 == b + reqs.len() + 1 && reclass);
                                assert(is_metadata_update(out@[i2], e, "Tree (Empty)"@));
                            }
                        }
                        crate::data::lemma_seq_prefix_trans(out_after_fire, out_before, out@);
                        assert(self.index_spec().part(Partition::Active).remove(e)
                            =~= idx_before.part(Partition::Active).remove(e));
                        assert(self.index_spec().part(Partition::Inactive).remove(e)
                            =~= idx_before.part(Partition::Inactive).remove(e));
                        crate::behaviors::client_trees::lemma_purged_after_move(
                            idx_before,
                            self.index_spec(),
                            e,
                            view@,
                        );
                        assert(chop_block_at(
                            out@,
                            b,
                            e,
                            reqs,
                            grant_of(old(self).index_spec(), view@, e),
                            leftover_of(
                                grant_of(old(self).index_spec(), view@, e),
                                res,
                            ) as u32,
                        ));
                        assert forall|j2: int|
                            0 <= j2 < n && #[trigger] req_seq(
                                view@.snap.fire_requests,
                                ids@[j2],
                            ).len() > 0 implies fire_block_answered(
                            out@,
                            base0,
                            view@,
                            ids@[j2],
                        ) by {
                            let b2 = choose|b2: int|
                                base0 <= b2 && #[trigger] fire_block_at(
                                    out_before,
                                    b2,
                                    ids@[j2],
                                    req_seq(view@.snap.fire_requests, ids@[j2]),
                                    node_has_resources(view@, ids@[j2]),
                                );
                            lemma_blocks_survive(
                                out_before,
                                out@,
                                b2,
                                ids@[j2],
                                Seq::empty(),
                                0,
                                0,
                                req_seq(view@.snap.fire_requests, ids@[j2]),
                                node_has_resources(view@, ids@[j2]),
                            );
                        }
                        lemma_chop_blocks_step(
                            out_before,
                            out@,
                            base0,
                            old(self).index_spec(),
                            view@,
                            ids@,
                            i as int,
                            b,
                        );
                        assert forall|j2: int, k: int|
                            0 <= j2 < i + 1 && data_of(view@, ids@[j2]).tree is Some && 0 <= k
                                < req_seq(view@.snap.tree_requests, ids@[j2]).len() implies chop_answered(
                            out@,
                            base0,
                            #[trigger] req_seq(view@.snap.tree_requests, ids@[j2])[k],
                        ) by {
                            let rid = req_seq(view@.snap.tree_requests, ids@[j2])[k];
                            if j2 < i {
                                assert(chop_answered(out_before, base0, rid));
                                lemma_answers_survive(out_before, out@, base0, rid);
                            } else {
                                assert(ids@[j2] == e);
                                if k < grant {
                                    assert(is_chop_response(out@[b + k], reqs[k]));
                                } else {
                                    assert(is_chop_failure(out@[b + k], reqs[k]));
                                }
                                assert(base0 <= b + k < out@.len());
                            }
                        }
                    }
                }
            }
            proof {
                assert forall|j2: int, k: int|
                    0 <= j2 < i + 1 && data_of(view@, ids@[j2]).tree is Some && 0 <= k < req_seq(
                        view@.snap.tree_requests,
                        ids@[j2],
                    ).len() implies chop_answered(
                    out@,
                    base0,
                    #[trigger] req_seq(view@.snap.tree_requests, ids@[j2])[k],
                ) by {
                    if j2 == i && !had_tree_requests {
                        assert(req_seq(view@.snap.tree_requests, ids@[j2]).len() == 0);
                    }
                }
                if !(data_of(view@, e).tree is Some && req_seq(
                    view@.snap.tree_requests,
                    e,
                ).len() > 0) {
                    lemma_chop_blocks_skip(
                        out@,
                        base0,
                        old(self).index_spec(),
                        view@,
                        ids@,
                        i as int,
                    );
                }
                assert forall|e2: i64|
                    #[trigger] self.index_spec().part(Partition::Active).dom().contains(e2) == (
                if ids@.subrange(0, i + 1 as int).contains(e2) {
                    final_active(old(self).index_spec(), view@, e2)
                } else {
                    pre_chop_membership(old(self).index_spec(), view@, e2).0
                }) by {
                    lemma_subrange_grow(ids@, i as int, e2);
                    if e2 != e {
                        assert(self.index_spec().part(Partition::Active).remove(e)
                            .dom().contains(e2) == self.index_spec().part(
                            Partition::Active,
                        ).dom().contains(e2));
                        assert(mem_prev.part(Partition::Active).remove(e).dom().contains(e2)
                            == mem_prev.part(Partition::Active).dom().contains(e2));
                        assert(self.index_spec().part(Partition::Active).remove(e)
                            =~= mem_prev.part(Partition::Active).remove(e));
                    } else {
                        if !chop_applies(view@, e) {
                            assert(final_active(old(self).index_spec(), view@, e)
                                == pre_chop_membership(old(self).index_spec(), view@, e).0);
                        }
                    }
                }
                assert forall|e2: i64|
                    #[trigger] self.index_spec().part(Partition::Inactive).dom().contains(e2)
                        == (
                if ids@.subrange(0, i + 1 as int).contains(e2) {
                    final_inactive(old(self).index_spec(), view@, e2)
                } else {
                    pre_chop_membership(old(self).index_spec(), view@, e2).1
                }) by {
                    lemma_subrange_grow(ids@, i as int, e2);
                    if e2 != e {
                        assert(self.index_spec().part(Partition::Inactive).remove(e)
                            .dom().contains(e2) == self.index_spec().part(
                            Partition::Inactive,
                        ).dom().contains(e2));
                        assert(mem_prev.part(Partition::Inactive).remove(e).dom().contains(e2)
                            == mem_prev.part(Partition::Inactive).dom().contains(e2));
                        assert(self.index_spec().part(Partition::Inactive).remove(e)
                            =~= mem_prev.part(Partition::Inactive).remove(e));
                    } else {
                        if !chop_applies(view@, e) {
                            assert(final_inactive(old(self).index_spec(), view@, e)
                                == pre_chop_membership(old(self).index_spec(), view@, e).1);
                        }
                    }
                }
            }
            i = i + 1;
        }
        let ghost out_after_chop = out@;
        let elapsed: u64 = if now_millis > self.last_spread_millis {
            now_millis - self.last_spread_millis
        } else {
            0
        };
        let ghost idx_final = self.index_spec();
        if elapsed > FIRE_SPREAD_TIMEOUT_MS {
            self.last_spread_millis = now_millis;
            let ghost out_before = out@;
            self.spread_fires(view, out);
            proof {
                assert(self.index_spec().part(Partition::Active) == idx_final.part(
                    Partition::Active,
                ));
                if old(self).spread_num_spec() == 0 {
                    assert(out@.len() == out_before.len());
                    assert forall|i2: int|
                        base0 <= i2 < out@.len() implies !is_any_set_fire_request(
                        #[trigger] out@[i2],
                    ) by {
                        assert(out@[i2] == out_before[i2]);
                    }
                }
            }
        }
        proof {
            assert forall|i: int|
                base0 <= i < out@.len() && is_any_set_fire_request(
                    #[trigger] out@[i],
                ) implies spread_target(
                view@,
                self.index_spec().part(Partition::Active),
                set_fire_target(out@[i]),
            ) by {
                if i < out_after_chop.len() {
                    crate::data::lemma_seq_prefix_index(out_after_chop, out@, i);
                    assert(!is_any_set_fire_request(out_after_chop[i]));
                    assert(false);
                } else {
                    assert(is_set_fire_request(out@[i], set_fire_target(out@[i])));
                }
            }
            assert forall|i: int, k: int|
                base0 <= i < k < out@.len() && is_any_set_fire_request(#[trigger] out@[i])
                    && is_any_set_fire_request(#[trigger] out@[k]) implies set_fire_target(
                out@[i],
            ) != set_fire_target(out@[k]) by {
                if i < out_after_chop.len() {
                    crate::data::lemma_seq_prefix_index(out_after_chop, out@, i);
                    assert(!is_any_set_fire_request(out_after_chop[i]));
                    assert(false);
                }
            }
            view.lemma_requests_live();
            crate::data::lemma_seq_prefix_trans(out_after_fire, out_after_chop, out@);
            assert(base0 == old(out)@.len() as int);
            assert forall|e: i64|
                #[trigger] req_seq(view@.snap.fire_requests, e).len() > 0 implies fire_block_answered(
                out@,
                old(out)@.len() as int,
                view@,
                e,
            ) by {
                assert(view@.snap.fire_requests.dom().contains(e));
                assert(view@.snap.entities.dom().contains(e));
                assert(ids@.contains(e));
                let j2 = choose|j2: int| 0 <= j2 < ids@.len() && ids@[j2] == e;
                assert(fire_block_answered(out_after_chop, base0, view@, e));
                let b2 = choose|b2: int|
                    base0 <= b2 && #[trigger] fire_block_at(
                        out_after_chop,
                        b2,
                        e,
                        req_seq(view@.snap.fire_requests, e),
                        node_has_resources(view@, e),
                    );
                lemma_blocks_survive(
                    out_after_chop,
                    out@,
                    b2,
                    e,
                    Seq::empty(),
                    0,
                    0,
                    req_seq(view@.snap.fire_requests, e),
                    node_has_resources(view@, e),
                );
                assert(fire_block_answered(out@, old(out)@.len() as int, view@, e));
            }
            assert forall|e: i64|
                data_of(view@, e).tree is Some && #[trigger] req_seq(
                    view@.snap.tree_requests,
                    e,
                ).len() > 0 implies chop_block_answered(
                out@,
                old(out)@.len() as int,
                old(self).index_spec(),
                view@,
                e,
            ) by {
                assert(view@.snap.tree_requests.dom().contains(e));
                assert(view@.snap.entities.dom().contains(e));
                assert(ids@.contains(e));
                let j2 = choose|j2: int| 0 <= j2 < ids@.len() && ids@[j2] == e;
                assert(chop_blocks_done(
                    out_after_chop,
                    base0,
                    old(self).index_spec(),
                    view@,
                    ids@,
                    n as int,
                ));
                assert(chop_block_answered(
                    out_after_chop,
                    base0,
                    old(self).index_spec(),
                    view@,
                    e,
                ));
                let b2 = choose|b2: int|
                    base0 <= b2 && #[trigger] chop_block_at(
                        out_after_chop,
                        b2,
                        e,
                        req_seq(view@.snap.tree_requests, e),
                        grant_of(old(self).index_spec(), view@, e),
                        leftover_of(
                            grant_of(old(self).index_spec(), view@, e),
                            tree_resources(view@, e),
                        ) as u32,
                    );
                lemma_blocks_survive(
                    out_after_chop,
                    out@,
                    b2,
                    e,
                    req_seq(view@.snap.tree_requests, e),
                    grant_of(old(self).index_spec(), view@, e),
                    leftover_of(
                        grant_of(old(self).index_spec(), view@, e),
                        tree_resources(view@, e),
                    ) as u32,
                    Seq::empty(),
                    false,
                );
                assert(chop_block_answered(
                    out@,
                    old(out)@.len() as int,
                    old(self).index_spec(),
                    view@,
                    e,
                ));
            }
            // The final index, entity by entity.
            assert forall|e2: i64|
                #[trigger] self.index_spec().part(Partition::Active).dom().contains(e2)
                    == final_active(old(self).index_spec(), view@, e2) by {
                if !ids@.contains(e2) {
                    assert(!view@.snap.entities.dom().contains(e2));
                    assert(!chop_applies(view@, e2));
                }
            }
            assert forall|e2: i64|
                #[trigger] self.index_spec().part(Partition::Inactive).dom().contains(e2)
                    == final_inactive(old(self).index_spec(), view@, e2) by {
                if !ids@.contains(e2) {
                    assert(!view@.snap.entities.dom().contains(e2));
                    assert(!chop_applies(view@, e2));
                }
            }
            assert forall|e2: i64|
                view@.snap.removed.contains(e2)
                    && !view@.snap.entities.dom().contains(e2) implies !(
            #[trigger] self.index_spec().part(Partition::Active).dom().contains(e2))
                && !self.index_spec().part(Partition::Inactive).dom().contains(e2) by {
                assert(!classify_applies(view@, e2));
                assert(!post_purge_active(old(self).index_spec(), view@, e2));
                assert(!post_purge_inactive(old(self).index_spec(), view@, e2));
                lemma_fire_fold_mem_false(
                    req_seq(view@.snap.fire_requests, e2),
                    node_has_resources(view@, e2),
                );
                assert(!chop_applies(view@, e2));
            }
            assert(crate::behaviors::client_trees::purged(self.index_spec(), view@));
            assert forall|e: i64, k: int|
                0 <= k < req_seq(view@.snap.fire_requests, e).len() implies fire_answered(
                out@,
                base0,
                (#[trigger] req_seq(view@.snap.fire_requests, e)[k]).0,
            ) by {
                let rid = req_seq(view@.snap.fire_requests, e)[k].0;
                assert(view@.snap.fire_requests.dom().contains(e));
                assert(view@.snap.entities.dom().contains(e));
                assert(ids@.contains(e));
                let j2 = choose|j2: int| 0 <= j2 < ids@.len() && ids@[j2] == e;
                assert(fire_answered(out_after_fire, base0, rid));
                lemma_answers_survive(out_after_fire, out@, base0, rid);
            }
            assert forall|e: i64, k: int|
                data_of(view@, e).tree is Some && 0 <= k < req_seq(
                    view@.snap.tree_requests,
                    e,
                ).len() implies chop_answered(
                out@,
                base0,
                #[trigger] req_seq(view@.snap.tree_requests, e)[k],
            ) by {
                let rid = req_seq(view@.snap.tree_requests, e)[k];
                assert(view@.snap.tree_requests.dom().contains(e));
                assert(view@.snap.entities.dom().contains(e));
                assert(ids@.contains(e));
                let j2 = choose|j2: int| 0 <= j2 < ids@.len() && ids@[j2] == e;
                assert(chop_answered(out_after_chop, base0, rid));
                lemma_answers_survive(out_after_chop, out@, base0, rid);
            }
        }
    }
}

} // verus!
