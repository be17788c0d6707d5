//! The scorekeeper behaviour: a deposit target accepts every pending
//! deposit request unconditionally, answers each one, and raises its
//! score by the number of requests.

use vstd::prelude::*;
use crate::data::{CommandPayload, Headquarters, OutgoingOp, UpdateValue};
use crate::view::{ReplicatedView, ViewModel, data_of, req_seq};

verus! {

/// A success response to a deposit request.
pub open spec fn is_deposit_response(op: OutgoingOp, request_id: i64) -> bool {
    op matches OutgoingOp::CommandResponse { request_id: id, payload: CommandPayload::Deposit }
        && id == request_id
}

/// A score update for the entity.
pub open spec fn is_hq_update(op: OutgoingOp, entity: i64, score: u32) -> bool {
    op matches OutgoingOp::ComponentUpdate {
        entity: e,
        value: UpdateValue::Headquarters(h),
        loopback,
    } && e == entity && h.score == score && loopback
}

/// The score of a deposit target in the view, zero when it carries
/// no scorekeeping component.
pub open spec fn hq_score(m: ViewModel, e: i64) -> int {
    match data_of(m, e).headquarters {
        Some(h) => h.score as int,
        None => 0,
    }
}

/// Whether the given deposit request id got its acceptance somewhere
/// in `s[base..]`.
pub open spec fn deposit_answered(s: Seq<OutgoingOp>, base: int, request_id: i64) -> bool {
    exists|j: int| base <= j < s.len() && is_deposit_response(#[trigger] s[j], request_id)
}

/// Acceptances already sent survive when the output only grows.
pub proof fn lemma_deposits_survive(pre: Seq<OutgoingOp>, post: Seq<OutgoingOp>, base: int, rid: i64)
    requires
        pre.is_prefix_of(post),
        0 <= base,
    ensures
        deposit_answered(pre, base, rid) ==> deposit_answered(post, base, rid),
{
    if deposit_answered(pre, base, rid) {
        let j = choose|j: int| base <= j < pre.len() && is_deposit_response(#[trigger] pre[j], rid);
        crate::data::lemma_seq_prefix_index(pre, post, j);
        assert(is_deposit_response(post[j], rid));
    }
}

/// A score update for the entity somewhere in `s[base..]`.
pub open spec fn hq_update_in(s: Seq<OutgoingOp>, base: int, e: i64, score: u32) -> bool {
    exists|j: int| base <= j < s.len() && is_hq_update(#[trigger] s[j], e, score)
}

/// A score update already sent survives when the output only grows.
pub proof fn lemma_hq_update_survives(
    pre: Seq<OutgoingOp>,
    post: Seq<OutgoingOp>,
    base: int,
    e: i64,
    score: u32,
)
    requires
        pre.is_prefix_of(post),
        0 <= base,
    ensures
        hq_update_in(pre, base, e, score) ==> hq_update_in(post, base, e, score),
{
    if hq_update_in(pre, base, e, score) {
        let j = choose|j: int| base <= j < pre.len() && is_hq_update(#[trigger] pre[j], e, score);
        crate::data::lemma_seq_prefix_index(pre, post, j);
        assert(is_hq_update(post[j], e, score));
    }
}

/// Scorekeeper traffic: a deposit acceptance or a score update.
pub open spec fn is_hq_traffic_op(op: OutgoingOp) -> bool {
    ||| exists|rid: i64| is_deposit_response(op, rid)
    ||| exists|e: i64, sc: u32| is_hq_update(op, e, sc)
}

/// Everything in `s[base..]` is scorekeeper traffic.
pub open spec fn only_hq_traffic(s: Seq<OutgoingOp>, base: int) -> bool {
    forall|i: int| base <= i < s.len() ==> is_hq_traffic_op(#[trigger] s[i])
}

/// Appending one target's answers keeps the output scorekeeper
/// traffic.
proof fn lemma_only_hq_traffic_extend(
    pre: Seq<OutgoingOp>,
    post: Seq<OutgoingOp>,
    base: int,
    entity: i64,
    sc: u32,
)
    requires
        only_hq_traffic(pre, base),
        pre.is_prefix_of(post),
        0 <= base <= pre.len(),
        forall|i: int|
            pre.len() <= i < post.len() ==> ((exists|rid: i64|
                is_deposit_response(#[trigger] post[i], rid)) || is_hq_update(
                post[i],
                entity,
                sc,
            )),
    ensures
        only_hq_traffic(post, base),
{
    assert forall|i: int| base <= i < post.len() implies is_hq_traffic_op(#[trigger] post[i]) by {
        if i < pre.len() {
            crate::data::lemma_seq_prefix_index(pre, post, i);
            assert(is_hq_traffic_op(pre[i]));
        } else {
            if !(exists|rid: i64| is_deposit_response(#[trigger] post[i], rid)) {
                assert(is_hq_update(post[i], entity, sc));
            }
        }
    }
}

/// The saturating score after accepting `n` deposits on top of `score`.
pub open spec fn raised_score(score: int, n: int) -> int {
    if score + n <= u32::MAX {
        score + n
    } else {
        u32::MAX as int
    }
}

/// The scorekeeper behaviour of the game-logic worker.
pub struct HqBehaviour {}

impl HqBehaviour {
    /// A scorekeeper behaviour.
    pub fn new() -> (r: HqBehaviour)
        ensures
            true,
    {
        HqBehaviour {  }
    }

    /// Answer the pending deposit requests of one target: accept each
    /// in arrival order and publish the raised score (saturating at
    /// the counter's capacity).
    pub fn handle_deposits(
        &mut self,
        view: &ReplicatedView,
        entity: i64,
        out: &mut Vec<OutgoingOp>,
    )
        requires
            view.wf(),
            data_of(view@, entity).headquarters is Some,
        ensures
            old(out)@.is_prefix_of(final(out)@),
            ({
                let reqs = req_seq(view@.snap.hq_requests, entity);
                let score = hq_score(view@, entity);
                let new_score: int = if score + reqs.len() <= u32::MAX {
                    score + reqs.len()
                } else {
                    u32::MAX as int
                };
                let base = old(out)@.len() as int;
                &&& final(out)@.len() == base + reqs.len() + 1
                &&& forall|i: int|
                    0 <= i < reqs.len() ==> is_deposit_response(
                        #[trigger] final(out)@[base + i],
                        reqs[i],
                    )
                &&& is_hq_update(final(out)@.last(), entity, new_score as u32)
                &&& forall|i: int|
                    base <= i < final(out)@.len() ==> ((exists|rid: i64|
                        is_deposit_response(#[trigger] final(out)@[i], rid)) || is_hq_update(
                        final(out)@[i],
                        entity,
                        new_score as u32,
                    ))
                &&& forall|i: int, e2: i64, sc: u32|
                    base <= i < final(out)@.len() && #[trigger] is_hq_update(
                        final(out)@[i],
                        e2,
                        sc,
                    ) ==> i == base + reqs.len() && e2 == entity && sc == new_score as u32
            }),
    {
        let ghost reqs = req_seq(view@.snap.hq_requests, entity);
        let ghost base = out@.len() as int;
        let count = view.hq_request_count(entity);
        let score: u32 = match view.get_headquarters(entity) {
            Some(h) => h.score,
            None => 0,
        };
        let mut i: usize = 0;
        while i < count
            invariant
                view.wf(),
                i <= count,
                count == reqs.len(),
                reqs == req_seq(view@.snap.hq_requests, entity),
                out@.len() == base + i,
                base == old(out)@.len(),
                old(out)@.is_prefix_of(out@),
                forall|j: int|
                    0 <= j < i ==> is_deposit_response(#[trigger] out@[base + j], reqs[j]),
            decreases count - i,
        {
            let id = view.hq_request_at(entity, i);
            out.push(
                OutgoingOp::CommandResponse { request_id: id, payload: CommandPayload::Deposit },
            );
            i = i + 1;
        }
        let total: u128 = score as u128 + count as u128;
        let new_score: u32 = if total > u32::MAX as u128 {
            u32::MAX
        } else {
            total as u32
        };
        out.push(
            OutgoingOp::ComponentUpdate {
                entity,
                value: UpdateValue::Headquarters(Headquarters { score: new_score }),
                loopback: true,
            },
        );
        proof {
            assert forall|i2: int|
                base <= i2 < out@.len() implies ((exists|rid: i64|
                is_deposit_response(#[trigger] out@[i2], rid)) || is_hq_update(
                out@[i2],
                entity,
                new_score,
            )) by {
                if i2 < base + reqs.len() {
                    assert(is_deposit_response(out@[base + (i2 - base)], reqs[i2 - base]));
                } else {
                    assert(i2 == base + reqs.len());
                    assert(is_hq_update(out@[i2], entity, new_score));
                }
            }
            assert forall|i2: int, e2: i64, sc: u32|
                base <= i2 < out@.len() && #[trigger] is_hq_update(
                    out@[i2],
                    e2,
                    sc,
                ) implies i2 == base + reqs.len() && e2 == entity && sc == new_score by {
                if i2 < base + reqs.len() {
                    assert(is_deposit_response(out@[base + (i2 - base)], reqs[i2 - base]));
                }
            }
        }
    }

    /// One tick: answer the deposit requests of every scorekeeping
    /// entity the view knows.  Every pending deposit request of such
    /// an entity is accepted, the raised score (saturating at the
    /// counter's capacity) is published for each such entity, and
    /// nothing but deposit acceptances and score updates is appended.
    pub fn tick(&mut self, view: &ReplicatedView, out: &mut Vec<OutgoingOp>)
        requires
            view.wf(),
        ensures
            old(out)@.is_prefix_of(final(out)@),
            forall|e: i64, k: int|
                data_of(view@, e).headquarters is Some && 0 <= k < req_seq(
                    view@.snap.hq_requests,
                    e,
                ).len() ==> deposit_answered(
                    final(out)@,
                    old(out)@.len() as int,
                    #[trigger] req_seq(view@.snap.hq_requests, e)[k],
                ),
            forall|e: i64|
                data_of(view@, e).headquarters is Some && #[trigger] req_seq(
                    view@.snap.hq_requests,
                    e,
                ).len() > 0 ==> hq_update_in(
                    final(out)@,
                    old(out)@.len() as int,
                    e,
                    raised_score(
                        hq_score(view@, e),
                        req_seq(view@.snap.hq_requests, e).len() as int,
                    ) as u32,
                ),
            only_hq_traffic(final(out)@, old(out)@.len() as int),
            forall|j: int, e: i64, sc: u32|
                old(out)@.len() <= j < final(out)@.len() && #[trigger] is_hq_update(
                    final(out)@[j],
                    e,
                    sc,
                ) ==> (data_of(view@, e).headquarters is Some && req_seq(
                    view@.snap.hq_requests,
                    e,
                ).len() > 0 && sc == raised_score(
                    hq_score(view@, e),
                    req_seq(view@.snap.hq_requests, e).len() as int,
                ) as u32),
            forall|j1: int, j2: int, e: i64, sc1: u32, sc2: u32|
                #![trigger is_hq_update(final(out)@[j1], e, sc1), is_hq_update(final(out)@[j2], e, sc2)]
                old(out)@.len() <= j1 < j2 < final(out)@.len() && is_hq_update(
                    final(out)@[j1],
                    e,
                    sc1,
                ) && is_hq_update(final(out)@[j2], e, sc2) ==> false,
    {
        let ghost base0 = out@.len() as int;
        let ids = view.entity_ids();
        let n = ids.len();
        let mut i: usize = 0;
        while i < n
            invariant
                view.wf(),
                i <= n,
                n == ids@.len(),
                forall|e2: i64| ids@.contains(e2) <==> view@.snap.entities.dom().contains(e2),
                0 <= base0 <= out@.len(),
                base0 == old(out)@.len(),
                old(out)@.is_prefix_of(out@),
                forall|j2: int, k: int|
                    0 <= j2 < i && data_of(view@, ids@[j2]).headquarters is Some && 0 <= k
                        < req_seq(view@.snap.hq_requests, ids@[j2]).len() ==> deposit_answered(
                        out@,
                        base0,
                        #[trigger] req_seq(view@.snap.hq_requests, ids@[j2])[k],
                    ),
                forall|j2: int|
                    0 <= j2 < i && data_of(view@, #[trigger] ids@[j2]).headquarters is Some
                        && req_seq(view@.snap.hq_requests, ids@[j2]).len() > 0 ==> hq_update_in(
                        out@,
                        base0,
                        ids@[j2],
                        raised_score(
                            hq_score(view@, ids@[j2]),
                            req_seq(view@.snap.hq_requests, ids@[j2]).len() as int,
                        ) as u32,
                    ),
                only_hq_traffic(out@, base0),
                ids@.no_duplicates(),
                forall|j: int, e2: i64, sc: u32|
                    base0 <= j < out@.len() && #[trigger] is_hq_update(out@[j], e2, sc) ==> (
                    data_of(view@, e2).headquarters is Some && req_seq(
                        view@.snap.hq_requests,
                        e2,
                    ).len() > 0 && sc == raised_score(
                        hq_score(view@, e2),
                        req_seq(view@.snap.hq_requests, e2).len() as int,
                    ) as u32 && ids@.subrange(0, i as int).contains(e2)),
                forall|j1: int, j2: int, e2: i64, sc1: u32, sc2: u32|
                    #![trigger is_hq_update(out@[j1], e2, sc1), is_hq_update(out@[j2], e2, sc2)]
                    base0 <= j1 < j2 < out@.len() && is_hq_update(out@[j1], e2, sc1)
                        && is_hq_update(out@[j2], e2, sc2) ==> false,
            decreases n - i,
        {
            let e = ids[i];
            let has_hq = match view.get_headquarters(e) {
                Some(_) => true,
                None => false,
            };
            if has_hq && view.hq_request_count(e) > 0 {
                let ghost out_before = out@;
                self.handle_deposits(view, e, out);
                proof {
                    let reqs = req_seq(view@.snap.hq_requests, e);
                    let b = out_before.len() as int;
                    let sc = raised_score(hq_score(view@, e), reqs.len() as int) as u32;
                    assert(is_hq_update(out@[out@.len() - 1], e, sc));
                    assert(hq_update_in(out@, base0, e, sc));
                    assert forall|j2: int|
                        0 <= j2 < i + 1 && data_of(view@, #[trigger] ids@[j2]).headquarters
                            is Some && req_seq(view@.snap.hq_requests, ids@[j2]).len()
                            > 0 implies hq_update_in(
                        out@,
                        base0,
                        ids@[j2],
                        raised_score(
                            hq_score(view@, ids@[j2]),
                            req_seq(view@.snap.hq_requests, ids@[j2]).len() as int,
                        ) as u32,
                    ) by {
                        if j2 < i {
                            lemma_hq_update_survives(
                                out_before,
                                out@,
                                base0,
                                ids@[j2],
                                raised_score(
                                    hq_score(view@, ids@[j2]),
                                    req_seq(view@.snap.hq_requests, ids@[j2]).len() as int,
                                ) as u32,
                            );
                        }
                    }
                    lemma_only_hq_traffic_extend(out_before, out@, base0, e, sc);
                    let b = out_before.len() as int;
                    assert forall|j: int, e2: i64, sc2: u32|
                        base0 <= j < out@.len() && #[trigger] is_hq_update(
                        out@[j],
                        e2,
                        sc2,
                    ) implies (data_of(view@, e2).headquarters is Some && req_seq(
                        view@.snap.hq_requests,
                        e2,
                    ).len() > 0 && sc2 == raised_score(
                        hq_score(view@, e2),
                        req_seq(view@.snap.hq_requests, e2).len() as int,
                    ) as u32 && ids@.subrange(0, i + 1 as int).contains(e2)) by {
                        if j < b {
                            crate::data::lemma_seq_prefix_index(out_before, out@, j);
                            assert(is_hq_update(out_before[j], e2, sc2));
                            let kk = choose|kk: int|
                                0 <= kk < i && #[trigger] ids@.subrange(0, i as int)[kk] == e2;
                            assert(ids@.subrange(0, i + 1 as int)[kk] == e2);
                        } else {
                            assert(j == b + reqs.len() && e2 == e && sc2 == sc);
                            assert(ids@.subrange(0, i + 1 as int)[i as int] == e);
                        }
                    }
                    assert forall|j1: int, j2: int, e2: i64, sc1: u32, sc2: u32|
                        #![trigger is_hq_update(out@[j1], e2, sc1), is_hq_update(out@[j2], e2, sc2)]
                        base0 <= j1 < j2 < out@.len() && is_hq_update(out@[j1], e2, sc1)
                            && is_hq_update(out@[j2], e2, sc2) implies false by {
                        if j2 < b {
                            crate::data::lemma_seq_prefix_index(out_before, out@, j1);
                            crate::data::lemma_seq_prefix_index(out_before, out@, j2);
                        } else if j1 < b {
                            crate::data::lemma_seq_prefix_index(out_before, out@, j1);
                            assert(is_hq_update(out_before[j1], e2, sc1));
                            assert(ids@.subrange(0, i as int).contains(e2));
                            let kk = choose|kk: int|
                                0 <= kk < i && #[trigger] ids@.subrange(0, i as int)[kk] == e2;
                            assert(ids@[kk] == e2);
                            assert(j2 == b + reqs.len() && e2 == e);
                            assert(ids@[kk] != ids@[i as int]);
                        } else {
                            assert(j1 == b + reqs.len() && j2 == b + reqs.len());
                        }
                    }
                    assert forall|j2: int, k: int|
                        0 <= j2 < i + 1 && data_of(view@, ids@[j2]).headquarters is Some && 0 <= k
                            < req_seq(view@.snap.hq_requests, ids@[j2]).len() implies deposit_answered(
                        out@,
                        base0,
                        #[trigger] req_seq(view@.snap.hq_requests, ids@[j2])[k],
                    ) by {
                        let rid = req_seq(view@.snap.hq_requests, ids@[j2])[k];
                        if j2 < i {
                            assert(deposit_answered(out_before, base0, rid));
                            lemma_deposits_survive(out_before, out@, base0, rid);
                        } else {
                            assert(ids@[j2] == e);
                            assert(is_deposit_response(out@[b + k], reqs[k]));
                            assert(base0 <= b + k < out@.len());
                        }
                    }
                }
            }
            i = i + 1;
        }
        proof {
            view.lemma_requests_live();
            assert forall|e: i64, k: int|
                data_of(view@, e).headquarters is Some && 0 <= k < req_seq(
                    view@.snap.hq_requests,
                    e,
                ).len() implies deposit_answered(
                out@,
                base0,
                #[trigger] req_seq(view@.snap.hq_requests, e)[k],
            ) by {
                assert(view@.snap.hq_requests.dom().contains(e));
                assert(view@.snap.entities.dom().contains(e));
                assert(ids@.contains(e));
                let j2 = choose|j2: int| 0 <= j2 < ids@.len() && ids@[j2] == e;
            }
            assert forall|e: i64|
                data_of(view@, e).headquarters is Some && #[trigger] req_seq(
                    view@.snap.hq_requests,
                    e,
                ).len() > 0 implies hq_update_in(
                out@,
                base0,
                e,
                raised_score(
                    hq_score(view@, e),
                    req_seq(view@.snap.hq_requests, e).len() as int,
                ) as u32,
            ) by {
                assert(view@.snap.hq_requests.dom().contains(e));
                assert(view@.snap.entities.dom().contains(e));
                assert(ids@.contains(e));
                let j2 = choose|j2: int| 0 <= j2 < ids@.len() && ids@[j2] == e;
            }
        }
    }
}

} // verus!
