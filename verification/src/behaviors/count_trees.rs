//! The counting worker's node tracker: a reduced resource-node server
//! that keeps one partition of known nodes and answers harvest
//! requests by resource count alone — no hazard handling, no
//! reclassification.

use vstd::prelude::*;
use crate::data::{CommandPayload, OutgoingOp, Tree, UpdateValue};
use crate::spatial::{Partition, SpatialIndex};
use crate::utils::{Coordinates, sq_dist};
use crate::view::{ReplicatedView, data_of, req_seq};
use crate::behaviors::client_trees::{lemma_purged_step, purged};
use crate::behaviors::trees::{is_chop_response, is_tree_update, tree_resources};

verus! {

/// A refused harvest: an explicit failure naming the request id, with
/// this worker's own reason.
pub open spec fn is_chop_refusal(op: OutgoingOp, request_id: i64) -> bool {
    op matches OutgoingOp::CommandFailure { request_id: id, reason } && id == request_id
        && reason@ == "No more resources."@
}

/// Whether the given harvest request id got an answer — a grant or a
/// refusal — somewhere in `s[base..]`.
pub open spec fn count_chop_answered(s: Seq<OutgoingOp>, base: int, request_id: i64) -> bool {
    exists|j: int|
        base <= j < s.len() && (is_chop_response(#[trigger] s[j], request_id) || is_chop_refusal(
            s[j],
            request_id,
        ))
}

/// Answers already given survive when the output only grows.
proof fn lemma_count_answers_survive(
    pre: Seq<OutgoingOp>,
    post: Seq<OutgoingOp>,
    base: int,
    rid: i64,
)
    requires
        pre.is_prefix_of(post),
        0 <= base,
    ensures
        count_chop_answered(pre, base, rid) ==> count_chop_answered(post, base, rid),
{
    if count_chop_answered(pre, base, rid) {
        let j = choose|j: int|
            base <= j < pre.len() && (is_chop_response(#[trigger] pre[j], rid) || is_chop_refusal(
                pre[j],
                rid,
            ));
        crate::data::lemma_seq_prefix_index(pre, post, j);
        assert(is_chop_response(post[j], rid) || is_chop_refusal(post[j], rid));
    }
}

/// The reduced node tracker and harvest server.
pub struct TrackTreesBehaviour {
    index: SpatialIndex,
}

impl TrackTreesBehaviour {
    /// The spatial membership index this behaviour maintains; only the
    /// active partition is ever populated.
    pub closed spec fn index_spec(self) -> SpatialIndex {
        self.index
    }

    /// The index is well formed.
    pub open spec fn wf(self) -> bool {
        self.index_spec().wf()
    }

    /// An empty tracker.
    pub fn new() -> (r: TrackTreesBehaviour)
        ensures
            r.wf(),
            r.index_spec().part(Partition::Active) == Map::<i64, Coordinates>::empty(),
    {
        TrackTreesBehaviour { index: SpatialIndex::new() }
    }

    /// The known nodes strictly within `radius` of `coords`.
    pub fn within(&self, coords: Coordinates, radius: i64) -> (r: Vec<i64>)
        requires
            self.wf(),
            coords.in_bounds(),
            0 <= radius,
        ensures
            r@.no_duplicates(),
            forall|e: i64|
                r@.contains(e) <==> (self.index_spec().part(Partition::Active).dom().contains(e)
                    && sq_dist(self.index_spec().part(Partition::Active)[e], coords) < radius
                    * radius),
    {
        self.index.query_within(Partition::Active, &coords, radius)
    }

    /// Answer the pending harvest requests of one node: grant up to
    /// `min(pending, resources_left)` in arrival order, refuse the
    /// rest, and publish the new resource count.
    pub fn handle_chop_requests(
        &mut self,
        view: &ReplicatedView,
        entity: i64,
        out: &mut Vec<OutgoingOp>,
    )
        requires
            old(self).wf(),
            view.wf(),
            data_of(view@, entity).tree is Some,
        ensures
            final(self).wf(),
            final(self).index_spec() == old(self).index_spec(),
            old(out)@.is_prefix_of(final(out)@),
            ({
                let reqs = req_seq(view@.snap.tree_requests, entity);
                let res = tree_resources(view@, entity);
                let grant: int = if reqs.len() <= res {
                    reqs.len() as int
                } else {
                    res
                };
                let leftover: int = if grant >= res {
                    0
                } else {
                    res - grant
                };
                let base = old(out)@.len() as int;
                &&& final(out)@.len() == base + reqs.len() + 1
                &&& forall|i: int|
                    0 <= i < grant ==> is_chop_response(#[trigger] final(out)@[base + i], reqs[i])
                &&& forall|i: int|
                    grant <= i < reqs.len() ==> is_chop_refusal(
                        #[trigger] final(out)@[base + i],
                        reqs[i],
                    )
                &&& is_tree_update(final(out)@[base + reqs.len()], entity, leftover as u32)
            }),
    {
        let ghost reqs = req_seq(view@.snap.tree_requests, entity);
        let ghost base = out@.len() as int;
        let count = view.tree_request_count(entity);
        let resources_left: u32 = match view.get_tree(entity) {
            Some(t) => t.resources_left,
            None => 0,
        };
        let grant: usize = if count <= resources_left as usize {
            count
        } else {
            resources_left as usize
        };
        let mut i: usize = 0;
        while i < grant
            invariant
                view.wf(),
                i <= grant,
                grant <= count,
                count == reqs.len(),
                reqs == req_seq(view@.snap.tree_requests, entity),
                out@.len() == base + i,
                base == old(out)@.len(),
                old(out)@.is_prefix_of(out@),
                forall|j: int| 0 <= j < i ==> is_chop_response(#[trigger] out@[base + j], reqs[j]),
            decreases grant - i,
        {
            let id = view.tree_request_at(entity, i);
            out.push(
                OutgoingOp::CommandResponse { request_id: id, payload: CommandPayload::TryChop },
            );
            i = i + 1;
        }
        let mut i: usize = grant;
        while i < count
            invariant
                view.wf(),
                grant <= i <= count,
                count == reqs.len(),
                reqs == req_seq(view@.snap.tree_requests, entity),
                out@.len() == base + i,
                base == old(out)@.len(),
                old(out)@.is_prefix_of(out@),
                forall|j: int| 0 <= j < grant ==> is_chop_response(#[trigger] out@[base + j], reqs[j]),
                forall|j: int| grant <= j < i ==> is_chop_refusal(#[trigger] out@[base + j], reqs[j]),
            decreases count - i,
        {
            let id = view.tree_request_at(entity, i);
            out.push(
                OutgoingOp::CommandFailure {
                    request_id: id,
                    reason: "No more resources.".to_owned(),
                },
            );
            i = i + 1;
        }
        let leftover: u32 = if grant as u32 >= resources_left {
            0
        } else {
            resources_left - grant as u32
        };
        out.push(
            OutgoingOp::ComponentUpdate {
                entity,
                value: UpdateValue::Tree(Tree { resources_left: leftover }),
                loopback: true,
            },
        );
    }

    /// One tick: purge removed entities, remember newly observed nodes
    /// with a position, and answer every node's harvest requests: each
    /// pending request at an entity with a resource component is
    /// granted or refused, and every removed-and-gone entity is out of
    /// the index when the tick ends.
    pub fn tick(&mut self, view: &ReplicatedView, out: &mut Vec<OutgoingOp>)
        requires
            old(self).wf(),
            view.wf(),
        ensures
            final(self).wf(),
            old(out)@.is_prefix_of(final(out)@),
            purged(final(self).index_spec(), view@),
            forall|e: i64, k: int|
                data_of(view@, e).tree is Some && 0 <= k < req_seq(
                    view@.snap.tree_requests,
                    e,
                ).len() ==> count_chop_answered(
                    final(out)@,
                    old(out)@.len() as int,
                    #[trigger] req_seq(view@.snap.tree_requests, e)[k],
                ),
    {
        let ghost base0 = out@.len() as int;
        let removed = view.removed_count();
        let mut i: usize = 0;
        while i < removed
            invariant
                self.wf(),
                view.wf(),
                i <= removed,
                removed == view.removed_seq().len(),
                forall|j: int|
                    0 <= j < i ==> !(#[trigger] self.index_spec().part(
                        Partition::Active,
                    ).dom().contains(view.removed_seq()[j])) && !self.index_spec().part(
                        Partition::Inactive,
                    ).dom().contains(view.removed_seq()[j]),
            decreases removed - i,
        {
            let ghost before = self.index_spec();
            let e = view.removed_at(i);
            self.index.remove(e);
            proof {
                assert forall|j: int|
                    0 <= j < i + 1 implies !(#[trigger] self.index_spec().part(
                    Partition::Active,
                ).dom().contains(view.removed_seq()[j])) && !self.index_spec().part(
                    Partition::Inactive,
                ).dom().contains(view.removed_seq()[j]) by {
                    if j < i {
                        assert(!before.part(Partition::Active).dom().contains(
                            view.removed_seq()[j],
                        ));
                        assert(!before.part(Partition::Inactive).dom().contains(
                            view.removed_seq()[j],
                        ));
                    }
                }
            }
            i = i + 1;
        }
        proof {
            view.lemma_removed_seq();
            assert forall|e: i64|
                view@.snap.removed.contains(e) implies !(#[trigger] self.index_spec().part(
                Partition::Active,
            ).dom().contains(e)) && !self.index_spec().part(
                Partition::Inactive,
            ).dom().contains(e) by {
                assert(view.removed_seq().contains(e));
                let j = choose|j: int|
                    0 <= j < view.removed_seq().len() && view.removed_seq()[j] == e;
            }
            assert(purged(self.index_spec(), view@));
        }
        let ids = view.entity_ids();
        let n = ids.len();
        let mut i: usize = 0;
        while i < n
            invariant
                self.wf(),
                view.wf(),
                i <= n,
                n == ids@.len(),
                forall|e2: i64| ids@.contains(e2) <==> view@.snap.entities.dom().contains(e2),
                0 <= base0 <= out@.len(),
                base0 == old(out)@.len(),
                old(out)@.is_prefix_of(out@),
                purged(self.index_spec(), view@),
                forall|j2: int, k: int|
                    0 <= j2 < i && data_of(view@, ids@[j2]).tree is Some && 0 <= k < req_seq(
                        view@.snap.tree_requests,
                        ids@[j2],
                    ).len() ==> count_chop_answered(
                        out@,
                        base0,
                        #[trigger] req_seq(view@.snap.tree_requests, ids@[j2])[k],
                    ),
            decreases n - i,
        {
            let e = ids[i];
            proof {
                assert(ids@.contains(e));
                assert(view@.snap.entities.dom().contains(e));
            }
            if view.was_entity_added(e) {
                let tree = view.get_tree(e);
                let pos = view.get_position(e);
                match (tree, pos) {
                    (Some(_), Some(p)) => {
                        let ghost prev = self.index_spec();
                        self.index.upsert(e, p.coords, Partition::Active);
                        proof {
                            lemma_purged_step(
                                prev,
                                self.index_spec(),
                                e,
                                Partition::Active,
                                view@,
                            );
                        }
                    },
                    _ => {},
                }
            }
            let ghost had_requests = req_seq(view@.snap.tree_requests, e).len() > 0;
            if view.tree_request_count(e) > 0 {
                let has_tree = match view.get_tree(e) {
                    Some(_) => true,
                    None => false,
                };
                if has_tree {
                    let ghost out_before = out@;
                    self.handle_chop_requests(view, e, out);
                    proof {
                        let reqs = req_seq(view@.snap.tree_requests, e);
                        let res = tree_resources(view@, e);
                        let b = out_before.len() as int;
                        let grant: int = if reqs.len() <= res {
                            reqs.len() as int
                        } else {
                            res
                        };
                        crate::data::lemma_seq_prefix_trans(old(out)@, out_before, out@);
                        assert forall|j2: int, k: int|
                            0 <= j2 < i + 1 && data_of(view@, ids@[j2]).tree is Some && 0 <= k
                                < req_seq(
                                view@.snap.tree_requests,
                                ids@[j2],
                            ).len() implies count_chop_answered(
                            out@,
                            base0,
                            #[trigger] req_seq(view@.snap.tree_requests, ids@[j2])[k],
                        ) by {
                            let rid = req_seq(view@.snap.tree_requests, ids@[j2])[k];
                            if j2 < i {
                                assert(count_chop_answered(out_before, base0, rid));
                                lemma_count_answers_survive(out_before, out@, base0, rid);
                            } else {
                                assert(ids@[j2] == e);
                                if k < grant {
                                    assert(is_chop_response(out@[b + k], reqs[k]));
                                } else {
                                    assert(is_chop_refusal(out@[b + k], reqs[k]));
                                }
                                assert(base0 <= b + k < out@.len());
                            }
                        }
                    }
                }
            }
            proof {
                assert forall|j2: int, k: int|
                    0 <= j2 < i + 1 && data_of(view@, ids@[j2]).tree is Some && 0 <= k < req_seq(
                        view@.snap.tree_requests,
                        ids@[j2],
                    ).len() implies count_chop_answered(
                    out@,
                    base0,
                    #[trigger] req_seq(view@.snap.tree_requests, ids@[j2])[k],
                ) by {
                    if j2 == i && !had_requests {
                        assert(req_seq(view@.snap.tree_requests, ids@[j2]).len() == 0);
                    }
                }
            }
            i = i + 1;
        }
        proof {
            view.lemma_requests_live();
            assert forall|e: i64, k: int|
                data_of(view@, e).tree is Some && 0 <= k < req_seq(
                    view@.snap.tree_requests,
                    e,
                ).len() implies count_chop_answered(
                out@,
                base0,
                #[trigger] req_seq(view@.snap.tree_requests, e)[k],
            ) by {
                assert(view@.snap.tree_requests.dom().contains(e));
                assert(view@.snap.entities.dom().contains(e));
                assert(ids@.contains(e));
                let j2 = choose|j2: int| 0 <= j2 < ids@.len() && ids@[j2] == e;
            }
        }
    }
}

} // verus!
