//! The client worker's node tracker: it answers no requests, it only
//! keeps a spatial membership index in step with the view's change
//! sets.  Membership moves between the partitions when a component
//! update reports a node drained dry or its hazard flag toggling, in
//! the same tick as the triggering update.

use vstd::prelude::*;
use crate::data::ComponentKind;
use crate::spatial::{Partition, SpatialIndex};
use crate::utils::{Coordinates, sq_dist};
use crate::view::ReplicatedView;

verus! {

/// Every entity the view removed this tick and did not observe anew
/// is out of both partitions.
pub open spec fn purged(idx: SpatialIndex, m: crate::view::ViewModel) -> bool {
    forall|e2: i64|
        m.snap.removed.contains(e2) && !m.snap.entities.dom().contains(e2) ==> !(
        #[trigger] idx.part(Partition::Active).dom().contains(e2)) && !idx.part(
            Partition::Inactive,
        ).dom().contains(e2)
}

/// Reclassifying one live entity preserves the purge property: no
/// removed-and-gone entity reappears in either partition.
pub(crate) proof fn lemma_purged_step(
    prev: SpatialIndex,
    cur: SpatialIndex,
    e: i64,
    partition: Partition,
    m: crate::view::ViewModel,
)
    requires
        purged(prev, m),
        m.snap.entities.dom().contains(e),
        cur.part(partition) == prev.part(partition).insert(e, cur.part(partition)[e]),
        cur.part(crate::spatial::other_partition(partition)) == prev.part(
            crate::spatial::other_partition(partition),
        ).remove(e),
    ensures
        purged(cur, m),
{
    assert forall|e2: i64|
        m.snap.removed.contains(e2) && !m.snap.entities.dom().contains(e2) implies !(
    #[trigger] cur.part(Partition::Active).dom().contains(e2)) && !cur.part(
        Partition::Inactive,
    ).dom().contains(e2) by {
        assert(e2 != e);
        assert(!prev.part(Partition::Active).dom().contains(e2));
        assert(!prev.part(Partition::Inactive).dom().contains(e2));
        match partition {
            Partition::Active => {},
            Partition::Inactive => {},
        }
    }
}

/// Resource count of an entity in the view, zero when it carries none.
pub open spec fn client_resources(m: crate::view::ViewModel, e: i64) -> int {
    match crate::view::data_of(m, e).tree {
        Some(t) => t.resources_left as int,
        None => 0,
    }
}

/// Whether the entity's hazard flag is set.
pub open spec fn client_burning(m: crate::view::ViewModel, e: i64) -> bool {
    match crate::view::data_of(m, e).fire {
        Some(f) => f.is_on_fire,
        None => false,
    }
}

/// The entity's position; meaningful only when it has one.
pub open spec fn client_coords(m: crate::view::ViewModel, e: i64) -> Coordinates {
    match crate::view::data_of(m, e).position {
        Some(p) => p.coords,
        None => Coordinates { x: 0, y: 0, z: 0 },
    }
}

/// What the tracker owes one live entity after a tick, given the
/// view's change sets: a newly observed node with all three components
/// is classified by the availability predicate; an already-tracked
/// node follows its updates — a hazard set bars it from the available
/// partition, a hazard clear bars it from the unavailable one, and a
/// node drained dry (with no hazard toggle the same tick) leaves the
/// available partition.
pub open spec fn classified(idx: SpatialIndex, m: crate::view::ViewModel, e: i64) -> bool {
    &&& (m.snap.added.contains(e) && crate::view::data_of(m, e).tree is Some
        && crate::view::data_of(m, e).position is Some && crate::view::data_of(m, e).fire
        is Some ==> ({
        let coords = client_coords(m, e);
        if client_resources(m, e) > 0 && !client_burning(m, e) {
            idx.part(Partition::Active).dom().contains(e) && idx.part(Partition::Active)[e]
                == coords
        } else {
            idx.part(Partition::Inactive).dom().contains(e) && idx.part(Partition::Inactive)[e]
                == coords
        }
    }))
    &&& (!m.snap.added.contains(e) && m.snap.updated.contains((e, ComponentKind::Fire))
        && client_burning(m, e) ==> !idx.part(Partition::Active).dom().contains(e))
    &&& (!m.snap.added.contains(e) && m.snap.updated.contains((e, ComponentKind::Fire))
        && !client_burning(m, e) ==> !idx.part(Partition::Inactive).dom().contains(e))
    &&& (!m.snap.added.contains(e) && !m.snap.updated.contains((e, ComponentKind::Fire))
        && m.snap.updated.contains((e, ComponentKind::Tree)) && crate::view::data_of(m, e).tree
        is Some && client_resources(m, e) == 0 ==> !idx.part(Partition::Active).dom().contains(
        e,
    ))
}

/// An upsert of one entity leaves every other entity's membership and
/// recorded position as they were.
proof fn lemma_upsert_keeps_others(
    prev: SpatialIndex,
    cur: SpatialIndex,
    changed: i64,
    e: i64,
    partition: Partition,
)
    requires
        e != changed,
        cur.part(partition) == prev.part(partition).insert(changed, cur.part(partition)[changed]),
        cur.part(crate::spatial::other_partition(partition)) == prev.part(
            crate::spatial::other_partition(partition),
        ).remove(changed),
    ensures
        forall|p: Partition|
            #[trigger] cur.part(p).dom().contains(e) == prev.part(p).dom().contains(e),
        forall|p: Partition|
            prev.part(p).dom().contains(e) ==> #[trigger] cur.part(p)[e] == prev.part(p)[e],
{
    assert forall|p: Partition|
        #[trigger] cur.part(p).dom().contains(e) == prev.part(p).dom().contains(e) by {
        match partition {
            Partition::Active => {},
            Partition::Inactive => {},
        }
        match p {
            Partition::Active => {},
            Partition::Inactive => {},
        }
    }
    assert forall|p: Partition|
        prev.part(p).dom().contains(e) implies #[trigger] cur.part(p)[e] == prev.part(p)[e] by {
        match partition {
            Partition::Active => {},
            Partition::Inactive => {},
        }
        match p {
            Partition::Active => {},
            Partition::Inactive => {},
        }
    }
}

/// Reclassifying one entity leaves every other entity classified.
proof fn lemma_classified_keep(
    prev: SpatialIndex,
    cur: SpatialIndex,
    changed: i64,
    e: i64,
    partition: Partition,
    m: crate::view::ViewModel,
)
    requires
        classified(prev, m, e),
        e != changed,
        cur.part(partition) == prev.part(partition).insert(changed, cur.part(partition)[changed]),
        cur.part(crate::spatial::other_partition(partition)) == prev.part(
            crate::spatial::other_partition(partition),
        ).remove(changed),
    ensures
        classified(cur, m, e),
{
    lemma_upsert_keeps_others(prev, cur, changed, e, partition);
    assert(cur.part(Partition::Active).dom().contains(e) == prev.part(
        Partition::Active,
    ).dom().contains(e));
    assert(cur.part(Partition::Inactive).dom().contains(e) == prev.part(
        Partition::Inactive,
    ).dom().contains(e));
    if prev.part(Partition::Active).dom().contains(e) {
        assert(cur.part(Partition::Active)[e] == prev.part(Partition::Active)[e]);
    }
    if prev.part(Partition::Inactive).dom().contains(e) {
        assert(cur.part(Partition::Inactive)[e] == prev.part(Partition::Inactive)[e]);
    }
}

/// A handler that moves only one live entity between the partitions
/// (in either direction, or not at all) preserves the purge property.
pub(crate) proof fn lemma_purged_after_move(
    prev: SpatialIndex,
    cur: SpatialIndex,
    e: i64,
    m: crate::view::ViewModel,
)
    requires
        purged(prev, m),
        m.snap.entities.dom().contains(e),
        cur.part(Partition::Active).remove(e) == prev.part(Partition::Active).remove(e),
        cur.part(Partition::Inactive).remove(e) == prev.part(Partition::Inactive).remove(e),
    ensures
        purged(cur, m),
{
    assert forall|e2: i64|
        m.snap.removed.contains(e2) && !m.snap.entities.dom().contains(e2) implies !(
    #[trigger] cur.part(Partition::Active).dom().contains(e2)) && !cur.part(
        Partition::Inactive,
    ).dom().contains(e2) by {
        assert(e2 != e);
        assert(!prev.part(Partition::Active).dom().contains(e2));
        assert(!prev.part(Partition::Inactive).dom().contains(e2));
        assert(cur.part(Partition::Active).remove(e).dom().contains(e2) == cur.part(
            Partition::Active,
        ).dom().contains(e2));
        assert(cur.part(Partition::Inactive).remove(e).dom().contains(e2) == cur.part(
            Partition::Inactive,
        ).dom().contains(e2));
    }
}

/// The node tracker of the client worker.
pub struct TrackTreesBehaviour {
    index: SpatialIndex,
}

impl TrackTreesBehaviour {
    /// The spatial membership index this behaviour maintains.
    pub closed spec fn index_spec(self) -> SpatialIndex {
        self.index
    }

    /// The index is well formed.
    pub open spec fn wf(self) -> bool {
        self.index_spec().wf()
    }

    /// An empty tracker.
    pub fn new() -> (r: TrackTreesBehaviour)
        ensures
            r.wf(),
            r.index_spec().part(Partition::Active) == Map::<i64, Coordinates>::empty(),
            r.index_spec().part(Partition::Inactive) == Map::<i64, Coordinates>::empty(),
    {
        TrackTreesBehaviour { index: SpatialIndex::new() }
    }

    /// The available nodes strictly within `radius` of `coords`.
    pub fn within_active(&self, coords: Coordinates, radius: i64) -> (r: Vec<i64>)
        requires
            self.wf(),
            coords.in_bounds(),
            0 <= radius,
        ensures
            r@.no_duplicates(),
            forall|e: i64|
                r@.contains(e) <==> (self.index_spec().part(Partition::Active).dom().contains(e)
                    && sq_dist(self.index_spec().part(Partition::Active)[e], coords) < radius
                    * radius),
    {
        self.index.query_within(Partition::Active, &coords, radius)
    }

    /// The depleted or burning nodes strictly within `radius` of `coords`.
    pub fn within_inactive(&self, coords: Coordinates, radius: i64) -> (r: Vec<i64>)
        requires
            self.wf(),
            coords.in_bounds(),
            0 <= radius,
        ensures
            r@.no_duplicates(),
            forall|e: i64|
                r@.contains(e) <==> (self.index_spec().part(
                    Partition::Inactive,
                ).dom().contains(e) && sq_dist(
                    self.index_spec().part(Partition::Inactive)[e],
                    coords,
                ) < radius * radius),
    {
        self.index.query_within(Partition::Inactive, &coords, radius)
    }

    /// Whether the tracker currently lists the node in the partition.
    pub fn contains(&self, partition: Partition, entity: i64) -> (r: bool)
        requires
            self.wf(),
        ensures
            r == self.index_spec().part(partition).dom().contains(entity),
    {
        self.index.contains(partition, entity)
    }

    /// One tick: purge removed entities, classify newly observed
    /// nodes once from their current components, and reclassify
    /// already-tracked nodes whose resource count or hazard flag
    /// changed — in the same tick as the triggering update.  Every
    /// entity the view removed this tick (and did not observe anew) is
    /// out of both partitions when the tick ends.
    pub fn tick(&mut self, view: &ReplicatedView)
        requires
            old(self).wf(),
            view.wf(),
        ensures
            final(self).wf(),
            purged(final(self).index_spec(), view@),
            forall|e2: i64|
                #[trigger] view@.snap.entities.dom().contains(e2) ==> classified(
                    final(self).index_spec(),
                    view@,
                    e2,
                ),
    {
        let removed = view.removed_count();
        let mut i: usize = 0;
        while i < removed
            invariant
                self.wf(),
                view.wf(),
                i <= removed,
                removed == view.removed_seq().len(),
                forall|j: int|
                    0 <= j < i ==> !(#[trigger] self.index_spec().part(
                        Partition::Active,
                    ).dom().contains(view.removed_seq()[j])) && !self.index_spec().part(
                        Partition::Inactive,
                    ).dom().contains(view.removed_seq()[j]),
            decreases removed - i,
        {
            let ghost before = self.index_spec();
            let e = view.removed_at(i);
            self.index.remove(e);
            proof {
                assert forall|j: int|
                    0 <= j < i + 1 implies !(#[trigger] self.index_spec().part(
                    Partition::Active,
                ).dom().contains(view.removed_seq()[j])) && !self.index_spec().part(
                    Partition::Inactive,
                ).dom().contains(view.removed_seq()[j]) by {
                    if j < i {
                        assert(!before.part(Partition::Active).dom().contains(
                            view.removed_seq()[j],
                        ));
                        assert(!before.part(Partition::Inactive).dom().contains(
                            view.removed_seq()[j],
                        ));
                    }
                }
            }
            i = i + 1;
        }
        proof {
            view.lemma_removed_seq();
            assert forall|e: i64|
                view@.snap.removed.contains(e) implies !(#[trigger] self.index_spec().part(
                Partition::Active,
            ).dom().contains(e)) && !self.index_spec().part(
                Partition::Inactive,
            ).dom().contains(e) by {
                assert(view.removed_seq().contains(e));
                let j = choose|j: int|
                    0 <= j < view.removed_seq().len() && view.removed_seq()[j] == e;
            }
            assert(purged(self.index_spec(), view@));
        }
        let ids = view.entity_ids();
        let n = ids.len();
        let mut i: usize = 0;
        while i < n
            invariant
                self.wf(),
                view.wf(),
                i <= n,
                n == ids@.len(),
                ids@.no_duplicates(),
                forall|e2: i64| ids@.contains(e2) <==> view@.snap.entities.dom().contains(e2),
                purged(self.index_spec(), view@),
                forall|j2: int|
                    0 <= j2 < i ==> classified(self.index_spec(), view@, #[trigger] ids@.index(j2)),
            decreases n - i,
        {
            let e = ids[i];
            proof {
                assert(ids@.contains(e));
                assert(view@.snap.entities.dom().contains(e));
            }
            let newly_added = view.was_entity_added(e);
            if newly_added {
                let tree = view.get_tree(e);
                let pos = view.get_position(e);
                let fire = view.get_fire(e);
                match (tree, pos, fire) {
                    (Some(t), Some(p), Some(f)) => {
                        let partition = if t.resources_left > 0 && !f.is_on_fire {
                            Partition::Active
                        } else {
                            Partition::Inactive
                        };
                        let ghost prev = self.index_spec();
                        self.index.upsert(e, p.coords, partition);
                        proof {
                            lemma_purged_step(prev, self.index_spec(), e, partition, view@);
                            assert forall|j2: int|
                                0 <= j2 < i implies classified(
                                self.index_spec(),
                                view@,
                                #[trigger] ids@.index(j2),
                            ) by {
                                lemma_classified_keep(
                                    prev,
                                    self.index_spec(),
                                    e,
                                    ids@[j2],
                                    partition,
                                    view@,
                                );
                            }
                        }
                    },
                    _ => {},
                }
            }
            if !newly_added && view.was_component_updated(e, ComponentKind::Tree) {
                let drained = match view.get_tree(e) {
                    Some(t) => t.resources_left == 0,
                    None => false,
                };
                if drained {
                    match self.index.position_in(Partition::Active, e) {
                        Some(coords) => {
                            let ghost prev = self.index_spec();
                            self.index.upsert(e, coords, Partition::Inactive);
                            proof {
                                lemma_purged_step(
                                    prev,
                                    self.index_spec(),
                                    e,
                                    Partition::Inactive,
                                    view@,
                                );
                                assert forall|j2: int|
                                    0 <= j2 < i implies classified(
                                    self.index_spec(),
                                    view@,
                                    #[trigger] ids@.index(j2),
                                ) by {
                                    lemma_classified_keep(
                                        prev,
                                        self.index_spec(),
                                        e,
                                        ids@[j2],
                                        Partition::Inactive,
                                        view@,
                                    );
                                }
                            }
                        },
                        None => {},
                    }
                }
            }
            if !newly_added && view.was_component_updated(e, ComponentKind::Fire) {
                let burning = match view.get_fire(e) {
                    Some(f) => f.is_on_fire,
                    None => false,
                };
                let move_to_partition = if burning {
                    Partition::Inactive
                } else {
                    Partition::Active
                };
                let from_partition = if burning {
                    Partition::Active
                } else {
                    Partition::Inactive
                };
                match self.index.position_in(from_partition, e) {
                    Some(coords) => {
                        let ghost prev = self.index_spec();
                        self.index.upsert(e, coords, move_to_partition);
                        proof {
                            lemma_purged_step(
                                prev,
                                self.index_spec(),
                                e,
                                move_to_partition,
                                view@,
                            );
                            assert forall|j2: int|
                                0 <= j2 < i implies classified(
                                self.index_spec(),
                                view@,
                                #[trigger] ids@.index(j2),
                            ) by {
                                lemma_classified_keep(
                                    prev,
                                    self.index_spec(),
                                    e,
                                    ids@[j2],
                                    move_to_partition,
                                    view@,
                                );
                            }
                        }
                    },
                    None => {},
                }
            }
            proof {
                assert forall|j2: int|
                    0 <= j2 < i + 1 implies classified(
                    self.index_spec(),
                    view@,
                    #[trigger] ids@.index(j2),
                ) by {
                    if j2 == i {
                        assert(ids@[j2] == e);
                    }
                }
            }
            i = i + 1;
        }
        proof {
            assert forall|e2: i64|
                #[trigger] view@.snap.entities.dom().contains(e2) implies classified(
                self.index_spec(),
                view@,
                e2,
            ) by {
                assert(ids@.contains(e2));
                let j2 = choose|j2: int| 0 <= j2 < ids@.len() && ids@[j2] == e2;
            }
        }
    }
}

} // verus!
