//! The spatial membership index: disjoint, named partitions of tracked
//! entities, each a mapping from entity id to position, with radius
//! queries over squared distances.

use vstd::prelude::*;
use crate::idmap::IdMap;
use crate::utils::{Coordinates, sq_dist, squared_distance};

verus! {

/// The partitions a tracked entity can belong to: `Active` holds the
/// harvestable resource nodes, `Inactive` the depleted or hazardous
/// ones.
#[derive(Clone, Copy, Debug, PartialEq, Eq, Structural)]
pub enum Partition {
    Active,
    Inactive,
}

/// Disjoint partitions of entity positions.  Each tracked entity
/// belongs to exactly one partition at a time.
pub struct SpatialIndex {
    active: IdMap<Coordinates>,
    inactive: IdMap<Coordinates>,
}

impl SpatialIndex {
    /// The mapping of one partition.
    pub closed spec fn part(self, p: Partition) -> Map<i64, Coordinates> {
        match p {
            Partition::Active => self.active@,
            Partition::Inactive => self.inactive@,
        }
    }

    /// Backing maps well formed, partitions disjoint, and every stored
    /// position inside the world bound.
    pub closed spec fn wf(self) -> bool {
        &&& self.active.wf()
        &&& self.inactive.wf()
        &&& self.active@.dom().disjoint(self.inactive@.dom())
        &&& forall|e: i64|
            self.active@.dom().contains(e) ==> (#[trigger] self.active@[e]).in_bounds()
        &&& forall|e: i64|
            self.inactive@.dom().contains(e) ==> (#[trigger] self.inactive@[e]).in_bounds()
    }

    /// No entity is in two partitions at once.
    pub proof fn lemma_disjoint(self)
        requires
            self.wf(),
        ensures
            forall|e: i64|
                !(#[trigger] self.part(Partition::Active).dom().contains(e) && self.part(
                    Partition::Inactive,
                ).dom().contains(e)),
    {
    }

    /// An empty index.
    pub fn new() -> (r: SpatialIndex)
        ensures
            r.wf(),
            r.part(Partition::Active) == Map::<i64, Coordinates>::empty(),
            r.part(Partition::Inactive) == Map::<i64, Coordinates>::empty(),
    {
        SpatialIndex { active: IdMap::new(), inactive: IdMap::new() }
    }

    /// Move the entity into the given partition at the given position,
    /// removing it from the other partition if it was there.
    pub fn upsert(&mut self, entity: i64, position: Coordinates, partition: Partition)
        requires
            old(self).wf(),
            position.in_bounds(),
        ensures
            final(self).wf(),
            final(self).part(partition) == old(self).part(partition).insert(entity, position),
            final(self).part(other_partition(partition)) == old(self).part(
                other_partition(partition),
            ).remove(entity),
    {
        match partition {
            Partition::Active => {
                self.inactive.remove(entity);
                self.active.insert(entity, position);
            },
            Partition::Inactive => {
                self.active.remove(entity);
                self.inactive.insert(entity, position);
            },
        }
        proof {
            assert(self.active@.dom().disjoint(self.inactive@.dom()));
        }
    }

    /// Purge the entity from every partition.
    pub fn remove(&mut self, entity: i64)
        requires
            old(self).wf(),
        ensures
            final(self).wf(),
            final(self).part(Partition::Active) == old(self).part(Partition::Active).remove(
                entity,
            ),
            final(self).part(Partition::Inactive) == old(self).part(Partition::Inactive).remove(
                entity,
            ),
    {
        self.active.remove(entity);
        self.inactive.remove(entity);
    }

    /// Whether the entity is currently in the given partition.
    pub fn contains(&self, partition: Partition, entity: i64) -> (r: bool)
        requires
            self.wf(),
        ensures
            r == self.part(partition).dom().contains(entity),
    {
        match partition {
            Partition::Active => self.active.contains_key(entity),
            Partition::Inactive => self.inactive.contains_key(entity),
        }
    }

    /// The recorded position of the entity in the given partition.
    pub fn position_in(&self, partition: Partition, entity: i64) -> (r: Option<Coordinates>)
        requires
            self.wf(),
        ensures
            match r {
                Some(c) => self.part(partition).dom().contains(entity) && c == self.part(
                    partition,
                )[entity] && c.in_bounds(),
                None => !self.part(partition).dom().contains(entity),
            },
    {
        let m = match partition {
            Partition::Active => &self.active,
            Partition::Inactive => &self.inactive,
        };
        match m.get(entity) {
            Some(c) => Some(*c),
            None => None,
        }
    }

    /// Every member of the partition strictly closer to `center` than
    /// `radius`, each exactly once.  A member exactly at the boundary
    /// (squared distance equal to the squared radius) is excluded.
    pub fn query_within(&self, partition: Partition, center: &Coordinates, radius: i64) -> (r:
        Vec<i64>)
        requires
            self.wf(),
            center.in_bounds(),
            0 <= radius,
        ensures
            r@.no_duplicates(),
            forall|e: i64|
                r@.contains(e) <==> (self.part(partition).dom().contains(e) && sq_dist(
                    self.part(partition)[e],
                    *center,
                ) < radius * radius),
    {
        let m = match partition {
            Partition::Active => &self.active,
            Partition::Inactive => &self.inactive,
        };
        proof {
            assert(0 <= radius * radius < 0x40000000000000000000000000000000int) by (nonlinear_arith)
                requires
                    0 <= radius <= 0x7fff_ffff_ffff_ffffi64,
            ;
        }
        let rr: i128 = (radius as i128) * (radius as i128);
        let n = m.len();
        let mut r: Vec<i64> = Vec::new();
        let mut i: usize = 0;
        while i < n
            invariant
                self.wf(),
                m == (match partition {
                    Partition::Active => &self.active,
                    Partition::Inactive => &self.inactive,
                }),
                m.wf(),
                n == m.entries_seq().len(),
                i <= n,
                center.in_bounds(),
                rr == radius * radius,
                r@.no_duplicates(),
                forall|e: i64|
                    r@.contains(e) <==> exists|j: int|
                        0 <= j < i && (#[trigger] m.entries_seq()[j]).0 == e && sq_dist(
                            m.entries_seq()[j].1,
                            *center,
                        ) < radius * radius,
            decreases n - i,
        {
            let entry = m.entry_at(i);
            let id = entry.0;
            let c = entry.1;
            proof {
                m.lemma_entry(i as int);
            }
            if squared_distance(&c, center) < rr {
                proof {
                    if r@.contains(id) {
                        let j = choose|j: int|
                            0 <= j < i && (#[trigger] m.entries_seq()[j]).0 == id && sq_dist(
                                m.entries_seq()[j].1,
                                *center,
                            ) < radius * radius;
                        assert(false);
                    }
                }
                let ghost r_before = r@;
                r.push(id);
                proof {
                    assert(r@ =~= r_before.push(id));
                    assert forall|e: i64| r@.contains(e) <==> exists|j: int|
                        0 <= j < i + 1 && (#[trigger] m.entries_seq()[j]).0 == e && sq_dist(
                            m.entries_seq()[j].1,
                            *center,
                        ) < radius * radius by {
                        if r@.contains(e) {
                            let k = choose|k: int| 0 <= k < r@.len() && r@[k] == e;
                            if k < r_before.len() {
                                assert(r_before[k] == e);
                                assert(r_before.contains(e));
                            } else {
                                assert(e == id);
                                assert((m.entries_seq()[i as int]).0 == e);
                            }
                        }
                        if exists|j: int|
                            0 <= j < i + 1 && (#[trigger] m.entries_seq()[j]).0 == e && sq_dist(
                                m.entries_seq()[j].1,
                                *center,
                            ) < radius * radius {
                            let j = choose|j: int|
                                0 <= j < i + 1 && (#[trigger] m.entries_seq()[j]).0 == e
                                    && sq_dist(m.entries_seq()[j].1, *center) < radius * radius;
                            if j < i {
                                assert(r_before.contains(e));
                                let k = choose|k: int|
                                    0 <= k < r_before.len() && r_before[k] == e;
                                assert(r@[k] == e);
                            } else {
                                assert(e == id);
                                assert(r@[r@.len() - 1] == e);
                            }
                        }
                    }
                }
            } else {
                proof {
                    assert forall|e: i64| r@.contains(e) <==> exists|j: int|
                        0 <= j < i + 1 && (#[trigger] m.entries_seq()[j]).0 == e && sq_dist(
                            m.entries_seq()[j].1,
                            *center,
                        ) < radius * radius by {
                        if exists|j: int|
                            0 <= j < i + 1 && (#[trigger] m.entries_seq()[j]).0 == e && sq_dist(
                                m.entries_seq()[j].1,
                                *center,
                            ) < radius * radius {
                            let j = choose|j: int|
                                0 <= j < i + 1 && (#[trigger] m.entries_seq()[j]).0 == e
                                    && sq_dist(m.entries_seq()[j].1, *center) < radius * radius;
                            assert(j < i);
                        }
                    }
                }
            }
            i = i + 1;
        }
        proof {
            m.lemma_dom();
            assert forall|e: i64| r@.contains(e) <==> (self.part(partition).dom().contains(e)
                && sq_dist(self.part(partition)[e], *center) < radius * radius) by {
                if r@.contains(e) {
                    let j = choose|j: int|
                        0 <= j < n && (#[trigger] m.entries_seq()[j]).0 == e && sq_dist(
                            m.entries_seq()[j].1,
                            *center,
                        ) < radius * radius;
                    m.lemma_entry(j);
                }
                if self.part(partition).dom().contains(e) && sq_dist(
                    self.part(partition)[e],
                    *center,
                ) < radius * radius {
                    let j = crate::idmap::key_index(m.entries_seq(), e);
                    m.lemma_entry(j);
                    assert(0 <= j < n && m.entries_seq()[j].0 == e);
                }
            }
        }
        r
    }
}

/// The partition an upsert pulls the entity out of.
pub open spec fn other_partition(p: Partition) -> Partition {
    match p {
        Partition::Active => Partition::Inactive,
        Partition::Inactive => Partition::Active,
    }
}

} // verus!
