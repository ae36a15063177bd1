//! The per-system scratch buffer for deferred structural mutations:
//! spawns, destroys and modifies collected while a system runs, and
//! submitted to the registry when the system is done.

use vstd::prelude::*;
use crate::fingerprint::{ComponentId, fp_of};
use crate::entity::{Anon, Entity, EntityIndex, ids_of, distinct_ids, has_id};
use crate::table::DestroyType;

verus! {

/// A table index inside the registry.
pub type TableIndex = usize;

/// Whether a destroy group for table `t` is already queued.
pub open spec fn dq_has(q: Seq<(TableIndex, Vec<DestroyType>)>, t: TableIndex) -> bool {
    exists|k: int| 0 <= k < q.len() && q[k].0 == t
}

/// The position of the destroy group for table `t`; meaningful only
/// when `dq_has(q, t)`.
pub open spec fn dq_index(q: Seq<(TableIndex, Vec<DestroyType>)>, t: TableIndex) -> int
    decreases q.len(),
{
    if q.len() == 0 {
        0
    } else if q[0].0 == t {
        0
    } else {
        1 + dq_index(q.drop_first(), t)
    }
}

/// If no group before `k` names `t` and `q[k]` does, then `k` is the
/// group for `t`.
proof fn lemma_dq_index(q: Seq<(TableIndex, Vec<DestroyType>)>, t: TableIndex, k: int)
    requires
        0 <= k < q.len(),
        q[k].0 == t,
        forall|m: int| 0 <= m < k ==> q[m].0 != t,
    ensures
        dq_index(q, t) == k,
    decreases k,
{
    if k > 0 {
        lemma_dq_index(q.drop_first(), t, k - 1);
    }
}

/// Whether a modify record for location `i` is already queued.
pub open spec fn mq_has(
    q: Seq<(EntityIndex, (Vec<Anon>, Vec<ComponentId>))>,
    i: EntityIndex,
) -> bool {
    exists|k: int| 0 <= k < q.len() && q[k].0 == i
}

/// The position of the modify record for location `i`; meaningful
/// only when `mq_has(q, i)`.
pub open spec fn mq_index(
    q: Seq<(EntityIndex, (Vec<Anon>, Vec<ComponentId>))>,
    i: EntityIndex,
) -> int
    decreases q.len(),
{
    if q.len() == 0 {
        0
    } else if q[0].0 == i {
        0
    } else {
        1 + mq_index(q.drop_first(), i)
    }
}

/// If no record before `k` names `i` and `q[k]` does, then `k` is the
/// record for `i`.
proof fn lemma_mq_index(
    q: Seq<(EntityIndex, (Vec<Anon>, Vec<ComponentId>))>,
    i: EntityIndex,
    k: int,
)
    requires
        0 <= k < q.len(),
        q[k].0 == i,
        forall|m: int| 0 <= m < k ==> q[m].0 != i,
    ensures
        mq_index(q, i) == k,
    decreases k,
{
    if k > 0 {
        lemma_mq_index(q.drop_first(), i, k - 1);
    }
}

/// Pending deferred mutations: spawns in submission order, destroys
/// grouped by table, and modifies keyed by entity location so that
/// several inserts and removes on one entity collapse into one
/// record.
pub struct Queue {
    pub spawn: Vec<Entity>,
    pub destroy: Vec<(TableIndex, Vec<DestroyType>)>,
    pub modify: Vec<(EntityIndex, (Vec<Anon>, Vec<ComponentId>))>,
}

impl Queue {
    /// Spawn entities carry no duplicate ids and their fingerprint;
    /// destroy groups and modify records are keyed uniquely.
    pub open spec fn wf(&self) -> bool {
        &&& forall|k: int| 0 <= k < self.spawn@.len()
            ==> distinct_ids((#[trigger] self.spawn@[k]).components@)
                && self.spawn@[k].archetype.0 == fp_of(ids_of(self.spawn@[k].components@))
        &&& forall|k: int, l: int| 0 <= k < l < self.destroy@.len()
            ==> self.destroy@[k].0 != self.destroy@[l].0
        &&& forall|k: int, l: int| 0 <= k < l < self.modify@.len()
            ==> self.modify@[k].0 != self.modify@[l].0
    }

    /// An empty buffer.
    pub fn new() -> (r: Self)
        ensures
            r.wf(),
            r.spawn@.len() == 0,
            r.destroy@.len() == 0,
            r.modify@.len() == 0,
    {
        Queue { spawn: Vec::new(), destroy: Vec::new(), modify: Vec::new() }
    }

    /// Record one entity to spawn, fingerprinting its archetype. The
    /// bundle must be freshly assembled: no duplicate ids, no
    /// fingerprint yet.
    pub fn spawn(&mut self, entity: Entity)
        requires
            old(self).wf(),
            distinct_ids(entity.components@),
            entity.archetype.0 == 0,
        ensures
            final(self).wf(),
            final(self).spawn@.len() == old(self).spawn@.len() + 1,
            forall|k: int| 0 <= k < old(self).spawn@.len()
                ==> final(self).spawn@[k] == old(self).spawn@[k],
            final(self).spawn@.last().components@ =~= entity.components@,
            final(self).spawn@.last().archetype.0 == fp_of(ids_of(entity.components@)),
            final(self).destroy@ == old(self).destroy@,
            final(self).modify@ == old(self).modify@,
    {
        let mut entity = entity;
        entity.hash();
        self.spawn.push(entity);
    }

    /// Record a destroy of the entity at `index`, grouped under its
    /// table.
    pub fn destroy(&mut self, index: EntityIndex)
        requires
            old(self).wf(),
        ensures
            final(self).wf(),
            final(self).spawn@ == old(self).spawn@,
            final(self).modify@ == old(self).modify@,
            !dq_has(old(self).destroy@, index.table) ==> final(self).destroy@.len()
                == old(self).destroy@.len() + 1
                && (forall|k: int| 0 <= k < old(self).destroy@.len()
                    ==> final(self).destroy@[k] == old(self).destroy@[k])
                && final(self).destroy@.last().0 == index.table
                && final(self).destroy@.last().1@ =~= seq![DestroyType::Drop(index.col)],
            dq_has(old(self).destroy@, index.table) ==> {
                let k = dq_index(old(self).destroy@, index.table);
                &&& final(self).destroy@.len() == old(self).destroy@.len()
                &&& (forall|m: int| 0 <= m < old(self).destroy@.len() && m != k
                    ==> final(self).destroy@[m] == old(self).destroy@[m])
                &&& final(self).destroy@[k].0 == index.table
                &&& final(self).destroy@[k].1@ =~= old(self).destroy@[k].1@.push(
                    DestroyType::Drop(index.col))
            },
    {
        let ghost orig = self.destroy@;
        let mut k: usize = 0;
        while k < self.destroy.len()
            invariant
                k <= orig.len(),
                orig == old(self).destroy@,
                *self == *old(self),
                old(self).wf(),
                forall|m: int| 0 <= m < k ==> orig[m].0 != index.table,
            decreases orig.len() - k,
        {
            if self.destroy[k].0 == index.table {
                proof {
                    assert(dq_has(orig, index.table));
                    lemma_dq_index(orig, index.table, k as int);
                }
                let mut entry = self.destroy.remove(k);
                entry.1.push(DestroyType::Drop(index.col));
                self.destroy.insert(k, entry);
                proof {
                    assert(self.destroy@ =~= orig.update(k as int, self.destroy@[k as int]));
                }
                return;
            }
            k = k + 1;
        }
        proof {
            assert(!dq_has(orig, index.table));
        }
        let mut group: Vec<DestroyType> = Vec::new();
        group.push(DestroyType::Drop(index.col));
        self.destroy.push((index.table, group));
    }

    /// Record a component insert on the entity at `index`, merged
    /// into that entity's modify record.
    pub fn insert(&mut self, anon: Anon, index: EntityIndex)
        requires
            old(self).wf(),
        ensures
            final(self).wf(),
            final(self).spawn@ == old(self).spawn@,
            final(self).destroy@ == old(self).destroy@,
            !mq_has(old(self).modify@, index) ==> final(self).modify@.len()
                == old(self).modify@.len() + 1
                && (forall|k: int| 0 <= k < old(self).modify@.len()
                    ==> final(self).modify@[k] == old(self).modify@[k])
                && final(self).modify@.last().0 == index
                && final(self).modify@.last().1.0@ =~= seq![anon]
                && final(self).modify@.last().1.1@ =~= Seq::<ComponentId>::empty(),
            mq_has(old(self).modify@, index) ==> {
                let k = mq_index(old(self).modify@, index);
                &&& final(self).modify@.len() == old(self).modify@.len()
                &&& (forall|m: int| 0 <= m < old(self).modify@.len() && m != k
                    ==> final(self).modify@[m] == old(self).modify@[m])
                &&& final(self).modify@[k].0 == index
                &&& final(self).modify@[k].1.0@ =~= old(self).modify@[k].1.0@.push(anon)
                &&& final(self).modify@[k].1.1@ == old(self).modify@[k].1.1@
            },
    {
        let ghost orig = self.modify@;
        let mut k: usize = 0;
        while k < self.modify.len()
            invariant
                k <= orig.len(),
                orig == old(self).modify@,
                *self == *old(self),
                old(self).wf(),
                forall|m: int| 0 <= m < k ==> orig[m].0 != index,
            decreases orig.len() - k,
        {
            if self.modify[k].0 == index {
                proof {
                    assert(mq_has(orig, index));
                    lemma_mq_index(orig, index, k as int);
                }
                let mut entry = self.modify.remove(k);
                entry.1.0.push(anon);
                self.modify.insert(k, entry);
                proof {
                    assert(self.modify@ =~= orig.update(k as int, self.modify@[k as int]));
                }
                return;
            }
            k = k + 1;
        }
        proof {
            assert(!mq_has(orig, index));
        }
        let mut ins: Vec<Anon> = Vec::new();
        ins.push(anon);
        self.modify.push((index, (ins, Vec::new())));
    }

    /// Record a component remove on the entity at `index`, merged
    /// into that entity's modify record.
    pub fn remove(&mut self, index: EntityIndex, id: ComponentId)
        requires
            old(self).wf(),
        ensures
            final(self).wf(),
            final(self).spawn@ == old(self).spawn@,
            final(self).destroy@ == old(self).destroy@,
            !mq_has(old(self).modify@, index) ==> final(self).modify@.len()
                == old(self).modify@.len() + 1
                && (forall|k: int| 0 <= k < old(self).modify@.len()
                    ==> final(self).modify@[k] == old(self).modify@[k])
                && final(self).modify@.last().0 == index
                && final(self).modify@.last().1.0@ =~= Seq::<Anon>::empty()
                && final(self).modify@.last().1.1@ =~= seq![id],
            mq_has(old(self).modify@, index) ==> {
                let k = mq_index(old(self).modify@, index);
                &&& final(self).modify@.len() == old(self).modify@.len()
                &&& (forall|m: int| 0 <= m < old(self).modify@.len() && m != k
                    ==> final(self).modify@[m] == old(self).modify@[m])
                &&& final(self).modify@[k].0 == index
                &&& final(self).modify@[k].1.0@ == old(self).modify@[k].1.0@
                &&& final(self).modify@[k].1.1@ =~= old(self).modify@[k].1.1@.push(id)
            },
    {
        let ghost orig = self.modify@;
        let mut k: usize = 0;
        while k < self.modify.len()
            invariant
                k <= orig.len(),
                orig == old(self).modify@,
                *self == *old(self),
                old(self).wf(),
                forall|m: int| 0 <= m < k ==> orig[m].0 != index,
            decreases orig.len() - k,
        {
            if self.modify[k].0 == index {
                proof {
                    assert(mq_has(orig, index));
                    lemma_mq_index(orig, index, k as int);
                }
                let mut entry = self.modify.remove(k);
                entry.1.1.push(id);
                self.modify.insert(k, entry);
                proof {
                    assert(self.modify@ =~= orig.update(k as int, self.modify@[k as int]));
                }
                return;
            }
            k = k + 1;
        }
        proof {
            assert(!mq_has(orig, index));
        }
        let mut rem: Vec<ComponentId> = Vec::new();
        rem.push(id);
        self.modify.push((index, (Vec::new(), rem)));
    }
}

/// A system's handle on its deferred-mutation buffer. When the
/// system is done, the buffer is taken and submitted to the registry.
pub struct Commands {
    pub queue: Queue,
}

impl Commands {
    /// A fresh handle with an empty buffer.
    pub fn new() -> (r: Self)
        ensures
            r.queue.wf(),
            r.queue.spawn@.len() == 0,
            r.queue.destroy@.len() == 0,
            r.queue.modify@.len() == 0,
    {
        Commands { queue: Queue::new() }
    }

    /// Spawn a freshly assembled entity: no duplicate component ids,
    /// no fingerprint yet.
    pub fn spawn(&mut self, entity: Entity)
        requires
            old(self).queue.wf(),
            distinct_ids(entity.components@),
            entity.archetype.0 == 0,
        ensures
            final(self).queue.wf(),
            final(self).queue.spawn@.len() == old(self).queue.spawn@.len() + 1,
            final(self).queue.spawn@.last().components@ =~= entity.components@,
            final(self).queue.destroy@ == old(self).queue.destroy@,
            final(self).queue.modify@ == old(self).queue.modify@,
    {
        self.queue.spawn(entity);
    }

    /// Destroy the entity at `index`. The location must come from the
    /// current tick: any flush may relocate entities.
    pub fn destroy(&mut self, index: EntityIndex)
        requires
            old(self).queue.wf(),
        ensures
            final(self).queue.wf(),
            final(self).queue.spawn@ == old(self).queue.spawn@,
            final(self).queue.modify@ == old(self).queue.modify@,
            dq_has(final(self).queue.destroy@, index.table),
    {
        self.queue.destroy(index);
        proof {
            if !dq_has(old(self).queue.destroy@, index.table) {
                assert(self.queue.destroy@.last().0 == index.table);
            } else {
                let k = dq_index(old(self).queue.destroy@, index.table);
                assert(self.queue.destroy@[k].0 == index.table);
            }
        }
    }

    /// Insert component `id` with `data` on the entity at `index`.
    pub fn insert(&mut self, index: EntityIndex, id: ComponentId, data: u64)
        requires
            old(self).queue.wf(),
        ensures
            final(self).queue.wf(),
            final(self).queue.spawn@ == old(self).queue.spawn@,
            final(self).queue.destroy@ == old(self).queue.destroy@,
            mq_has(final(self).queue.modify@, index),
    {
        self.queue.insert(Anon { id, data }, index);
        proof {
            if !mq_has(old(self).queue.modify@, index) {
                assert(self.queue.modify@.last().0 == index);
            } else {
                let k = mq_index(old(self).queue.modify@, index);
                assert(self.queue.modify@[k].0 == index);
            }
        }
    }

    /// Remove component `id` from the entity at `index`.
    pub fn remove(&mut self, index: EntityIndex, id: ComponentId)
        requires
            old(self).queue.wf(),
        ensures
            final(self).queue.wf(),
            final(self).queue.spawn@ == old(self).queue.spawn@,
            final(self).queue.destroy@ == old(self).queue.destroy@,
            mq_has(final(self).queue.modify@, index),
    {
        self.queue.remove(index, id);
        proof {
            if !mq_has(old(self).queue.modify@, index) {
                assert(self.queue.modify@.last().0 == index);
            } else {
                let k = mq_index(old(self).queue.modify@, index);
                assert(self.queue.modify@[k].0 == index);
            }
        }
    }

    /// Hand the buffer over for submission, leaving this handle
    /// empty.
    pub fn into_queue(self) -> (r: Queue)
        requires
            self.queue.wf(),
        ensures
            r.wf(),
            r == self.queue,
    {
        self.queue
    }
}

} // verus!
