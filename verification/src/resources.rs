//! The resource store: singleton values keyed by their stable
//! resource id, read by systems holding a shared access and replaced
//! through an exclusive one.

use vstd::prelude::*;

verus! {

/// The stable numeric id of a resource type.
pub type ResourceId = u64;

/// Whether a resource with this id is stored.
pub open spec fn res_has(rs: Seq<(ResourceId, u64)>, id: ResourceId) -> bool {
    exists|k: int| 0 <= k < rs.len() && rs[k].0 == id
}

/// The position of the resource with this id; meaningful only when
/// `res_has(rs, id)`.
pub open spec fn res_index(rs: Seq<(ResourceId, u64)>, id: ResourceId) -> int
    decreases rs.len(),
{
    if rs.len() == 0 {
        0
    } else if rs[0].0 == id {
        0
    } else {
        1 + res_index(rs.drop_first(), id)
    }
}

/// If no entry before `k` carries `id` and entry `k` does, then `k`
/// is the entry for `id`.
proof fn lemma_res_index(rs: Seq<(ResourceId, u64)>, id: ResourceId, k: int)
    requires
        0 <= k < rs.len(),
        rs[k].0 == id,
        forall|m: int| 0 <= m < k ==> rs[m].0 != id,
    ensures
        res_index(rs, id) == k,
    decreases k,
{
    if k > 0 {
        lemma_res_index(rs.drop_first(), id, k - 1);
    }
}

/// Stores at most one value per resource id.
pub struct Resources {
    pub resources: Vec<(ResourceId, u64)>,
}

impl Resources {
    /// No two entries share an id.
    pub open spec fn wf(&self) -> bool {
        forall|k: int, l: int| 0 <= k < l < self.resources@.len()
            ==> self.resources@[k].0 != self.resources@[l].0
    }

    /// An empty store.
    pub fn new() -> (r: Self)
        ensures
            r.wf(),
            r.resources@.len() == 0,
    {
        Resources { resources: Vec::new() }
    }

    /// Store a value under `id`, replacing any value already there:
    /// exactly zero or one instance exists per id.
    pub fn insert(&mut self, id: ResourceId, value: u64)
        requires
            old(self).wf(),
        ensures
            final(self).wf(),
            res_has(final(self).resources@, id),
            final(self).resources@[res_index(final(self).resources@, id)].1 == value,
            forall|x: ResourceId| x != id
                ==> res_has(final(self).resources@, x) == res_has(old(self).resources@, x),
            forall|k: int| 0 <= k < final(self).resources@.len()
                && final(self).resources@[k].0 != id
                ==> 0 <= k < old(self).resources@.len()
                    && (#[trigger] final(self).resources@[k]) == old(self).resources@[k],
    {
        let ghost orig = self.resources@;
        let mut k: usize = 0;
        while k < self.resources.len()
            invariant
                k <= orig.len(),
                orig == old(self).resources@,
                *self == *old(self),
                old(self).wf(),
                forall|m: int| 0 <= m < k ==> orig[m].0 != id,
            decreases orig.len() - k,
        {
            if self.resources[k].0 == id {
                self.resources.set(k, (id, value));
                proof {
                    lemma_res_index(self.resources@, id, k as int);
                    assert(self.resources@[k as int].0 == id);
                    assert forall|x: ResourceId| x != id implies
                        res_has(self.resources@, x) == res_has(orig, x) by {
                        if res_has(self.resources@, x) {
                            let m = choose|m: int| 0 <= m < self.resources@.len()
                                && self.resources@[m].0 == x;
                            assert(orig[m].0 == x);
                        }
                        if res_has(orig, x) {
                            let m = choose|m: int| 0 <= m < orig.len() && orig[m].0 == x;
                            assert(self.resources@[m].0 == x);
                        }
                    }
                }
                return;
            }
            k = k + 1;
        }
        self.resources.push((id, value));
        proof {
            lemma_res_index(self.resources@, id, orig.len() as int);
            assert forall|x: ResourceId| x != id implies
                res_has(self.resources@, x) == res_has(orig, x) by {
                if res_has(self.resources@, x) {
                    let m = choose|m: int| 0 <= m < self.resources@.len()
                        && self.resources@[m].0 == x;
                    assert(orig[m].0 == x);
                }
                if res_has(orig, x) {
                    let m = choose|m: int| 0 <= m < orig.len() && orig[m].0 == x;
                    assert(self.resources@[m].0 == x);
                }
            }
        }
    }

    /// Whether a resource with this id has been loaded.
    pub fn has(&self, id: ResourceId) -> (r: bool)
        ensures
            r == res_has(self.resources@, id),
    {
        let mut k: usize = 0;
        while k < self.resources.len()
            invariant
                k <= self.resources@.len(),
                forall|m: int| 0 <= m < k ==> (#[trigger] self.resources@[m]).0 != id,
            decreases self.resources@.len() - k,
        {
            if self.resources[k].0 == id {
                proof {
                    assert(self.resources@[k as int].0 == id);
                }
                return true;
            }
            k = k + 1;
        }
        proof {
            assert(!res_has(self.resources@, id));
        }
        false
    }

    /// The value stored under `id`. Asking for a resource that has
    /// not been loaded is a programmer error, so the id must be
    /// present.
    pub fn get(&self, id: ResourceId) -> (r: u64)
        requires
            res_has(self.resources@, id),
        ensures
            r == self.resources@[res_index(self.resources@, id)].1,
    {
        let mut k: usize = 0;
        while k < self.resources.len() && self.resources[k].0 != id
            invariant
                res_has(self.resources@, id),
                k <= self.resources@.len(),
                forall|m: int| 0 <= m < k ==> (#[trigger] self.resources@[m]).0 != id,
            decreases self.resources@.len() - k,
        {
            k = k + 1;
        }
        proof {
            if k == self.resources@.len() {
                assert(!res_has(self.resources@, id));
            }
            lemma_res_index(self.resources@, id, k as int);
        }
        self.resources[k].1
    }
}

} // verus!
