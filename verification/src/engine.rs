//! The engine: the resource store, the archetype registry and the
//! stage schedulers, wired together. Running the user systems
//! themselves is the embedder's part; the engine supplies the
//! verified planning, storage and flush underneath.

use vstd::prelude::*;
use crate::resources::Resources;
use crate::archetypes::{Archetypes, has_query};
use crate::systems::Systems;
use crate::fingerprint::{ComponentId, fp_of};

verus! {

/// The assembled engine state.
pub struct Engine {
    pub resources: Resources,
    pub archetypes: Archetypes,
    pub systems: Systems,
}

impl Engine {
    /// All three parts are well formed.
    pub open spec fn wf(&self) -> bool {
        &&& self.resources.wf()
        &&& self.archetypes.wf()
        &&& self.systems.wf()
    }

    /// An empty engine.
    pub fn new() -> (r: Self)
        ensures
            r.wf(),
            r.archetypes.all_clean(),
            r.archetypes.tables@.len() == 0,
    {
        Engine {
            resources: Resources::new(),
            archetypes: Archetypes::new(),
            systems: Systems::new(),
        }
    }

    /// Register every collected query id list with the registry,
    /// newest list first. After this, each list is cached under its
    /// fingerprint.
    pub fn finalize(&mut self, queries: Vec<Vec<ComponentId>>)
        requires
            old(self).wf(),
        ensures
            final(self).wf(),
            final(self).resources == old(self).resources,
            final(self).systems == old(self).systems,
            final(self).archetypes.tables@ == old(self).archetypes.tables@,
            forall|k: int| 0 <= k < queries@.len()
                ==> has_query(final(self).archetypes.cache@,
                    fp_of((#[trigger] queries@[k])@)),
    {
        let mut queries = queries;
        let ghost q0 = queries@;
        while queries.len() > 0
            invariant
                self.wf(),
                self.resources == old(self).resources,
                self.systems == old(self).systems,
                self.archetypes.tables@ == old(self).archetypes.tables@,
                queries@.len() <= q0.len(),
                queries@ =~= q0.take(queries@.len() as int),
                forall|k: int| queries@.len() <= k < q0.len()
                    ==> has_query(self.archetypes.cache@, fp_of((#[trigger] q0[k])@)),
            decreases queries@.len(),
        {
            let ghost pre = queries@;
            let ghost pre_cache = self.archetypes.cache@;
            let ids = queries.pop().unwrap();
            proof {
                assert(ids == q0[pre.len() - 1]);
                assert(queries@ =~= q0.take(queries@.len() as int));
            }
            self.archetypes.add_query(ids);
            proof {
                assert forall|k: int| queries@.len() <= k < q0.len() implies
                    has_query(self.archetypes.cache@, fp_of((#[trigger] q0[k])@)) by {
                    if k == pre.len() - 1 {
                        assert(has_query(self.archetypes.cache@, fp_of(ids@)));
                    } else {
                        assert(has_query(pre_cache, fp_of(q0[k]@)));
                        let m = choose|m: int| 0 <= m < pre_cache.len()
                            && pre_cache[m].fp == fp_of(q0[k]@);
                        if has_query(pre_cache, fp_of(ids@))
                            && m == crate::archetypes::query_index(pre_cache, fp_of(ids@)) {
                            crate::archetypes::lemma_query_index_valid(pre_cache,
                                fp_of(ids@));
                            assert(fp_of(q0[k]@) == fp_of(ids@));
                            assert(has_query(self.archetypes.cache@, fp_of(ids@)));
                        } else {
                            assert(self.archetypes.cache@[m] == pre_cache[m]);
                            assert(has_query(self.archetypes.cache@, fp_of(q0[k]@)));
                        }
                    }
                }
            }
        }
    }
}

} // verus!
