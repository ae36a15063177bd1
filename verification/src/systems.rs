//! The five ordered stages, twice over: one set of schedulers for
//! startup systems, run once, and one for the per-tick systems.

use vstd::prelude::*;
use crate::scheduler::{Scheduler, Accessor, SystemIndex};

verus! {

/// The five ordered stages of a tick.
#[derive(Copy, Clone, Eq, PartialEq, PartialOrd, Ord, Hash, Structural)]
pub enum Stage {
    Core,
    Early,
    Main,
    Late,
    Render,
}

/// The position of a stage in execution order.
pub open spec fn stage_index(s: Stage) -> int {
    match s {
        Stage::Core => 0,
        Stage::Early => 1,
        Stage::Main => 2,
        Stage::Late => 3,
        Stage::Render => 4,
    }
}

impl Stage {
    /// The position of this stage in execution order.
    pub fn index(&self) -> (r: usize)
        ensures
            r == stage_index(*self),
            r < 5,
    {
        match self {
            Stage::Core => 0,
            Stage::Early => 1,
            Stage::Main => 2,
            Stage::Late => 3,
            Stage::Render => 4,
        }
    }
}

/// The startup and per-tick schedulers, one per stage.
pub struct Systems {
    pub startup: Vec<Scheduler>,
    pub systems: Vec<Scheduler>,
}

impl Systems {
    /// Five well-formed schedulers on each side.
    pub open spec fn wf(&self) -> bool {
        &&& self.startup@.len() == 5
        &&& self.systems@.len() == 5
        &&& forall|k: int| 0 <= k < 5 ==> (#[trigger] self.startup@[k]).wf()
        &&& forall|k: int| 0 <= k < 5 ==> (#[trigger] self.systems@[k]).wf()
    }

    /// Empty schedulers for all ten stages.
    pub fn new() -> (r: Self)
        ensures
            r.wf(),
            forall|k: int| 0 <= k < 5
                ==> (#[trigger] r.startup@[k]).systems@.len() == 0,
            forall|k: int| 0 <= k < 5
                ==> (#[trigger] r.systems@[k]).systems@.len() == 0,
    {
        let mut startup: Vec<Scheduler> = Vec::new();
        let mut k: usize = 0;
        while k < 5
            invariant
                k <= 5,
                startup@.len() == k,
                forall|m: int| 0 <= m < k ==> (#[trigger] startup@[m]).wf()
                    && startup@[m].systems@.len() == 0,
            decreases 5 - k,
        {
            startup.push(Scheduler::new());
            k = k + 1;
        }
        let mut systems: Vec<Scheduler> = Vec::new();
        let mut k2: usize = 0;
        while k2 < 5
            invariant
                k2 <= 5,
                systems@.len() == k2,
                forall|m: int| 0 <= m < k2 ==> (#[trigger] systems@[m]).wf()
                    && systems@[m].systems@.len() == 0,
            decreases 5 - k2,
        {
            systems.push(Scheduler::new());
            k2 = k2 + 1;
        }
        Systems { startup, systems }
    }

    /// Register a startup system's accessors under its stage.
    pub fn load_startup(&mut self, access: Vec<Accessor>, stage: Stage)
        requires
            old(self).wf(),
            old(self).startup@[stage_index(stage)].systems@.len() < usize::MAX,
        ensures
            final(self).wf(),
            final(self).systems@ == old(self).systems@,
            forall|k: int| 0 <= k < 5 && k != stage_index(stage)
                ==> (#[trigger] final(self).startup@[k]) == old(self).startup@[k],
            final(self).startup@[stage_index(stage)].systems@.len()
                == old(self).startup@[stage_index(stage)].systems@.len() + 1,
            final(self).startup@[stage_index(stage)].systems@.last().access == access,
    {
        let i = stage.index();
        let sched = &mut self.startup[i];
        sched.insert(access);
    }

    /// Register a per-tick system's accessors under its stage.
    pub fn load_system(&mut self, access: Vec<Accessor>, stage: Stage)
        requires
            old(self).wf(),
            old(self).systems@[stage_index(stage)].systems@.len() < usize::MAX,
        ensures
            final(self).wf(),
            final(self).startup@ == old(self).startup@,
            forall|k: int| 0 <= k < 5 && k != stage_index(stage)
                ==> (#[trigger] final(self).systems@[k]) == old(self).systems@[k],
            final(self).systems@[stage_index(stage)].systems@.len()
                == old(self).systems@[stage_index(stage)].systems@.len() + 1,
            final(self).systems@[stage_index(stage)].systems@.last().access == access,
    {
        let i = stage.index();
        let sched = &mut self.systems[i];
        sched.insert(access);
    }

    /// The parallel batches for one startup stage.
    pub fn plan_startup(&self, stage: Stage) -> (r: Vec<Vec<SystemIndex>>)
        requires
            self.wf(),
        ensures
            forall|b: int, p: int| 0 <= b < r@.len() && 0 <= p < r@[b]@.len()
                ==> (#[trigger] r@[b]@[p])
                    < self.startup@[stage_index(stage)].systems@.len(),
            forall|b: int, p1: int, p2: int| 0 <= b < r@.len() && 0 <= p1 < r@[b]@.len()
                && 0 <= p2 < r@[b]@.len() && p1 != p2
                ==> !crate::scheduler::nodes_conflict(
                    self.startup@[stage_index(stage)].systems@[(#[trigger] r@[b]@[p1])
                        as int].access@,
                    self.startup@[stage_index(stage)].systems@[(#[trigger] r@[b]@[p2])
                        as int].access@),
            forall|x: SystemIndex| x < self.startup@[stage_index(stage)].systems@.len()
                ==> crate::scheduler::planned(r@, x),
            forall|b1: int, p1: int, b2: int, p2: int|
                0 <= b1 < r@.len() && 0 <= p1 < r@[b1]@.len()
                && 0 <= b2 < r@.len() && 0 <= p2 < r@[b2]@.len()
                && (b1 != b2 || p1 != p2)
                ==> (#[trigger] r@[b1]@[p1]) != (#[trigger] r@[b2]@[p2]),
    {
        let i = stage.index();
        self.startup[i].plan()
    }

    /// The parallel batches for one per-tick stage.
    pub fn plan_systems(&self, stage: Stage) -> (r: Vec<Vec<SystemIndex>>)
        requires
            self.wf(),
        ensures
            forall|b: int, p: int| 0 <= b < r@.len() && 0 <= p < r@[b]@.len()
                ==> (#[trigger] r@[b]@[p])
                    < self.systems@[stage_index(stage)].systems@.len(),
            forall|b: int, p1: int, p2: int| 0 <= b < r@.len() && 0 <= p1 < r@[b]@.len()
                && 0 <= p2 < r@[b]@.len() && p1 != p2
                ==> !crate::scheduler::nodes_conflict(
                    self.systems@[stage_index(stage)].systems@[(#[trigger] r@[b]@[p1])
                        as int].access@,
                    self.systems@[stage_index(stage)].systems@[(#[trigger] r@[b]@[p2])
                        as int].access@),
            forall|x: SystemIndex| x < self.systems@[stage_index(stage)].systems@.len()
                ==> crate::scheduler::planned(r@, x),
            forall|b1: int, p1: int, b2: int, p2: int|
                0 <= b1 < r@.len() && 0 <= p1 < r@[b1]@.len()
                && 0 <= b2 < r@.len() && 0 <= p2 < r@[b2]@.len()
                && (b1 != b2 || p1 != p2)
                ==> (#[trigger] r@[b1]@[p1]) != (#[trigger] r@[b2]@[p2]),
    {
        let i = stage.index();
        self.systems[i].plan()
    }
}

} // verus!
