//! The conflict-aware schedule planner: systems are nodes carrying
//! their declared accessors; edges join systems that are safe to run
//! side by side; a plan is a partition of the systems into batches
//! whose members are pairwise non-conflicting.

use vstd::prelude::*;
use crate::fingerprint::ComponentId;
use crate::resources::ResourceId;

verus! {

/// A position in the scheduler's system list.
pub type SystemIndex = usize;

/// What one system parameter reads or writes.
#[derive(Copy, Clone, Eq, PartialEq, Ord, PartialOrd, Structural)]
pub enum Accessor {
    NoAccess,
    Ref(ComponentId),
    Mut(ComponentId),
    Res(ResourceId),
    ResMut(ResourceId),
}

/// The symmetric conflict relation: a write to a component or
/// resource conflicts with any other access to it; reads never
/// conflict with reads; `None` conflicts with nothing.
pub open spec fn accessors_conflict(a: Accessor, b: Accessor) -> bool {
    match (a, b) {
        (Accessor::Ref(x), Accessor::Mut(y)) => x == y,
        (Accessor::Mut(x), Accessor::Mut(y)) => x == y,
        (Accessor::Mut(x), Accessor::Ref(y)) => x == y,
        (Accessor::Res(x), Accessor::ResMut(y)) => x == y,
        (Accessor::ResMut(x), Accessor::ResMut(y)) => x == y,
        (Accessor::ResMut(x), Accessor::Res(y)) => x == y,
        _ => false,
    }
}

/// Two systems conflict when any pair of their accessors does.
pub open spec fn nodes_conflict(a: Seq<Accessor>, b: Seq<Accessor>) -> bool {
    exists|i: int, j: int| 0 <= i < a.len() && 0 <= j < b.len()
        && accessors_conflict(a[i], b[j])
}

/// The conflict relation between systems is symmetric.
pub proof fn lemma_conflict_symmetric(a: Seq<Accessor>, b: Seq<Accessor>)
    ensures
        nodes_conflict(a, b) == nodes_conflict(b, a),
{
    if nodes_conflict(a, b) {
        let (i, j) = choose|i: int, j: int| 0 <= i < a.len() && 0 <= j < b.len()
            && accessors_conflict(a[i], b[j]);
        assert(accessors_conflict(b[j], a[i]));
        assert(nodes_conflict(b, a));
    }
    if nodes_conflict(b, a) {
        let (i, j) = choose|i: int, j: int| 0 <= i < b.len() && 0 <= j < a.len()
            && accessors_conflict(b[i], a[j]);
        assert(accessors_conflict(a[j], b[i]));
        assert(nodes_conflict(a, b));
    }
}

/// One scheduled system: its accessors, the indices of the systems
/// it may safely co-run with (its own index first), and its
/// ran-this-stage flag.
pub struct Node {
    pub access: Vec<Accessor>,
    pub edges: Vec<SystemIndex>,
    pub has_ran: bool,
}

impl Node {
    /// Whether this system declares exactly this accessor.
    pub fn has(&self, accessor: Accessor) -> (r: bool)
        ensures
            r == self.access@.contains(accessor),
    {
        let mut k: usize = 0;
        while k < self.access.len()
            invariant
                k <= self.access@.len(),
                forall|m: int| 0 <= m < k ==> self.access@[m] != accessor,
            decreases self.access@.len() - k,
        {
            if self.access[k] == accessor {
                proof {
                    assert(self.access@[k as int] == accessor);
                }
                return true;
            }
            k = k + 1;
        }
        proof {
            assert(!self.access@.contains(accessor));
        }
        false
    }

    /// Whether any accessor of this system conflicts with any
    /// accessor of the other.
    pub fn conflicts_with(&self, other: &Node) -> (r: bool)
        ensures
            r == nodes_conflict(self.access@, other.access@),
    {
        let mut k: usize = 0;
        while k < self.access.len()
            invariant
                k <= self.access@.len(),
                forall|i: int, j: int| 0 <= i < k && 0 <= j < other.access@.len()
                    ==> !accessors_conflict(self.access@[i], other.access@[j]),
            decreases self.access@.len() - k,
        {
            let hit = match self.access[k] {
                Accessor::Ref(id) => other.has(Accessor::Mut(id)),
                Accessor::Mut(id) => {
                    let a = other.has(Accessor::Mut(id));
                    let b = other.has(Accessor::Ref(id));
                    a || b
                },
                Accessor::Res(id) => other.has(Accessor::ResMut(id)),
                Accessor::ResMut(id) => {
                    let a = other.has(Accessor::ResMut(id));
                    let b = other.has(Accessor::Res(id));
                    a || b
                },
                Accessor::NoAccess => false,
            };
            if hit {
                proof {
                    let acc = self.access@[k as int];
                    match acc {
                        Accessor::Ref(id) => {
                            let j = choose|j: int| 0 <= j < other.access@.len()
                                && other.access@[j] == Accessor::Mut(id);
                            assert(accessors_conflict(acc, other.access@[j]));
                        },
                        Accessor::Mut(id) => {
                            if other.access@.contains(Accessor::Mut(id)) {
                                let j = choose|j: int| 0 <= j < other.access@.len()
                                    && other.access@[j] == Accessor::Mut(id);
                                assert(accessors_conflict(acc, other.access@[j]));
                            } else {
                                let j = choose|j: int| 0 <= j < other.access@.len()
                                    && other.access@[j] == Accessor::Ref(id);
                                assert(accessors_conflict(acc, other.access@[j]));
                            }
                        },
                        Accessor::Res(id) => {
                            let j = choose|j: int| 0 <= j < other.access@.len()
                                && other.access@[j] == Accessor::ResMut(id);
                            assert(accessors_conflict(acc, other.access@[j]));
                        },
                        Accessor::ResMut(id) => {
                            if other.access@.contains(Accessor::ResMut(id)) {
                                let j = choose|j: int| 0 <= j < other.access@.len()
                                    && other.access@[j] == Accessor::ResMut(id);
                                assert(accessors_conflict(acc, other.access@[j]));
                            } else {
                                let j = choose|j: int| 0 <= j < other.access@.len()
                                    && other.access@[j] == Accessor::Res(id);
                                assert(accessors_conflict(acc, other.access@[j]));
                            }
                        },
                        Accessor::NoAccess => {
                            assert(false);
                        },
                    }
                }
                return true;
            }
            proof {
                assert forall|j: int| 0 <= j < other.access@.len() implies
                    !accessors_conflict(self.access@[k as int], other.access@[j]) by {
                    let acc = self.access@[k as int];
                    if accessors_conflict(acc, other.access@[j]) {
                        assert(other.access@.contains(other.access@[j]));
                    }
                }
            }
            k = k + 1;
        }
        proof {
            assert(!nodes_conflict(self.access@, other.access@));
        }
        false
    }

    /// Mark whether this system has run in the current stage.
    pub fn set_has_ran(&mut self, v: bool)
        ensures
            final(self).access == old(self).access,
            final(self).edges == old(self).edges,
            final(self).has_ran == v,
    {
        self.has_ran = v;
    }

    /// Whether this system has run in the current stage.
    pub fn has_ran(&self) -> (r: bool)
        ensures
            r == self.has_ran,
    {
        self.has_ran
    }
}

/// Whether index `x` appears somewhere in a plan's batches.
pub open spec fn planned(batches: Seq<Vec<SystemIndex>>, x: SystemIndex) -> bool {
    exists|b: int, p: int| 0 <= b < batches.len() && 0 <= p < batches[b]@.len()
        && batches[b]@[p] == x
}

/// One stage's systems and their compatibility edges.
pub struct Scheduler {
    pub systems: Vec<Node>,
}

impl Scheduler {
    /// Edges are sound: every edge joins a system either to itself or
    /// to a non-conflicting system, and every node's first edge is
    /// its own index. Outside execution no system is marked as ran.
    pub open spec fn wf(&self) -> bool {
        &&& forall|i: int| 0 <= i < self.systems@.len() ==> {
            let n = #[trigger] self.systems@[i];
            &&& n.edges@.len() > 0
            &&& n.edges@[0] == i
            &&& forall|k: int| 0 <= k < n.edges@.len()
                ==> (#[trigger] n.edges@[k]) < self.systems@.len()
                    && (n.edges@[k] == i || !nodes_conflict(n.access@,
                        self.systems@[n.edges@[k] as int].access@))
        }
        &&& forall|i: int| 0 <= i < self.systems@.len()
            ==> !(#[trigger] self.systems@[i]).has_ran
    }

    /// An empty stage.
    pub fn new() -> (r: Self)
        ensures
            r.wf(),
            r.systems@.len() == 0,
    {
        Scheduler { systems: Vec::new() }
    }

    /// Add a system with the given accessors: it records an edge to
    /// every already-inserted system it does not conflict with, and
    /// is added to each of those systems' edge lists in turn.
    pub fn insert(&mut self, access: Vec<Accessor>)
        requires
            old(self).wf(),
            old(self).systems@.len() < usize::MAX,
        ensures
            final(self).wf(),
            final(self).systems@.len() == old(self).systems@.len() + 1,
            final(self).systems@.last().access == access,
            forall|j: int| 0 <= j < old(self).systems@.len()
                ==> (#[trigger] final(self).systems@[j]).access
                    == old(self).systems@[j].access,
            forall|j: int| 0 <= j < old(self).systems@.len()
                && !nodes_conflict(old(self).systems@[j].access@, access@)
                ==> (#[trigger] final(self).systems@[j]).edges@
                        =~= old(self).systems@[j].edges@.push((old(self).systems@.len()
                            as usize))
                    && final(self).systems@.last().edges@.contains(j as usize),
            forall|j: int| 0 <= j < old(self).systems@.len()
                && nodes_conflict(old(self).systems@[j].access@, access@)
                ==> (#[trigger] final(self).systems@[j]).edges@
                        == old(self).systems@[j].edges@
                    && !final(self).systems@.last().edges@.contains(j as usize),
    {
        let index = self.systems.len();
        let probe = Node { access, edges: Vec::new(), has_ran: false };
        let mut new_edges: Vec<SystemIndex> = Vec::new();
        new_edges.push(index);
        let ghost sys0 = self.systems@;
        let mut j: usize = 0;
        while j < self.systems.len()
            invariant
                old(self).wf(),
                sys0 == old(self).systems@,
                index == sys0.len(),
                j <= sys0.len(),
                self.systems@.len() == sys0.len(),
                new_edges@.len() > 0,
                new_edges@[0] == index,
                forall|k: int| 0 <= k < new_edges@.len()
                    ==> (#[trigger] new_edges@[k]) == index
                        || ((new_edges@[k] < j
                            && !nodes_conflict(sys0[new_edges@[k] as int].access@,
                                probe.access@))),
                forall|j2: int| 0 <= j2 < sys0.len()
                    ==> (#[trigger] self.systems@[j2]).access == sys0[j2].access
                        && self.systems@[j2].has_ran == sys0[j2].has_ran,
                forall|j2: int| 0 <= j2 < j
                    && !nodes_conflict(sys0[j2].access@, probe.access@)
                    ==> (#[trigger] self.systems@[j2]).edges@
                            =~= sys0[j2].edges@.push(index)
                        && new_edges@.contains(j2 as usize),
                forall|j2: int| (j <= j2 < sys0.len()
                    || nodes_conflict(sys0[j2].access@, probe.access@))
                    && 0 <= j2 < sys0.len()
                    ==> (#[trigger] self.systems@[j2]).edges@ == sys0[j2].edges@
                        && (j2 >= j || !new_edges@.contains(j2 as usize)),
            decreases sys0.len() - j,
        {
            let c = self.systems[j].conflicts_with(&probe);
            if !c {
                proof {
                    crate::scheduler::lemma_conflict_symmetric(sys0[j as int].access@,
                        probe.access@);
                }
                let ghost pre_edges = new_edges@;
                new_edges.push(j);
                let ghost pre_sys = self.systems@;
                let node = &mut self.systems[j];
                node.edges.push(index);
                proof {
                    assert(new_edges@.last() == j as usize);
                    assert(new_edges@.contains(j as usize));
                    assert forall|j2: int| 0 <= j2 < j + 1
                        && !nodes_conflict(sys0[j2].access@, probe.access@) implies
                        (#[trigger] self.systems@[j2]).edges@
                            =~= sys0[j2].edges@.push(index)
                            && new_edges@.contains(j2 as usize) by {
                        if j2 < j {
                            assert(pre_sys[j2].edges@ =~= sys0[j2].edges@.push(index));
                            assert(self.systems@[j2] == pre_sys[j2]);
                            let m = choose|m: int| 0 <= m < pre_edges.len()
                                && pre_edges[m] == j2 as usize;
                            assert(new_edges@[m] == j2 as usize);
                        } else {
                            assert(j2 == j);
                            assert(pre_sys[j as int].edges@ == sys0[j as int].edges@);
                            assert(self.systems@[j as int].edges@
                                =~= pre_sys[j as int].edges@.push(index));
                        }
                    }
                    assert forall|j2: int| (j + 1 <= j2 < sys0.len()
                        || nodes_conflict(sys0[j2].access@, probe.access@))
                        && 0 <= j2 < sys0.len() implies
                        (#[trigger] self.systems@[j2]).edges@ == sys0[j2].edges@
                            && (j2 >= j + 1 || !new_edges@.contains(j2 as usize)) by {
                        if j2 < j + 1 && new_edges@.contains(j2 as usize) {
                            let m = choose|m: int| 0 <= m < new_edges@.len()
                                && new_edges@[m] == j2 as usize;
                            if m < pre_edges.len() {
                                assert(pre_edges[m] == j2 as usize);
                                assert(pre_edges[m] == index
                                    || (pre_edges[m] < j
                                        && !nodes_conflict(sys0[pre_edges[m] as int].access@,
                                            probe.access@)));
                            } else {
                                assert(new_edges@[m] == j as usize);
                            }
                        }
                    }
                }
            } else {
                proof {
                    crate::scheduler::lemma_conflict_symmetric(sys0[j as int].access@,
                        probe.access@);
                    assert forall|j2: int| 0 <= j2 < j + 1
                        && !nodes_conflict(sys0[j2].access@, probe.access@) implies
                        (#[trigger] self.systems@[j2]).edges@
                            =~= sys0[j2].edges@.push(index)
                            && new_edges@.contains(j2 as usize) by {
                        assert(j2 != j);
                    }
                    assert forall|j2: int| (j + 1 <= j2 < sys0.len()
                        || nodes_conflict(sys0[j2].access@, probe.access@))
                        && 0 <= j2 < sys0.len() implies
                        (#[trigger] self.systems@[j2]).edges@ == sys0[j2].edges@
                            && (j2 >= j + 1 || !new_edges@.contains(j2 as usize)) by {
                        if j2 < j + 1 && new_edges@.contains(j2 as usize) {
                            let m = choose|m: int| 0 <= m < new_edges@.len()
                                && new_edges@[m] == j2 as usize;
                            assert(new_edges@[m] == index
                                || (new_edges@[m] < j
                                    && !nodes_conflict(sys0[new_edges@[m]
                                        as int].access@, probe.access@)));
                        }
                    }
                }
            }
            proof {
                assert(forall|j2: int| 0 <= j2 < j + 1
                    && !nodes_conflict(sys0[j2].access@, probe.access@)
                    ==> (#[trigger] self.systems@[j2]).edges@
                            =~= sys0[j2].edges@.push(index)
                        && new_edges@.contains(j2 as usize));
            }
            j = j + 1;
        }
        let new_node = Node { access: probe.access, edges: new_edges, has_ran: false };
        self.systems.push(new_node);
        proof {
            let n = self.systems@.len() - 1;
            assert forall|i: int| 0 <= i < self.systems@.len() implies {
                let nd = #[trigger] self.systems@[i];
                &&& nd.edges@.len() > 0
                &&& nd.edges@[0] == i
                &&& forall|k: int| 0 <= k < nd.edges@.len()
                    ==> (#[trigger] nd.edges@[k]) < self.systems@.len()
                        && (nd.edges@[k] == i || !nodes_conflict(nd.access@,
                            self.systems@[nd.edges@[k] as int].access@))
            } by {
                let nd = self.systems@[i];
                if i < n {
                    assert(sys0[i].edges@[0] == i);
                    if !nodes_conflict(sys0[i].access@, self.systems@[n].access@) {
                        assert(nd.edges@ =~= sys0[i].edges@.push(index));
                    }
                    assert forall|k: int| 0 <= k < nd.edges@.len() implies
                        (#[trigger] nd.edges@[k]) < self.systems@.len()
                            && (nd.edges@[k] == i || !nodes_conflict(nd.access@,
                                self.systems@[nd.edges@[k] as int].access@)) by {
                        if !nodes_conflict(sys0[i].access@, self.systems@[n].access@)
                            && k == nd.edges@.len() - 1 {
                            assert(nd.edges@[k] == index);
                            lemma_conflict_symmetric(nd.access@, self.systems@[n].access@);
                        } else {
                            assert(nd.edges@[k] == sys0[i].edges@[k]);
                            assert(sys0[i].edges@[k] == i || !nodes_conflict(sys0[i].access@,
                                sys0[sys0[i].edges@[k] as int].access@));
                        }
                    }
                } else {
                    assert forall|k: int| 0 <= k < nd.edges@.len() implies
                        (#[trigger] nd.edges@[k]) < self.systems@.len()
                            && (nd.edges@[k] == i || !nodes_conflict(nd.access@,
                                self.systems@[nd.edges@[k] as int].access@)) by {
                        if nd.edges@[k] != i {
                            lemma_conflict_symmetric(sys0[nd.edges@[k] as int].access@,
                                nd.access@);
                        }
                    }
                }
            }
        }
    }

    /// Partition the systems into batches, in insertion order: each
    /// system lands in exactly one batch, and no two systems in one
    /// batch conflict, so a batch may run in parallel.
    pub fn plan(&self) -> (r: Vec<Vec<SystemIndex>>)
        requires
            self.wf(),
        ensures
            forall|b: int, p: int| 0 <= b < r@.len() && 0 <= p < r@[b]@.len()
                ==> (#[trigger] r@[b]@[p]) < self.systems@.len(),
            forall|b: int, p1: int, p2: int| 0 <= b < r@.len() && 0 <= p1 < r@[b]@.len()
                && 0 <= p2 < r@[b]@.len() && p1 != p2
                ==> !nodes_conflict(self.systems@[(#[trigger] r@[b]@[p1]) as int].access@,
                    self.systems@[(#[trigger] r@[b]@[p2]) as int].access@),
            forall|x: SystemIndex| x < self.systems@.len() ==> planned(r@, x),
            forall|b1: int, p1: int, b2: int, p2: int|
                0 <= b1 < r@.len() && 0 <= p1 < r@[b1]@.len()
                && 0 <= b2 < r@.len() && 0 <= p2 < r@[b2]@.len()
                && (b1 != b2 || p1 != p2)
                ==> (#[trigger] r@[b1]@[p1]) != (#[trigger] r@[b2]@[p2]),
    {
        let n = self.systems.len();
        let mut marks: Vec<bool> = Vec::new();
        let mut z: usize = 0;
        while z < n
            invariant
                z <= n,
                marks@.len() == z,
                forall|m: int| 0 <= m < z ==> !(#[trigger] marks@[m]),
            decreases n - z,
        {
            marks.push(false);
            z = z + 1;
        }
        let mut out: Vec<Vec<SystemIndex>> = Vec::new();
        let mut i: usize = 0;
        while i < n
            invariant
                self.wf(),
                n == self.systems@.len(),
                i <= n,
                marks@.len() == n,
                forall|x: SystemIndex| x < n
                    ==> (#[trigger] marks@[x as int]) == planned(out@, x),
                forall|x: int| 0 <= x < i ==> #[trigger] marks@[x],
                forall|b: int, p: int| 0 <= b < out@.len() && 0 <= p < out@[b]@.len()
                    ==> (#[trigger] out@[b]@[p]) < n,
                forall|b1: int, p1: int, b2: int, p2: int|
                    0 <= b1 < out@.len() && 0 <= p1 < out@[b1]@.len()
                    && 0 <= b2 < out@.len() && 0 <= p2 < out@[b2]@.len()
                    && (b1 != b2 || p1 != p2)
                    ==> (#[trigger] out@[b1]@[p1]) != (#[trigger] out@[b2]@[p2]),
                forall|b: int, p1: int, p2: int| 0 <= b < out@.len()
                    && 0 <= p1 < out@[b]@.len() && 0 <= p2 < out@[b]@.len() && p1 != p2
                    ==> !nodes_conflict(self.systems@[(#[trigger] out@[b]@[p1])
                        as int].access@,
                        self.systems@[(#[trigger] out@[b]@[p2]) as int].access@),
            decreases n - i,
        {
            if !marks[i] {
                let ghost out0 = out@;
                proof {
                    assert(!planned(out0, i));
                }
                let mut batch: Vec<SystemIndex> = Vec::new();
                batch.push(i);
                marks.set(i, true);
                proof {
                    assert(batch@.last() == i as usize);
                    assert(batch@.contains(i as usize));
                    assert forall|x: SystemIndex| x < n implies
                        (#[trigger] marks@[x as int])
                            == (planned(out0, x) || batch@.contains(x)) by {
                        if batch@.contains(x) {
                            let m = choose|m: int| 0 <= m < batch@.len() && batch@[m] == x;
                            assert(x == i as usize);
                        }
                    }
                }
                let mut e: usize = 1;
                while e < self.systems[i].edges.len()
                    invariant
                        self.wf(),
                        n == self.systems@.len(),
                        i < n,
                        1 <= self.systems@[i as int].edges@.len(),
                        e <= self.systems@[i as int].edges@.len(),
                        marks@.len() == n,
                        out@ == out0,
                        !planned(out0, i),
                        forall|p: int| 0 <= p < batch@.len()
                            ==> (#[trigger] batch@[p]) < n,
                        forall|p: int| 0 <= p < batch@.len()
                            ==> !planned(out0, #[trigger] batch@[p]),
                        forall|p1: int, p2: int| 0 <= p1 < batch@.len()
                            && 0 <= p2 < batch@.len() && p1 != p2
                            ==> (#[trigger] batch@[p1]) != (#[trigger] batch@[p2]),
                        forall|p1: int, p2: int| 0 <= p1 < batch@.len()
                            && 0 <= p2 < batch@.len() && p1 != p2
                            ==> !nodes_conflict(self.systems@[(#[trigger] batch@[p1])
                                as int].access@,
                                self.systems@[(#[trigger] batch@[p2]) as int].access@),
                        forall|x: SystemIndex| x < n
                            ==> (#[trigger] marks@[x as int])
                                == (planned(out0, x) || batch@.contains(x)),
                        forall|x: int| 0 <= x < i ==> #[trigger] marks@[x],
                        1 <= e,
                        batch@.contains(i as usize),
                    decreases self.systems@[i as int].edges@.len() - e,
                {
                    let cand = self.systems[i].edges[e];
                    proof {
                        assert(self.systems@[i as int].edges@[e as int] < n);
                    }
                    if !marks[cand] {
                        proof {
                            assert(!batch@.contains(cand));
                            assert(!planned(out0, cand));
                        }
                        let mut ok = true;
                        let mut p: usize = 0;
                        while p < batch.len()
                            invariant
                                self.wf(),
                                n == self.systems@.len(),
                                cand < n,
                                p <= batch@.len(),
                                forall|m: int| 0 <= m < batch@.len()
                                    ==> (#[trigger] batch@[m]) < n,
                                ok ==> forall|m: int| 0 <= m < p
                                    ==> !nodes_conflict(self.systems@[(#[trigger] batch@[m])
                                        as int].access@,
                                        self.systems@[cand as int].access@),
                            decreases batch@.len() - p,
                        {
                            let member = batch[p];
                            let c = self.systems[member].conflicts_with(&self.systems[cand]);
                            if c {
                                ok = false;
                            }
                            p = p + 1;
                        }
                        if ok {
                            let ghost pre_batch = batch@;
                            batch.push(cand);
                            marks.set(cand, true);
                            proof {
                                assert(batch@.contains(i as usize)) by {
                                    let m = choose|m: int| 0 <= m < pre_batch.len()
                                        && pre_batch[m] == i as usize;
                                    assert(batch@[m] == i as usize);
                                }
                                assert forall|p1: int, p2: int| 0 <= p1 < batch@.len()
                                    && 0 <= p2 < batch@.len() && p1 != p2 implies
                                    (#[trigger] batch@[p1]) != (#[trigger] batch@[p2]) by {
                                    let last = batch@.len() - 1;
                                    if p2 == last && batch@[p1] == batch@[p2] {
                                        assert(pre_batch[p1] == cand);
                                        assert(pre_batch.contains(cand));
                                    }
                                    if p1 == last && batch@[p1] == batch@[p2] {
                                        assert(pre_batch[p2] == cand);
                                        assert(pre_batch.contains(cand));
                                    }
                                }
                                assert forall|p1: int, p2: int| 0 <= p1 < batch@.len()
                                    && 0 <= p2 < batch@.len() && p1 != p2 implies
                                    !nodes_conflict(self.systems@[(#[trigger] batch@[p1])
                                        as int].access@,
                                        self.systems@[(#[trigger] batch@[p2])
                                            as int].access@) by {
                                    let last = batch@.len() - 1;
                                    if p1 == last && p2 < last {
                                        lemma_conflict_symmetric(
                                            self.systems@[batch@[p2] as int].access@,
                                            self.systems@[cand as int].access@);
                                    }
                                }
                                assert forall|x: SystemIndex| x < n implies
                                    (#[trigger] marks@[x as int])
                                        == (planned(out0, x) || batch@.contains(x)) by {
                                    if x == cand {
                                        assert(batch@.last() == cand);
                                        assert(batch@.contains(cand));
                                    } else {
                                        assert(batch@.contains(x) == pre_batch.contains(x))
                                            by {
                                            if batch@.contains(x) {
                                                let m = choose|m: int| 0 <= m < batch@.len()
                                                    && batch@[m] == x;
                                                assert(m < pre_batch.len());
                                                assert(pre_batch[m] == x);
                                            }
                                            if pre_batch.contains(x) {
                                                let m = choose|m: int|
                                                    0 <= m < pre_batch.len()
                                                    && pre_batch[m] == x;
                                                assert(batch@[m] == x);
                                            }
                                        }
                                    }
                                }
                            }
                        }
                    }
                    e = e + 1;
                }
                proof {
                    assert(batch@.contains(i as usize));
                }
                let ghost final_batch = batch@;
                out.push(batch);
                proof {
                    assert forall|x: SystemIndex| x < n implies
                        (#[trigger] marks@[x as int]) == planned(out@, x) by {
                        assert(planned(out@, x) == (planned(out0, x)
                            || final_batch.contains(x))) by {
                            if planned(out@, x) {
                                let (b, q) = choose|b: int, q: int| 0 <= b < out@.len()
                                    && 0 <= q < out@[b]@.len() && out@[b]@[q] == x;
                                if b < out0.len() {
                                    assert(out0[b]@[q] == x);
                                } else {
                                    assert(final_batch[q] == x);
                                }
                            }
                            if planned(out0, x) {
                                let (b, q) = choose|b: int, q: int| 0 <= b < out0.len()
                                    && 0 <= q < out0[b]@.len() && out0[b]@[q] == x;
                                assert(out@[b]@[q] == x);
                            }
                            if final_batch.contains(x) {
                                let q = choose|q: int| 0 <= q < final_batch.len()
                                    && final_batch[q] == x;
                                assert(out@[out@.len() - 1]@[q] == x);
                            }
                        }
                    }
                    assert(planned(out@, i)) by {
                        let q = choose|q: int| 0 <= q < final_batch.len()
                            && final_batch[q] == i as usize;
                        assert(out@[out@.len() - 1]@[q] == i as usize);
                    }
                    assert(marks@[i as int]);
                    assert forall|b1: int, p1: int, b2: int, p2: int|
                        0 <= b1 < out@.len() && 0 <= p1 < out@[b1]@.len()
                        && 0 <= b2 < out@.len() && 0 <= p2 < out@[b2]@.len()
                        && (b1 != b2 || p1 != p2) implies
                        (#[trigger] out@[b1]@[p1]) != (#[trigger] out@[b2]@[p2]) by {
                        let last = out@.len() - 1;
                        if b1 == last && b2 < last {
                            if out@[b1]@[p1] == out@[b2]@[p2] {
                                assert(!planned(out0, final_batch[p1]));
                                assert(out0[b2]@[p2] == final_batch[p1]);
                            }
                        } else if b2 == last && b1 < last {
                            if out@[b1]@[p1] == out@[b2]@[p2] {
                                assert(!planned(out0, final_batch[p2]));
                                assert(out0[b1]@[p1] == final_batch[p2]);
                            }
                        }
                    }
                }
            }
            i = i + 1;
        }
        proof {
            assert forall|x: SystemIndex| x < self.systems@.len() implies planned(out@, x) by {
                assert(marks@[x as int]);
            }
        }
        out
    }
}

} // verus!
