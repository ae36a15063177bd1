//! Entities under assembly: an unordered bundle of component values,
//! each tagged with its component id, together with the archetype
//! fingerprint computed from those ids.

use vstd::prelude::*;
use crate::fingerprint::{Archetype, ComponentId, fp_of};

verus! {

/// One component value tagged with its component id. The store is
/// agnostic to what the value means; it only moves it around.
#[derive(Copy, Clone, PartialEq, Eq, Structural)]
pub struct Anon {
    pub id: ComponentId,
    pub data: u64,
}

/// The sequence of component ids of a bundle, in bundle order.
pub open spec fn ids_of(s: Seq<Anon>) -> Seq<ComponentId> {
    s.map(|i: int, a: Anon| a.id)
}

/// Whether some element of `s` carries the id `id`.
pub open spec fn has_id(s: Seq<Anon>, id: ComponentId) -> bool {
    exists|i: int| 0 <= i < s.len() && s[i].id == id
}

/// The position of the first element of `s` carrying `id`;
/// meaningful only when `has_id(s, id)`.
pub open spec fn first_id_index(s: Seq<Anon>, id: ComponentId) -> int
    decreases s.len(),
{
    if s.len() == 0 {
        0
    } else if s[0].id == id {
        0
    } else {
        1 + first_id_index(s.drop_first(), id)
    }
}

/// Whether no two elements of `s` carry the same id.
pub open spec fn distinct_ids(s: Seq<Anon>) -> bool {
    forall|i: int, j: int| 0 <= i < j < s.len() ==> s[i].id != s[j].id
}

/// The value carried under `id`; meaningful only when `has_id(s, id)`
/// and the ids are distinct.
pub open spec fn value_of(s: Seq<Anon>, id: ComponentId) -> u64 {
    s[first_id_index(s, id)].data
}

/// Two duplicate-free id sequences of the same length, the first
/// contained in the second, carry the same ids.
pub proof fn lemma_distinct_same_members(s1: Seq<ComponentId>, s2: Seq<ComponentId>)
    requires
        s1.no_duplicates(),
        s2.no_duplicates(),
        s1.len() == s2.len(),
        forall|k: int| 0 <= k < s1.len() ==> s2.contains(#[trigger] s1[k]),
    ensures
        s1.to_multiset() == s2.to_multiset(),
{
    broadcast use vstd::seq_lib::group_to_multiset_ensures;

    s1.unique_seq_to_set();
    s2.unique_seq_to_set();
    assert(s1.to_set() <= s2.to_set());
    vstd::set_lib::lemma_subset_equality(s1.to_set(), s2.to_set());
    s1.lemma_multiset_has_no_duplicates();
    s2.lemma_multiset_has_no_duplicates();
    assert forall|x: ComponentId|
        s1.to_multiset().count(x) == s2.to_multiset().count(x) by {
        if s1.contains(x) {
            assert(s2.to_set().contains(x));
            assert(s2.contains(x));
        } else if s2.contains(x) {
            assert(s1.to_set().contains(x));
            assert(s1.contains(x));
        } else {
            assert(s1.to_multiset().count(x) == 0);
            assert(s2.to_multiset().count(x) == 0);
        }
    }
    assert(s1.to_multiset() =~= s2.to_multiset());
}

/// In a duplicate-free bundle, position `k` is the first position
/// carrying its own id.
pub proof fn lemma_first_of_distinct(s: Seq<Anon>, k: int)
    requires
        distinct_ids(s),
        0 <= k < s.len(),
    ensures
        first_id_index(s, s[k].id) == k,
{
    lemma_first_id_index(s, s[k].id, k);
}

/// A temporary unordered bundle of component values used for spawn
/// and during modify, carrying its archetype fingerprint.
pub struct Entity {
    pub components: Vec<Anon>,
    pub archetype: Archetype,
}

impl Entity {
    /// The ids of the components currently in the bundle.
    pub open spec fn ids(&self) -> Seq<ComponentId> {
        ids_of(self.components@)
    }

    /// An empty bundle with the empty fingerprint.
    pub fn new() -> (r: Self)
        ensures
            r.components@ =~= Seq::<Anon>::empty(),
            r.archetype.0 == 0,
    {
        Entity { components: Vec::new(), archetype: Archetype::new() }
    }

    /// Recompute the archetype fingerprint from the component ids.
    pub(crate) fn hash(&mut self)
        requires
            old(self).archetype.0 == 0,
        ensures
            final(self).components == old(self).components,
            final(self).archetype.0 == fp_of(old(self).ids()),
    {
        let ghost all_ids = self.ids();
        let mut i: usize = 0;
        while i < self.components.len()
            invariant
                i <= self.components.len(),
                self.components == old(self).components,
                all_ids == self.ids(),
                self.archetype.0 == fp_of(all_ids.take(i as int)),
            decreases self.components.len() - i,
        {
            let id = self.components[i].id;
            self.archetype.add(id);
            proof {
                assert(all_ids.take(i + 1).drop_last() =~= all_ids.take(i as int));
                assert(all_ids.take(i + 1).last() == all_ids[i as int]);
            }
            i = i + 1;
        }
        proof {
            assert(all_ids.take(all_ids.len() as int) =~= all_ids);
        }
    }

    /// Remove the first component carrying `id`, shifting the rest
    /// down; a no-op when no component carries it.
    pub(crate) fn remove(&mut self, id: ComponentId)
        ensures
            final(self).archetype == old(self).archetype,
            has_id(old(self).components@, id) ==> final(self).components@
                =~= old(self).components@.remove(first_id_index(old(self).components@, id)),
            !has_id(old(self).components@, id) ==> final(self).components@
                =~= old(self).components@,
    {
        let ghost orig = self.components@;
        let mut i: usize = 0;
        while i < self.components.len()
            invariant
                i <= self.components.len(),
                orig == old(self).components@,
                self.components@ == orig,
                self.archetype == old(self).archetype,
                forall|j: int| 0 <= j < i ==> orig[j].id != id,
            decreases self.components.len() - i,
        {
            if self.components[i].id == id {
                self.components.remove(i);
                proof {
                    assert(orig[i as int].id == id);
                    assert(has_id(orig, id));
                    lemma_first_id_index(orig, id, i as int);
                }
                return;
            }
            i = i + 1;
        }
        proof {
            assert(forall|j: int| 0 <= j < orig.len() ==> orig[j].id != id);
            assert(!has_id(orig, id));
        }
    }

    /// Insert a tagged component value: overwrite the first component
    /// with the same id if one exists, append otherwise.
    pub(crate) fn insert_anon(&mut self, anon: Anon)
        ensures
            final(self).archetype == old(self).archetype,
            has_id(old(self).components@, anon.id) ==> final(self).components@
                =~= old(self).components@.update(
                    first_id_index(old(self).components@, anon.id), anon),
            !has_id(old(self).components@, anon.id) ==> final(self).components@
                =~= old(self).components@.push(anon),
    {
        let ghost orig = self.components@;
        let mut i: usize = 0;
        while i < self.components.len()
            invariant
                i <= self.components.len(),
                orig == old(self).components@,
                self.components@ == orig,
                self.archetype == old(self).archetype,
                forall|j: int| 0 <= j < i ==> orig[j].id != anon.id,
            decreases self.components.len() - i,
        {
            if self.components[i].id == anon.id {
                self.components.set(i, anon);
                proof {
                    assert(orig[i as int].id == anon.id);
                    assert(has_id(orig, anon.id));
                    lemma_first_id_index(orig, anon.id, i as int);
                }
                return;
            }
            i = i + 1;
        }
        proof {
            assert(forall|j: int| 0 <= j < orig.len() ==> orig[j].id != anon.id);
            assert(!has_id(orig, anon.id));
        }
        self.components.push(anon);
    }

    /// Take one component out of the bundle, if any is left.
    pub(crate) fn pop(&mut self) -> (r: Option<Anon>)
        ensures
            final(self).archetype == old(self).archetype,
            old(self).components@.len() == 0 ==> r is None
                && final(self).components@ =~= old(self).components@,
            old(self).components@.len() > 0 ==> r == Some(old(self).components@.last())
                && final(self).components@ =~= old(self).components@.drop_last(),
    {
        self.components.pop()
    }

    /// Append a component value under the given id. The fingerprint
    /// is not updated; it is recomputed when the bundle is queued.
    pub fn insert(&mut self, id: ComponentId, data: u64)
        ensures
            final(self).archetype == old(self).archetype,
            final(self).components@ =~= old(self).components@.push(Anon { id, data }),
    {
        self.components.push(Anon { id, data });
    }
}

/// If no element before `i` carries `id` and `s[i]` does, then `i` is
/// the first index carrying `id`.
proof fn lemma_first_id_index(s: Seq<Anon>, id: ComponentId, i: int)
    requires
        0 <= i < s.len(),
        s[i].id == id,
        forall|j: int| 0 <= j < i ==> s[j].id != id,
    ensures
        first_id_index(s, id) == i,
    decreases i,
{
    if i > 0 {
        lemma_first_id_index(s.drop_first(), id, i - 1);
    }
}

/// The location of one entity: which table it lives in, and at which
/// column. Stable only between flushes.
#[derive(Copy, Clone, PartialEq, Eq, Ord, PartialOrd, Hash, Structural)]
pub struct EntityIndex {
    pub table: usize,
    pub col: usize,
}

/// Yields the locations `(table, 0) .. (table, len - 1)` in order.
pub struct EntityIndexIter {
    pub table: usize,
    pub col: usize,
    pub len: usize,
}

impl EntityIndexIter {
    /// The locations not yet yielded.
    pub open spec fn remaining(&self) -> Seq<EntityIndex> {
        if self.col <= self.len {
            Seq::new((self.len - self.col) as nat,
                |k: int| EntityIndex { table: self.table, col: (self.col + k) as usize })
        } else {
            Seq::empty()
        }
    }

    /// Yield the next location, left to right.
    pub fn next(&mut self) -> (r: Option<EntityIndex>)
        ensures
            old(self).remaining().len() == 0 ==> r is None
                && final(self).remaining() =~= old(self).remaining(),
            old(self).remaining().len() > 0 ==> r == Some(old(self).remaining()[0])
                && final(self).remaining() =~= old(self).remaining().drop_first(),
    {
        if self.col >= self.len {
            None
        } else {
            let out = EntityIndex { table: self.table, col: self.col };
            self.col = self.col + 1;
            Some(out)
        }
    }
}

/// Chains the index ranges of several tables, yielding locations
/// table by table in the order the ranges were pushed.
pub struct EntityIndexChain {
    pub iters: Vec<EntityIndexIter>,
    pub pos: usize,
}

/// The locations a chain has left, from position `pos` on.
pub open spec fn chain_remaining(iters: Seq<EntityIndexIter>, pos: int) -> Seq<EntityIndex>
    decreases iters.len() - pos,
{
    if pos < 0 || pos >= iters.len() {
        Seq::empty()
    } else {
        iters[pos].remaining() + chain_remaining(iters, pos + 1)
    }
}

impl EntityIndexChain {
    /// The locations not yet yielded.
    pub open spec fn remaining(&self) -> Seq<EntityIndex> {
        chain_remaining(self.iters@, self.pos as int)
    }

    /// An empty chain with room reserved for `capacity` ranges.
    pub fn with_capacity(capacity: usize) -> (r: Self)
        ensures
            r.remaining() =~= Seq::<EntityIndex>::empty(),
            r.iters@.len() == 0,
            r.pos == 0,
    {
        EntityIndexChain { iters: Vec::with_capacity(capacity), pos: 0 }
    }

    /// Append one table's index range to the end of the chain.
    pub fn push(&mut self, iter: EntityIndexIter)
        requires
            old(self).pos <= old(self).iters@.len(),
        ensures
            final(self).remaining() =~= old(self).remaining() + iter.remaining(),
            final(self).iters@ =~= old(self).iters@.push(iter),
            final(self).pos == old(self).pos,
    {
        self.iters.push(iter);
        proof {
            lemma_chain_push(old(self).iters@, iter, self.pos as int);
        }
    }

    /// Yield the next location over all chained ranges.
    pub fn next(&mut self) -> (r: Option<EntityIndex>)
        requires
            old(self).pos <= old(self).iters@.len(),
        ensures
            final(self).pos <= final(self).iters@.len(),
            old(self).remaining().len() == 0 ==> r is None
                && final(self).remaining() =~= old(self).remaining(),
            old(self).remaining().len() > 0 ==> r == Some(old(self).remaining()[0])
                && final(self).remaining() =~= old(self).remaining().drop_first(),
    {
        while self.pos < self.iters.len() && self.iters[self.pos].col >= self.iters[self.pos].len
            invariant
                self.pos <= self.iters@.len(),
                self.iters == old(self).iters,
                chain_remaining(self.iters@, self.pos as int)
                    =~= old(self).remaining(),
            decreases self.iters@.len() - self.pos,
        {
            proof {
                assert(self.iters@[self.pos as int].remaining() =~= Seq::<EntityIndex>::empty());
            }
            self.pos = self.pos + 1;
        }
        if self.pos >= self.iters.len() {
            None
        } else {
            let ghost pre = self.iters@;
            let ghost p = self.pos as int;
            let iter = &mut self.iters[self.pos];
            let out = iter.next();
            proof {
                lemma_chain_head(pre, self.iters@, p);
            }
            out
        }
    }
}

/// Pushing a range onto the back of a chain appends its locations.
proof fn lemma_chain_push(iters: Seq<EntityIndexIter>, iter: EntityIndexIter, pos: int)
    requires
        0 <= pos <= iters.len(),
    ensures
        chain_remaining(iters.push(iter), pos)
            =~= chain_remaining(iters, pos) + iter.remaining(),
    decreases iters.len() - pos,
{
    if pos < iters.len() {
        assert(iters.push(iter)[pos] == iters[pos]);
        lemma_chain_push(iters, iter, pos + 1);
    } else {
        assert(iters.push(iter)[pos] == iter);
        assert(chain_remaining(iters.push(iter), pos + 1) =~= Seq::<EntityIndex>::empty());
    }
}

/// Advancing the range at `pos` by one step drops the head of the
/// chained locations; ranges past `pos` are untouched.
proof fn lemma_chain_head(pre: Seq<EntityIndexIter>, post: Seq<EntityIndexIter>, pos: int)
    requires
        0 <= pos < pre.len(),
        post.len() == pre.len(),
        forall|j: int| 0 <= j < pre.len() && j != pos ==> post[j] == pre[j],
        pre[pos].remaining().len() > 0,
        post[pos].remaining() =~= pre[pos].remaining().drop_first(),
    ensures
        chain_remaining(post, pos) =~= chain_remaining(pre, pos).drop_first(),
        chain_remaining(pre, pos)[0] == pre[pos].remaining()[0],
    decreases pre.len() - pos,
{
    lemma_chain_same(pre, post, pos + 1);
}

/// Two chains equal from `pos` on have the same locations from `pos`.
proof fn lemma_chain_same(pre: Seq<EntityIndexIter>, post: Seq<EntityIndexIter>, pos: int)
    requires
        post.len() == pre.len(),
        forall|j: int| pos <= j < pre.len() ==> post[j] == pre[j],
    ensures
        chain_remaining(post, pos) =~= chain_remaining(pre, pos),
    decreases pre.len() - pos,
{
    if 0 <= pos < pre.len() {
        lemma_chain_same(pre, post, pos + 1);
    }
}

} // verus!
