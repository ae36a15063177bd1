//! Query-side iteration: the values of one component over the tables
//! a query matches, chained table by table in cache order, paired by
//! the caller with the matching entity-index chain.

use vstd::prelude::*;

verus! {

/// The values of one column, yielded left to right.
pub struct ValueIter {
    pub data: Vec<u64>,
    pub pos: usize,
}

impl ValueIter {
    /// The values not yet yielded.
    pub open spec fn remaining(&self) -> Seq<u64> {
        if self.pos <= self.data@.len() {
            self.data@.subrange(self.pos as int, self.data@.len() as int)
        } else {
            Seq::empty()
        }
    }

    /// Yield the next value.
    pub fn next(&mut self) -> (r: Option<u64>)
        ensures
            old(self).remaining().len() == 0 ==> r is None
                && final(self).remaining() =~= old(self).remaining(),
            old(self).remaining().len() > 0 ==> r == Some(old(self).remaining()[0])
                && final(self).remaining() =~= old(self).remaining().drop_first(),
    {
        if self.pos >= self.data.len() {
            None
        } else {
            let out = self.data[self.pos];
            self.pos = self.pos + 1;
            Some(out)
        }
    }
}

/// The values a chain has left, from position `pos` on.
pub open spec fn value_chain_remaining(iters: Seq<ValueIter>, pos: int) -> Seq<u64>
    decreases iters.len() - pos,
{
    if pos < 0 || pos >= iters.len() {
        Seq::empty()
    } else {
        iters[pos].remaining() + value_chain_remaining(iters, pos + 1)
    }
}

/// Chains the columns of several tables, yielding values table by
/// table in the order the columns were pushed.
pub struct ValueIterChain {
    pub iters: Vec<ValueIter>,
    pub pos: usize,
}

impl ValueIterChain {
    /// The values not yet yielded.
    pub open spec fn remaining(&self) -> Seq<u64> {
        value_chain_remaining(self.iters@, self.pos as int)
    }

    /// An empty chain with room reserved for `capacity` columns.
    pub fn with_capacity(capacity: usize) -> (r: Self)
        ensures
            r.remaining() =~= Seq::<u64>::empty(),
            r.iters@.len() == 0,
            r.pos == 0,
    {
        ValueIterChain { iters: Vec::with_capacity(capacity), pos: 0 }
    }

    /// Append one table's column to the end of the chain.
    pub fn push(&mut self, iter: ValueIter)
        requires
            old(self).pos <= old(self).iters@.len(),
        ensures
            final(self).remaining() =~= old(self).remaining() + iter.remaining(),
            final(self).iters@ =~= old(self).iters@.push(iter),
            final(self).pos == old(self).pos,
    {
        self.iters.push(iter);
        proof {
            lemma_value_chain_push(old(self).iters@, iter, self.pos as int);
        }
    }

    /// Yield the next value over all chained columns.
    pub fn next(&mut self) -> (r: Option<u64>)
        requires
            old(self).pos <= old(self).iters@.len(),
        ensures
            final(self).pos <= final(self).iters@.len(),
            old(self).remaining().len() == 0 ==> r is None
                && final(self).remaining() =~= old(self).remaining(),
            old(self).remaining().len() > 0 ==> r == Some(old(self).remaining()[0])
                && final(self).remaining() =~= old(self).remaining().drop_first(),
    {
        while self.pos < self.iters.len() && self.iters[self.pos].pos
            >= self.iters[self.pos].data.len()
            invariant
                self.pos <= self.iters@.len(),
                self.iters == old(self).iters,
                value_chain_remaining(self.iters@, self.pos as int) =~= old(self).remaining(),
            decreases self.iters@.len() - self.pos,
        {
            proof {
                assert(self.iters@[self.pos as int].remaining() =~= Seq::<u64>::empty());
            }
            self.pos = self.pos + 1;
        }
        if self.pos >= self.iters.len() {
            None
        } else {
            let ghost pre = self.iters@;
            let ghost p = self.pos as int;
            let iter = &mut self.iters[self.pos];
            let out = iter.next();
            proof {
                lemma_value_chain_head(pre, self.iters@, p);
            }
            out
        }
    }
}

/// Pushing a column onto the back of a chain appends its values.
proof fn lemma_value_chain_push(iters: Seq<ValueIter>, iter: ValueIter, pos: int)
    requires
        0 <= pos <= iters.len(),
    ensures
        value_chain_remaining(iters.push(iter), pos)
            =~= value_chain_remaining(iters, pos) + iter.remaining(),
    decreases iters.len() - pos,
{
    if pos < iters.len() {
        assert(iters.push(iter)[pos] == iters[pos]);
        lemma_value_chain_push(iters, iter, pos + 1);
    } else {
        assert(iters.push(iter)[pos] == iter);
        assert(value_chain_remaining(iters.push(iter), pos + 1) =~= Seq::<u64>::empty());
    }
}

/// Advancing the column at `pos` by one value drops the head of the
/// chained values; columns past `pos` are untouched.
proof fn lemma_value_chain_head(pre: Seq<ValueIter>, post: Seq<ValueIter>, pos: int)
    requires
        0 <= pos < pre.len(),
        post.len() == pre.len(),
        forall|j: int| 0 <= j < pre.len() && j != pos ==> post[j] == pre[j],
        pre[pos].remaining().len() > 0,
        post[pos].remaining() =~= pre[pos].remaining().drop_first(),
    ensures
        value_chain_remaining(post, pos) =~= value_chain_remaining(pre, pos).drop_first(),
        value_chain_remaining(pre, pos)[0] == pre[pos].remaining()[0],
    decreases pre.len() - pos,
{
    lemma_value_chain_same(pre, post, pos + 1);
}

/// Two chains equal from `pos` on have the same values from `pos`.
proof fn lemma_value_chain_same(pre: Seq<ValueIter>, post: Seq<ValueIter>, pos: int)
    requires
        post.len() == pre.len(),
        forall|j: int| pos <= j < pre.len() ==> post[j] == pre[j],
    ensures
        value_chain_remaining(post, pos) =~= value_chain_remaining(pre, pos),
    decreases pre.len() - pos,
{
    if 0 <= pos < pre.len() {
        lemma_value_chain_same(pre, post, pos + 1);
    }
}

} // verus!
