//! One archetype's storage: a column per component id, all columns of
//! equal length, plus the table's deferred spawn / destroy / modify
//! queues and the two dirty flags that say which queues are pending.

use vstd::prelude::*;
use crate::fingerprint::{ComponentId, fp_of};
use crate::entity::{Anon, Entity, EntityIndexIter, ids_of, has_id, first_id_index, distinct_ids, value_of, lemma_distinct_same_members};

verus! {

/// A column index inside a table.
pub type Column = usize;

/// A contiguous append-only buffer of the values of one component
/// type, identified by the component id all its values share.
pub struct AnonVec {
    pub id: ComponentId,
    pub data: Vec<u64>,
}

/// The result of removing the element at `c` by swapping the last
/// element into its place and shortening the buffer by one.
pub open spec fn swap_erase(s: Seq<u64>, c: int) -> Seq<u64> {
    s.update(c, s.last()).drop_last()
}

impl AnonVec {
    /// A column holding the single value of one seed component.
    pub fn new(anon: Anon) -> (r: Self)
        ensures
            r.id == anon.id,
            r.data@ =~= seq![anon.data],
    {
        let mut data = Vec::new();
        data.push(anon.data);
        AnonVec { id: anon.id, data }
    }

    /// Append one value; the tag must carry this column's id.
    pub fn push(&mut self, anon: Anon)
        requires
            anon.id == old(self).id,
        ensures
            final(self).id == old(self).id,
            final(self).data@ =~= old(self).data@.push(anon.data),
    {
        self.data.push(anon.data);
    }

    /// Remove the value at `col` by swap-erase, running its
    /// destructor (a no-op for the plain values stored here).
    pub fn destroy_swap(&mut self, col: Column)
        requires
            col < old(self).data@.len(),
        ensures
            final(self).id == old(self).id,
            final(self).data@ =~= swap_erase(old(self).data@, col as int),
    {
        let last = self.data.len() - 1;
        let v = self.data[last];
        self.data.set(col, v);
        self.data.pop();
        proof {
            assert(self.data@ =~= swap_erase(old(self).data@, col as int));
        }
    }

    /// Remove the value at `col` by swap-erase, skipping its
    /// destructor: the value has been moved into a re-homed entity.
    pub fn destroy_nodrop(&mut self, col: Column)
        requires
            col < old(self).data@.len(),
        ensures
            final(self).id == old(self).id,
            final(self).data@ =~= swap_erase(old(self).data@, col as int),
    {
        let last = self.data.len() - 1;
        let v = self.data[last];
        self.data.set(col, v);
        self.data.pop();
        proof {
            assert(self.data@ =~= swap_erase(old(self).data@, col as int));
        }
    }

    /// A detached copy of the value at `col`, tagged with this
    /// column's id; the column is unchanged.
    pub fn index(&self, col: Column) -> (r: Anon)
        requires
            col < self.data@.len(),
        ensures
            r.id == self.id,
            r.data == self.data@[col as int],
    {
        Anon { id: self.id, data: self.data[col] }
    }
}

/// A structural mutation queued against one column of a table:
/// remove the entity there with its destructors, or without them
/// because its components have been moved elsewhere.
#[derive(Copy, Clone, Eq, PartialEq, Ord, PartialOrd, Structural)]
pub enum DestroyType {
    Drop(Column),
    NoDrop(Column),
}

impl DestroyType {
    /// The column this destroy targets.
    pub open spec fn col(&self) -> int {
        match *self {
            DestroyType::Drop(c) => c as int,
            DestroyType::NoDrop(c) => c as int,
        }
    }
}

/// Whether some queued destroy targets column `c`, with or without
/// destructors.
pub open spec fn has_col(ds: Seq<DestroyType>, c: int) -> bool {
    exists|k: int| 0 <= k < ds.len() && ds[k].col() == c
}

/// The distinct columns below `bound` targeted by `ds`, in strictly
/// descending order: the order destroys are applied in, so that a
/// swap-erase cannot disturb a destroy still pending at a lower
/// column.
pub open spec fn dcols(ds: Seq<DestroyType>, bound: nat) -> Seq<int>
    decreases bound,
{
    if bound == 0 {
        Seq::empty()
    } else if has_col(ds, bound - 1) {
        seq![bound - 1] + dcols(ds, (bound - 1) as nat)
    } else {
        dcols(ds, (bound - 1) as nat)
    }
}

/// A column after a strictly descending run of swap-erases.
pub open spec fn apply_destroys(s: Seq<u64>, cols: Seq<int>) -> Seq<u64>
    decreases cols.len(),
{
    if cols.len() == 0 {
        s
    } else {
        apply_destroys(swap_erase(s, cols[0]), cols.drop_first())
    }
}

/// The values one column gains from a spawn queue, newest spawn
/// first: the order the queue is drained in.
pub open spec fn spawned_column(spawn: Seq<Entity>, id: ComponentId) -> Seq<u64>
    decreases spawn.len(),
{
    if spawn.len() == 0 {
        Seq::empty()
    } else {
        seq![value_of(spawn.last().components@, id)]
            + spawned_column(spawn.drop_last(), id)
    }
}

/// Appending a column to the run applies its swap-erase last.
proof fn lemma_apply_destroys_push(s: Seq<u64>, cols: Seq<int>, c: int)
    ensures
        apply_destroys(s, cols.push(c)) == swap_erase(apply_destroys(s, cols), c),
    decreases cols.len(),
{
    if cols.len() == 0 {
        assert(cols.push(c)[0] == c);
        assert(cols.push(c).drop_first() =~= Seq::<int>::empty());
        assert(apply_destroys(s, cols) == s);
        assert(apply_destroys(swap_erase(s, c), cols.push(c).drop_first())
            == swap_erase(s, c));
        assert(apply_destroys(s, cols.push(c))
            == apply_destroys(swap_erase(s, c), cols.push(c).drop_first()));
    } else {
        assert(cols.push(c)[0] == cols[0]);
        assert(cols.push(c).drop_first() =~= cols.drop_first().push(c));
        assert(apply_destroys(s, cols.push(c))
            == apply_destroys(swap_erase(s, cols[0]), cols.drop_first().push(c)));
        assert(apply_destroys(s, cols)
            == apply_destroys(swap_erase(s, cols[0]), cols.drop_first()));
        lemma_apply_destroys_push(swap_erase(s, cols[0]), cols.drop_first(), c);
    }
}

/// Every column of `dcols` lies below the bound, less its position:
/// the sequence is strictly descending from at most `bound - 1`.
proof fn lemma_dcols_bounds(ds: Seq<DestroyType>, bound: nat)
    ensures
        dcols(ds, bound).len() <= bound,
        forall|m: int| 0 <= m < dcols(ds, bound).len()
            ==> 0 <= #[trigger] dcols(ds, bound)[m] < bound - m,
    decreases bound,
{
    if bound > 0 {
        lemma_dcols_bounds(ds, (bound - 1) as nat);
    }
}

/// A strictly descending sequence of columns below `bound` whose
/// members are exactly the targeted columns is `dcols` itself.
proof fn lemma_dcols_unique(v: Seq<int>, ds: Seq<DestroyType>, bound: nat)
    requires
        forall|i: int, j: int| 0 <= i < j < v.len() ==> v[i] > v[j],
        forall|m: int| 0 <= m < v.len() ==> 0 <= #[trigger] v[m] < bound,
        forall|c: int| #[trigger] v.contains(c) ==> has_col(ds, c),
        forall|c: int| 0 <= c < bound && has_col(ds, c) ==> #[trigger] v.contains(c),
    ensures
        v =~= dcols(ds, bound),
    decreases bound,
{
    if bound == 0 {
        if v.len() > 0 {
            assert(0 <= v[0] && v[0] < bound);
            assert(false);
        }
    } else if has_col(ds, bound - 1) {
        assert(v.contains(bound - 1));
        let m = choose|m: int| 0 <= m < v.len() && v[m] == bound - 1;
        assert(v[0] >= v[m]);
        assert(v[0] == bound - 1);
        let w = v.drop_first();
        assert forall|c: int| #[trigger] w.contains(c) implies has_col(ds, c) by {
            let i = choose|i: int| 0 <= i < w.len() && w[i] == c;
            assert(v[i + 1] == c);
            assert(v.contains(c));
        }
        assert forall|c: int| 0 <= c < bound - 1 && has_col(ds, c) implies
            #[trigger] w.contains(c) by {
            assert(v.contains(c));
            let i = choose|i: int| 0 <= i < v.len() && v[i] == c;
            assert(i > 0);
            assert(w[i - 1] == c);
        }
        assert forall|m2: int| 0 <= m2 < w.len() implies 0 <= #[trigger] w[m2] < bound - 1 by {
            assert(w[m2] == v[m2 + 1]);
            assert(v[m2 + 1] < v[0]);
        }
        lemma_dcols_unique(w, ds, (bound - 1) as nat);
        assert(v =~= seq![v[0]] + w);
    } else {
        assert forall|m: int| 0 <= m < v.len() implies 0 <= #[trigger] v[m] < bound - 1 by {
            if v[m] == bound - 1 {
                assert(v.contains(bound - 1));
            }
        }
        assert forall|c: int| 0 <= c < bound - 1 && has_col(ds, c) implies
            #[trigger] v.contains(c) by {
            assert(0 <= c < bound);
        }
        lemma_dcols_unique(v, ds, (bound - 1) as nat);
    }
}

/// A bundle whose ids are a permutation of a duplicate-free id list
/// is itself duplicate-free.
proof fn lemma_matching_distinct(e: Seq<Anon>, tids: Seq<ComponentId>)
    requires
        ids_of(e).to_multiset() == tids.to_multiset(),
        tids.no_duplicates(),
    ensures
        distinct_ids(e),
        forall|k: int| 0 <= k < tids.len() ==> has_id(e, #[trigger] tids[k]),
    decreases 0nat,
{
    broadcast use vstd::seq_lib::group_to_multiset_ensures;

    let eids = ids_of(e);
    tids.lemma_multiset_has_no_duplicates();
    assert forall|x: ComponentId| eids.to_multiset().contains(x) implies
        eids.to_multiset().count(x) == 1 by {
        assert(tids.to_multiset().count(x) > 0);
        assert(tids.contains(x));
    }
    eids.lemma_multiset_has_no_duplicates_conv();
    assert forall|i: int, j: int| 0 <= i < j < e.len() implies e[i].id != e[j].id by {
        assert(eids[i] == e[i].id && eids[j] == e[j].id);
        if e[i].id == e[j].id {
            let r = eids.remove(i);
            assert(eids.to_multiset().count(e[i].id) == 1);
            assert(r.to_multiset() =~= eids.to_multiset().remove(eids[i]));
            assert(r[j - 1] == eids[j]);
            assert(r.contains(eids[j]));
            assert(r.to_multiset().count(eids[j]) > 0);
        }
    }
    assert forall|k: int| 0 <= k < tids.len() implies has_id(e, #[trigger] tids[k]) by {
        assert(tids.contains(tids[k]));
        assert(tids.to_multiset().count(tids[k]) > 0);
        assert(eids.to_multiset().count(tids[k]) > 0);
        assert(eids.contains(tids[k]));
        let m = choose|m: int| 0 <= m < eids.len() && eids[m] == tids[k];
        assert(e[m].id == tids[k]);
    }
}

/// Whether a modify record for `col` is already queued.
pub open spec fn modify_has(q: Seq<(Column, (Vec<Anon>, Vec<ComponentId>))>, col: Column) -> bool {
    exists|k: int| 0 <= k < q.len() && q[k].0 == col
}

/// The position of the first modify record for `col`; meaningful
/// only when `modify_has(q, col)`.
pub open spec fn modify_index(
    q: Seq<(Column, (Vec<Anon>, Vec<ComponentId>))>,
    col: Column,
) -> int
    decreases q.len(),
{
    if q.len() == 0 {
        0
    } else if q[0].0 == col {
        0
    } else {
        1 + modify_index(q.drop_first(), col)
    }
}

/// If no record before `k` names `col` and `q[k]` does, then `k` is
/// the first record naming `col`.
pub proof fn lemma_modify_index(
    q: Seq<(Column, (Vec<Anon>, Vec<ComponentId>))>,
    col: Column,
    k: int,
)
    requires
        0 <= k < q.len(),
        q[k].0 == col,
        forall|m: int| 0 <= m < k ==> q[m].0 != col,
    ensures
        modify_index(q, col) == k,
    decreases k,
{
    if k > 0 {
        lemma_modify_index(q.drop_first(), col, k - 1);
    }
}

/// Appending a remove id applies it after the earlier ones.
proof fn lemma_apply_removes_push(s: Seq<Anon>, rem: Seq<ComponentId>, id: ComponentId)
    ensures
        apply_removes(s, rem.push(id)) == remove_step(apply_removes(s, rem), id),
    decreases rem.len(),
{
    if rem.len() == 0 {
        assert(rem.push(id)[0] == id);
        assert(rem.push(id).drop_first() =~= Seq::<ComponentId>::empty());
        assert(apply_removes(s, rem) == s);
        assert(apply_removes(remove_step(s, id), rem.push(id).drop_first())
            == remove_step(s, id));
        assert(apply_removes(s, rem.push(id))
            == apply_removes(remove_step(s, id), rem.push(id).drop_first()));
    } else {
        assert(rem.push(id)[0] == rem[0]);
        assert(rem.push(id).drop_first() =~= rem.drop_first().push(id));
        assert(apply_removes(s, rem.push(id))
            == apply_removes(remove_step(s, rem[0]), rem.drop_first().push(id)));
        assert(apply_removes(s, rem)
            == apply_removes(remove_step(s, rem[0]), rem.drop_first()));
        lemma_apply_removes_push(remove_step(s, rem[0]), rem.drop_first(), id);
    }
}

/// Appending an insert applies it after the earlier ones.
proof fn lemma_apply_inserts_push(s: Seq<Anon>, ins: Seq<Anon>, a: Anon)
    ensures
        apply_inserts(s, ins.push(a)) == insert_step(apply_inserts(s, ins), a),
    decreases ins.len(),
{
    if ins.len() == 0 {
        assert(ins.push(a)[0] == a);
        assert(ins.push(a).drop_first() =~= Seq::<Anon>::empty());
        assert(apply_inserts(s, ins) == s);
        assert(apply_inserts(insert_step(s, a), ins.push(a).drop_first())
            == insert_step(s, a));
        assert(apply_inserts(s, ins.push(a))
            == apply_inserts(insert_step(s, a), ins.push(a).drop_first()));
    } else {
        assert(ins.push(a)[0] == ins[0]);
        assert(ins.push(a).drop_first() =~= ins.drop_first().push(a));
        assert(apply_inserts(s, ins.push(a))
            == apply_inserts(insert_step(s, ins[0]), ins.drop_first().push(a)));
        assert(apply_inserts(s, ins)
            == apply_inserts(insert_step(s, ins[0]), ins.drop_first()));
        lemma_apply_inserts_push(insert_step(s, ins[0]), ins.drop_first(), a);
    }
}

/// One remove keeps a bundle duplicate-free.
proof fn lemma_remove_step_distinct(s: Seq<Anon>, id: ComponentId)
    requires
        distinct_ids(s),
    ensures
        distinct_ids(remove_step(s, id)),
{
    if has_id(s, id) {
        let k = first_id_index(s, id);
        lemma_first_index_in_bounds(s, id);
        let r = s.remove(k);
        assert forall|i: int, j: int| 0 <= i < j < r.len() implies r[i].id != r[j].id by {
            let i0: int = if i < k { i } else { i + 1 };
            let j0: int = if j < k { j } else { j + 1 };
            assert(r[i] == s[i0] && r[j] == s[j0]);
        }
    }
}

/// One insert keeps a bundle duplicate-free.
proof fn lemma_insert_step_distinct(s: Seq<Anon>, a: Anon)
    requires
        distinct_ids(s),
    ensures
        distinct_ids(insert_step(s, a)),
{
    if has_id(s, a.id) {
        lemma_first_index_in_bounds(s, a.id);
        let k = first_id_index(s, a.id);
        let r = s.update(k, a);
        assert forall|i: int, j: int| 0 <= i < j < r.len() implies r[i].id != r[j].id by {
            assert(s[k].id == a.id);
        }
    } else {
        let r = s.push(a);
        assert forall|i: int, j: int| 0 <= i < j < r.len() implies r[i].id != r[j].id by {
            if j == s.len() {
                if s[i].id == a.id {
                    assert(has_id(s, a.id));
                }
            }
        }
    }
}

/// The first position carrying a present id lies inside the bundle
/// and carries it.
proof fn lemma_first_index_in_bounds(s: Seq<Anon>, id: ComponentId)
    requires
        has_id(s, id),
    ensures
        0 <= first_id_index(s, id) < s.len(),
        s[first_id_index(s, id)].id == id,
    decreases s.len(),
{
    if s.len() > 0 && s[0].id != id {
        assert(has_id(s.drop_first(), id)) by {
            let k = choose|k: int| 0 <= k < s.len() && s[k].id == id;
            assert(s.drop_first()[k - 1] == s[k]);
        }
        lemma_first_index_in_bounds(s.drop_first(), id);
    }
}

/// A run of removes keeps a bundle duplicate-free.
proof fn lemma_apply_removes_distinct(s: Seq<Anon>, rem: Seq<ComponentId>)
    requires
        distinct_ids(s),
    ensures
        distinct_ids(apply_removes(s, rem)),
    decreases rem.len(),
{
    if rem.len() > 0 {
        lemma_remove_step_distinct(s, rem[0]);
        lemma_apply_removes_distinct(remove_step(s, rem[0]), rem.drop_first());
    }
}

/// A run of inserts keeps a bundle duplicate-free.
proof fn lemma_apply_inserts_distinct(s: Seq<Anon>, ins: Seq<Anon>)
    requires
        distinct_ids(s),
    ensures
        distinct_ids(apply_inserts(s, ins)),
    decreases ins.len(),
{
    if ins.len() > 0 {
        lemma_insert_step_distinct(s, ins[0]);
        lemma_apply_inserts_distinct(insert_step(s, ins[0]), ins.drop_first());
    }
}

/// An entity migrated out of a well-formed table carries no two
/// components of the same id.
pub proof fn lemma_modified_distinct(
    rows: Seq<AnonVec>,
    rec: (Column, (Vec<Anon>, Vec<ComponentId>)),
)
    requires
        forall|i: int, j: int| 0 <= i < j < rows.len() ==> rows[i].id < rows[j].id,
    ensures
        distinct_ids(modified_components(rows, rec)),
{
    let base = entity_at_spec(rows, rec.0 as int);
    assert(distinct_ids(base)) by {
        assert forall|i: int, j: int| 0 <= i < j < base.len() implies
            base[i].id != base[j].id by {
            assert(base[i].id == rows[i].id && base[j].id == rows[j].id);
        }
    }
    lemma_apply_removes_distinct(base, rec.1.1@);
    lemma_apply_inserts_distinct(apply_removes(base, rec.1.1@), rec.1.0@);
}

/// A modify queue migrates out at most one entity per record.
pub proof fn lemma_migrate_outs_len(
    rows: Seq<AnonVec>,
    q: Seq<(Column, (Vec<Anon>, Vec<ComponentId>))>,
    ds: Seq<DestroyType>,
)
    ensures
        migrate_outs(rows, q, ds).len() <= q.len(),
    decreases q.len(),
{
    if q.len() > 0 {
        lemma_migrate_outs_len(rows, q.drop_last(), ds);
    }
}

/// Every entity migrated out of a well-formed table carries no two
/// components of the same id.
pub proof fn lemma_migrate_outs_distinct(
    rows: Seq<AnonVec>,
    q: Seq<(Column, (Vec<Anon>, Vec<ComponentId>))>,
    ds: Seq<DestroyType>,
)
    requires
        forall|i: int, j: int| 0 <= i < j < rows.len() ==> rows[i].id < rows[j].id,
    ensures
        forall|k: int| 0 <= k < migrate_outs(rows, q, ds).len()
            ==> distinct_ids(#[trigger] migrate_outs(rows, q, ds)[k]),
    decreases q.len(),
{
    if q.len() > 0 {
        lemma_migrate_outs_distinct(rows, q.drop_last(), ds);
        if has_drop(ds, q.last().0) {
            assert(migrate_outs(rows, q, ds) == migrate_outs(rows, q.drop_last(), ds));
        }
        if !has_drop(ds, q.last().0) {
            lemma_modified_distinct(rows, q.last());
            assert forall|k: int| 0 <= k < migrate_outs(rows, q, ds).len() implies
                distinct_ids(#[trigger] migrate_outs(rows, q, ds)[k]) by {
                if k == 0 {
                    assert(migrate_outs(rows, q, ds)[0] == modified_components(rows, q.last()));
                } else {
                    assert(migrate_outs(rows, q, ds)[k]
                        == migrate_outs(rows, q.drop_last(), ds)[k - 1]);
                }
            }
        }
    }
}

/// Column length uniformity: in a well-formed table every column's
/// length equals the table's entity count, so a destroy applied to
/// every column keeps the columns in lockstep.
pub proof fn lemma_column_uniformity(t: &Table, r: int)
    requires
        t.wf(),
        0 <= r < t.rows@.len(),
    ensures
        t.rows@[r].data@.len() == t.num_entities,
{
}

/// Destroy idempotence: the columns a flush destroys are
/// deduplicated, and a column is destroyed exactly when some queued
/// destroy below the bound names it, so submitting the same destroy
/// many times affects exactly one entity.
pub proof fn lemma_destroy_dedup(ds: Seq<DestroyType>, bound: nat)
    ensures
        dcols(ds, bound).no_duplicates(),
        forall|c: int| #[trigger] dcols(ds, bound).contains(c)
            <==> (has_col(ds, c) && 0 <= c < bound),
    decreases bound,
{
    lemma_dcols_bounds(ds, bound);
    if bound > 0 {
        lemma_destroy_dedup(ds, (bound - 1) as nat);
        let rest = dcols(ds, (bound - 1) as nat);
        if has_col(ds, bound - 1) {
            let whole = seq![bound - 1] + rest;
            assert(dcols(ds, bound) == whole);
            assert(whole.drop_first() =~= rest);
            assert forall|c: int| #[trigger] whole.contains(c)
                <==> (has_col(ds, c) && 0 <= c < bound) by {
                if whole.contains(c) {
                    let m = choose|m: int| 0 <= m < whole.len() && whole[m] == c;
                    if m > 0 {
                        assert(rest[m - 1] == c);
                        assert(rest.contains(c));
                    }
                }
                if has_col(ds, c) && 0 <= c < bound {
                    if c == bound - 1 {
                        assert(whole[0] == c);
                    } else {
                        assert(rest.contains(c));
                        let m = choose|m: int| 0 <= m < rest.len() && rest[m] == c;
                        assert(whole[m + 1] == c);
                    }
                }
            }
            assert(whole.no_duplicates()) by {
                assert forall|i: int, j: int| 0 <= i < j < whole.len() implies
                    whole[i] != whole[j] by {
                    if i == 0 {
                        assert(whole[j] == rest[j - 1]);
                        lemma_dcols_bounds(ds, (bound - 1) as nat);
                    } else {
                        assert(whole[i] == rest[i - 1] && whole[j] == rest[j - 1]);
                    }
                }
            }
        } else {
            assert forall|c: int| #[trigger] dcols(ds, bound).contains(c)
                <==> (has_col(ds, c) && 0 <= c < bound) by {
                if c == bound - 1 && has_col(ds, c) {
                    assert(false);
                }
            }
        }
    } else {
        assert forall|c: int| #[trigger] dcols(ds, bound).contains(c)
            <==> (has_col(ds, c) && 0 <= c < bound) by {
            if dcols(ds, bound).contains(c) {
                let m = choose|m: int| 0 <= m < dcols(ds, bound).len()
                    && dcols(ds, bound)[m] == c;
            }
        }
    }
}

/// Destroy wins over modify: when every record in a modify queue
/// names a column that is also destroyed in the same flush, nothing
/// is migrated out; the records are simply dropped.
pub proof fn lemma_destroy_wins(
    rows: Seq<AnonVec>,
    q: Seq<(Column, (Vec<Anon>, Vec<ComponentId>))>,
    ds: Seq<DestroyType>,
)
    requires
        forall|k: int| 0 <= k < q.len() ==> has_drop(ds, (#[trigger] q[k]).0),
    ensures
        migrate_outs(rows, q, ds).len() == 0,
    decreases q.len(),
{
    if q.len() > 0 {
        assert(has_drop(ds, q.last().0));
        lemma_destroy_wins(rows, q.drop_last(), ds);
    }
}

/// Destroy wins over modify, record by record: a modify record whose
/// column is also destroyed in the same flush can be struck from the
/// queue without changing what migrates out.
pub proof fn lemma_destroy_wins_record(
    rows: Seq<AnonVec>,
    q: Seq<(Column, (Vec<Anon>, Vec<ComponentId>))>,
    ds: Seq<DestroyType>,
    k: int,
)
    requires
        0 <= k < q.len(),
        has_drop(ds, q[k].0),
    ensures
        migrate_outs(rows, q, ds) == migrate_outs(rows, q.remove(k), ds),
    decreases q.len(),
{
    if k == q.len() - 1 {
        assert(q.remove(k) =~= q.drop_last());
    } else {
        assert(q.remove(k).last() == q.last());
        assert(q.remove(k).drop_last() =~= q.drop_last().remove(k));
        lemma_destroy_wins_record(rows, q.drop_last(), ds, k);
    }
}

/// Double-free safety, as far as the model speaks of destructors:
/// a flush queues exactly one destructor-skipping destroy per entity
/// it migrates out, and never a destructor-running one, so a moved
/// entity's components are released in its old table without being
/// dropped there: they are dropped only where they now live.
pub proof fn lemma_migrate_nodrop_pairing(
    rows: Seq<AnonVec>,
    q: Seq<(Column, (Vec<Anon>, Vec<ComponentId>))>,
    ds: Seq<DestroyType>,
)
    ensures
        migrate_nodrops(rows, q, ds).len() == migrate_outs(rows, q, ds).len(),
        forall|k: int| 0 <= k < migrate_nodrops(rows, q, ds).len()
            ==> (#[trigger] migrate_nodrops(rows, q, ds)[k]) matches DestroyType::NoDrop(_),
    decreases q.len(),
{
    if q.len() > 0 {
        lemma_migrate_nodrop_pairing(rows, q.drop_last(), ds);
        if !has_drop(ds, q.last().0) {
            assert forall|k: int| 0 <= k < migrate_nodrops(rows, q, ds).len() implies
                (#[trigger] migrate_nodrops(rows, q, ds)[k])
                    matches DestroyType::NoDrop(_) by {
                if k == 0 {
                    assert(migrate_nodrops(rows, q, ds)[0]
                        == DestroyType::NoDrop(q.last().0));
                } else {
                    assert(migrate_nodrops(rows, q, ds)[k]
                        == migrate_nodrops(rows, q.drop_last(), ds)[k - 1]);
                }
            }
        }
    }
}

/// Whether one of the first `j` components of `e` carries `id`.
pub open spec fn touched(e: Seq<Anon>, j: int, id: ComponentId) -> bool {
    exists|k: int| 0 <= k < j && e[k].id == id
}

/// Sort a list of columns into non-decreasing order.
fn sort_cols(v: Vec<usize>) -> (r: Vec<usize>)
    ensures
        forall|i: int, j: int| 0 <= i <= j < r@.len() ==> r@[i] <= r@[j],
        r@.to_multiset() == v@.to_multiset(),
{
    broadcast use vstd::seq_lib::group_to_multiset_ensures;

    let mut out: Vec<usize> = Vec::new();
    let mut k: usize = 0;
    while k < v.len()
        invariant
            k <= v@.len(),
            forall|i: int, j: int| 0 <= i <= j < out@.len() ==> out@[i] <= out@[j],
            out@.to_multiset() == v@.take(k as int).to_multiset(),
        decreases v@.len() - k,
    {
        broadcast use vstd::seq_lib::group_to_multiset_ensures;

        let x = v[k];
        let mut p: usize = 0;
        while p < out.len() && out[p] <= x
            invariant
                p <= out@.len(),
                forall|m: int| 0 <= m < p ==> out@[m] <= x,
            decreases out@.len() - p,
        {
            p = p + 1;
        }
        let ghost pre = out@;
        out.insert(p, x);
        proof {
            assert(out@ =~= pre.insert(p as int, x));
            assert(out@.to_multiset() =~= pre.to_multiset().insert(x));
            assert(v@.take(k + 1) =~= v@.take(k as int).push(v@[k as int]));
            assert(v@.take(k + 1).to_multiset()
                =~= v@.take(k as int).to_multiset().insert(x));
        }
        k = k + 1;
    }
    proof {
        assert(v@.take(v@.len() as int) =~= v@);
    }
    out
}

/// Collapse runs of equal columns in a sorted list, keeping the
/// members and making the order strictly increasing.
fn dedup_sorted(v: &Vec<usize>) -> (r: Vec<usize>)
    requires
        forall|i: int, j: int| 0 <= i <= j < v@.len() ==> v@[i] <= v@[j],
    ensures
        forall|i: int, j: int| 0 <= i < j < r@.len() ==> r@[i] < r@[j],
        forall|c: usize| r@.contains(c) <==> v@.contains(c),
{
    let mut out: Vec<usize> = Vec::new();
    let mut k: usize = 0;
    while k < v.len()
        invariant
            k <= v@.len(),
            forall|i: int, j: int| 0 <= i <= j < v@.len() ==> v@[i] <= v@[j],
            forall|i: int, j: int| 0 <= i < j < out@.len() ==> out@[i] < out@[j],
            (k > 0) == (out@.len() > 0),
            k > 0 ==> out@.last() == v@[k - 1],
            forall|c: usize| out@.contains(c) <==> v@.take(k as int).contains(c),
        decreases v@.len() - k,
    {
        let x = v[k];
        let ghost pre = out@;
        if out.len() == 0 {
            out.push(x);
        } else {
            let last = out[out.len() - 1];
            if last != x {
                proof {
                    assert(v@[k - 1] <= v@[k as int]);
                }
                out.push(x);
            }
        }
        proof {
            assert(out@.contains(x)) by {
                if pre.len() > 0 && pre.last() == x {
                    assert(out@[out@.len() - 1] == x);
                } else {
                    assert(out@.last() == x);
                }
            }
            assert forall|c: usize| out@.contains(c) <==>
                v@.take(k + 1).contains(c) by {
                assert(v@.take(k + 1) =~= v@.take(k as int).push(v@[k as int]));
                if out@.contains(c) {
                    let i = choose|i: int| 0 <= i < out@.len() && out@[i] == c;
                    if i < pre.len() {
                        assert(pre[i] == c);
                        assert(pre.contains(c));
                        let m = choose|m: int| 0 <= m < k && v@.take(k as int)[m] == c;
                        assert(v@.take(k + 1)[m] == c);
                    } else {
                        assert(c == x);
                        assert(v@.take(k + 1)[k as int] == c);
                    }
                }
                if v@.take(k + 1).contains(c) {
                    let m = choose|m: int| 0 <= m < k + 1 && #[trigger] v@.take(k + 1)[m] == c;
                    if m < k {
                        assert(v@.take(k as int)[m] == c);
                        assert(pre.contains(c));
                        let i = choose|i: int| 0 <= i < pre.len() && pre[i] == c;
                        assert(out@[i] == c);
                    } else {
                        assert(c == x);
                    }
                }
            }
        }
        k = k + 1;
    }
    proof {
        assert(v@.take(v@.len() as int) =~= v@);
    }
    out
}

/// The position of the row holding component `id`; meaningful only
/// when some row does.
pub open spec fn row_index(rows: Seq<AnonVec>, id: ComponentId) -> int
    decreases rows.len(),
{
    if rows.len() == 0 {
        0
    } else if rows[0].id == id {
        0
    } else {
        1 + row_index(rows.drop_first(), id)
    }
}

/// If no row before `r` holds `id` and row `r` does, then `r` is the
/// row holding `id`.
proof fn lemma_row_index(rows: Seq<AnonVec>, id: ComponentId, r: int)
    requires
        0 <= r < rows.len(),
        rows[r].id == id,
        forall|m: int| 0 <= m < r ==> rows[m].id != id,
    ensures
        row_index(rows, id) == r,
    decreases r,
{
    if r > 0 {
        lemma_row_index(rows.drop_first(), id, r - 1);
    }
}

/// The first record for a queued column lies inside the queue,
/// names that column, and nothing before it does.
pub proof fn lemma_modify_index_props(
    q: Seq<(Column, (Vec<Anon>, Vec<ComponentId>))>,
    col: Column,
)
    requires
        modify_has(q, col),
    ensures
        0 <= modify_index(q, col) < q.len(),
        q[modify_index(q, col)].0 == col,
        forall|m: int| 0 <= m < modify_index(q, col) ==> q[m].0 != col,
    decreases q.len(),
{
    if q.len() > 0 && q[0].0 != col {
        assert(modify_has(q.drop_first(), col)) by {
            let k = choose|k: int| 0 <= k < q.len() && q[k].0 == col;
            assert(q.drop_first()[k - 1] == q[k]);
        }
        lemma_modify_index_props(q.drop_first(), col);
        assert forall|m: int| 0 <= m < modify_index(q, col) implies q[m].0 != col by {
            if m > 0 {
                assert(q.drop_first()[m - 1] == q[m]);
            }
        }
    }
}

/// The deferred mutations of one table, drained at flush.
pub struct Queues {
    pub spawn: Vec<Entity>,
    pub destroy: Vec<DestroyType>,
    pub modify: Vec<(Column, (Vec<Anon>, Vec<ComponentId>))>,
}

impl Queues {
    pub fn new() -> (r: Self)
        ensures
            r.spawn@.len() == 0,
            r.destroy@.len() == 0,
            r.modify@.len() == 0,
    {
        Queues { spawn: Vec::new(), destroy: Vec::new(), modify: Vec::new() }
    }
}

/// Row `i` of `rows` takes its id and single value from some
/// component of `orig` at position `lo` or later.
pub open spec fn row_sourced(rows: Seq<AnonVec>, orig: Seq<Anon>, lo: int, i: int) -> bool {
    exists|k: int| lo <= k < orig.len() && orig[k].id == rows[i].id
        && rows[i].data@.len() == 1 && rows[i].data@[0] == orig[k].data
}

/// When rows are strictly sorted by id, carry one value each taken
/// from a duplicate-free bundle, and cover the bundle, the row ids
/// are a permutation of the bundle ids and each row holds the
/// bundle's value for its id.
proof fn lemma_table_new_ids(rows: Seq<AnonVec>, orig: Seq<Anon>)
    requires
        distinct_ids(orig),
        rows.len() == orig.len(),
        forall|i: int, j: int| 0 <= i < j < rows.len() ==> rows[i].id < rows[j].id,
        forall|i: int| 0 <= i < rows.len() ==> #[trigger] row_sourced(rows, orig, 0, i),
        forall|k: int| 0 <= k < orig.len()
            ==> table_ids(rows).contains((#[trigger] orig[k]).id),
    ensures
        table_ids(rows).to_multiset() == ids_of(orig).to_multiset(),
        forall|i: int| 0 <= i < rows.len()
            ==> (#[trigger] rows[i]).data@.len() == 1
                && rows[i].data@[0] == value_of(orig, rows[i].id),
{
    let tids = table_ids(rows);
    let oids = ids_of(orig);
    assert(tids.no_duplicates());
    assert(oids.no_duplicates());
    assert forall|m: int| 0 <= m < tids.len() implies oids.contains(#[trigger] tids[m]) by {
        assert(row_sourced(rows, orig, 0, m));
        let k = choose|k: int| 0 <= k < orig.len() && orig[k].id == rows[m].id
            && rows[m].data@.len() == 1 && rows[m].data@[0] == orig[k].data;
        assert(oids[k] == tids[m]);
    }
    lemma_distinct_same_members(tids, oids);
    assert forall|i: int| 0 <= i < rows.len() implies
        (#[trigger] rows[i]).data@.len() == 1
            && rows[i].data@[0] == value_of(orig, rows[i].id) by {
        assert(row_sourced(rows, orig, 0, i));
        let k = choose|k: int| 0 <= k < orig.len() && orig[k].id == rows[i].id
            && rows[i].data@.len() == 1 && rows[i].data@[0] == orig[k].data;
        crate::entity::lemma_first_of_distinct(orig, k);
    }
}

/// The ids of a row sequence, in row order.
pub open spec fn table_ids(rows: Seq<AnonVec>) -> Seq<ComponentId> {
    rows.map(|i: int, r: AnonVec| r.id)
}

/// Whether some queued destroy targets column `c` with its
/// destructors (a plain user destroy rather than a migration).
pub open spec fn has_drop(ds: Seq<DestroyType>, c: Column) -> bool {
    exists|k: int| 0 <= k < ds.len() && ds[k] == DestroyType::Drop(c)
}

/// The bundle read off column `c`: one tagged value per row, in row
/// order.
pub open spec fn entity_at_spec(rows: Seq<AnonVec>, c: int) -> Seq<Anon> {
    Seq::new(rows.len(), |i: int| Anon { id: rows[i].id, data: rows[i].data@[c] })
}

/// One remove applied to a bundle: drop the first component with the
/// id, or nothing when it is absent.
pub open spec fn remove_step(s: Seq<Anon>, id: ComponentId) -> Seq<Anon> {
    if has_id(s, id) {
        s.remove(first_id_index(s, id))
    } else {
        s
    }
}

/// One insert applied to a bundle: overwrite the first component
/// with the same id, or append.
pub open spec fn insert_step(s: Seq<Anon>, a: Anon) -> Seq<Anon> {
    if has_id(s, a.id) {
        s.update(first_id_index(s, a.id), a)
    } else {
        s.push(a)
    }
}

/// Removes applied left to right.
pub open spec fn apply_removes(s: Seq<Anon>, rem: Seq<ComponentId>) -> Seq<Anon>
    decreases rem.len(),
{
    if rem.len() == 0 {
        s
    } else {
        apply_removes(remove_step(s, rem[0]), rem.drop_first())
    }
}

/// Inserts applied left to right.
pub open spec fn apply_inserts(s: Seq<Anon>, ins: Seq<Anon>) -> Seq<Anon>
    decreases ins.len(),
{
    if ins.len() == 0 {
        s
    } else {
        apply_inserts(insert_step(s, ins[0]), ins.drop_first())
    }
}

/// The component bundle of the entity at column `c` after its queued
/// removes and inserts: the removes first, then the inserts, each in
/// submission order, an insert overwriting a component already
/// present, so the last write to one id wins.
pub open spec fn modified_components(
    rows: Seq<AnonVec>,
    rec: (Column, (Vec<Anon>, Vec<ComponentId>)),
) -> Seq<Anon> {
    apply_inserts(
        apply_removes(entity_at_spec(rows, rec.0 as int), rec.1.1@),
        rec.1.0@,
    )
}

/// The entities migrated out of a table by its modify queue,
/// processed newest record first; a record whose column is also
/// destroyed in the same flush is dropped.
pub open spec fn migrate_outs(
    rows: Seq<AnonVec>,
    q: Seq<(Column, (Vec<Anon>, Vec<ComponentId>))>,
    ds: Seq<DestroyType>,
) -> Seq<Seq<Anon>>
    decreases q.len(),
{
    if q.len() == 0 {
        Seq::empty()
    } else if has_drop(ds, q.last().0) {
        migrate_outs(rows, q.drop_last(), ds)
    } else {
        seq![modified_components(rows, q.last())] + migrate_outs(rows, q.drop_last(), ds)
    }
}

/// The destructor-skipping destroys appended for the same records.
pub open spec fn migrate_nodrops(
    rows: Seq<AnonVec>,
    q: Seq<(Column, (Vec<Anon>, Vec<ComponentId>))>,
    ds: Seq<DestroyType>,
) -> Seq<DestroyType>
    decreases q.len(),
{
    if q.len() == 0 {
        Seq::empty()
    } else if has_drop(ds, q.last().0) {
        migrate_nodrops(rows, q.drop_last(), ds)
    } else {
        seq![DestroyType::NoDrop(q.last().0)] + migrate_nodrops(rows, q.drop_last(), ds)
    }
}

/// Whether every id of `ids` occurs among `table`.
pub open spec fn contains_all(table: Seq<ComponentId>, ids: Seq<ComponentId>) -> bool {
    forall|k: int| 0 <= k < ids.len() ==> table.contains(ids[k])
}

/// Storage for all entities of one archetype.
pub struct Table {
    pub rows: Vec<AnonVec>,
    pub queue: Queues,
    pub update: bool,
    pub modify: bool,
    pub num_entities: usize,
}

impl Table {
    /// The component ids of this table's archetype, in row order
    /// (strictly increasing when the table is well formed).
    pub open spec fn ids(&self) -> Seq<ComponentId> {
        table_ids(self.rows@)
    }

    /// Rows are sorted strictly by id: the id set is the archetype.
    pub open spec fn sorted_ids(&self) -> bool {
        forall|i: int, j: int| 0 <= i < j < self.rows@.len()
            ==> self.rows@[i].id < self.rows@[j].id
    }

    /// Every column holds exactly one value per entity.
    pub open spec fn uniform(&self) -> bool {
        forall|i: int| 0 <= i < self.rows@.len()
            ==> #[trigger] self.rows@[i].data@.len() == self.num_entities
    }

    /// A spawn queued here must carry exactly this table's ids.
    pub open spec fn spawn_entity_ok(&self, e: Entity) -> bool {
        ids_of(e.components@).to_multiset() == self.ids().to_multiset()
    }

    /// What the queues may hold: spawns shaped like the archetype,
    /// destroys and modifies aimed at existing columns, one modify
    /// record per column.
    pub open spec fn queues_wf(&self) -> bool {
        &&& forall|k: int| 0 <= k < self.queue.spawn@.len()
            ==> self.spawn_entity_ok(#[trigger] self.queue.spawn@[k])
        &&& forall|k: int| 0 <= k < self.queue.destroy@.len()
            ==> 0 <= (#[trigger] self.queue.destroy@[k]).col() < self.num_entities
        &&& forall|k: int| 0 <= k < self.queue.modify@.len()
            ==> (#[trigger] self.queue.modify@[k]).0 < self.num_entities
        &&& forall|k: int, l: int| 0 <= k < l < self.queue.modify@.len()
            ==> self.queue.modify@[k].0 != self.queue.modify@[l].0
    }

    /// A clear dirty flag means the matching queues are empty.
    pub open spec fn flags_wf(&self) -> bool {
        &&& !self.update ==> self.queue.spawn@.len() == 0 && self.queue.destroy@.len() == 0
        &&& !self.modify ==> self.queue.modify@.len() == 0
    }

    /// Table well-formedness: the archetype is a set, the columns are
    /// uniform, and the queues are consistent.
    pub open spec fn wf(&self) -> bool {
        &&& self.sorted_ids()
        &&& self.uniform()
        &&& self.queues_wf()
        &&& self.flags_wf()
    }

    /// A table for the seed entity's archetype, holding the seed as
    /// its only entity at column 0. The seed must not carry two
    /// components of the same id: an archetype is a set.
    pub fn new(entity: Entity) -> (r: Self)
        requires
            distinct_ids(entity.components@),
        ensures
            r.wf(),
            r.num_entities == 1,
            !r.update && !r.modify,
            r.queue.spawn@.len() == 0,
            r.queue.destroy@.len() == 0,
            r.queue.modify@.len() == 0,
            r.rows@.len() == entity.components@.len(),
            r.ids().to_multiset() == ids_of(entity.components@).to_multiset(),
            forall|i: int| 0 <= i < r.rows@.len()
                ==> (#[trigger] r.rows@[i]).data@.len() == 1
                    && r.rows@[i].data@[0] == value_of(entity.components@, r.rows@[i].id),
    {
        let ghost orig = entity.components@;
        let mut rows: Vec<AnonVec> = Vec::new();
        let mut idx: usize = entity.components.len();
        while idx > 0
            invariant
                orig == entity.components@,
                distinct_ids(orig),
                idx <= orig.len(),
                rows@.len() + idx == orig.len(),
                forall|i: int, j: int| 0 <= i < j < rows@.len()
                    ==> rows@[i].id < rows@[j].id,
                forall|i: int| 0 <= i < rows@.len()
                    ==> #[trigger] row_sourced(rows@, orig, idx as int, i),
                forall|k: int| idx <= k < orig.len()
                    ==> table_ids(rows@).contains((#[trigger] orig[k]).id),
            decreases idx,
        {
            let ghost n = idx as int;
            idx = idx - 1;
            let anon = entity.components[idx];
            proof {
                assert(anon == orig[n - 1]);
            }
            let mut p: usize = 0;
            while p < rows.len() && rows[p].id < anon.id
                invariant
                    p <= rows@.len(),
                    forall|m: int| 0 <= m < p ==> rows@[m].id < anon.id,
                decreases rows@.len() - p,
            {
                p = p + 1;
            }
            proof {
                if p < rows@.len() && rows@[p as int].id == anon.id {
                    assert(row_sourced(rows@, orig, n, p as int));
                    let i = choose|k: int| n <= k < orig.len()
                        && orig[k].id == rows@[p as int].id
                        && rows@[p as int].data@.len() == 1
                        && rows@[p as int].data@[0] == orig[k].data;
                    assert(orig[i].id == orig[n - 1].id);
                    assert(false);
                }
            }
            let ghost old_rows = rows@;
            rows.insert(p, AnonVec::new(anon));
            proof {
                let post = rows@;
                assert forall|i: int| 0 <= i < post.len() implies
                    #[trigger] row_sourced(post, orig, n - 1, i) by {
                    if i == p {
                        assert(orig[n - 1].id == post[i].id
                            && post[i].data@.len() == 1
                            && post[i].data@[0] == orig[n - 1].data);
                    } else {
                        let iold: int = if i < p { i } else { i - 1 };
                        assert(row_sourced(old_rows, orig, n, iold));
                        let k = choose|k: int| n <= k < orig.len()
                            && orig[k].id == old_rows[iold].id
                            && old_rows[iold].data@.len() == 1
                            && old_rows[iold].data@[0] == orig[k].data;
                        assert(post[i] == old_rows[iold]);
                        assert(orig[k].id == post[i].id
                            && post[i].data@.len() == 1 && post[i].data@[0] == orig[k].data);
                    }
                }
                assert forall|k: int| n - 1 <= k < orig.len() implies
                    table_ids(post).contains((#[trigger] orig[k]).id) by {
                    if k == n - 1 {
                        assert(table_ids(post)[p as int] == orig[n - 1].id);
                    } else {
                        let i = choose|m: int| 0 <= m < old_rows.len()
                            && table_ids(old_rows)[m] == orig[k].id;
                        let ipost: int = if i < p { i } else { i + 1 };
                        assert(table_ids(post)[ipost] == orig[k].id);
                    }
                }
            }
        }
        let ghost final_rows = rows@;
        proof {
            assert forall|i: int| 0 <= i < final_rows.len() implies
                #[trigger] row_sourced(final_rows, orig, 0, i) by {
                assert(row_sourced(final_rows, orig, idx as int, i));
            }
            lemma_table_new_ids(final_rows, orig);
        }
        Table {
            rows,
            queue: Queues::new(),
            update: false,
            modify: false,
            num_entities: 1,
        }
    }

    /// No spawns or destroys are pending.
    pub fn needs_update(&self) -> (r: bool)
        ensures
            r == self.update,
    {
        self.update
    }

    /// No modifies are pending.
    pub fn needs_modify(&self) -> (r: bool)
        ensures
            r == self.modify,
    {
        self.modify
    }

    /// Whether the table currently stores no entities.
    pub fn is_empty(&self) -> (r: bool)
        ensures
            r == (self.num_entities == 0),
    {
        self.num_entities == 0
    }

    /// True iff this table's archetype is a superset of `ids`.
    pub fn contains(&self, ids: &Vec<ComponentId>) -> (r: bool)
        ensures
            r == contains_all(self.ids(), ids@),
    {
        let mut k: usize = 0;
        while k < ids.len()
            invariant
                k <= ids@.len(),
                forall|m: int| 0 <= m < k ==> self.ids().contains(ids@[m]),
            decreases ids@.len() - k,
        {
            let mut found = false;
            let mut r: usize = 0;
            while r < self.rows.len()
                invariant
                    r <= self.rows@.len(),
                    k < ids@.len(),
                    found ==> self.ids().contains(ids@[k as int]),
                    !found ==> forall|m: int| 0 <= m < r ==> self.rows@[m].id != ids@[k as int],
                decreases self.rows@.len() - r,
            {
                if self.rows[r].id == ids[k] {
                    found = true;
                    proof {
                        assert(self.ids()[r as int] == self.rows@[r as int].id);
                    }
                }
                r = r + 1;
            }
            if !found {
                proof {
                    assert(forall|m: int| 0 <= m < self.ids().len()
                        ==> self.ids()[m] == self.rows@[m].id);
                    assert(!self.ids().contains(ids@[k as int]));
                }
                return false;
            }
            k = k + 1;
        }
        true
    }

    /// Queue one entity for insertion at the next flush. The entity
    /// must carry exactly this table's component ids.
    pub fn spawn(&mut self, entity: Entity)
        requires
            old(self).wf(),
            old(self).spawn_entity_ok(entity),
        ensures
            final(self).wf(),
            final(self).rows == old(self).rows,
            final(self).num_entities == old(self).num_entities,
            final(self).modify == old(self).modify,
            final(self).update,
            final(self).queue.spawn@ =~= old(self).queue.spawn@.push(entity),
            final(self).queue.destroy@ == old(self).queue.destroy@,
            final(self).queue.modify@ == old(self).queue.modify@,
    {
        self.queue.spawn.push(entity);
        self.update = true;
    }

    /// Queue a batch of entities for insertion at the next flush.
    pub fn spawn_group(&mut self, entities: Vec<Entity>)
        requires
            old(self).wf(),
            forall|k: int| 0 <= k < entities@.len()
                ==> old(self).spawn_entity_ok(#[trigger] entities@[k]),
        ensures
            final(self).wf(),
            final(self).rows == old(self).rows,
            final(self).num_entities == old(self).num_entities,
            final(self).modify == old(self).modify,
            final(self).update,
            final(self).queue.spawn@ =~= old(self).queue.spawn@ + entities@,
            final(self).queue.destroy@ == old(self).queue.destroy@,
            final(self).queue.modify@ == old(self).queue.modify@,
    {
        let mut entities = entities;
        self.queue.spawn.append(&mut entities);
        self.update = true;
    }

    /// Queue a batch of destroys at the next flush. Each destroy must
    /// name a column the table currently has.
    pub fn destroy_group(&mut self, destroy: Vec<DestroyType>)
        requires
            old(self).wf(),
            forall|k: int| 0 <= k < destroy@.len()
                ==> 0 <= (#[trigger] destroy@[k]).col() < old(self).num_entities,
        ensures
            final(self).wf(),
            final(self).rows == old(self).rows,
            final(self).num_entities == old(self).num_entities,
            final(self).modify == old(self).modify,
            final(self).update,
            final(self).queue.spawn@ == old(self).queue.spawn@,
            final(self).queue.destroy@ =~= old(self).queue.destroy@ + destroy@,
            final(self).queue.modify@ == old(self).queue.modify@,
    {
        let mut destroy = destroy;
        self.queue.destroy.append(&mut destroy);
        self.update = true;
    }

    /// Queue component inserts and removes against the entity at
    /// `col`, merging with any modify already queued for that column
    /// so that one record per column remains.
    pub fn modify_group(&mut self, col: Column, insert: Vec<Anon>, remove: Vec<ComponentId>)
        requires
            old(self).wf(),
            col < old(self).num_entities,
        ensures
            final(self).wf(),
            final(self).rows == old(self).rows,
            final(self).num_entities == old(self).num_entities,
            final(self).update == old(self).update,
            final(self).modify,
            final(self).queue.spawn@ == old(self).queue.spawn@,
            final(self).queue.destroy@ == old(self).queue.destroy@,
            !modify_has(old(self).queue.modify@, col) ==> final(self).queue.modify@
                =~= old(self).queue.modify@.push((col, (insert, remove))),
            modify_has(old(self).queue.modify@, col) ==> {
                let k = modify_index(old(self).queue.modify@, col);
                let entry = old(self).queue.modify@[k];
                &&& final(self).queue.modify@.len() == old(self).queue.modify@.len()
                &&& forall|m: int| 0 <= m < old(self).queue.modify@.len() && m != k
                    ==> final(self).queue.modify@[m] == old(self).queue.modify@[m]
                &&& final(self).queue.modify@[k].0 == col
                &&& final(self).queue.modify@[k].1.0@ =~= entry.1.0@ + insert@
                &&& final(self).queue.modify@[k].1.1@ =~= entry.1.1@ + remove@
            },
    {
        let ghost orig = self.queue.modify@;
        let mut k: usize = 0;
        while k < self.queue.modify.len()
            invariant
                k <= orig.len(),
                orig == old(self).queue.modify@,
                *self == *old(self),
                old(self).wf(),
                col < old(self).num_entities,
                forall|m: int| 0 <= m < k ==> orig[m].0 != col,
            decreases orig.len() - k,
        {
            if self.queue.modify[k].0 == col {
                proof {
                    assert(modify_has(orig, col));
                    lemma_modify_index(orig, col, k as int);
                }
                let mut insert = insert;
                let mut remove = remove;
                let mut entry = self.queue.modify.remove(k);
                entry.1.0.append(&mut insert);
                entry.1.1.append(&mut remove);
                self.queue.modify.insert(k, entry);
                self.modify = true;
                proof {
                    let post = self.queue.modify@;
                    assert(post =~= orig.update(k as int, post[k as int]));
                    assert(post[k as int].0 == col);
                }
                return;
            }
            k = k + 1;
        }
        proof {
            assert(forall|m: int| 0 <= m < orig.len() ==> orig[m].0 != col);
            assert(!modify_has(orig, col));
        }
        self.queue.modify.push((col, (insert, remove)));
        self.modify = true;
    }

    /// Whether a destructor-running destroy of `col` is queued.
    fn queue_has_drop(&self, col: Column) -> (r: bool)
        ensures
            r == has_drop(self.queue.destroy@, col),
    {
        let mut k: usize = 0;
        while k < self.queue.destroy.len()
            invariant
                k <= self.queue.destroy@.len(),
                forall|m: int| 0 <= m < k
                    ==> self.queue.destroy@[m] != DestroyType::Drop(col),
            decreases self.queue.destroy@.len() - k,
        {
            let hit = match self.queue.destroy[k] {
                DestroyType::Drop(c) => c == col,
                DestroyType::NoDrop(_) => false,
            };
            if hit {
                proof {
                    assert(self.queue.destroy@[k as int] == DestroyType::Drop(col));
                }
                return true;
            }
            k = k + 1;
        }
        proof {
            assert(!has_drop(self.queue.destroy@, col));
        }
        false
    }

    /// Materialize the entity at column `col` as a detached bundle:
    /// a copy of each row's value there, in row order, with the
    /// fingerprint left empty.
    fn entity_at(&self, col: Column) -> (r: Entity)
        requires
            self.sorted_ids(),
            self.uniform(),
            col < self.num_entities,
        ensures
            r.components@ =~= entity_at_spec(self.rows@, col as int),
            r.archetype.0 == 0,
    {
        let ghost goal = entity_at_spec(self.rows@, col as int);
        let mut entity = Entity::new();
        let mut i: usize = 0;
        while i < self.rows.len()
            invariant
                i <= self.rows@.len(),
                goal == entity_at_spec(self.rows@, col as int),
                self.sorted_ids(),
                self.uniform(),
                col < self.num_entities,
                entity.archetype.0 == 0,
                entity.components@ =~= goal.take(i as int),
            decreases self.rows@.len() - i,
        {
            let anon = self.rows[i].index(col);
            proof {
                assert(forall|m: int| 0 <= m < i
                    ==> (#[trigger] entity.components@[m]).id == self.rows@[m].id);
                assert(!has_id(entity.components@, anon.id));
            }
            entity.insert_anon(anon);
            proof {
                assert(entity.components@ =~= goal.take(i + 1));
            }
            i = i + 1;
        }
        proof {
            assert(goal.take(goal.len() as int) =~= goal);
        }
        entity
    }

    /// Drain the modify queue: for every record whose column is not
    /// also destroyed in this flush, copy the entity out, apply its
    /// removes then inserts, queue a destructor-skipping destroy of
    /// its old column, rehash it, and hand it to the caller for
    /// migration. Records for destroyed columns are dropped: the
    /// destroy wins.
    pub fn process_modify(&mut self, entities: &mut Vec<Entity>)
        requires
            old(self).wf(),
        ensures
            final(self).wf(),
            final(self).rows == old(self).rows,
            final(self).num_entities == old(self).num_entities,
            !final(self).modify,
            final(self).queue.modify@.len() == 0,
            final(self).queue.spawn@ == old(self).queue.spawn@,
            final(self).queue.destroy@ =~= old(self).queue.destroy@ + migrate_nodrops(
                old(self).rows@, old(self).queue.modify@, old(self).queue.destroy@),
            final(self).update == (old(self).update || migrate_outs(
                old(self).rows@, old(self).queue.modify@, old(self).queue.destroy@).len() > 0),
            final(entities)@.len() == old(entities)@.len() + migrate_outs(
                old(self).rows@, old(self).queue.modify@, old(self).queue.destroy@).len(),
            forall|k: int| 0 <= k < old(entities)@.len()
                ==> final(entities)@[k] == old(entities)@[k],
            forall|k: int| 0 <= k < migrate_outs(old(self).rows@, old(self).queue.modify@,
                old(self).queue.destroy@).len()
                ==> (#[trigger] final(entities)@[old(entities)@.len() + k]).components@
                        =~= migrate_outs(old(self).rows@, old(self).queue.modify@,
                            old(self).queue.destroy@)[k]
                    && final(entities)@[old(entities)@.len() + k].archetype.0
                        == fp_of(ids_of(migrate_outs(old(self).rows@, old(self).queue.modify@,
                            old(self).queue.destroy@)[k])),
    {
        let ghost rows0 = self.rows@;
        let ghost q0 = self.queue.modify@;
        let ghost ds0 = self.queue.destroy@;
        let ghost e0 = entities@;
        let mut did: bool = false;
        while self.queue.modify.len() > 0
            invariant
                old(self).wf(),
                rows0 == old(self).rows@,
                q0 == old(self).queue.modify@,
                ds0 == old(self).queue.destroy@,
                e0 == old(entities)@,
                self.rows == old(self).rows,
                self.num_entities == old(self).num_entities,
                self.update == old(self).update,
                self.modify == old(self).modify,
                self.queue.spawn@ == old(self).queue.spawn@,
                self.queue.modify@.len() <= q0.len(),
                self.queue.modify@ =~= q0.take(self.queue.modify@.len() as int),
                self.queue.destroy@.len() >= ds0.len(),
                self.queue.destroy@.subrange(0, ds0.len() as int) =~= ds0,
                forall|m: int| ds0.len() <= m < self.queue.destroy@.len()
                    ==> (#[trigger] self.queue.destroy@[m]) matches DestroyType::NoDrop(_),
                forall|m: int| ds0.len() <= m < self.queue.destroy@.len()
                    ==> 0 <= (#[trigger] self.queue.destroy@[m]).col() < self.num_entities,
                self.queue.destroy@.subrange(ds0.len() as int, self.queue.destroy@.len() as int)
                    + migrate_nodrops(rows0, self.queue.modify@, ds0)
                    =~= migrate_nodrops(rows0, q0, ds0),
                entities@.len() >= e0.len(),
                entities@.subrange(0, e0.len() as int) =~= e0,
                entities@.subrange(e0.len() as int, entities@.len() as int).map(
                    |i: int, e: Entity| e.components@)
                    + migrate_outs(rows0, self.queue.modify@, ds0)
                    =~= migrate_outs(rows0, q0, ds0),
                forall|m: int| e0.len() <= m < entities@.len()
                    ==> (#[trigger] entities@[m]).archetype.0
                        == fp_of(ids_of(entities@[m].components@)),
                did == (entities@.len() > e0.len()),
            decreases self.queue.modify@.len(),
        {
            let ghost cur = self.queue.modify@;
            let rec = self.queue.modify.pop().unwrap();
            proof {
                assert(cur =~= self.queue.modify@.push(rec));
                assert(self.queue.modify@ =~= q0.take(self.queue.modify@.len() as int));
                assert(forall|k: int| 0 <= k < cur.len() ==> cur[k] == q0[k]);
            }
            let col = rec.0;
            let destroyed = self.queue_has_drop(col);
            proof {
                if has_drop(self.queue.destroy@, col) && !has_drop(ds0, col) {
                    let k = choose|k: int| 0 <= k < self.queue.destroy@.len()
                        && self.queue.destroy@[k] == DestroyType::Drop(col);
                    assert(k >= ds0.len() || ds0[k] == DestroyType::Drop(col));
                    assert(false);
                }
                if has_drop(ds0, col) {
                    let k = choose|k: int| 0 <= k < ds0.len()
                        && ds0[k] == DestroyType::Drop(col);
                    assert(self.queue.destroy@[k] == DestroyType::Drop(col));
                }
                assert(destroyed == has_drop(ds0, col));
            }
            if !destroyed {
                let mut entity = self.entity_at(col);
                let ghost base = entity_at_spec(rows0, col as int);
                let rem = rec.1.1;
                let ghost rem0 = rem@;
                let mut j: usize = 0;
                while j < rem.len()
                    invariant
                        entity.archetype.0 == 0,
                        j <= rem0.len(),
                        rem@ == rem0,
                        entity.components@ =~= apply_removes(base, rem0.take(j as int)),
                    decreases rem0.len() - j,
                {
                    let id = rem[j];
                    entity.remove(id);
                    proof {
                        assert(rem0.take(j + 1) =~= rem0.take(j as int).push(rem0[j as int]));
                        lemma_apply_removes_push(base, rem0.take(j as int), id);
                    }
                    j = j + 1;
                }
                proof {
                    assert(rem0.take(rem0.len() as int) =~= rem0);
                    assert(entity.components@ =~= apply_removes(base, rem0));
                }
                let ins = rec.1.0;
                let ghost ins0 = ins@;
                let ghost mid = apply_removes(base, rem0);
                let mut j2: usize = 0;
                while j2 < ins.len()
                    invariant
                        entity.archetype.0 == 0,
                        mid == apply_removes(base, rem0),
                        j2 <= ins0.len(),
                        ins@ == ins0,
                        entity.components@ =~= apply_inserts(mid, ins0.take(j2 as int)),
                    decreases ins0.len() - j2,
                {
                    let a = ins[j2];
                    entity.insert_anon(a);
                    proof {
                        assert(ins0.take(j2 + 1) =~= ins0.take(j2 as int).push(ins0[j2 as int]));
                        lemma_apply_inserts_push(mid, ins0.take(j2 as int), a);
                    }
                    j2 = j2 + 1;
                }
                proof {
                    assert(ins0.take(ins0.len() as int) =~= ins0);
                    assert(entity.components@ =~= modified_components(rows0, (col, (rec.1.0,
                        rec.1.1))));
                }
                self.queue.destroy.push(DestroyType::NoDrop(col));
                entity.hash();
                entities.push(entity);
                did = true;
            }
            proof {
                let qnow = self.queue.modify@;
                assert(migrate_outs(rows0, cur, ds0) == if has_drop(ds0, cur.last().0) {
                    migrate_outs(rows0, qnow, ds0)
                } else {
                    seq![modified_components(rows0, cur.last())] + migrate_outs(rows0, qnow, ds0)
                });
                assert(cur.last() == rec);
                assert(entities@.subrange(e0.len() as int, entities@.len() as int).map(
                    |i: int, e: Entity| e.components@)
                    + migrate_outs(rows0, qnow, ds0)
                    =~= migrate_outs(rows0, q0, ds0));
                assert(self.queue.destroy@.subrange(ds0.len() as int,
                    self.queue.destroy@.len() as int)
                    + migrate_nodrops(rows0, qnow, ds0)
                    =~= migrate_nodrops(rows0, q0, ds0));
                assert(self.queue.destroy@.subrange(0, ds0.len() as int) =~= ds0);
            }
        }
        self.modify = false;
        if did {
            self.update = true;
        }
        proof {
            assert(self.queue.modify@ =~= Seq::empty());
            assert(migrate_outs(rows0, self.queue.modify@, ds0) =~= Seq::<Seq<Anon>>::empty());
            assert(migrate_nodrops(rows0, self.queue.modify@, ds0)
                =~= Seq::<DestroyType>::empty());
            assert(self.queue.destroy@.subrange(ds0.len() as int, self.queue.destroy@.len() as int)
                =~= migrate_nodrops(rows0, q0, ds0));
            assert(self.queue.destroy@ =~= ds0 + migrate_nodrops(rows0, q0, ds0));
            let appended = entities@.subrange(e0.len() as int, entities@.len() as int);
            assert(appended.map(|i: int, e: Entity| e.components@)
                =~= migrate_outs(rows0, q0, ds0));
            assert forall|k: int| 0 <= k < migrate_outs(rows0, q0, ds0).len() implies
                (#[trigger] entities@[e0.len() + k]).components@
                    =~= migrate_outs(rows0, q0, ds0)[k]
                && entities@[e0.len() + k].archetype.0
                    == fp_of(ids_of(migrate_outs(rows0, q0, ds0)[k])) by {
                assert(appended.map(|i: int, e: Entity| e.components@)[k]
                    == entities@[e0.len() + k].components@);
            }
        }
    }

    /// Append every queued spawn: one value into each column, newest
    /// spawn first.
    fn apply_spawns(&mut self)
        requires
            old(self).wf(),
            old(self).num_entities + old(self).queue.spawn@.len() <= usize::MAX,
        ensures
            final(self).wf(),
            final(self).rows@.len() == old(self).rows@.len(),
            forall|r: int| 0 <= r < old(self).rows@.len()
                ==> (#[trigger] final(self).rows@[r]).id == old(self).rows@[r].id,
            final(self).num_entities == old(self).num_entities + old(self).queue.spawn@.len(),
            final(self).queue.spawn@.len() == 0,
            final(self).queue.destroy@ == old(self).queue.destroy@,
            final(self).queue.modify@ == old(self).queue.modify@,
            final(self).update == old(self).update,
            final(self).modify == old(self).modify,
            forall|r: int| 0 <= r < old(self).rows@.len()
                ==> (#[trigger] final(self).rows@[r]).data@ =~= old(self).rows@[r].data@
                    + spawned_column(old(self).queue.spawn@, old(self).rows@[r].id),
    {
        let ghost rows0 = self.rows@;
        let ghost sp0 = self.queue.spawn@;
        let ghost n0 = self.num_entities;
        while self.queue.spawn.len() > 0
            invariant
                old(self).wf(),
                rows0 == old(self).rows@,
                sp0 == old(self).queue.spawn@,
                n0 == old(self).num_entities,
                n0 + sp0.len() <= usize::MAX,
                self.queue.spawn@.len() <= sp0.len(),
                self.queue.spawn@ =~= sp0.take(self.queue.spawn@.len() as int),
                self.num_entities == n0 + sp0.len() - self.queue.spawn@.len(),
                self.queue.destroy@ == old(self).queue.destroy@,
                self.queue.modify@ == old(self).queue.modify@,
                self.update == old(self).update,
                self.modify == old(self).modify,
                self.rows@.len() == rows0.len(),
                forall|r: int| 0 <= r < rows0.len()
                    ==> (#[trigger] self.rows@[r]).id == rows0[r].id,
                forall|r: int| 0 <= r < rows0.len()
                    ==> (#[trigger] self.rows@[r]).data@.len() == self.num_entities,
                forall|r: int| 0 <= r < rows0.len()
                    ==> (#[trigger] self.rows@[r]).data@
                        + spawned_column(self.queue.spawn@, rows0[r].id)
                        =~= rows0[r].data@ + spawned_column(sp0, rows0[r].id),
            decreases self.queue.spawn@.len(),
        {
            let ghost cur = self.queue.spawn@;
            let entity = self.queue.spawn.pop().unwrap();
            self.num_entities = self.num_entities + 1;
            let ghost e = entity.components@;
            let ghost pre = self.rows@;
            proof {
                assert(cur =~= self.queue.spawn@.push(entity));
                assert(entity == sp0[cur.len() - 1]);
                assert(old(self).spawn_entity_ok(entity));
                assert(table_ids(rows0).no_duplicates());
                lemma_matching_distinct(e, table_ids(rows0));
                assert(self.queue.spawn@ =~= sp0.take(self.queue.spawn@.len() as int));
            }
            let ghost qspawn = self.queue.spawn@;
            let ghost nume = self.num_entities;
            let mut j: usize = 0;
            while j < entity.components.len()
                invariant
                    j <= e.len(),
                    e == entity.components@,
                    distinct_ids(e),
                    self.queue.spawn@ == qspawn,
                    self.queue.destroy@ == old(self).queue.destroy@,
                    self.queue.modify@ == old(self).queue.modify@,
                    self.update == old(self).update,
                    self.modify == old(self).modify,
                    self.num_entities == nume,
                    ids_of(e).to_multiset() == table_ids(rows0).to_multiset(),
                    forall|i1: int, i2: int| 0 <= i1 < i2 < rows0.len()
                        ==> rows0[i1].id < rows0[i2].id,
                    forall|k: int| 0 <= k < table_ids(rows0).len()
                        ==> has_id(e, #[trigger] table_ids(rows0)[k]),
                    self.rows@.len() == rows0.len(),
                    pre.len() == rows0.len(),
                    forall|r: int| 0 <= r < rows0.len()
                        ==> (#[trigger] pre[r]).id == rows0[r].id,
                    forall|r: int| 0 <= r < rows0.len()
                        ==> (#[trigger] self.rows@[r]).id == rows0[r].id,
                    forall|r: int| 0 <= r < rows0.len() && touched(e, j as int, rows0[r].id)
                        ==> (#[trigger] self.rows@[r]).data@
                            =~= pre[r].data@.push(value_of(e, rows0[r].id)),
                    forall|r: int| 0 <= r < rows0.len() && !touched(e, j as int, rows0[r].id)
                        ==> (#[trigger] self.rows@[r]).data@ =~= pre[r].data@,
                decreases e.len() - j,
            {
                let anon = entity.components[j];
                let mut r: usize = 0;
                while r < self.rows.len() && self.rows[r].id != anon.id
                    invariant
                        r <= self.rows@.len(),
                        anon == e[j as int],
                        0 <= (j as int) < e.len(),
                        forall|m: int| 0 <= m < r ==> (#[trigger] self.rows@[m]).id != anon.id,
                    decreases self.rows@.len() - r,
                {
                    r = r + 1;
                }
                proof {
                    if r == self.rows@.len() {
                        broadcast use vstd::seq_lib::group_to_multiset_ensures;
                        assert(ids_of(e).to_multiset() == table_ids(rows0).to_multiset());
                        assert(ids_of(e)[j as int] == anon.id);
                        assert(ids_of(e).contains(anon.id));
                        assert(ids_of(e).to_multiset().count(anon.id) > 0);
                        assert(table_ids(rows0).contains(anon.id));
                        let m = choose|m: int| 0 <= m < table_ids(rows0).len()
                            && table_ids(rows0)[m] == anon.id;
                        assert(self.rows@[m].id == anon.id);
                        assert(false);
                    }
                    assert(!touched(e, j as int, rows0[r as int].id)) by {
                        if touched(e, j as int, rows0[r as int].id) {
                            let k = choose|k: int| 0 <= k < j && e[k].id == rows0[r as int].id;
                            assert(e[k].id == e[j as int].id);
                        }
                    }
                    crate::entity::lemma_first_of_distinct(e, j as int);
                }
                let ghost mid_rows = self.rows@;
                let row = &mut self.rows[r];
                row.push(anon);
                proof {
                    assert forall|r2: int| 0 <= r2 < rows0.len()
                        && touched(e, j + 1, rows0[r2].id) implies
                        (#[trigger] self.rows@[r2]).data@
                            =~= pre[r2].data@.push(value_of(e, rows0[r2].id)) by {
                        if r2 == r {
                            assert(value_of(e, anon.id) == anon.data);
                        } else {
                            let k = choose|k: int| 0 <= k < j + 1 && e[k].id == rows0[r2].id;
                            assert(k < j) by {
                                if k == j {
                                    assert(rows0[r2].id == e[j as int].id);
                                    assert(mid_rows[r as int].id == anon.id);
                                    assert(rows0[r as int].id == anon.id);
                                    if r2 < r {
                                        assert(rows0[r2].id < rows0[r as int].id);
                                    } else {
                                        assert(rows0[r as int].id < rows0[r2].id);
                                    }
                                }
                            }
                            assert(touched(e, j as int, rows0[r2].id));
                            assert(self.rows@[r2] == mid_rows[r2]);
                        }
                    }
                    assert forall|r2: int| 0 <= r2 < rows0.len()
                        && !touched(e, j + 1, rows0[r2].id) implies
                        (#[trigger] self.rows@[r2]).data@ =~= pre[r2].data@ by {
                        assert(r2 != r) by {
                            if r2 == r {
                                assert(e[j as int].id == rows0[r2].id);
                            }
                        }
                        assert(!touched(e, j as int, rows0[r2].id)) by {
                            if touched(e, j as int, rows0[r2].id) {
                                let k = choose|k: int| 0 <= k < j && e[k].id == rows0[r2].id;
                                assert(0 <= k < j + 1 && e[k].id == rows0[r2].id);
                            }
                        }
                        assert(self.rows@[r2] == mid_rows[r2]);
                    }
                }
                j = j + 1;
            }
            proof {
                assert forall|r: int| 0 <= r < rows0.len() implies
                    (#[trigger] self.rows@[r]).data@
                        =~= pre[r].data@.push(value_of(e, rows0[r].id)) by {
                    assert(has_id(e, table_ids(rows0)[r]));
                    let k = choose|k: int| 0 <= k < e.len() && e[k].id == rows0[r].id;
                    assert(touched(e, e.len() as int, rows0[r].id));
                }
                assert forall|r: int| 0 <= r < rows0.len() implies
                    (#[trigger] self.rows@[r]).data@
                        + spawned_column(self.queue.spawn@, rows0[r].id)
                        =~= rows0[r].data@ + spawned_column(sp0, rows0[r].id) by {
                    assert(spawned_column(cur, rows0[r].id)
                        == seq![value_of(cur.last().components@, rows0[r].id)]
                            + spawned_column(cur.drop_last(), rows0[r].id));
                    assert(cur.last() == entity);
                    assert(cur.drop_last() =~= self.queue.spawn@);
                    assert(pre[r].data@ + spawned_column(cur, rows0[r].id)
                        =~= rows0[r].data@ + spawned_column(sp0, rows0[r].id));
                    assert(self.rows@[r].data@ + spawned_column(self.queue.spawn@, rows0[r].id)
                        =~= pre[r].data@ + spawned_column(cur, rows0[r].id));
                }
            }
        }
        proof {
            assert forall|r: int| 0 <= r < rows0.len() implies
                (#[trigger] self.rows@[r]).data@
                    =~= rows0[r].data@ + spawned_column(sp0, rows0[r].id) by {
                assert(spawned_column(self.queue.spawn@, rows0[r].id)
                    =~= Seq::<u64>::empty());
                assert(self.rows@[r].data@ + spawned_column(self.queue.spawn@, rows0[r].id)
                    =~= self.rows@[r].data@);
            }
        }
    }

    /// Apply every queued destroy: collect the targeted columns,
    /// deduplicate them, and swap-erase them in descending order so
    /// that no pending column is disturbed.
    fn apply_destroys_all(&mut self)
        requires
            old(self).wf(),
            old(self).queue.modify@.len() == 0,
        ensures
            final(self).wf(),
            final(self).rows@.len() == old(self).rows@.len(),
            forall|r: int| 0 <= r < old(self).rows@.len()
                ==> (#[trigger] final(self).rows@[r]).id == old(self).rows@[r].id,
            final(self).num_entities == old(self).num_entities
                - dcols(old(self).queue.destroy@, old(self).num_entities as nat).len(),
            final(self).queue.spawn@ == old(self).queue.spawn@,
            final(self).queue.destroy@.len() == 0,
            final(self).queue.modify@ == old(self).queue.modify@,
            final(self).update == old(self).update,
            final(self).modify == old(self).modify,
            forall|r: int| 0 <= r < old(self).rows@.len()
                ==> (#[trigger] final(self).rows@[r]).data@ =~= apply_destroys(
                    old(self).rows@[r].data@,
                    dcols(old(self).queue.destroy@, old(self).num_entities as nat)),
    {
        let ghost rows0 = self.rows@;
        let ghost ds0 = self.queue.destroy@;
        let ghost n0 = self.num_entities;
        let mut cols: Vec<usize> = Vec::new();
        while self.queue.destroy.len() > 0
            invariant
                ds0 == old(self).queue.destroy@,
                self.queue.destroy@.len() <= ds0.len(),
                self.queue.destroy@ =~= ds0.take(self.queue.destroy@.len() as int),
                cols@.len() == ds0.len() - self.queue.destroy@.len(),
                forall|m: int| 0 <= m < cols@.len()
                    ==> #[trigger] cols@[m] as int == ds0[ds0.len() - 1 - m].col(),
                self.rows == old(self).rows,
                self.num_entities == old(self).num_entities,
                self.queue.spawn@ == old(self).queue.spawn@,
                self.queue.modify@ == old(self).queue.modify@,
                self.update == old(self).update,
                self.modify == old(self).modify,
            decreases self.queue.destroy@.len(),
        {
            let ghost pre = self.queue.destroy@;
            let d = self.queue.destroy.pop().unwrap();
            let c = match d {
                DestroyType::Drop(c) => c,
                DestroyType::NoDrop(c) => c,
            };
            cols.push(c);
            proof {
                assert(d == pre.last());
                assert(pre.last() == ds0[pre.len() - 1]);
                assert(self.queue.destroy@ =~= ds0.take(self.queue.destroy@.len() as int));
                assert(c as int == d.col());
            }
        }
        let sorted = sort_cols(cols);
        let dd = dedup_sorted(&sorted);
        let ghost dvec = dd@.map_values(|u: usize| u as int).reverse();
        proof {
            broadcast use vstd::seq_lib::group_to_multiset_ensures;

            let cseq = cols@;
            assert forall|c: usize| #[trigger] cseq.contains(c) <==> has_col(ds0, c as int) by {
                if cseq.contains(c) {
                    let m = choose|m: int| 0 <= m < cseq.len() && cseq[m] == c;
                    assert(ds0[ds0.len() - 1 - m].col() == c as int);
                }
                if has_col(ds0, c as int) {
                    let k = choose|k: int| 0 <= k < ds0.len() && ds0[k].col() == c as int;
                    assert(cseq[ds0.len() - 1 - k] as int == ds0[k].col());
                    assert(cseq[ds0.len() - 1 - k] == c);
                }
            }
            assert forall|c: usize| #[trigger] dd@.contains(c) <==> has_col(ds0, c as int) by {
                assert(sorted@.to_multiset() == cseq.to_multiset());
                assert(sorted@.contains(c) <==> cseq.contains(c)) by {
                    if sorted@.contains(c) {
                        assert(sorted@.to_multiset().count(c) > 0);
                    }
                    if cseq.contains(c) {
                        assert(cseq.to_multiset().count(c) > 0);
                        assert(sorted@.to_multiset().count(c) > 0);
                    }
                }
            }
            assert forall|i: int, j: int| 0 <= i < j < dvec.len() implies dvec[i] > dvec[j] by {
                assert(dvec[i] == dd@[dd@.len() - 1 - i] as int);
                assert(dvec[j] == dd@[dd@.len() - 1 - j] as int);
                assert(dd@[dd@.len() - 1 - j] < dd@[dd@.len() - 1 - i]);
            }
            assert forall|m: int| 0 <= m < dvec.len() implies 0 <= #[trigger] dvec[m] < n0 by {
                let u = dd@[dd@.len() - 1 - m];
                assert(dvec[m] == u as int);
                assert(dd@.contains(u));
                assert(has_col(ds0, u as int));
                let k = choose|k: int| 0 <= k < ds0.len() && ds0[k].col() == u as int;
                assert(0 <= old(self).queue.destroy@[k].col() < old(self).num_entities);
            }
            assert forall|c: int| #[trigger] dvec.contains(c) implies has_col(ds0, c) by {
                let m = choose|m: int| 0 <= m < dvec.len() && dvec[m] == c;
                assert(dd@.contains(dd@[dd@.len() - 1 - m]));
            }
            assert forall|c: int| 0 <= c < n0 && has_col(ds0, c) implies
                #[trigger] dvec.contains(c) by {
                assert(dd@.contains(c as usize));
                let i = choose|i: int| 0 <= i < dd@.len() && dd@[i] == c as usize;
                assert(dvec[dd@.len() - 1 - i] == c);
            }
            lemma_dcols_unique(dvec, ds0, n0 as nat);
            lemma_dcols_bounds(ds0, n0 as nat);
        }
        let total = dd.len();
        let ghost dd0 = dd@;
        let mut dd = dd;
        while dd.len() > 0
            invariant
                old(self).wf(),
                rows0 == old(self).rows@,
                ds0 == old(self).queue.destroy@,
                n0 == old(self).num_entities,
                dvec =~= dcols(ds0, n0 as nat),
                dvec.len() == total,
                dvec =~= dd0.map_values(|u: usize| u as int).reverse(),
                forall|m: int| 0 <= m < dvec.len()
                    ==> 0 <= #[trigger] dvec[m] < n0 - m,
                dd@.len() <= total,
                dd@ =~= dd0.take(dd@.len() as int),
                self.num_entities == n0 - (total - dd@.len()),
                self.queue.spawn@ == old(self).queue.spawn@,
                self.queue.destroy@.len() == 0,
                self.queue.modify@ == old(self).queue.modify@,
                self.update == old(self).update,
                self.modify == old(self).modify,
                self.rows@.len() == rows0.len(),
                forall|r: int| 0 <= r < rows0.len()
                    ==> (#[trigger] self.rows@[r]).id == rows0[r].id,
                forall|r: int| 0 <= r < rows0.len()
                    ==> (#[trigger] self.rows@[r]).data@ =~= apply_destroys(
                        rows0[r].data@, dvec.take((total - dd@.len()) as int)),
                forall|r: int| 0 <= r < rows0.len()
                    ==> (#[trigger] self.rows@[r]).data@.len() == self.num_entities,
            decreases dd@.len(),
        {
            let ghost j = (total - dd@.len()) as int;
            let ghost pre_dd = dd@;
            let c = dd.pop().unwrap();
            proof {
                assert(c == pre_dd.last());
                assert(pre_dd.last() == dd0[pre_dd.len() - 1]);
                assert(dd@ =~= dd0.take(dd@.len() as int));
                assert(dvec[j] == dd0.map_values(|u: usize| u as int).reverse()[j]);
                assert(c as int == dvec[j]);
                assert(c < self.num_entities);
            }
            self.num_entities = self.num_entities - 1;
            let ghost pre_rows = self.rows@;
            let ghost numd = self.num_entities;
            let mut r: usize = 0;
            while r < self.rows.len()
                invariant
                    r <= self.rows@.len(),
                    self.rows@.len() == pre_rows.len(),
                    c < numd + 1,
                    self.num_entities == numd,
                    self.queue.spawn@ == old(self).queue.spawn@,
                    self.queue.destroy@.len() == 0,
                    self.queue.modify@ == old(self).queue.modify@,
                    self.update == old(self).update,
                    self.modify == old(self).modify,
                    forall|r2: int| 0 <= r2 < pre_rows.len()
                        ==> (#[trigger] self.rows@[r2]).id == pre_rows[r2].id,
                    forall|r2: int| 0 <= r2 < pre_rows.len()
                        ==> (#[trigger] pre_rows[r2]).data@.len() == numd + 1,
                    forall|r2: int| 0 <= r2 < r
                        ==> (#[trigger] self.rows@[r2]).data@
                            =~= swap_erase(pre_rows[r2].data@, c as int),
                    forall|r2: int| r <= r2 < pre_rows.len()
                        ==> (#[trigger] self.rows@[r2]).data@ =~= pre_rows[r2].data@,
                decreases self.rows@.len() - r,
            {
                let row = &mut self.rows[r];
                row.destroy_swap(c);
                r = r + 1;
            }
            proof {
                assert forall|r2: int| 0 <= r2 < rows0.len() implies
                    (#[trigger] self.rows@[r2]).data@ =~= apply_destroys(
                        rows0[r2].data@, dvec.take(j + 1)) by {
                    assert(dvec.take(j + 1) =~= dvec.take(j).push(dvec[j]));
                    lemma_apply_destroys_push(rows0[r2].data@, dvec.take(j), dvec[j]);
                    assert(pre_rows[r2].data@ =~= apply_destroys(rows0[r2].data@, dvec.take(j)));
                }
            }
        }
        proof {
            assert(dvec.take(total as int) =~= dvec);
            assert(table_ids(self.rows@) =~= table_ids(old(self).rows@));
        }
    }

    /// Apply the queued structural mutations: first every spawn, then
    /// every destroy, the destroys deduplicated and applied from the
    /// highest column down. Pending modifies must already have been
    /// drained. Clears the structural dirty flag.
    pub fn process_queues(&mut self)
        requires
            old(self).wf(),
            old(self).queue.modify@.len() == 0,
            old(self).num_entities + old(self).queue.spawn@.len() <= usize::MAX,
        ensures
            final(self).wf(),
            final(self).rows@.len() == old(self).rows@.len(),
            forall|r: int| 0 <= r < old(self).rows@.len()
                ==> (#[trigger] final(self).rows@[r]).id == old(self).rows@[r].id,
            !final(self).update,
            final(self).modify == old(self).modify,
            final(self).queue.spawn@.len() == 0,
            final(self).queue.destroy@.len() == 0,
            final(self).queue.modify@.len() == 0,
            final(self).num_entities == old(self).num_entities + old(self).queue.spawn@.len()
                - dcols(old(self).queue.destroy@,
                    (old(self).num_entities + old(self).queue.spawn@.len()) as nat).len(),
            forall|r: int| 0 <= r < old(self).rows@.len()
                ==> (#[trigger] final(self).rows@[r]).data@ =~= apply_destroys(
                    old(self).rows@[r].data@ + spawned_column(old(self).queue.spawn@,
                        old(self).rows@[r].id),
                    dcols(old(self).queue.destroy@,
                        (old(self).num_entities + old(self).queue.spawn@.len()) as nat)),
    {
        let ghost rows0 = self.rows@;
        let ghost sp0 = self.queue.spawn@;
        let ghost ds0 = self.queue.destroy@;
        let ghost n0 = self.num_entities;
        self.apply_spawns();
        let ghost mid_rows = self.rows@;
        self.apply_destroys_all();
        self.update = false;
        proof {
            assert forall|r: int| 0 <= r < rows0.len() implies
                (#[trigger] self.rows@[r]).data@ =~= apply_destroys(
                    rows0[r].data@ + spawned_column(sp0, rows0[r].id),
                    dcols(ds0, (n0 + sp0.len()) as nat)) by {
                assert(mid_rows[r].data@ =~= rows0[r].data@
                    + spawned_column(sp0, rows0[r].id));
                assert(self.rows@[r].data@ =~= apply_destroys(mid_rows[r].data@,
                    dcols(ds0, (n0 + sp0.len()) as nat)));
            }
        }
    }

    /// The values of the column holding component `id`, or nothing
    /// when the table is empty. Asking for a component the archetype
    /// lacks is a scheduler bug, so the id must be present.
    pub fn collect(&self, id: ComponentId) -> (r: Option<crate::query::ValueIter>)
        requires
            self.wf(),
            self.ids().contains(id),
        ensures
            self.num_entities == 0 ==> r is None,
            self.num_entities > 0 ==> (r matches Some(it) && it.pos == 0
                && it.data@ =~= self.rows@[row_index(self.rows@, id)].data@),
    {
        if self.num_entities == 0 {
            return None;
        }
        let mut r: usize = 0;
        while r < self.rows.len() && self.rows[r].id != id
            invariant
                r <= self.rows@.len(),
                forall|m: int| 0 <= m < r ==> (#[trigger] self.rows@[m]).id != id,
                self.ids().contains(id),
            decreases self.rows@.len() - r,
        {
            r = r + 1;
        }
        proof {
            if r == self.rows@.len() {
                let m = choose|m: int| 0 <= m < self.ids().len() && self.ids()[m] == id;
                assert(self.rows@[m].id == id);
                assert(false);
            }
            lemma_row_index(self.rows@, id, r as int);
        }
        let row = &self.rows[r];
        let mut data: Vec<u64> = Vec::new();
        let mut k: usize = 0;
        while k < row.data.len()
            invariant
                k <= row.data@.len(),
                data@ =~= row.data@.take(k as int),
            decreases row.data@.len() - k,
        {
            data.push(row.data[k]);
            k = k + 1;
        }
        proof {
            assert(row.data@.take(row.data@.len() as int) =~= row.data@);
        }
        Some(crate::query::ValueIter { data, pos: 0 })
    }

    /// The index range of this table's entities, or nothing when the
    /// table is empty.
    pub fn collect_indices(&self, table: usize) -> (r: Option<EntityIndexIter>)
        ensures
            self.num_entities == 0 ==> r is None,
            self.num_entities > 0 ==> (r matches Some(it)
                && it.table == table && it.col == 0 && it.len == self.num_entities),
    {
        if self.num_entities > 0 {
            Some(EntityIndexIter { table, col: 0, len: self.num_entities })
        } else {
            None
        }
    }
}

} // verus!
