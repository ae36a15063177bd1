//! The archetype registry: the tables, a staging area for spawns
//! whose archetype has no table yet, the migration buffer filled by
//! modifies, and the query cache. The registry looks archetypes up by
//! their exact component-id set; the fingerprint is only a cache key.

use vstd::prelude::*;
use std::collections::hash_map::RandomState;
use crate::fingerprint::{Archetype, ComponentId, fp_of};
use crate::entity::{Entity, EntityIndex, EntityIndexChain, ids_of, distinct_ids,
    lemma_distinct_same_members};
use crate::table::{Table, DestroyType, contains_all, table_ids, modify_has, modify_index,
    row_index, migrate_outs, migrate_nodrops, spawned_column, dcols, apply_destroys};
use crate::entity::Anon;
use crate::iset::{iset_view, iset_new, iset_len, iset_insert, iset_get_index};
use crate::query::ValueIterChain;
use crate::commands::{Queue, TableIndex, dq_has};

verus! {

/// Whether a table stores exactly the archetype of this entity: the
/// same component ids, as an unordered set.
pub open spec fn table_matches(t: Table, e: Entity) -> bool {
    t.ids().to_multiset() == ids_of(e.components@).to_multiset()
}

/// Whether some table stores this entity's archetype.
pub open spec fn some_table_matches(tables: Seq<Table>, e: Entity) -> bool {
    exists|t: int| 0 <= t < tables.len() && table_matches(tables[t], e)
}

/// Whether no table stores this entity's archetype, so that a spawn
/// of it must be staged.
pub open spec fn staged(tables: Seq<Table>, e: Entity) -> bool {
    !some_table_matches(tables, e)
}

/// The spawns among `sp` whose archetype is stored by table `t`, in
/// submission order.
pub open spec fn matching_spawns(sp: Seq<Entity>, tables: Seq<Table>, t: int) -> Seq<Entity>
    decreases sp.len(),
{
    if sp.len() == 0 {
        Seq::empty()
    } else {
        let rest = matching_spawns(sp.drop_last(), tables, t);
        if table_matches(tables[t], sp.last()) {
            rest.push(sp.last())
        } else {
            rest
        }
    }
}

/// The spawns among `sp` whose archetype no table stores, in
/// submission order.
pub open spec fn staged_spawns(sp: Seq<Entity>, tables: Seq<Table>) -> Seq<Entity>
    decreases sp.len(),
{
    if sp.len() == 0 {
        Seq::empty()
    } else {
        let rest = staged_spawns(sp.drop_last(), tables);
        if staged(tables, sp.last()) {
            rest.push(sp.last())
        } else {
            rest
        }
    }
}

/// Whether a modify record at position `lo` or later targets the
/// entity at table `t`, column `c`.
pub open spec fn mq_targets(
    mq: Seq<(EntityIndex, (Vec<crate::entity::Anon>, Vec<ComponentId>))>,
    lo: int,
    t: TableIndex,
    c: usize,
) -> bool {
    exists|k: int| lo <= k < mq.len() && (#[trigger] mq[k]).0.table == t && mq[k].0.col == c
}

/// Appending an entity to the placement stream extends a table's
/// matches exactly when the entity's archetype is that table's.
proof fn lemma_matching_push(sp: Seq<Entity>, e: Entity, tbl: Table)
    ensures
        matching_spawns_tbl(sp.push(e), tbl) == if table_matches(tbl, e) {
            matching_spawns_tbl(sp, tbl).push(e)
        } else {
            matching_spawns_tbl(sp, tbl)
        },
{
    assert(sp.push(e).last() == e);
    assert(sp.push(e).drop_last() =~= sp);
}

/// One pre-existing table through a whole flush: the migrants that
/// re-homed into it became spawns after its own queued spawns, the
/// migration pass extended its destroys, and processing the queues
/// then yields the flush contract's formula over the pre-flush state.
proof fn lemma_flush_compose(a0: Archetypes, st: Table, fin: Table, tb: Table,
    mig0: Seq<Entity>)
    requires
        st.rows == tb.rows,
        st.num_entities == tb.num_entities,
        st.queue.destroy@ == tb.queue.destroy@ + migrate_nodrops(tb.rows@,
            tb.queue.modify@, tb.queue.destroy@),
        st.queue.spawn@ == tb.queue.spawn@ + matching_spawns_tbl(mig0.reverse(), tb),
        mig0.map_values(|e: Entity| e.components@)
            == a0.modify@.map_values(|e: Entity| e.components@) + all_outs(a0.tables@, 0),
        fin.rows@.len() == st.rows@.len(),
        forall|r: int| 0 <= r < st.rows@.len()
            ==> (#[trigger] fin.rows@[r]).id == st.rows@[r].id,
        fin.num_entities == st.num_entities + st.queue.spawn@.len() - dcols(
            st.queue.destroy@, (st.num_entities + st.queue.spawn@.len()) as nat).len(),
        forall|r: int| 0 <= r < st.rows@.len()
            ==> (#[trigger] fin.rows@[r]).data@ =~= apply_destroys(
                st.rows@[r].data@ + spawned_column(st.queue.spawn@, st.rows@[r].id),
                dcols(st.queue.destroy@,
                    (st.num_entities + st.queue.spawn@.len()) as nat)),
    ensures
        ({
            let nodrops = migrate_nodrops(tb.rows@, tb.queue.modify@, tb.queue.destroy@);
            let extra = matching_migrants(migration_stream(a0), tb);
            let bound = (tb.num_entities + tb.queue.spawn@.len() + extra.len()) as nat;
            &&& fin.num_entities == bound - dcols(tb.queue.destroy@ + nodrops, bound).len()
            &&& fin.rows@.len() == tb.rows@.len()
            &&& forall|r: int| 0 <= r < tb.rows@.len()
                ==> (#[trigger] fin.rows@[r]).data@ =~= apply_destroys(
                    tb.rows@[r].data@ + spawned_column_c(extra, tb.rows@[r].id)
                        + spawned_column(tb.queue.spawn@, tb.rows@[r].id),
                    dcols(tb.queue.destroy@ + nodrops, bound))
        }),
{
    let extra_e = matching_spawns_tbl(mig0.reverse(), tb);
    let extra = matching_migrants(migration_stream(a0), tb);
    lemma_matching_map(mig0.reverse(), tb);
    assert(mig0.reverse().map_values(|e: Entity| e.components@)
        =~= mig0.map_values(|e: Entity| e.components@).reverse());
    assert(migration_stream(a0) == mig0.map_values(|e: Entity| e.components@).reverse());
    assert(extra_e.map_values(|e: Entity| e.components@) =~= extra);
    assert(extra_e.len() == extra.len());
    let bound = (tb.num_entities + tb.queue.spawn@.len() + extra.len()) as nat;
    assert(bound == (st.num_entities + st.queue.spawn@.len()) as nat);
    assert forall|r: int| 0 <= r < tb.rows@.len() implies
        (#[trigger] fin.rows@[r]).data@ =~= apply_destroys(
            tb.rows@[r].data@ + spawned_column_c(extra, tb.rows@[r].id)
                + spawned_column(tb.queue.spawn@, tb.rows@[r].id),
            dcols(tb.queue.destroy@ + migrate_nodrops(tb.rows@, tb.queue.modify@,
                tb.queue.destroy@), bound)) by {
        let id = tb.rows@[r].id;
        lemma_spawned_column_concat(tb.queue.spawn@, extra_e, id);
        lemma_spawned_column_map(extra_e, id);
        assert(spawned_column(st.queue.spawn@, id)
            =~= spawned_column_c(extra, id) + spawned_column(tb.queue.spawn@, id));
        assert(st.rows@[r].data@ == tb.rows@[r].data@);
        assert(st.rows@[r].data@ + spawned_column(st.queue.spawn@, id)
            =~= tb.rows@[r].data@ + spawned_column_c(extra, id)
                + spawned_column(tb.queue.spawn@, id));
    }
}

/// A table the flush leaves clean gained nothing and lost nothing:
/// the contract's formula degenerates to its old contents.
proof fn lemma_flush_compose_clean(a0: Archetypes, st: Table, tb: Table, mig0: Seq<Entity>)
    requires
        st.rows == tb.rows,
        st.num_entities == tb.num_entities,
        st.queue.spawn@.len() == 0,
        st.queue.destroy@.len() == 0,
        st.queue.destroy@ == tb.queue.destroy@ + migrate_nodrops(tb.rows@,
            tb.queue.modify@, tb.queue.destroy@),
        st.queue.spawn@ == tb.queue.spawn@ + matching_spawns_tbl(mig0.reverse(), tb),
        mig0.map_values(|e: Entity| e.components@)
            == a0.modify@.map_values(|e: Entity| e.components@) + all_outs(a0.tables@, 0),
    ensures
        ({
            let nodrops = migrate_nodrops(tb.rows@, tb.queue.modify@, tb.queue.destroy@);
            let extra = matching_migrants(migration_stream(a0), tb);
            let bound = (tb.num_entities + tb.queue.spawn@.len() + extra.len()) as nat;
            &&& st.num_entities == bound - dcols(tb.queue.destroy@ + nodrops, bound).len()
            &&& st.rows@.len() == tb.rows@.len()
            &&& forall|r: int| 0 <= r < tb.rows@.len()
                ==> (#[trigger] st.rows@[r]).data@ =~= apply_destroys(
                    tb.rows@[r].data@ + spawned_column_c(extra, tb.rows@[r].id)
                        + spawned_column(tb.queue.spawn@, tb.rows@[r].id),
                    dcols(tb.queue.destroy@ + nodrops, bound))
        }),
{
    let nodrops = migrate_nodrops(tb.rows@, tb.queue.modify@, tb.queue.destroy@);
    let extra_e = matching_spawns_tbl(mig0.reverse(), tb);
    let extra = matching_migrants(migration_stream(a0), tb);
    lemma_matching_map(mig0.reverse(), tb);
    assert(mig0.reverse().map_values(|e: Entity| e.components@)
        =~= mig0.map_values(|e: Entity| e.components@).reverse());
    assert(migration_stream(a0) == mig0.map_values(|e: Entity| e.components@).reverse());
    assert(extra_e.map_values(|e: Entity| e.components@) =~= extra);
    assert(tb.queue.spawn@.len() == 0 && extra_e.len() == 0);
    assert(extra.len() == 0);
    assert(tb.queue.destroy@.len() == 0 && nodrops.len() == 0);
    let bound = (tb.num_entities + tb.queue.spawn@.len() + extra.len()) as nat;
    assert(tb.queue.destroy@ + nodrops =~= Seq::<DestroyType>::empty());
    lemma_dcols_no_cols(tb.queue.destroy@ + nodrops, bound);
    assert forall|r: int| 0 <= r < tb.rows@.len() implies
        (#[trigger] st.rows@[r]).data@ =~= apply_destroys(
            tb.rows@[r].data@ + spawned_column_c(extra, tb.rows@[r].id)
                + spawned_column(tb.queue.spawn@, tb.rows@[r].id),
            dcols(tb.queue.destroy@ + nodrops, bound)) by {
        let id = tb.rows@[r].id;
        assert(spawned_column_c(extra, id) =~= Seq::<u64>::empty());
        assert(spawned_column(tb.queue.spawn@, id) =~= Seq::<u64>::empty());
        assert(tb.rows@[r].data@ + spawned_column_c(extra, id)
            + spawned_column(tb.queue.spawn@, id) =~= tb.rows@[r].data@);
        assert(apply_destroys(tb.rows@[r].data@,
            dcols(tb.queue.destroy@ + nodrops, bound)) == tb.rows@[r].data@);
    }
}

/// Which entities match a table depends only on the table's id set.
proof fn lemma_matching_same_ids(sp: Seq<Entity>, t1: Table, t2: Table)
    requires
        table_ids(t1.rows@) == table_ids(t2.rows@),
    ensures
        matching_spawns_tbl(sp, t1) == matching_spawns_tbl(sp, t2),
    decreases sp.len(),
{
    if sp.len() > 0 {
        lemma_matching_same_ids(sp.drop_last(), t1, t2);
    }
}

/// A stream none of whose entities matches a table contributes
/// nothing to it.
proof fn lemma_matching_none(sp: Seq<Entity>, tbl: Table)
    requires
        forall|k: int| 0 <= k < sp.len() ==> !table_matches(tbl, #[trigger] sp[k]),
    ensures
        matching_spawns_tbl(sp, tbl).len() == 0,
    decreases sp.len(),
{
    if sp.len() > 0 {
        lemma_matching_none(sp.drop_last(), tbl);
    }
}

/// Counting re-homed migrants at the entity level or over the
/// migration stream gives the same number.
proof fn lemma_migrant_count(a0: Archetypes, mig0: Seq<Entity>, tbl: Table)
    requires
        mig0.map_values(|e: Entity| e.components@)
            == a0.modify@.map_values(|e: Entity| e.components@) + all_outs(a0.tables@, 0),
    ensures
        matching_spawns_tbl(mig0.reverse(), tbl).len()
            == matching_migrants(migration_stream(a0), tbl).len(),
{
    lemma_matching_map(mig0.reverse(), tbl);
    assert(mig0.reverse().map_values(|e: Entity| e.components@)
        =~= mig0.map_values(|e: Entity| e.components@).reverse());
    assert(migration_stream(a0) == mig0.map_values(|e: Entity| e.components@).reverse());
}

/// An entity with a matching table keeps one when tables only gain
/// entries and existing tables keep their id sets.
proof fn lemma_matches_persist(pre: Seq<Table>, post: Seq<Table>, e: Entity)
    requires
        some_table_matches(pre, e),
        post.len() >= pre.len(),
        forall|t: int| 0 <= t < pre.len()
            ==> table_ids((#[trigger] post[t]).rows@) == table_ids(pre[t].rows@),
    ensures
        some_table_matches(post, e),
{
    let t = choose|t: int| 0 <= t < pre.len() && table_matches(pre[t], e);
    assert(table_matches(post[t], e));
}

/// Every entity the staging filter keeps indeed matches no table.
proof fn lemma_staged_spawns_staged(sp: Seq<Entity>, tables: Seq<Table>)
    ensures
        forall|k: int| 0 <= k < staged_spawns(sp, tables).len()
            ==> staged(tables, #[trigger] staged_spawns(sp, tables)[k]),
    decreases sp.len(),
{
    if sp.len() > 0 {
        lemma_staged_spawns_staged(sp.drop_last(), tables);
        if staged(tables, sp.last()) {
            assert forall|k: int| 0 <= k < staged_spawns(sp, tables).len() implies
                staged(tables, #[trigger] staged_spawns(sp, tables)[k]) by {
                if k == staged_spawns(sp, tables).len() - 1 {
                    assert(staged_spawns(sp, tables)[k] == sp.last());
                } else {
                    assert(staged_spawns(sp, tables)[k]
                        == staged_spawns(sp.drop_last(), tables)[k]);
                }
            }
        } else {
            assert forall|k: int| 0 <= k < staged_spawns(sp, tables).len() implies
                staged(tables, #[trigger] staged_spawns(sp, tables)[k]) by {
                assert(staged_spawns(sp, tables)[k]
                    == staged_spawns(sp.drop_last(), tables)[k]);
            }
        }
    }
}

/// Whether a destroy group at position `lo` or later targets `t`.
pub open spec fn dq_targets(dq: Seq<(TableIndex, Vec<DestroyType>)>, lo: int, t: TableIndex)
    -> bool {
    exists|k: int| lo <= k < dq.len() && dq[k].0 == t
}

/// The spawns among `sp` whose archetype is stored by this table, in
/// submission order.
pub open spec fn matching_spawns_tbl(sp: Seq<Entity>, tbl: Table) -> Seq<Entity>
    decreases sp.len(),
{
    if sp.len() == 0 {
        Seq::empty()
    } else {
        let rest = matching_spawns_tbl(sp.drop_last(), tbl);
        if table_matches(tbl, sp.last()) {
            rest.push(sp.last())
        } else {
            rest
        }
    }
}

/// The migrated bundles among `stream` whose archetype is stored by
/// this table, in placement order.
pub open spec fn matching_migrants(stream: Seq<Seq<Anon>>, tbl: Table) -> Seq<Seq<Anon>>
    decreases stream.len(),
{
    if stream.len() == 0 {
        Seq::empty()
    } else {
        let rest = matching_migrants(stream.drop_last(), tbl);
        if ids_of(stream.last()).to_multiset() == tbl.ids().to_multiset() {
            rest.push(stream.last())
        } else {
            rest
        }
    }
}

/// The bundles a flush migrates out of the tables from position `i`
/// on, in table order.
pub open spec fn all_outs(tables: Seq<Table>, i: int) -> Seq<Seq<Anon>>
    decreases tables.len() - i,
{
    if i < 0 || i >= tables.len() {
        Seq::empty()
    } else {
        migrate_outs(tables[i].rows@, tables[i].queue.modify@, tables[i].queue.destroy@)
            + all_outs(tables, i + 1)
    }
}

/// The values one column gains from a queue of migrated bundles,
/// newest first: the counterpart of `spawned_column` for bundles
/// that are not yet wrapped in entities.
pub open spec fn spawned_column_c(q: Seq<Seq<Anon>>, id: ComponentId) -> Seq<u64>
    decreases q.len(),
{
    if q.len() == 0 {
        Seq::empty()
    } else {
        seq![crate::entity::value_of(q.last(), id)] + spawned_column_c(q.drop_last(), id)
    }
}

/// The migration stream of a flush: the bundles already waiting in
/// the buffer, then every table's migrated bundles in table order,
/// reversed because the buffer is drained newest first.
pub open spec fn migration_stream(a: Archetypes) -> Seq<Seq<Anon>> {
    (a.modify@.map_values(|e: Entity| e.components@) + all_outs(a.tables@, 0)).reverse()
}

/// A column gains the second queue's values first: it is drained
/// newest first.
proof fn lemma_spawned_column_concat(q1: Seq<Entity>, q2: Seq<Entity>, id: ComponentId)
    ensures
        spawned_column(q1 + q2, id) =~= spawned_column(q2, id) + spawned_column(q1, id),
    decreases q2.len(),
{
    if q2.len() == 0 {
        assert(q1 + q2 =~= q1);
    } else {
        assert((q1 + q2).last() == q2.last());
        assert((q1 + q2).drop_last() =~= q1 + q2.drop_last());
        lemma_spawned_column_concat(q1, q2.drop_last(), id);
        assert(spawned_column(q1 + q2, id)
            =~= spawned_column(q2, id) + spawned_column(q1, id));
    }
}

/// Wrapping bundles in entities does not change what a column gains.
proof fn lemma_spawned_column_map(q: Seq<Entity>, id: ComponentId)
    ensures
        spawned_column(q, id) =~= spawned_column_c(q.map_values(|e: Entity| e.components@),
            id),
    decreases q.len(),
{
    if q.len() > 0 {
        let m = q.map_values(|e: Entity| e.components@);
        assert(m.last() == q.last().components@);
        assert(m.drop_last() =~= q.drop_last().map_values(|e: Entity| e.components@));
        lemma_spawned_column_map(q.drop_last(), id);
    }
}

/// Wrapping bundles in entities does not change which of them match
/// a table.
proof fn lemma_matching_map(es: Seq<Entity>, tbl: Table)
    ensures
        matching_spawns_tbl(es, tbl).map_values(|e: Entity| e.components@)
            =~= matching_migrants(es.map_values(|e: Entity| e.components@), tbl),
    decreases es.len(),
{
    if es.len() > 0 {
        let m = es.map_values(|e: Entity| e.components@);
        assert(m.last() == es.last().components@);
        assert(m.drop_last() =~= es.drop_last().map_values(|e: Entity| e.components@));
        lemma_matching_map(es.drop_last(), tbl);
        if table_matches(tbl, es.last()) {
            assert(matching_spawns_tbl(es, tbl).map_values(|e: Entity| e.components@)
                =~= matching_spawns_tbl(es.drop_last(), tbl).map_values(
                    |e: Entity| e.components@).push(es.last().components@));
        }
    }
}

/// A queue that destroys nothing erases nothing.
proof fn lemma_dcols_no_cols(ds: Seq<DestroyType>, bound: nat)
    requires
        ds.len() == 0,
    ensures
        dcols(ds, bound) =~= Seq::<int>::empty(),
    decreases bound,
{
    if bound > 0 {
        lemma_dcols_no_cols(ds, (bound - 1) as nat);
    }
}

/// One registered query: its component-id list, the fingerprint of
/// that list, and the insertion-ordered set of matching tables.
pub struct QueryEntry {
    pub fp: u64,
    pub ids: Vec<ComponentId>,
    pub tables: indexmap::IndexSet<TableIndex, RandomState>,
}

/// Whether the cache holds a query with this fingerprint.
pub open spec fn has_query(cache: Seq<QueryEntry>, fp: u64) -> bool {
    exists|k: int| 0 <= k < cache.len() && cache[k].fp == fp
}

/// The position of the query with this fingerprint; meaningful only
/// when `has_query(cache, fp)`.
pub open spec fn query_index(cache: Seq<QueryEntry>, fp: u64) -> int
    decreases cache.len(),
{
    if cache.len() == 0 {
        0
    } else if cache[0].fp == fp {
        0
    } else {
        1 + query_index(cache.drop_first(), fp)
    }
}

/// If no entry before `k` carries `fp` and entry `k` does, then `k`
/// is the entry for `fp`.
proof fn lemma_query_index(cache: Seq<QueryEntry>, fp: u64, k: int)
    requires
        0 <= k < cache.len(),
        cache[k].fp == fp,
        forall|m: int| 0 <= m < k ==> cache[m].fp != fp,
    ensures
        query_index(cache, fp) == k,
    decreases k,
{
    if k > 0 {
        lemma_query_index(cache.drop_first(), fp, k - 1);
    }
}

/// A registered fingerprint's entry lies inside the cache and
/// carries that fingerprint.
pub proof fn lemma_query_index_valid(cache: Seq<QueryEntry>, fp: u64)
    requires
        has_query(cache, fp),
    ensures
        0 <= query_index(cache, fp) < cache.len(),
        cache[query_index(cache, fp)].fp == fp,
    decreases cache.len(),
{
    if cache.len() > 0 && cache[0].fp != fp {
        assert(has_query(cache.drop_first(), fp)) by {
            let k = choose|k: int| 0 <= k < cache.len() && cache[k].fp == fp;
            assert(cache.drop_first()[k - 1] == cache[k]);
        }
        lemma_query_index_valid(cache.drop_first(), fp);
    }
}

/// The values of component `id` over the named tables, table by
/// table; an empty table contributes nothing.
pub open spec fn chain_values(tables: Seq<Table>, idxs: Seq<TableIndex>, id: ComponentId)
    -> Seq<u64>
    decreases idxs.len(),
{
    if idxs.len() == 0 {
        Seq::empty()
    } else {
        let t = idxs[0] as int;
        (if tables[t].num_entities == 0 {
            Seq::<u64>::empty()
        } else {
            tables[t].rows@[row_index(tables[t].rows@, id)].data@
        }) + chain_values(tables, idxs.drop_first(), id)
    }
}

/// The entity locations of the named tables, table by table, each
/// table contributing columns 0 up to its entity count.
pub open spec fn chain_indices(tables: Seq<Table>, idxs: Seq<TableIndex>) -> Seq<EntityIndex>
    decreases idxs.len(),
{
    if idxs.len() == 0 {
        Seq::empty()
    } else {
        let t = idxs[0] as int;
        Seq::new(tables[t].num_entities as nat,
            |c: int| EntityIndex { table: idxs[0], col: c as usize })
            + chain_indices(tables, idxs.drop_first())
    }
}

/// Appending a table index appends that table's values.
proof fn lemma_chain_values_push(tables: Seq<Table>, idxs: Seq<TableIndex>, x: TableIndex,
    id: ComponentId)
    ensures
        chain_values(tables, idxs.push(x), id) == chain_values(tables, idxs, id)
            + (if tables[x as int].num_entities == 0 {
                Seq::<u64>::empty()
            } else {
                tables[x as int].rows@[row_index(tables[x as int].rows@, id)].data@
            }),
    decreases idxs.len(),
{
    let part = if tables[x as int].num_entities == 0 {
        Seq::<u64>::empty()
    } else {
        tables[x as int].rows@[row_index(tables[x as int].rows@, id)].data@
    };
    if idxs.len() == 0 {
        assert(idxs.push(x)[0] == x);
        assert(idxs.push(x).drop_first() =~= Seq::<TableIndex>::empty());
        assert(chain_values(tables, idxs.push(x).drop_first(), id)
            =~= Seq::<u64>::empty());
        assert(chain_values(tables, idxs.push(x), id) =~= part);
        assert(chain_values(tables, idxs, id) + part =~= part);
    } else {
        assert(idxs.push(x)[0] == idxs[0]);
        assert(idxs.push(x).drop_first() =~= idxs.drop_first().push(x));
        lemma_chain_values_push(tables, idxs.drop_first(), x, id);
        assert(chain_values(tables, idxs.push(x), id)
            =~= chain_values(tables, idxs, id) + part);
    }
}

/// Appending a table index appends that table's locations.
proof fn lemma_chain_indices_push(tables: Seq<Table>, idxs: Seq<TableIndex>, x: TableIndex)
    ensures
        chain_indices(tables, idxs.push(x)) == chain_indices(tables, idxs)
            + Seq::new(tables[x as int].num_entities as nat,
                |c: int| EntityIndex { table: x, col: c as usize }),
    decreases idxs.len(),
{
    let part = Seq::new(tables[x as int].num_entities as nat,
        |c: int| EntityIndex { table: x, col: c as usize });
    if idxs.len() == 0 {
        assert(idxs.push(x)[0] == x);
        assert(idxs.push(x).drop_first() =~= Seq::<TableIndex>::empty());
        assert(chain_indices(tables, idxs.push(x).drop_first())
            =~= Seq::<EntityIndex>::empty());
        assert(chain_indices(tables, idxs.push(x)) =~= part);
        assert(chain_indices(tables, idxs) + part =~= part);
    } else {
        assert(idxs.push(x)[0] == idxs[0]);
        assert(idxs.push(x).drop_first() =~= idxs.drop_first().push(x));
        lemma_chain_indices_push(tables, idxs.drop_first(), x);
        assert(chain_indices(tables, idxs.push(x))
            =~= chain_indices(tables, idxs) + part);
    }
}

/// How much a table and its queues can still add to the entity and
/// table counts during a flush: entities present, spawns pending,
/// and two units per pending modify, which may both migrate an
/// entity out and seed a new table.
pub open spec fn table_load(t: Table) -> int {
    t.num_entities + t.queue.spawn@.len() + 2 * t.queue.modify@.len()
}

/// The total load of the table list from position `i` on.
pub open spec fn tables_load(tables: Seq<Table>, i: int) -> int
    decreases tables.len() - i,
{
    if i < 0 || i >= tables.len() {
        0
    } else {
        table_load(tables[i]) + tables_load(tables, i + 1)
    }
}

/// Changing one table changes the total load by that table's change.
proof fn lemma_load_frame(pre: Seq<Table>, post: Seq<Table>, t: int, i: int)
    requires
        0 <= t < pre.len(),
        post.len() == pre.len(),
        forall|j: int| 0 <= j < pre.len() && j != t ==> post[j] == pre[j],
        0 <= i <= pre.len(),
    ensures
        tables_load(post, i) == tables_load(pre, i)
            + if i <= t { table_load(post[t]) - table_load(pre[t]) } else { 0 },
    decreases pre.len() - i,
{
    if i < pre.len() {
        lemma_load_frame(pre, post, t, i + 1);
    }
}

/// Appending a table adds its load to the total.
proof fn lemma_load_push(pre: Seq<Table>, tb: Table, i: int)
    requires
        0 <= i <= pre.len(),
    ensures
        tables_load(pre.push(tb), i) == tables_load(pre, i) + table_load(tb),
    decreases pre.len() - i,
{
    if i < pre.len() {
        assert(pre.push(tb)[i] == pre[i]);
        lemma_load_push(pre, tb, i + 1);
    } else {
        assert(pre.push(tb)[i] == tb);
        assert(tables_load(pre.push(tb), i + 1) == 0);
        assert(tables_load(pre, i) == 0);
    }
}

/// Every table's load is part of the total.
proof fn lemma_load_at(tables: Seq<Table>, t: int, i: int)
    requires
        0 <= i <= t < tables.len(),
        forall|j: int| 0 <= j < tables.len() ==> table_load(#[trigger] tables[j]) >= 0,
    ensures
        table_load(tables[t]) <= tables_load(tables, i),
        tables_load(tables, i) >= 0,
    decreases tables.len() - i,
{
    if i < t {
        lemma_load_at(tables, t, i + 1);
    } else {
        lemma_load_nonneg(tables, i + 1);
    }
}

/// The total load is never negative.
proof fn lemma_load_nonneg(tables: Seq<Table>, i: int)
    ensures
        tables_load(tables, i) >= 0,
    decreases tables.len() - i,
{
    if 0 <= i < tables.len() {
        lemma_load_nonneg(tables, i + 1);
    }
}

/// Query soundness: in a well-formed registry a table's index is in
/// a query's cached set exactly when the table's archetype contains
/// every id the query asks for. The registry's operations keep this,
/// so it holds at every flush boundary.
pub proof fn lemma_query_soundness(a: &Archetypes, q: int, t: TableIndex)
    requires
        a.wf(),
        0 <= q < a.cache@.len(),
        t < a.tables@.len(),
    ensures
        iset_view(a.cache@[q].tables).contains(t)
            <==> contains_all(a.tables@[t as int].ids(), a.cache@[q].ids@),
{
    assert(a.query_entry_ok(a.cache@[q]));
}

/// The archetype registry.
pub struct Archetypes {
    pub tables: Vec<Table>,
    pub spawn: Vec<Entity>,
    pub cache: Vec<QueryEntry>,
    pub modify: Vec<Entity>,
}

impl Archetypes {
    /// The cached table set of one query holds exactly the tables
    /// whose archetype is a superset of the query's id list, each
    /// once, each a valid index.
    pub open spec fn table_set_ok(&self, q_ids: Seq<ComponentId>,
        ts: indexmap::IndexSet<TableIndex, RandomState>) -> bool {
        &&& iset_view(ts).no_duplicates()
        &&& forall|m: int| 0 <= m < iset_view(ts).len()
            ==> (#[trigger] iset_view(ts)[m]) < self.tables@.len()
        &&& forall|t: TableIndex| t < self.tables@.len()
            ==> (#[trigger] iset_view(ts).contains(t)
                <==> contains_all(self.tables@[t as int].ids(), q_ids))
    }

    /// One cache entry is consistent: its fingerprint hashes its id
    /// list and its table set is sound and complete.
    pub open spec fn query_entry_ok(&self, q: QueryEntry) -> bool {
        &&& q.fp == fp_of(q.ids@)
        &&& self.table_set_ok(q.ids@, q.tables)
    }

    /// Registry well-formedness: every table is well formed, no two
    /// tables store the same archetype, every cached query matches
    /// exactly the superset tables, query fingerprints are unique,
    /// and staged and migrating entities carry no duplicate ids.
    pub open spec fn wf(&self) -> bool {
        &&& forall|t: int| 0 <= t < self.tables@.len() ==> (#[trigger] self.tables@[t]).wf()
        &&& forall|t1: int, t2: int| 0 <= t1 < t2 < self.tables@.len()
            ==> self.tables@[t1].ids().to_multiset() != self.tables@[t2].ids().to_multiset()
        &&& forall|q: int| 0 <= q < self.cache@.len()
            ==> self.query_entry_ok(#[trigger] self.cache@[q])
        &&& forall|q1: int, q2: int| 0 <= q1 < q2 < self.cache@.len()
            ==> self.cache@[q1].fp != self.cache@[q2].fp
        &&& forall|k: int| 0 <= k < self.spawn@.len()
            ==> distinct_ids((#[trigger] self.spawn@[k]).components@)
        &&& forall|k: int| 0 <= k < self.modify@.len()
            ==> distinct_ids((#[trigger] self.modify@[k]).components@)
    }

    /// Staged entities wait precisely because no table stores their
    /// archetype yet; submission keeps it that way, and a flush
    /// drains the staging.
    pub open spec fn staging_fresh(&self) -> bool {
        forall|k: int| 0 <= k < self.spawn@.len()
            ==> staged(self.tables@, #[trigger] self.spawn@[k])
    }

    /// Every table is clean: no dirty flags, empty queues.
    pub open spec fn all_clean(&self) -> bool {
        &&& forall|t: int| 0 <= t < self.tables@.len()
            ==> !(#[trigger] self.tables@[t]).update && !self.tables@[t].modify
                && self.tables@[t].queue.spawn@.len() == 0
                && self.tables@[t].queue.destroy@.len() == 0
                && self.tables@[t].queue.modify@.len() == 0
        &&& self.spawn@.len() == 0
        &&& self.modify@.len() == 0
    }

    /// An empty registry.
    pub fn new() -> (r: Self)
        ensures
            r.wf(),
            r.all_clean(),
            r.staging_fresh(),
            r.tables@.len() == 0,
            r.cache@.len() == 0,
    {
        Archetypes {
            tables: Vec::new(),
            spawn: Vec::new(),
            cache: Vec::new(),
            modify: Vec::new(),
        }
    }

    /// The table storing exactly this entity's archetype, if any.
    fn find_table(&self, entity: &Entity) -> (r: Option<TableIndex>)
        requires
            self.wf(),
            distinct_ids(entity.components@),
        ensures
            r matches Some(t) ==> t < self.tables@.len()
                && table_matches(self.tables@[t as int], *entity),
            r is None ==> !some_table_matches(self.tables@, *entity),
    {
        let mut ids: Vec<ComponentId> = Vec::new();
        let mut k: usize = 0;
        while k < entity.components.len()
            invariant
                k <= entity.components@.len(),
                ids@ =~= ids_of(entity.components@).take(k as int),
            decreases entity.components@.len() - k,
        {
            ids.push(entity.components[k].id);
            k = k + 1;
        }
        proof {
            assert(ids_of(entity.components@).take(entity.components@.len() as int)
                =~= ids_of(entity.components@));
        }
        let ghost eids = ids_of(entity.components@);
        let mut t: usize = 0;
        while t < self.tables.len()
            invariant
                self.wf(),
                distinct_ids(entity.components@),
                t <= self.tables@.len(),
                ids@ =~= eids,
                eids == ids_of(entity.components@),
                forall|m: int| 0 <= m < t
                    ==> !table_matches(#[trigger] self.tables@[m], *entity),
            decreases self.tables@.len() - t,
        {
            if self.tables[t].rows.len() == ids.len() {
                let ok = self.tables[t].contains(&ids);
                if ok {
                    proof {
                        broadcast use vstd::seq_lib::group_to_multiset_ensures;
                        let tids = self.tables@[t as int].ids();
                        assert(eids.no_duplicates());
                        assert(tids.no_duplicates());
                        assert(tids.len() == self.tables@[t as int].rows@.len());
                        lemma_distinct_same_members(eids, tids);
                        assert(table_matches(self.tables@[t as int], *entity));
                    }
                    return Some(t);
                }
            }
            proof {
                broadcast use vstd::seq_lib::group_to_multiset_ensures;
                if table_matches(self.tables@[t as int], *entity) {
                    let tids = self.tables@[t as int].ids();
                    assert(tids.to_multiset().len() == eids.to_multiset().len());
                    assert(tids.len() == eids.len());
                    assert forall|m: int| 0 <= m < eids.len() implies
                        tids.contains(#[trigger] eids[m]) by {
                        assert(eids.to_multiset().count(eids[m]) > 0);
                        assert(tids.to_multiset().count(eids[m]) > 0);
                    }
                    assert(contains_all(tids, ids@));
                    assert(false);
                }
            }
            t = t + 1;
        }
        None
    }

    /// Place one entity: enqueue it as a spawn into the table of its
    /// archetype, or create that table with the entity as its seed,
    /// extending every cached query that the new archetype matches.
    #[verifier::rlimit(50)]
    fn place_entity(&mut self, entity: Entity)
        requires
            old(self).wf(),
            distinct_ids(entity.components@),
            old(self).tables@.len() < usize::MAX,
        ensures
            final(self).wf(),
            final(self).spawn@ == old(self).spawn@,
            final(self).modify@ == old(self).modify@,
            final(self).cache@.len() == old(self).cache@.len(),
            forall|q: int| 0 <= q < old(self).cache@.len()
                ==> (#[trigger] final(self).cache@[q]).ids@ == old(self).cache@[q].ids@
                    && final(self).cache@[q].fp == old(self).cache@[q].fp,
            some_table_matches(old(self).tables@, entity) ==> {
                let t = choose|t: int| 0 <= t < old(self).tables@.len()
                    && table_matches(old(self).tables@[t], entity);
                &&& final(self).tables@.len() == old(self).tables@.len()
                &&& (forall|m: int| 0 <= m < old(self).tables@.len() && m != t
                    ==> final(self).tables@[m] == old(self).tables@[m])
                &&& final(self).tables@[t].queue.spawn@
                    =~= old(self).tables@[t].queue.spawn@.push(entity)
                &&& final(self).tables@[t].queue.destroy@
                    == old(self).tables@[t].queue.destroy@
                &&& final(self).tables@[t].queue.modify@
                    == old(self).tables@[t].queue.modify@
                &&& final(self).tables@[t].rows == old(self).tables@[t].rows
                &&& final(self).tables@[t].num_entities
                    == old(self).tables@[t].num_entities
                &&& final(self).tables@[t].modify == old(self).tables@[t].modify
                &&& forall|q: int| 0 <= q < old(self).cache@.len()
                    ==> (#[trigger] final(self).cache@[q]).tables
                        == old(self).cache@[q].tables
            },
            !some_table_matches(old(self).tables@, entity) ==> {
                &&& final(self).tables@.len() == old(self).tables@.len() + 1
                &&& (forall|m: int| 0 <= m < old(self).tables@.len()
                    ==> final(self).tables@[m] == old(self).tables@[m])
                &&& table_matches(final(self).tables@.last(), entity)
                &&& final(self).tables@.last().num_entities == 1
                &&& final(self).tables@.last().queue.spawn@.len() == 0
                &&& final(self).tables@.last().queue.destroy@.len() == 0
                &&& final(self).tables@.last().queue.modify@.len() == 0
                &&& !final(self).tables@.last().update
                &&& !final(self).tables@.last().modify
            },
    {
        let found = self.find_table(&entity);
        match found {
            Some(t) => {
                proof {
                    assert(table_matches(self.tables@[t as int], entity));
                    let t2 = choose|t2: int| 0 <= t2 < self.tables@.len()
                        && table_matches(self.tables@[t2], entity);
                    assert(t2 == t as int) by {
                        if t2 != t as int {
                            assert(self.tables@[t2].ids().to_multiset()
                                == self.tables@[t as int].ids().to_multiset());
                        }
                    }
                }
                let ghost pre = *self;
                let table = &mut self.tables[t];
                proof {
                    assert(pre.tables@[t as int].spawn_entity_ok(entity));
                }
                table.spawn(entity);
                proof {
                    assert forall|q: int| 0 <= q < self.cache@.len() implies
                        self.query_entry_ok(#[trigger] self.cache@[q]) by {
                        assert(pre.query_entry_ok(pre.cache@[q]));
                        assert(self.cache@[q] == pre.cache@[q]);
                        assert forall|t3: TableIndex| t3 < self.tables@.len() implies
                            (#[trigger] iset_view(self.cache@[q].tables).contains(t3)
                                <==> contains_all(self.tables@[t3 as int].ids(),
                                    self.cache@[q].ids@)) by {
                            assert(table_ids(self.tables@[t3 as int].rows@)
                                =~= table_ids(pre.tables@[t3 as int].rows@));
                        }
                    }
                    assert forall|t1: int, t2: int| 0 <= t1 < t2 < self.tables@.len() implies
                        self.tables@[t1].ids().to_multiset()
                            != self.tables@[t2].ids().to_multiset() by {
                        assert(table_ids(self.tables@[t1].rows@)
                            =~= table_ids(pre.tables@[t1].rows@));
                        assert(table_ids(self.tables@[t2].rows@)
                            =~= table_ids(pre.tables@[t2].rows@));
                    }
                }
            },
            None => {
                let ghost pre = *self;
                let index = self.tables.len();
                let table = Table::new(entity);
                self.tables.push(table);
                let ghost mid = *self;
                proof {
                    assert(table_matches(self.tables@.last(), entity));
                    assert(forall|m: int| 0 <= m < pre.tables@.len()
                        ==> (#[trigger] self.tables@[m]) == pre.tables@[m]);
                }
                let mut q: usize = 0;
                while q < self.cache.len()
                    invariant
                        pre.wf(),
                        q <= self.cache@.len(),
                        index == pre.tables@.len(),
                        index < self.tables@.len(),
                        self.tables@ == mid.tables@,
                        self.spawn@ == pre.spawn@,
                        self.modify@ == pre.modify@,
                        mid.tables@.len() == pre.tables@.len() + 1,
                        forall|m: int| 0 <= m < pre.tables@.len()
                            ==> (#[trigger] mid.tables@[m]) == pre.tables@[m],
                        mid.tables@.last().wf(),
                        !some_table_matches(pre.tables@, entity),
                        table_matches(mid.tables@.last(), entity),
                        mid.tables@.last().num_entities == 1,
                        mid.tables@.last().queue.spawn@.len() == 0,
                        mid.tables@.last().queue.destroy@.len() == 0,
                        mid.tables@.last().queue.modify@.len() == 0,
                        !mid.tables@.last().update,
                        !mid.tables@.last().modify,
                        self.cache@.len() == pre.cache@.len(),
                        forall|m: int| 0 <= m < pre.cache@.len()
                            ==> (#[trigger] self.cache@[m]).ids@ == pre.cache@[m].ids@
                                && self.cache@[m].fp == pre.cache@[m].fp,
                        forall|m: int| q <= m < pre.cache@.len()
                            ==> (#[trigger] self.cache@[m]) == pre.cache@[m],
                        forall|m: int| 0 <= m < q
                            ==> self.query_entry_ok(#[trigger] self.cache@[m]),
                        forall|m: int| 0 <= m < pre.cache@.len()
                            ==> pre.query_entry_ok(#[trigger] pre.cache@[m]),
                    decreases self.cache@.len() - q,
                {
                    let ghost old_entry = self.cache@[q as int];
                    let mut ids_copy: Vec<ComponentId> = Vec::new();
                    let mut ci: usize = 0;
                    while ci < self.cache[q].ids.len()
                        invariant
                            q < self.cache@.len(),
                            ci <= self.cache@[q as int].ids@.len(),
                            ids_copy@ =~= self.cache@[q as int].ids@.take(ci as int),
                        decreases self.cache@[q as int].ids@.len() - ci,
                    {
                        ids_copy.push(self.cache[q].ids[ci]);
                        ci = ci + 1;
                    }
                    proof {
                        assert(self.cache@[q as int].ids@.take(
                            self.cache@[q as int].ids@.len() as int)
                            =~= self.cache@[q as int].ids@);
                    }
                    let matches = self.tables[index].contains(&ids_copy);
                    if matches {
                        let ghost pre_cache = self.cache@;
                        let entry = &mut self.cache[q];
                        let ghost pre_set = entry.tables;
                        let inserted = iset_insert(&mut entry.tables, index);
                        proof {
                            assert(!iset_view(pre_set).contains(index)) by {
                                if iset_view(pre_set).contains(index) {
                                    assert(pre.table_set_ok(old_entry.ids@, pre_set));
                                    let m = choose|m: int| 0 <= m < iset_view(pre_set).len()
                                        && iset_view(pre_set)[m] == index;
                                    assert(iset_view(pre_set)[m] < pre.tables@.len());
                                }
                            }
                            assert(iset_view(self.cache@[q as int].tables)
                                =~= iset_view(pre_set).push(index));
                        }
                    }
                    proof {
                        let e = self.cache@[q as int];
                        assert(self.query_entry_ok(e)) by {
                            assert(pre.table_set_ok(old_entry.ids@, old_entry.tables));
                            if contains_all(mid.tables@[index as int].ids(), old_entry.ids@) {
                                assert(iset_view(e.tables)
                                    =~= iset_view(old_entry.tables).push(index));
                                assert forall|t3: TableIndex| t3 < self.tables@.len() implies
                                    (#[trigger] iset_view(e.tables).contains(t3)
                                        <==> contains_all(self.tables@[t3 as int].ids(),
                                            e.ids@)) by {
                                    assert(iset_view(e.tables).contains(t3)
                                        <==> iset_view(old_entry.tables).contains(t3)
                                            || t3 == index) by {
                                        if iset_view(e.tables).contains(t3) {
                                            let m2 = choose|m2: int|
                                                0 <= m2 < iset_view(e.tables).len()
                                                && iset_view(e.tables)[m2] == t3;
                                            if m2 < iset_view(old_entry.tables).len() {
                                                assert(iset_view(old_entry.tables)[m2] == t3);
                                            }
                                        }
                                        if iset_view(old_entry.tables).contains(t3) {
                                            let m2 = choose|m2: int|
                                                0 <= m2 < iset_view(old_entry.tables).len()
                                                && iset_view(old_entry.tables)[m2] == t3;
                                            assert(iset_view(e.tables)[m2] == t3);
                                        }
                                        if t3 == index {
                                            assert(iset_view(e.tables).last() == index);
                                        }
                                    }
                                }
                            } else {
                                assert(e == old_entry);
                                assert forall|t3: TableIndex| t3 < self.tables@.len() implies
                                    (#[trigger] iset_view(e.tables).contains(t3)
                                        <==> contains_all(self.tables@[t3 as int].ids(),
                                            e.ids@)) by {
                                    if t3 == index {
                                        if iset_view(e.tables).contains(t3) {
                                            let m = choose|m: int| 0 <= m
                                                < iset_view(e.tables).len()
                                                && iset_view(e.tables)[m] == t3;
                                            assert(iset_view(e.tables)[m]
                                                < pre.tables@.len());
                                        }
                                    }
                                }
                            }
                        }
                    }
                    q = q + 1;
                }
                proof {
                    assert forall|t1: int, t2: int| 0 <= t1 < t2 < self.tables@.len() implies
                        self.tables@[t1].ids().to_multiset()
                            != self.tables@[t2].ids().to_multiset() by {
                        if t2 == self.tables@.len() - 1 {
                            assert(!table_matches(pre.tables@[t1], entity));
                        }
                    }
                }
            },
        }
    }

    /// Submit one per-system buffer: spawns whose archetype already
    /// has a table are queued there, the rest are staged; destroys
    /// and modifies are forwarded to their tables.
    #[verifier::rlimit(50)]
    pub fn queue(&mut self, queue: Queue)
        requires
            old(self).wf(),
            queue.wf(),
            forall|k: int| 0 <= k < queue.destroy@.len()
                ==> (#[trigger] queue.destroy@[k]).0 < old(self).tables@.len()
                    && (forall|d: int| 0 <= d < queue.destroy@[k].1@.len()
                        ==> 0 <= (#[trigger] queue.destroy@[k].1@[d]).col()
                            < old(self).tables@[queue.destroy@[k].0 as int].num_entities),
            forall|k: int| 0 <= k < queue.modify@.len()
                ==> (#[trigger] queue.modify@[k]).0.table < old(self).tables@.len()
                    && queue.modify@[k].0.col
                        < old(self).tables@[queue.modify@[k].0.table as int].num_entities,
        ensures
            final(self).wf(),
            final(self).tables@.len() == old(self).tables@.len(),
            final(self).cache@ == old(self).cache@,
            final(self).modify@ == old(self).modify@,
            forall|t: int| 0 <= t < old(self).tables@.len()
                ==> (#[trigger] final(self).tables@[t]).rows == old(self).tables@[t].rows
                    && final(self).tables@[t].num_entities
                        == old(self).tables@[t].num_entities,
            final(self).spawn@ =~= old(self).spawn@
                + staged_spawns(queue.spawn@, old(self).tables@),
            old(self).staging_fresh() ==> final(self).staging_fresh(),
            forall|t: int| 0 <= t < old(self).tables@.len()
                ==> (#[trigger] final(self).tables@[t]).queue.spawn@
                    =~= old(self).tables@[t].queue.spawn@
                        + matching_spawns(queue.spawn@, old(self).tables@, t),
            forall|k: int| 0 <= k < queue.destroy@.len()
                ==> (#[trigger] final(self).tables@[queue.destroy@[k].0 as int]).queue.destroy@
                    =~= old(self).tables@[queue.destroy@[k].0 as int].queue.destroy@
                        + queue.destroy@[k].1@,
            forall|t: int| 0 <= t < old(self).tables@.len() && !dq_has(queue.destroy@, t as usize)
                ==> (#[trigger] final(self).tables@[t]).queue.destroy@
                    == old(self).tables@[t].queue.destroy@,
            forall|k: int| 0 <= k < queue.modify@.len() ==> {
                let idx = (#[trigger] queue.modify@[k]).0;
                let mq = final(self).tables@[idx.table as int].queue.modify@;
                let oldq = old(self).tables@[idx.table as int].queue.modify@;
                &&& modify_has(mq, idx.col)
                &&& (modify_has(oldq, idx.col)
                    ==> mq[modify_index(mq, idx.col)].1.0@
                            =~= oldq[modify_index(oldq, idx.col)].1.0@
                                + queue.modify@[k].1.0@
                        && mq[modify_index(mq, idx.col)].1.1@
                            =~= oldq[modify_index(oldq, idx.col)].1.1@
                                + queue.modify@[k].1.1@)
                &&& (!modify_has(oldq, idx.col)
                    ==> mq[modify_index(mq, idx.col)].1.0@ =~= queue.modify@[k].1.0@
                        && mq[modify_index(mq, idx.col)].1.1@ =~= queue.modify@[k].1.1@)
            },
    {
        let mut queue = queue;
        let ghost sp0 = queue.spawn@;
        let ghost dq0 = queue.destroy@;
        let ghost mq0 = queue.modify@;
        let ghost tables0 = self.tables@;
        let ghost st0 = self.spawn@;
        let ghost k: int = 0;
        while queue.spawn.len() > 0
            invariant
                old(self).wf(),
                tables0 == old(self).tables@,
                st0 == old(self).spawn@,
                0 <= k <= sp0.len(),
                queue.spawn@ =~= sp0.subrange(k, sp0.len() as int),
                forall|k2: int| 0 <= k2 < sp0.len()
                    ==> distinct_ids((#[trigger] sp0[k2]).components@),
                queue.destroy@ == dq0,
                queue.modify@ == mq0,
                self.wf(),
                self.cache@ == old(self).cache@,
                self.modify@ == old(self).modify@,
                self.tables@.len() == tables0.len(),
                forall|t: int| 0 <= t < tables0.len()
                    ==> (#[trigger] self.tables@[t]).rows == tables0[t].rows
                        && self.tables@[t].num_entities == tables0[t].num_entities
                        && self.tables@[t].queue.destroy@ == tables0[t].queue.destroy@
                        && self.tables@[t].queue.modify@ == tables0[t].queue.modify@,
                self.spawn@ =~= st0 + staged_spawns(sp0.take(k), tables0),
                forall|t: int| 0 <= t < tables0.len()
                    ==> (#[trigger] self.tables@[t]).queue.spawn@
                        =~= tables0[t].queue.spawn@
                            + matching_spawns(sp0.take(k), tables0, t),
            decreases sp0.len() - k,
        {
            let ghost prev = *self;
            let entity = queue.spawn.remove(0);
            proof {
                assert(entity == sp0[k]);
                assert(queue.spawn@ =~= sp0.subrange(k + 1, sp0.len() as int));
                assert(sp0.take(k + 1) =~= sp0.take(k).push(sp0[k]));
                assert(sp0.take(k + 1).drop_last() =~= sp0.take(k));
                assert(forall|t: int| 0 <= t < tables0.len()
                    ==> table_ids((#[trigger] self.tables@[t]).rows@)
                        == table_ids(tables0[t].rows@));
                assert(distinct_ids(entity.components@));
            }
            let found = self.find_table(&entity);
            match found {
                Some(t) => {
                    proof {
                        assert(table_matches(self.tables@[t as int], entity));
                        assert(table_matches(tables0[t as int], entity));
                        assert(prev.tables@[t as int].spawn_entity_ok(entity));
                        assert forall|t2: int| 0 <= t2 < tables0.len() && t2 != t
                            implies !table_matches(tables0[t2], entity) by {
                            if table_matches(tables0[t2], entity) {
                                assert(tables0[t2].ids().to_multiset()
                                    == tables0[t as int].ids().to_multiset());
                            }
                        }
                        assert(!staged(tables0, entity));
                    }
                    let table = &mut self.tables[t];
                    table.spawn(entity);
                },
                None => {
                    proof {
                        assert(staged(tables0, entity)) by {
                            if some_table_matches(tables0, entity) {
                                let t2 = choose|t2: int| 0 <= t2 < tables0.len()
                                    && table_matches(tables0[t2], entity);
                                assert(table_matches(self.tables@[t2], entity));
                            }
                        }
                    }
                    self.spawn.push(entity);
                },
            }
            proof {
                k = k + 1;
            }
        }
        proof {
            assert(sp0.take(sp0.len() as int) =~= sp0);
        }
        let ghost mid1 = *self;
        proof {
            assert(queue.destroy@ =~= dq0.take(queue.destroy@.len() as int));
            assert(forall|t: int| 0 <= t < tables0.len()
                ==> (#[trigger] mid1.tables@[t]).rows == tables0[t].rows
                    && mid1.tables@[t].num_entities == tables0[t].num_entities);
        }
        while queue.destroy.len() > 0
            invariant
                old(self).wf(),
                mid1.wf(),
                tables0 == old(self).tables@,
                queue.destroy@.len() <= dq0.len(),
                queue.destroy@ =~= dq0.take(queue.destroy@.len() as int),
                queue.modify@ == mq0,
                forall|k2: int, l2: int| 0 <= k2 < l2 < dq0.len()
                    ==> dq0[k2].0 != dq0[l2].0,
                forall|k2: int| 0 <= k2 < dq0.len()
                    ==> (#[trigger] dq0[k2]).0 < tables0.len()
                        && (forall|d: int| 0 <= d < dq0[k2].1@.len()
                            ==> 0 <= (#[trigger] dq0[k2].1@[d]).col()
                                < tables0[dq0[k2].0 as int].num_entities),
                self.wf(),
                self.cache@ == mid1.cache@,
                self.spawn@ == mid1.spawn@,
                self.modify@ == mid1.modify@,
                self.tables@.len() == tables0.len(),
                forall|t: int| 0 <= t < tables0.len()
                    ==> (#[trigger] mid1.tables@[t]).rows == tables0[t].rows
                        && mid1.tables@[t].num_entities == tables0[t].num_entities,
                forall|t: int| 0 <= t < tables0.len()
                    ==> (#[trigger] self.tables@[t]).rows == mid1.tables@[t].rows
                        && self.tables@[t].num_entities == mid1.tables@[t].num_entities
                        && self.tables@[t].queue.spawn@ == mid1.tables@[t].queue.spawn@
                        && self.tables@[t].queue.modify@ == mid1.tables@[t].queue.modify@,
                forall|k2: int| queue.destroy@.len() <= k2 < dq0.len()
                    ==> (#[trigger] self.tables@[dq0[k2].0 as int]).queue.destroy@
                        =~= mid1.tables@[dq0[k2].0 as int].queue.destroy@
                            + dq0[k2].1@,
                forall|t: int| 0 <= t < tables0.len()
                    && !dq_targets(dq0, queue.destroy@.len() as int, t as usize)
                    ==> (#[trigger] self.tables@[t]).queue.destroy@
                        == mid1.tables@[t].queue.destroy@,
            decreases queue.destroy@.len(),
        {
            let ghost pre_dq = queue.destroy@;
            let entry = queue.destroy.pop().unwrap();
            let t = entry.0;
            proof {
                assert(entry == dq0[pre_dq.len() - 1]);
                assert(queue.destroy@ =~= dq0.take(queue.destroy@.len() as int));
                assert(self.tables@[t as int].queue.destroy@
                    == mid1.tables@[t as int].queue.destroy@) by {
                    if dq_targets(dq0, pre_dq.len() as int, t) {
                        let k2 = choose|k2: int| pre_dq.len() <= k2 < dq0.len()
                            && dq0[k2].0 == t;
                        assert(dq0[k2].0
                            == dq0[pre_dq.len() - 1].0);
                    }
                }
            }
            proof {
                assert(self.tables@[t as int].num_entities == tables0[t as int].num_entities);
                assert(forall|d: int| 0 <= d < entry.1@.len()
                    ==> 0 <= (#[trigger] entry.1@[d]).col()
                        < tables0[t as int].num_entities);
            }
            let table = &mut self.tables[t];
            table.destroy_group(entry.1);
            proof {
                assert forall|t2: int| 0 <= t2 < tables0.len()
                    && !dq_targets(dq0, queue.destroy@.len() as int, t2 as usize)
                    implies (#[trigger] self.tables@[t2]).queue.destroy@
                        == mid1.tables@[t2].queue.destroy@ by {
                    assert(t2 != t as int);
                    assert(!dq_targets(dq0, pre_dq.len() as int, t2 as usize))
                        by {
                        if dq_targets(dq0, pre_dq.len() as int, t2 as usize) {
                            let k2 = choose|k2: int| pre_dq.len() <= k2
                                < dq0.len()
                                && dq0[k2].0 == t2 as usize;
                            assert(queue.destroy@.len() <= k2);
                        }
                    }
                }
            }
        }
        let ghost mid2 = *self;
        proof {
            assert(queue.modify@ =~= mq0.take(queue.modify@.len() as int));
            assert(forall|t: int| 0 <= t < tables0.len()
                ==> (#[trigger] mid2.tables@[t]).rows == tables0[t].rows
                    && mid2.tables@[t].num_entities == tables0[t].num_entities);
        }
        while queue.modify.len() > 0
            invariant
                old(self).wf(),
                mid2.wf(),
                tables0 == old(self).tables@,
                queue.modify@.len() <= mq0.len(),
                queue.modify@ =~= mq0.take(queue.modify@.len() as int),
                forall|k2: int, l2: int| 0 <= k2 < l2 < mq0.len()
                    ==> mq0[k2].0 != mq0[l2].0,
                forall|k2: int| 0 <= k2 < mq0.len()
                    ==> (#[trigger] mq0[k2]).0.table < tables0.len()
                        && mq0[k2].0.col
                            < tables0[mq0[k2].0.table as int].num_entities,
                self.wf(),
                self.cache@ == mid2.cache@,
                self.spawn@ == mid2.spawn@,
                self.modify@ == mid2.modify@,
                self.tables@.len() == tables0.len(),
                forall|t: int| 0 <= t < tables0.len()
                    ==> (#[trigger] mid2.tables@[t]).rows == tables0[t].rows
                        && mid2.tables@[t].num_entities == tables0[t].num_entities,
                forall|t: int| 0 <= t < tables0.len()
                    ==> (#[trigger] self.tables@[t]).rows == mid2.tables@[t].rows
                        && self.tables@[t].num_entities == mid2.tables@[t].num_entities
                        && self.tables@[t].queue.spawn@ == mid2.tables@[t].queue.spawn@
                        && self.tables@[t].queue.destroy@ == mid2.tables@[t].queue.destroy@,
                forall|t: int| 0 <= t < tables0.len()
                    ==> (#[trigger] self.tables@[t]).queue.modify@.len()
                            >= mid2.tables@[t].queue.modify@.len()
                        && (forall|m: int| 0 <= m < mid2.tables@[t].queue.modify@.len()
                            ==> (#[trigger] self.tables@[t].queue.modify@[m]).0
                                == mid2.tables@[t].queue.modify@[m].0),
                forall|t: int, m: int| 0 <= t < tables0.len()
                    && mid2.tables@[t].queue.modify@.len() <= m
                        < self.tables@[t].queue.modify@.len()
                    ==> mq_targets(mq0, queue.modify@.len() as int, t as usize,
                        (#[trigger] self.tables@[t].queue.modify@[m]).0),
                forall|t: int, m: int| 0 <= t < tables0.len()
                    && 0 <= m < mid2.tables@[t].queue.modify@.len()
                    && !mq_targets(mq0, queue.modify@.len() as int, t as usize,
                        (#[trigger] mid2.tables@[t].queue.modify@[m]).0)
                    ==> self.tables@[t].queue.modify@[m]
                        == mid2.tables@[t].queue.modify@[m],
                forall|k2: int| queue.modify@.len() <= k2 < mq0.len() ==> {
                    let idx = (#[trigger] mq0[k2]).0;
                    let mq = self.tables@[idx.table as int].queue.modify@;
                    let oldq = mid2.tables@[idx.table as int].queue.modify@;
                    &&& modify_has(mq, idx.col)
                    &&& (modify_has(oldq, idx.col)
                        ==> mq[modify_index(mq, idx.col)].1.0@
                                =~= oldq[modify_index(oldq, idx.col)].1.0@ + mq0[k2].1.0@
                            && mq[modify_index(mq, idx.col)].1.1@
                                =~= oldq[modify_index(oldq, idx.col)].1.1@ + mq0[k2].1.1@)
                    &&& (!modify_has(oldq, idx.col)
                        ==> mq[modify_index(mq, idx.col)].1.0@ =~= mq0[k2].1.0@
                            && mq[modify_index(mq, idx.col)].1.1@ =~= mq0[k2].1.1@)
                },
            decreases queue.modify@.len(),
        {
            let ghost pre_mq = queue.modify@;
            let ghost pre_tables = self.tables@;
            let rec = queue.modify.pop().unwrap();
            let idx = rec.0;
            proof {
                assert(rec == mq0[pre_mq.len() - 1]);
                assert(queue.modify@ =~= mq0.take(queue.modify@.len() as int));
            }
            proof {
                assert(self.tables@[idx.table as int].num_entities
                    == tables0[idx.table as int].num_entities);
            }
            let table = &mut self.tables[idx.table];
            table.modify_group(idx.col, rec.1.0, rec.1.1);
            proof {
                let ti = idx.table as int;
                let pre_q = pre_tables[ti].queue.modify@;
                let post_q = self.tables@[ti].queue.modify@;
                let mid_q = mid2.tables@[ti].queue.modify@;
                let rem = queue.modify@.len() as int;
                // the record just processed was not among those already processed,
                // and no processed record shares its location
                assert(forall|k2: int| rem + 1 <= k2 < mq0.len()
                    ==> (#[trigger] mq0[k2]).0 != idx);
                // the new record's clause, bridged from the state before this call
                assert(!mq_targets(mq0, rem + 1, idx.table, idx.col)) by {
                    if mq_targets(mq0, rem + 1, idx.table, idx.col) {
                        let k2 = choose|k2: int| rem + 1 <= k2 < mq0.len()
                            && (#[trigger] mq0[k2]).0.table == idx.table
                            && mq0[k2].0.col == idx.col;
                        assert(mq0[k2].0 == idx);
                    }
                }
                assert(modify_has(pre_q, idx.col) == modify_has(mid_q, idx.col)
                    && (modify_has(mid_q, idx.col)
                        ==> pre_q[modify_index(pre_q, idx.col)]
                            == mid_q[modify_index(mid_q, idx.col)]
                            && modify_index(pre_q, idx.col)
                                == modify_index(mid_q, idx.col))) by {
                    if modify_has(mid_q, idx.col) {
                        crate::table::lemma_modify_index_props(mid_q, idx.col);
                        let m2 = modify_index(mid_q, idx.col);
                        assert(pre_q[m2].0 == idx.col);
                        assert(modify_has(pre_q, idx.col));
                        crate::table::lemma_modify_index_props(pre_q, idx.col);
                        assert(forall|m: int| 0 <= m < m2 ==> pre_q[m].0 != idx.col);
                        crate::table::lemma_modify_index(pre_q, idx.col, m2);
                        assert(pre_q[m2] == mid_q[m2]);
                    } else {
                        if modify_has(pre_q, idx.col) {
                            crate::table::lemma_modify_index_props(pre_q, idx.col);
                            let m = modify_index(pre_q, idx.col);
                            if m < mid_q.len() {
                                assert(mid_q[m].0 == idx.col);
                            } else {
                                assert(mq_targets(mq0, rem + 1, idx.table,
                                    pre_q[m].0));
                                let k2 = choose|k2: int| rem + 1 <= k2 < mq0.len()
                                    && (#[trigger] mq0[k2]).0.table == idx.table
                                    && mq0[k2].0.col == pre_q[m].0;
                                assert(mq0[k2].0 == idx);
                            }
                        }
                    }
                }
                if modify_has(pre_q, idx.col) {
                    crate::table::lemma_modify_index_props(pre_q, idx.col);
                    let m = modify_index(pre_q, idx.col);
                    assert(post_q[m].0 == idx.col);
                    assert(forall|m2: int| 0 <= m2 < m ==> post_q[m2].0 == pre_q[m2].0);
                    crate::table::lemma_modify_index(post_q, idx.col, m);
                } else {
                    assert(post_q =~= pre_q.push((idx.col, (rec.1.0, rec.1.1))));
                    assert(post_q.last().0 == idx.col);
                    assert(forall|m2: int| 0 <= m2 < pre_q.len()
                        ==> post_q[m2].0 != idx.col);
                    crate::table::lemma_modify_index(post_q, idx.col, pre_q.len() as int);
                }
                assert(modify_has(post_q, idx.col));
                // persistence for records processed earlier
                assert forall|k2: int| rem + 1 <= k2 < mq0.len() implies {
                    let idx2 = (#[trigger] mq0[k2]).0;
                    let mq = self.tables@[idx2.table as int].queue.modify@;
                    let oldq = mid2.tables@[idx2.table as int].queue.modify@;
                    &&& modify_has(mq, idx2.col)
                    &&& (modify_has(oldq, idx2.col)
                        ==> mq[modify_index(mq, idx2.col)].1.0@
                                =~= oldq[modify_index(oldq, idx2.col)].1.0@ + mq0[k2].1.0@
                            && mq[modify_index(mq, idx2.col)].1.1@
                                =~= oldq[modify_index(oldq, idx2.col)].1.1@ + mq0[k2].1.1@)
                    &&& (!modify_has(oldq, idx2.col)
                        ==> mq[modify_index(mq, idx2.col)].1.0@ =~= mq0[k2].1.0@
                            && mq[modify_index(mq, idx2.col)].1.1@ =~= mq0[k2].1.1@)
                } by {
                    let idx2 = mq0[k2].0;
                    let preq2 = pre_tables[idx2.table as int].queue.modify@;
                    let postq2 = self.tables@[idx2.table as int].queue.modify@;
                    assert(modify_has(preq2, idx2.col));
                    if idx2.table == idx.table {
                        assert(idx2.col != idx.col) by {
                            assert(mq0[k2].0 != idx);
                        }
                        crate::table::lemma_modify_index_props(preq2, idx2.col);
                        let m = modify_index(preq2, idx2.col);
                        assert(postq2[m] == preq2[m]) by {
                            if modify_has(preq2, idx.col)
                                && m == modify_index(preq2, idx.col) {
                                crate::table::lemma_modify_index_props(preq2, idx.col);
                            }
                        }
                        assert(forall|m2: int| 0 <= m2 < m
                            ==> postq2[m2].0 == preq2[m2].0);
                        crate::table::lemma_modify_index(postq2, idx2.col, m);
                    } else {
                        assert(postq2 == preq2);
                    }
                }
                // appended records all stem from processed records
                assert forall|t: int, m: int| 0 <= t < tables0.len()
                    && mid2.tables@[t].queue.modify@.len() <= m
                        < self.tables@[t].queue.modify@.len() implies
                    mq_targets(mq0, rem, t as usize,
                        (#[trigger] self.tables@[t].queue.modify@[m]).0) by {
                    if t == ti {
                        if m < pre_q.len() {
                            assert(mq_targets(mq0, rem + 1, t as usize, pre_q[m].0));
                            let k2 = choose|k2: int| rem + 1 <= k2 < mq0.len()
                                && (#[trigger] mq0[k2]).0.table == t as usize
                                && mq0[k2].0.col == pre_q[m].0;
                            assert(rem <= k2);
                        } else {
                            assert(self.tables@[t].queue.modify@[m].0 == idx.col);
                            assert(mq0[pre_mq.len() - 1].0.table == t as usize
                                && mq0[pre_mq.len() - 1].0.col == idx.col);
                        }
                    } else {
                        assert(mq_targets(mq0, rem + 1, t as usize,
                            self.tables@[t].queue.modify@[m].0));
                        let k2 = choose|k2: int| rem + 1 <= k2 < mq0.len()
                            && (#[trigger] mq0[k2]).0.table == t as usize
                            && mq0[k2].0.col == self.tables@[t].queue.modify@[m].0;
                        assert(rem <= k2);
                    }
                }
                // entries for untargeted locations are untouched
                assert forall|t: int, m: int| 0 <= t < tables0.len()
                    && 0 <= m < mid2.tables@[t].queue.modify@.len()
                    && !mq_targets(mq0, rem, t as usize,
                        (#[trigger] mid2.tables@[t].queue.modify@[m]).0) implies
                    self.tables@[t].queue.modify@[m]
                        == mid2.tables@[t].queue.modify@[m] by {
                    assert(!mq_targets(mq0, rem + 1, t as usize,
                        mid2.tables@[t].queue.modify@[m].0)) by {
                        if mq_targets(mq0, rem + 1, t as usize,
                            mid2.tables@[t].queue.modify@[m].0) {
                            let k2 = choose|k2: int| rem + 1 <= k2 < mq0.len()
                                && (#[trigger] mq0[k2]).0.table == t as usize
                                && mq0[k2].0.col == mid2.tables@[t].queue.modify@[m].0;
                            assert(rem <= k2);
                        }
                    }
                    if t == ti {
                        assert(mid2.tables@[t].queue.modify@[m].0 != idx.col) by {
                            if mid2.tables@[t].queue.modify@[m].0 == idx.col {
                                assert(mq0[pre_mq.len() - 1].0.table == t as usize
                                    && mq0[pre_mq.len() - 1].0.col == idx.col);
                                assert(mq_targets(mq0, rem, t as usize, idx.col));
                            }
                        }
                        assert(pre_q[m] == mid_q[m]);
                        assert(post_q[m] == pre_q[m]) by {
                            if modify_has(pre_q, idx.col)
                                && m == modify_index(pre_q, idx.col) {
                                crate::table::lemma_modify_index_props(pre_q, idx.col);
                            }
                        }
                    }
                }
            }
        }
        proof {
            assert(dq0.take(dq0.len() as int)
                =~= dq0);
            assert(mq0.take(mq0.len() as int)
                =~= mq0);
            if old(self).staging_fresh() {
                lemma_staged_spawns_staged(sp0, tables0);
                assert(self.spawn@ == mid2.spawn@ && mid2.spawn@ == mid1.spawn@);
                assert(self.spawn@ =~= st0 + staged_spawns(sp0, tables0));
                assert(forall|t: int| 0 <= t < tables0.len()
                    ==> table_ids((#[trigger] self.tables@[t]).rows@)
                        == table_ids(tables0[t].rows@));
                assert forall|k: int| 0 <= k < self.spawn@.len() implies
                    staged(self.tables@, #[trigger] self.spawn@[k]) by {
                    let e: Entity = if k < st0.len() {
                        st0[k]
                    } else {
                        staged_spawns(sp0, tables0)[k - st0.len()]
                    };
                    assert(self.spawn@[k] == e);
                    assert(staged(tables0, e));
                    if some_table_matches(self.tables@, e) {
                        let t = choose|t: int| 0 <= t < self.tables@.len()
                            && table_matches(self.tables@[t], e);
                        assert(table_ids(self.tables@[t].rows@)
                            == table_ids(tables0[t].rows@));
                        assert(table_matches(tables0[t], e));
                    }
                }
                assert(self.staging_fresh());
            }
        }
    }

    /// The room a flush needs: every unit of pending work may add an
    /// entity to a table and at most one table to the registry.
    pub open spec fn flush_budget(&self) -> int {
        tables_load(self.tables@, 0) + self.tables@.len() + 2 * self.spawn@.len()
            + 2 * self.modify@.len()
    }

    /// The single structural synchronization point: drain the spawn
    /// staging into tables, creating tables for new archetypes and
    /// extending the query cache; materialize every pending modify,
    /// dropping those whose entity is also destroyed; re-home the
    /// migrated entities the same way as spawns; then apply every
    /// table's spawn and destroy queues. Afterwards every table is
    /// clean and the cache again matches exactly the superset tables.
    #[verifier::rlimit(80)]
    pub fn flush_queues(&mut self)
        requires
            old(self).wf(),
            old(self).staging_fresh(),
            old(self).flush_budget() <= usize::MAX,
        ensures
            final(self).wf(),
            final(self).all_clean(),
            final(self).staging_fresh(),
            final(self).tables@.len() >= old(self).tables@.len(),
            forall|t: int| 0 <= t < old(self).tables@.len()
                ==> table_ids((#[trigger] final(self).tables@[t]).rows@)
                    == table_ids(old(self).tables@[t].rows@),
            final(self).cache@.len() == old(self).cache@.len(),
            forall|q: int| 0 <= q < old(self).cache@.len()
                ==> (#[trigger] final(self).cache@[q]).ids@ == old(self).cache@[q].ids@
                    && final(self).cache@[q].fp == old(self).cache@[q].fp,
            forall|t: int| 0 <= t < old(self).tables@.len() ==> {
                let tb = #[trigger] old(self).tables@[t];
                let nodrops = migrate_nodrops(tb.rows@, tb.queue.modify@, tb.queue.destroy@);
                let extra = matching_migrants(migration_stream(*old(self)), tb);
                let bound = (tb.num_entities + tb.queue.spawn@.len() + extra.len()) as nat;
                &&& final(self).tables@[t].num_entities == bound - dcols(
                    tb.queue.destroy@ + nodrops, bound).len()
                &&& final(self).tables@[t].rows@.len() == tb.rows@.len()
                &&& forall|r: int| 0 <= r < tb.rows@.len()
                    ==> (#[trigger] final(self).tables@[t].rows@[r]).data@ =~= apply_destroys(
                        tb.rows@[r].data@ + spawned_column_c(extra, tb.rows@[r].id)
                            + spawned_column(tb.queue.spawn@, tb.rows@[r].id),
                        dcols(tb.queue.destroy@ + nodrops, bound))
            },
            forall|t: int| old(self).tables@.len() <= t < final(self).tables@.len() ==> {
                let tbl = #[trigger] final(self).tables@[t];
                tbl.num_entities == matching_spawns_tbl(old(self).spawn@.reverse(), tbl).len()
                    + matching_migrants(migration_stream(*old(self)), tbl).len()
            },
            forall|k: int| 0 <= k < old(self).spawn@.len()
                ==> some_table_matches(final(self).tables@, #[trigger] old(self).spawn@[k]),
            forall|k: int| 0 <= k < migration_stream(*old(self)).len()
                ==> exists|t: int| 0 <= t < final(self).tables@.len()
                    && table_ids(final(self).tables@[t].rows@).to_multiset()
                        == ids_of(#[trigger] migration_stream(*old(self))[k]).to_multiset(),
    {
        let ghost a0 = *old(self);
        proof {
            lemma_load_nonneg(self.tables@, 0);
        }
        while self.spawn.len() > 0
            invariant
                a0 == *old(self),
                a0.wf(),
                a0.staging_fresh(),
                self.wf(),
                self.flush_budget() <= a0.flush_budget(),
                a0.flush_budget() <= usize::MAX,
                self.modify@ == a0.modify@,
                self.tables@.len() >= a0.tables@.len(),
                self.spawn@.len() <= a0.spawn@.len(),
                self.spawn@ =~= a0.spawn@.take(self.spawn@.len() as int),
                forall|t: int| 0 <= t < a0.tables@.len()
                    ==> (#[trigger] self.tables@[t]) == a0.tables@[t],
                forall|t: int| a0.tables@.len() <= t < self.tables@.len()
                    ==> (#[trigger] self.tables@[t]).queue.modify@.len() == 0
                        && self.tables@[t].queue.destroy@.len() == 0
                        && !self.tables@[t].modify,
                forall|t: int| a0.tables@.len() <= t < self.tables@.len() ==> {
                    let tbl = #[trigger] self.tables@[t];
                    tbl.num_entities + tbl.queue.spawn@.len() == matching_spawns_tbl(
                        a0.spawn@.subrange(self.spawn@.len() as int,
                            a0.spawn@.len() as int).reverse(), tbl).len()
                },
                forall|k: int| self.spawn@.len() <= k < a0.spawn@.len()
                    ==> some_table_matches(self.tables@, #[trigger] a0.spawn@[k]),
                forall|t: int| 0 <= t < a0.tables@.len()
                    ==> table_ids((#[trigger] self.tables@[t]).rows@)
                        == table_ids(a0.tables@[t].rows@),
                self.cache@.len() == a0.cache@.len(),
                forall|q: int| 0 <= q < a0.cache@.len()
                    ==> (#[trigger] self.cache@[q]).ids@ == a0.cache@[q].ids@
                        && self.cache@[q].fp == a0.cache@[q].fp,
            decreases self.spawn@.len(),
        {
            let ghost pre = *self;
            let entity = self.spawn.pop().unwrap();
            proof {
                assert(entity == a0.spawn@[pre.spawn@.len() - 1]);
                assert(staged(a0.tables@, entity));
                assert(distinct_ids(entity.components@));
                lemma_load_nonneg(self.tables@, 0);
                assert(self.tables@.len() < usize::MAX);
                assert(self.spawn@ =~= a0.spawn@.take(self.spawn@.len() as int));
            }
            let ghost pre_popped = *self;
            self.place_entity(entity);
            proof {
                let mid = pre_popped;
                if some_table_matches(mid.tables@, entity) {
                    let t = choose|t: int| 0 <= t < mid.tables@.len()
                        && table_matches(mid.tables@[t], entity);
                    assert(t >= a0.tables@.len()) by {
                        if t < a0.tables@.len() {
                            assert(table_matches(a0.tables@[t], entity));
                        }
                    }
                    lemma_load_frame(mid.tables@, self.tables@, t, 0);
                    assert(table_load(self.tables@[t]) == table_load(mid.tables@[t]) + 1);
                    assert(tables_load(self.tables@, 0) == tables_load(mid.tables@, 0) + 1);
                    assert(self.flush_budget() == mid.flush_budget() + 1);
                    assert(table_matches(self.tables@[t], entity)) by {
                        assert(self.tables@[t].rows == mid.tables@[t].rows);
                    }
                    assert(some_table_matches(self.tables@, entity));
                } else {
                    assert(self.tables@ =~= mid.tables@.push(self.tables@.last()));
                    lemma_load_push(mid.tables@, self.tables@.last(), 0);
                    assert(table_load(self.tables@.last()) == 1);
                    assert(tables_load(self.tables@, 0) == tables_load(mid.tables@, 0) + 1);
                    assert(self.flush_budget() == mid.flush_budget() + 2);
                    assert(table_matches(self.tables@[self.tables@.len() - 1], entity));
                    assert(some_table_matches(self.tables@, entity));
                }
                assert(forall|t2: int| 0 <= t2 < a0.tables@.len()
                    ==> table_ids((#[trigger] self.tables@[t2]).rows@)
                        == table_ids(mid.tables@[t2].rows@));
                assert forall|k: int| self.spawn@.len() <= k < a0.spawn@.len() implies
                    some_table_matches(self.tables@, #[trigger] a0.spawn@[k]) by {
                    if k < pre.spawn@.len() - 1 {
                        let t2 = choose|t2: int| 0 <= t2 < mid.tables@.len()
                            && table_matches(mid.tables@[t2], a0.spawn@[k]);
                        assert(table_ids(self.tables@[t2].rows@)
                            == table_ids(mid.tables@[t2].rows@)) by {
                            if some_table_matches(mid.tables@, entity) {
                                let t = choose|t: int| 0 <= t < mid.tables@.len()
                                    && table_matches(mid.tables@[t], entity);
                                if t2 == t {
                                    assert(self.tables@[t2].rows == mid.tables@[t2].rows);
                                }
                            }
                        }
                        assert(table_matches(self.tables@[t2], a0.spawn@[k]));
                    }
                }
                let ghost prev_st = a0.spawn@.subrange(pre.spawn@.len() - 1,
                    a0.spawn@.len() as int).reverse();
                let ghost done_st = a0.spawn@.subrange(self.spawn@.len() as int,
                    a0.spawn@.len() as int).reverse();
                assert(pre.spawn@.len() - 1 == self.spawn@.len());
                assert(prev_st =~= done_st);
                let ghost before_st = a0.spawn@.subrange(pre.spawn@.len() as int,
                    a0.spawn@.len() as int).reverse();
                assert(done_st =~= before_st.push(entity));
                assert forall|t2: int| a0.tables@.len() <= t2 < self.tables@.len() implies {
                    let tbl = #[trigger] self.tables@[t2];
                    tbl.num_entities + tbl.queue.spawn@.len()
                        == matching_spawns_tbl(done_st, tbl).len()
                } by {
                    let tbl = self.tables@[t2];
                    lemma_matching_push(before_st, entity, tbl);
                    if some_table_matches(mid.tables@, entity) {
                        let t = choose|t: int| 0 <= t < mid.tables@.len()
                            && table_matches(mid.tables@[t], entity);
                        lemma_matching_same_ids(before_st, mid.tables@[t2],
                            self.tables@[t2]);
                        lemma_matching_push(before_st, entity, mid.tables@[t2]);
                        if t2 == t {
                            assert(table_matches(self.tables@[t2], entity)) by {
                                assert(self.tables@[t2].rows == mid.tables@[t2].rows);
                            }
                            assert(matching_spawns_tbl(done_st, tbl).len()
                                == matching_spawns_tbl(before_st, mid.tables@[t2]).len()
                                    + 1);
                        } else {
                            assert(self.tables@[t2] == mid.tables@[t2]);
                            assert(!table_matches(tbl, entity)) by {
                                if table_matches(tbl, entity) {
                                    assert(mid.tables@[t2].ids().to_multiset()
                                        == mid.tables@[t].ids().to_multiset());
                                }
                            }
                        }
                    } else {
                        lemma_matching_push(before_st, entity, tbl);
                        if t2 == self.tables@.len() - 1 {
                            assert(table_matches(tbl, entity));
                            assert(matching_spawns_tbl(before_st, tbl).len() == 0) by {
                                assert forall|k: int| 0 <= k < before_st.len() implies
                                    !table_matches(tbl, #[trigger] before_st[k]) by {
                                    if table_matches(tbl, before_st[k]) {
                                        let k0 = a0.spawn@.len() - 1 - k;
                                        assert(before_st[k] == a0.spawn@[k0]);
                                        assert(some_table_matches(mid.tables@,
                                            a0.spawn@[k0]));
                                        let th = choose|th: int| 0 <= th
                                            < mid.tables@.len()
                                            && table_matches(mid.tables@[th],
                                                a0.spawn@[k0]);
                                        assert(table_matches(mid.tables@[th], entity));
                                    }
                                }
                                lemma_matching_none(before_st, tbl);
                            }
                        } else {
                            assert(self.tables@[t2] == mid.tables@[t2]);
                            assert(!table_matches(tbl, entity)) by {
                                if table_matches(tbl, entity) {
                                    assert(some_table_matches(mid.tables@, entity));
                                }
                            }
                        }
                    }
                }
                assert(self.flush_budget() <= mid.flush_budget() + 2);
                assert(mid.flush_budget() == pre.flush_budget() - 2);
                assert(self.flush_budget() <= pre.flush_budget());
            }
        }
        let ghost a1 = *self;
        proof {
            assert(a0.spawn@.take(0) =~= Seq::<Entity>::empty());
            assert(a0.spawn@.subrange(0, a0.spawn@.len() as int) =~= a0.spawn@);
        }
        let mut t: usize = 0;
        while t < self.tables.len()
            invariant
                a0 == *old(self),
                a0.wf(),
                a1.modify@ == a0.modify@,
                self.wf(),
                t <= self.tables@.len(),
                self.flush_budget() <= a0.flush_budget(),
                a0.flush_budget() <= usize::MAX,
                self.spawn@.len() == 0,
                self.tables@.len() >= a0.tables@.len(),
                self.tables@.len() == a1.tables@.len(),
                forall|t2: int| 0 <= t2 < a0.tables@.len() && t <= t2
                    ==> (#[trigger] self.tables@[t2]) == a0.tables@[t2],
                forall|t2: int| 0 <= t2 < a0.tables@.len() && t2 < t ==> {
                    let tb = #[trigger] self.tables@[t2];
                    &&& tb.rows == a0.tables@[t2].rows
                    &&& tb.num_entities == a0.tables@[t2].num_entities
                    &&& tb.queue.spawn@ == a0.tables@[t2].queue.spawn@
                    &&& tb.queue.destroy@ =~= a0.tables@[t2].queue.destroy@
                        + migrate_nodrops(a0.tables@[t2].rows@,
                            a0.tables@[t2].queue.modify@, a0.tables@[t2].queue.destroy@)
                },
                forall|t2: int| a0.tables@.len() <= t2 < self.tables@.len()
                    ==> (#[trigger] self.tables@[t2]) == a1.tables@[t2],
                forall|t2: int| a0.tables@.len() <= t2 < a1.tables@.len()
                    ==> (#[trigger] a1.tables@[t2]).queue.modify@.len() == 0
                        && a1.tables@[t2].queue.destroy@.len() == 0
                        && !a1.tables@[t2].modify,
                forall|t2: int| a0.tables@.len() <= t2 < self.tables@.len() ==> {
                    let tbl = #[trigger] self.tables@[t2];
                    tbl.num_entities + tbl.queue.spawn@.len()
                        == matching_spawns_tbl(a0.spawn@.reverse(), tbl).len()
                },
                self.modify@.map_values(|e: Entity| e.components@)
                    + all_outs(a0.tables@, t as int)
                    =~= a0.modify@.map_values(|e: Entity| e.components@)
                        + all_outs(a0.tables@, 0),
                forall|k: int| 0 <= k < a0.spawn@.len()
                    ==> some_table_matches(self.tables@, #[trigger] a0.spawn@[k]),
                forall|t2: int| 0 <= t2 < a0.tables@.len()
                    ==> table_ids((#[trigger] self.tables@[t2]).rows@)
                        == table_ids(a0.tables@[t2].rows@),
                self.cache@.len() == a0.cache@.len(),
                forall|q: int| 0 <= q < a0.cache@.len()
                    ==> (#[trigger] self.cache@[q]).ids@ == a0.cache@[q].ids@
                        && self.cache@[q].fp == a0.cache@[q].fp,
                forall|t2: int| 0 <= t2 < t
                    ==> !(#[trigger] self.tables@[t2]).modify
                        && self.tables@[t2].queue.modify@.len() == 0,
            decreases self.tables@.len() - t,
        {
            let dirty = self.tables[t].needs_modify();
            proof {
                if t < a0.tables@.len() {
                    assert(self.tables@[t as int] == a0.tables@[t as int]);
                } else {
                    assert(!dirty);
                }
                assert(all_outs(a0.tables@, t as int) == if (t as int) < a0.tables@.len() {
                    migrate_outs(a0.tables@[t as int].rows@,
                        a0.tables@[t as int].queue.modify@,
                        a0.tables@[t as int].queue.destroy@)
                        + all_outs(a0.tables@, t + 1)
                } else {
                    all_outs(a0.tables@, t + 1)
                });
            }
            if dirty {
                let ghost pre = *self;
                let table = &mut self.tables[t];
                table.process_modify(&mut self.modify);
                proof {
                    let ti = t as int;
                    assert(ti < a0.tables@.len());
                    assert(forall|t2: int| 0 <= t2 < self.tables@.len() && t2 != ti
                        ==> #[trigger] self.tables@[t2] == pre.tables@[t2]);
                    assert(forall|t2: int| a0.tables@.len() <= t2 < self.tables@.len()
                        ==> (#[trigger] self.tables@[t2]) == a1.tables@[t2]);
                    assert(pre.tables@[ti] == a0.tables@[ti]);
                    let outs = migrate_outs(pre.tables@[ti].rows@,
                        pre.tables@[ti].queue.modify@, pre.tables@[ti].queue.destroy@);
                    crate::table::lemma_migrate_outs_len(pre.tables@[ti].rows@,
                        pre.tables@[ti].queue.modify@, pre.tables@[ti].queue.destroy@);
                    crate::table::lemma_migrate_outs_distinct(pre.tables@[ti].rows@,
                        pre.tables@[ti].queue.modify@, pre.tables@[ti].queue.destroy@);
                    lemma_load_frame(pre.tables@, self.tables@, ti, 0);
                    assert(table_load(self.tables@[ti])
                        == table_load(pre.tables@[ti])
                            - 2 * pre.tables@[ti].queue.modify@.len());
                    assert(self.modify@.len() == pre.modify@.len() + outs.len());
                    assert(self.flush_budget() <= pre.flush_budget());
                    assert forall|k2: int| 0 <= k2 < self.modify@.len() implies
                        distinct_ids((#[trigger] self.modify@[k2]).components@) by {
                        if k2 >= pre.modify@.len() {
                            let k = k2 - pre.modify@.len();
                            assert(self.modify@[pre.modify@.len() + k].components@ =~= outs[k]);
                            assert(distinct_ids(outs[k]));
                        }
                    }
                    assert(forall|t2: int| 0 <= t2 < a0.tables@.len()
                        ==> table_ids((#[trigger] self.tables@[t2]).rows@)
                            == table_ids(pre.tables@[t2].rows@));
                    assert forall|q: int| 0 <= q < self.cache@.len() implies
                        self.query_entry_ok(#[trigger] self.cache@[q]) by {
                        assert(pre.query_entry_ok(pre.cache@[q]));
                        assert forall|t3: TableIndex| t3 < self.tables@.len() implies
                            (#[trigger] iset_view(self.cache@[q].tables).contains(t3)
                                <==> contains_all(self.tables@[t3 as int].ids(),
                                    self.cache@[q].ids@)) by {
                            assert(table_ids(self.tables@[t3 as int].rows@)
                                =~= table_ids(pre.tables@[t3 as int].rows@));
                        }
                    }
                    assert forall|t1: int, t2: int| 0 <= t1 < t2 < self.tables@.len() implies
                        self.tables@[t1].ids().to_multiset()
                            != self.tables@[t2].ids().to_multiset() by {
                        assert(table_ids(self.tables@[t1].rows@)
                            =~= table_ids(pre.tables@[t1].rows@));
                        assert(table_ids(self.tables@[t2].rows@)
                            =~= table_ids(pre.tables@[t2].rows@));
                    }
                    assert forall|k2: int| pre.modify@.len() <= k2 < self.modify@.len()
                        implies (#[trigger] self.modify@[k2]).components@
                            =~= outs[k2 - pre.modify@.len()] by {
                        let k = k2 - pre.modify@.len();
                        assert(self.modify@[pre.modify@.len() + k].components@ =~= outs[k]);
                    }
                    assert(self.modify@.len() == pre.modify@.len() + outs.len());
                    assert(forall|k2: int| 0 <= k2 < pre.modify@.len()
                        ==> #[trigger] self.modify@[k2] == pre.modify@[k2]);
                    assert(self.modify@.map_values(|e: Entity| e.components@)
                        =~= pre.modify@.map_values(|e: Entity| e.components@) + outs);
                    assert((pre.modify@.map_values(|e: Entity| e.components@) + outs)
                        + all_outs(a0.tables@, t + 1)
                        =~= pre.modify@.map_values(|e: Entity| e.components@)
                            + (outs + all_outs(a0.tables@, t + 1)));
                    assert(outs + all_outs(a0.tables@, t + 1)
                        =~= all_outs(a0.tables@, t as int));
                    assert forall|k: int| 0 <= k < a0.spawn@.len() implies
                        some_table_matches(self.tables@, #[trigger] a0.spawn@[k]) by {
                        let t2 = choose|t2: int| 0 <= t2 < pre.tables@.len()
                            && table_matches(pre.tables@[t2], a0.spawn@[k]);
                        assert(table_ids(self.tables@[t2].rows@)
                            =~= table_ids(pre.tables@[t2].rows@));
                        assert(table_matches(self.tables@[t2], a0.spawn@[k]));
                    }
                }
            } else {
                proof {
                    let ti = t as int;
                    if ti < a0.tables@.len() {
                        assert(self.tables@[ti].queue.modify@.len() == 0);
                        assert(a0.tables@[ti].queue.modify@.len() == 0);
                        assert(migrate_outs(a0.tables@[ti].rows@,
                            a0.tables@[ti].queue.modify@, a0.tables@[ti].queue.destroy@)
                            =~= Seq::<Seq<Anon>>::empty());
                        assert(migrate_nodrops(a0.tables@[ti].rows@,
                            a0.tables@[ti].queue.modify@, a0.tables@[ti].queue.destroy@)
                            =~= Seq::<DestroyType>::empty());
                        assert(self.tables@[ti].queue.destroy@
                            =~= a0.tables@[ti].queue.destroy@
                                + migrate_nodrops(a0.tables@[ti].rows@,
                                    a0.tables@[ti].queue.modify@,
                                    a0.tables@[ti].queue.destroy@));
                        assert(all_outs(a0.tables@, ti) =~= all_outs(a0.tables@, t + 1));
                    } else {
                        assert(all_outs(a0.tables@, ti) =~= all_outs(a0.tables@, t + 1));
                    }
                }
            }
            t = t + 1;
        }
        let ghost mig0 = self.modify@;
        proof {
            assert(self.tables@.len() >= a0.tables@.len());
            assert(all_outs(a0.tables@, self.tables@.len() as int)
                =~= Seq::<Seq<Anon>>::empty());
            assert(mig0.map_values(|e: Entity| e.components@)
                =~= a0.modify@.map_values(|e: Entity| e.components@)
                    + all_outs(a0.tables@, 0));
        }
        while self.modify.len() > 0
            invariant
                a0 == *old(self),
                a0.wf(),
                self.wf(),
                self.flush_budget() <= a0.flush_budget(),
                a0.flush_budget() <= usize::MAX,
                self.spawn@.len() == 0,
                self.tables@.len() >= a0.tables@.len(),
                mig0.map_values(|e: Entity| e.components@)
                    =~= a0.modify@.map_values(|e: Entity| e.components@)
                        + all_outs(a0.tables@, 0),
                self.modify@.len() <= mig0.len(),
                self.modify@ =~= mig0.take(self.modify@.len() as int),
                forall|t2: int| 0 <= t2 < a0.tables@.len() ==> {
                    let tb = #[trigger] self.tables@[t2];
                    &&& tb.rows == a0.tables@[t2].rows
                    &&& tb.num_entities == a0.tables@[t2].num_entities
                    &&& tb.queue.destroy@ =~= a0.tables@[t2].queue.destroy@
                        + migrate_nodrops(a0.tables@[t2].rows@,
                            a0.tables@[t2].queue.modify@, a0.tables@[t2].queue.destroy@)
                    &&& tb.queue.spawn@ =~= a0.tables@[t2].queue.spawn@
                        + matching_spawns_tbl(mig0.subrange(self.modify@.len() as int,
                            mig0.len() as int).reverse(), a0.tables@[t2])
                },
                forall|k: int| 0 <= k < a0.spawn@.len()
                    ==> some_table_matches(self.tables@, #[trigger] a0.spawn@[k]),
                forall|k: int| self.modify@.len() <= k < mig0.len()
                    ==> some_table_matches(self.tables@, #[trigger] mig0[k]),
                forall|t2: int| a0.tables@.len() <= t2 < self.tables@.len() ==> {
                    let tbl = #[trigger] self.tables@[t2];
                    &&& tbl.queue.destroy@.len() == 0
                    &&& tbl.num_entities + tbl.queue.spawn@.len()
                        == matching_spawns_tbl(a0.spawn@.reverse(), tbl).len()
                            + matching_spawns_tbl(mig0.subrange(self.modify@.len() as int,
                                mig0.len() as int).reverse(), tbl).len()
                },
                forall|t2: int| 0 <= t2 < a0.tables@.len()
                    ==> table_ids((#[trigger] self.tables@[t2]).rows@)
                        == table_ids(a0.tables@[t2].rows@),
                self.cache@.len() == a0.cache@.len(),
                forall|q: int| 0 <= q < a0.cache@.len()
                    ==> (#[trigger] self.cache@[q]).ids@ == a0.cache@[q].ids@
                        && self.cache@[q].fp == a0.cache@[q].fp,
                forall|t2: int| 0 <= t2 < self.tables@.len()
                    ==> !(#[trigger] self.tables@[t2]).modify
                        && self.tables@[t2].queue.modify@.len() == 0,
            decreases self.modify@.len(),
        {
            let ghost pre = *self;
            let entity = self.modify.pop().unwrap();
            proof {
                assert(entity == mig0[pre.modify@.len() - 1]);
                assert(distinct_ids(entity.components@));
                lemma_load_nonneg(self.tables@, 0);
                assert(self.tables@.len() < usize::MAX);
                assert(self.modify@ =~= mig0.take(self.modify@.len() as int));
            }
            let ghost pre_popped = *self;
            self.place_entity(entity);
            proof {
                let mid = pre_popped;
                let rem = self.modify@.len() as int;
                let prev_done = mig0.subrange(rem + 1, mig0.len() as int).reverse();
                let done = mig0.subrange(rem, mig0.len() as int).reverse();
                assert(done =~= prev_done.push(entity));
                if some_table_matches(mid.tables@, entity) {
                    let t = choose|t: int| 0 <= t < mid.tables@.len()
                        && table_matches(mid.tables@[t], entity);
                    lemma_load_frame(mid.tables@, self.tables@, t, 0);
                    assert(table_load(self.tables@[t]) == table_load(mid.tables@[t]) + 1);
                    assert(tables_load(self.tables@, 0) == tables_load(mid.tables@, 0) + 1);
                    assert(self.flush_budget() == mid.flush_budget() + 1);
                    assert(table_matches(self.tables@[t], entity)) by {
                        assert(self.tables@[t].rows == mid.tables@[t].rows);
                    }
                    assert(some_table_matches(self.tables@, entity));
                    assert forall|t2: int| 0 <= t2 < a0.tables@.len() implies {
                        let tb = #[trigger] self.tables@[t2];
                        &&& tb.rows == a0.tables@[t2].rows
                        &&& tb.num_entities == a0.tables@[t2].num_entities
                        &&& tb.queue.destroy@ =~= a0.tables@[t2].queue.destroy@
                            + migrate_nodrops(a0.tables@[t2].rows@,
                                a0.tables@[t2].queue.modify@, a0.tables@[t2].queue.destroy@)
                        &&& tb.queue.spawn@ =~= a0.tables@[t2].queue.spawn@
                            + matching_spawns_tbl(done, a0.tables@[t2])
                    } by {
                        if t2 == t {
                            assert(table_matches(a0.tables@[t2], entity)) by {
                                assert(table_ids(mid.tables@[t2].rows@)
                                    == table_ids(a0.tables@[t2].rows@));
                            }
                            lemma_matching_push(prev_done, entity, a0.tables@[t2]);
                            assert(matching_spawns_tbl(done, a0.tables@[t2])
                                =~= matching_spawns_tbl(prev_done, a0.tables@[t2]).push(
                                    entity));
                            assert(self.tables@[t2].queue.spawn@
                                =~= mid.tables@[t2].queue.spawn@.push(entity));
                        } else {
                            assert(self.tables@[t2] == mid.tables@[t2]);
                            assert(!table_matches(a0.tables@[t2], entity)) by {
                                if table_matches(a0.tables@[t2], entity) {
                                    assert(table_matches(mid.tables@[t2], entity)) by {
                                        assert(table_ids(mid.tables@[t2].rows@)
                                            == table_ids(a0.tables@[t2].rows@));
                                    }
                                    assert(mid.tables@[t2].ids().to_multiset()
                                        == mid.tables@[t as int].ids().to_multiset());
                                    if t2 < t {
                                        assert(false);
                                    } else {
                                        assert(false);
                                    }
                                }
                            }
                            lemma_matching_push(prev_done, entity, a0.tables@[t2]);
                            assert(matching_spawns_tbl(done, a0.tables@[t2])
                                =~= matching_spawns_tbl(prev_done, a0.tables@[t2]));
                        }
                    }
                } else {
                    assert(self.tables@ =~= mid.tables@.push(self.tables@.last()));
                    lemma_load_push(mid.tables@, self.tables@.last(), 0);
                    assert(table_load(self.tables@.last()) == 1);
                    assert(tables_load(self.tables@, 0) == tables_load(mid.tables@, 0) + 1);
                    assert(self.flush_budget() == mid.flush_budget() + 2);
                    assert(table_matches(self.tables@[self.tables@.len() - 1], entity));
                    assert(some_table_matches(self.tables@, entity));
                    assert forall|t2: int| 0 <= t2 < a0.tables@.len() implies {
                        let tb = #[trigger] self.tables@[t2];
                        &&& tb.rows == a0.tables@[t2].rows
                        &&& tb.num_entities == a0.tables@[t2].num_entities
                        &&& tb.queue.destroy@ =~= a0.tables@[t2].queue.destroy@
                            + migrate_nodrops(a0.tables@[t2].rows@,
                                a0.tables@[t2].queue.modify@, a0.tables@[t2].queue.destroy@)
                        &&& tb.queue.spawn@ =~= a0.tables@[t2].queue.spawn@
                            + matching_spawns_tbl(done, a0.tables@[t2])
                    } by {
                        assert(self.tables@[t2] == mid.tables@[t2]);
                        assert(!table_matches(a0.tables@[t2], entity)) by {
                            if table_matches(a0.tables@[t2], entity) {
                                assert(table_matches(mid.tables@[t2], entity)) by {
                                    assert(table_ids(mid.tables@[t2].rows@)
                                        == table_ids(a0.tables@[t2].rows@));
                                }
                            }
                        }
                        lemma_matching_push(prev_done, entity, a0.tables@[t2]);
                        assert(matching_spawns_tbl(done, a0.tables@[t2])
                            =~= matching_spawns_tbl(prev_done, a0.tables@[t2]));
                    }
                }
                assert forall|t2: int| 0 <= t2 < mid.tables@.len() implies
                    table_ids((#[trigger] self.tables@[t2]).rows@)
                        == table_ids(mid.tables@[t2].rows@) by {
                    if some_table_matches(mid.tables@, entity) {
                        let t = choose|t: int| 0 <= t < mid.tables@.len()
                            && table_matches(mid.tables@[t], entity);
                        if t2 == t {
                            assert(self.tables@[t2].rows == mid.tables@[t2].rows);
                        } else {
                            assert(self.tables@[t2] == mid.tables@[t2]);
                        }
                    } else {
                        assert(self.tables@[t2] == mid.tables@[t2]);
                    }
                }
                assert forall|k: int| 0 <= k < a0.spawn@.len() implies
                    some_table_matches(self.tables@, #[trigger] a0.spawn@[k]) by {
                    lemma_matches_persist(mid.tables@, self.tables@, a0.spawn@[k]);
                }
                assert forall|k: int| self.modify@.len() <= k < mig0.len() implies
                    some_table_matches(self.tables@, #[trigger] mig0[k]) by {
                    if k < pre.modify@.len() - 1 {
                        lemma_matches_persist(mid.tables@, self.tables@, mig0[k]);
                    }
                }
                assert(prev_done =~= mig0.subrange(pre.modify@.len() - 1,
                    mig0.len() as int).reverse().drop_last());
                assert forall|t2: int| a0.tables@.len() <= t2 < self.tables@.len() implies {
                    let tbl = #[trigger] self.tables@[t2];
                    &&& tbl.queue.destroy@.len() == 0
                    &&& tbl.num_entities + tbl.queue.spawn@.len()
                        == matching_spawns_tbl(a0.spawn@.reverse(), tbl).len()
                            + matching_spawns_tbl(done, tbl).len()
                } by {
                    let tbl = self.tables@[t2];
                    lemma_matching_push(prev_done, entity, tbl);
                    if some_table_matches(mid.tables@, entity) {
                        let t = choose|t: int| 0 <= t < mid.tables@.len()
                            && table_matches(mid.tables@[t], entity);
                        lemma_matching_same_ids(prev_done, mid.tables@[t2],
                            self.tables@[t2]);
                        lemma_matching_same_ids(a0.spawn@.reverse(), mid.tables@[t2],
                            self.tables@[t2]);
                        lemma_matching_push(prev_done, entity, mid.tables@[t2]);
                        if t2 == t {
                            assert(table_matches(self.tables@[t2], entity)) by {
                                assert(self.tables@[t2].rows == mid.tables@[t2].rows);
                            }
                            assert(matching_spawns_tbl(done, tbl).len()
                                == matching_spawns_tbl(prev_done, mid.tables@[t2]).len()
                                    + 1);
                        } else {
                            assert(self.tables@[t2] == mid.tables@[t2]);
                            assert(!table_matches(tbl, entity)) by {
                                if table_matches(tbl, entity) {
                                    assert(mid.tables@[t2].ids().to_multiset()
                                        == mid.tables@[t].ids().to_multiset());
                                }
                            }
                        }
                    } else {
                        if t2 == self.tables@.len() - 1 {
                            assert(table_matches(tbl, entity));
                            assert(matching_spawns_tbl(prev_done, tbl).len() == 0) by {
                                assert forall|k: int| 0 <= k < prev_done.len() implies
                                    !table_matches(tbl, #[trigger] prev_done[k]) by {
                                    if table_matches(tbl, prev_done[k]) {
                                        let k0 = mig0.len() - 1 - k;
                                        assert(prev_done[k] == mig0[k0]);
                                        assert(some_table_matches(mid.tables@, mig0[k0]));
                                        let th = choose|th: int| 0 <= th
                                            < mid.tables@.len()
                                            && table_matches(mid.tables@[th], mig0[k0]);
                                        assert(table_matches(mid.tables@[th], entity));
                                    }
                                }
                                lemma_matching_none(prev_done, tbl);
                            }
                            assert(matching_spawns_tbl(a0.spawn@.reverse(), tbl).len()
                                == 0) by {
                                assert forall|k: int| 0 <= k < a0.spawn@.reverse().len()
                                    implies !table_matches(tbl,
                                        #[trigger] a0.spawn@.reverse()[k]) by {
                                    if table_matches(tbl, a0.spawn@.reverse()[k]) {
                                        let k0 = a0.spawn@.len() - 1 - k;
                                        assert(a0.spawn@.reverse()[k] == a0.spawn@[k0]);
                                        assert(some_table_matches(mid.tables@,
                                            a0.spawn@[k0]));
                                        let th = choose|th: int| 0 <= th
                                            < mid.tables@.len()
                                            && table_matches(mid.tables@[th],
                                                a0.spawn@[k0]);
                                        assert(table_matches(mid.tables@[th], entity));
                                    }
                                }
                                lemma_matching_none(a0.spawn@.reverse(), tbl);
                            }
                        } else {
                            assert(self.tables@[t2] == mid.tables@[t2]);
                            assert(!table_matches(tbl, entity)) by {
                                if table_matches(tbl, entity) {
                                    assert(some_table_matches(mid.tables@, entity));
                                }
                            }
                        }
                    }
                }
                assert(self.flush_budget() <= mid.flush_budget() + 2);
                assert(mid.flush_budget() == pre.flush_budget() - 2);
                assert(self.flush_budget() <= pre.flush_budget());
            }
        }
        proof {
            assert(mig0.subrange(0, mig0.len() as int) =~= mig0);
            assert(forall|t2: int| 0 <= t2 < a0.tables@.len()
                ==> (#[trigger] self.tables@[t2]).queue.spawn@
                    =~= a0.tables@[t2].queue.spawn@ + matching_spawns_tbl(mig0.reverse(),
                        a0.tables@[t2]));
            assert(forall|t2: int| a0.tables@.len() <= t2 < self.tables@.len() ==> {
                let tbl = #[trigger] self.tables@[t2];
                &&& tbl.queue.destroy@.len() == 0
                &&& tbl.num_entities + tbl.queue.spawn@.len()
                    == matching_spawns_tbl(a0.spawn@.reverse(), tbl).len()
                        + matching_spawns_tbl(mig0.reverse(), tbl).len()
            });
        }
        let mut t: usize = 0;
        while t < self.tables.len()
            invariant
                a0 == *old(self),
                a0.wf(),
                self.wf(),
                t <= self.tables@.len(),
                self.flush_budget() <= a0.flush_budget(),
                a0.flush_budget() <= usize::MAX,
                self.spawn@.len() == 0,
                self.modify@.len() == 0,
                self.tables@.len() >= a0.tables@.len(),
                mig0.map_values(|e: Entity| e.components@)
                    =~= a0.modify@.map_values(|e: Entity| e.components@)
                        + all_outs(a0.tables@, 0),
                forall|t2: int| 0 <= t2 < a0.tables@.len() && t <= t2 ==> {
                    let tb = #[trigger] self.tables@[t2];
                    &&& tb.rows == a0.tables@[t2].rows
                    &&& tb.num_entities == a0.tables@[t2].num_entities
                    &&& tb.queue.destroy@ =~= a0.tables@[t2].queue.destroy@
                        + migrate_nodrops(a0.tables@[t2].rows@,
                            a0.tables@[t2].queue.modify@, a0.tables@[t2].queue.destroy@)
                    &&& tb.queue.spawn@ =~= a0.tables@[t2].queue.spawn@
                        + matching_spawns_tbl(mig0.reverse(), a0.tables@[t2])
                },
                forall|t2: int| 0 <= t2 < a0.tables@.len() && t2 < t ==> {
                    let tb = #[trigger] a0.tables@[t2];
                    let nodrops = migrate_nodrops(tb.rows@, tb.queue.modify@,
                        tb.queue.destroy@);
                    let extra = matching_migrants(migration_stream(a0), tb);
                    let bound = (tb.num_entities + tb.queue.spawn@.len() + extra.len())
                        as nat;
                    &&& self.tables@[t2].num_entities == bound - dcols(
                        tb.queue.destroy@ + nodrops, bound).len()
                    &&& self.tables@[t2].rows@.len() == tb.rows@.len()
                    &&& forall|r: int| 0 <= r < tb.rows@.len()
                        ==> (#[trigger] self.tables@[t2].rows@[r]).data@ =~= apply_destroys(
                            tb.rows@[r].data@ + spawned_column_c(extra, tb.rows@[r].id)
                                + spawned_column(tb.queue.spawn@, tb.rows@[r].id),
                            dcols(tb.queue.destroy@ + nodrops, bound))
                },
                forall|k: int| 0 <= k < a0.spawn@.len()
                    ==> some_table_matches(self.tables@, #[trigger] a0.spawn@[k]),
                forall|k: int| 0 <= k < mig0.len()
                    ==> some_table_matches(self.tables@, #[trigger] mig0[k]),
                forall|t2: int| a0.tables@.len() <= t2 < self.tables@.len() && t <= t2 ==> {
                    let tbl = #[trigger] self.tables@[t2];
                    &&& tbl.queue.destroy@.len() == 0
                    &&& tbl.num_entities + tbl.queue.spawn@.len()
                        == matching_spawns_tbl(a0.spawn@.reverse(), tbl).len()
                            + matching_spawns_tbl(mig0.reverse(), tbl).len()
                },
                forall|t2: int| a0.tables@.len() <= t2 < self.tables@.len() && t2 < t ==> {
                    let tbl = #[trigger] self.tables@[t2];
                    tbl.num_entities == matching_spawns_tbl(a0.spawn@.reverse(), tbl).len()
                        + matching_migrants(migration_stream(a0), tbl).len()
                },
                forall|t2: int| 0 <= t2 < a0.tables@.len()
                    ==> table_ids((#[trigger] self.tables@[t2]).rows@)
                        == table_ids(a0.tables@[t2].rows@),
                self.cache@.len() == a0.cache@.len(),
                forall|q: int| 0 <= q < a0.cache@.len()
                    ==> (#[trigger] self.cache@[q]).ids@ == a0.cache@[q].ids@
                        && self.cache@[q].fp == a0.cache@[q].fp,
                forall|t2: int| 0 <= t2 < self.tables@.len()
                    ==> !(#[trigger] self.tables@[t2]).modify
                        && self.tables@[t2].queue.modify@.len() == 0,
                forall|t2: int| 0 <= t2 < t
                    ==> !(#[trigger] self.tables@[t2]).update
                        && self.tables@[t2].queue.spawn@.len() == 0
                        && self.tables@[t2].queue.destroy@.len() == 0,
            decreases self.tables@.len() - t,
        {
            let dirty = self.tables[t].needs_update();
            if dirty {
                let ghost pre = *self;
                proof {
                    assert(table_load(pre.tables@[t as int]) >= 0);
                    assert forall|j: int| 0 <= j < pre.tables@.len() implies
                        table_load(#[trigger] pre.tables@[j]) >= 0 by {}
                    lemma_load_at(pre.tables@, t as int, 0);
                    assert(pre.tables@[t as int].num_entities
                        + pre.tables@[t as int].queue.spawn@.len() <= usize::MAX);
                }
                let table = &mut self.tables[t];
                table.process_queues();
                proof {
                    let ti = t as int;
                    assert(table_ids(self.tables@[ti].rows@)
                        =~= table_ids(pre.tables@[ti].rows@));
                    lemma_load_frame(pre.tables@, self.tables@, ti, 0);
                    assert(table_load(self.tables@[ti]) <= table_load(pre.tables@[ti]));
                    assert(self.flush_budget() <= pre.flush_budget());
                    assert(forall|t2: int| 0 <= t2 < a0.tables@.len()
                        ==> table_ids((#[trigger] self.tables@[t2]).rows@)
                            == table_ids(pre.tables@[t2].rows@));
                    assert forall|q: int| 0 <= q < self.cache@.len() implies
                        self.query_entry_ok(#[trigger] self.cache@[q]) by {
                        assert(pre.query_entry_ok(pre.cache@[q]));
                        assert forall|t3: TableIndex| t3 < self.tables@.len() implies
                            (#[trigger] iset_view(self.cache@[q].tables).contains(t3)
                                <==> contains_all(self.tables@[t3 as int].ids(),
                                    self.cache@[q].ids@)) by {
                            assert(table_ids(self.tables@[t3 as int].rows@)
                                =~= table_ids(pre.tables@[t3 as int].rows@));
                        }
                    }
                    assert forall|t1: int, t2: int| 0 <= t1 < t2 < self.tables@.len() implies
                        self.tables@[t1].ids().to_multiset()
                            != self.tables@[t2].ids().to_multiset() by {
                        assert(table_ids(self.tables@[t1].rows@)
                            =~= table_ids(pre.tables@[t1].rows@));
                        assert(table_ids(self.tables@[t2].rows@)
                            =~= table_ids(pre.tables@[t2].rows@));
                    }
                    assert(forall|t2: int| 0 <= t2 < self.tables@.len() && t2 != ti
                        ==> #[trigger] self.tables@[t2] == pre.tables@[t2]);
                    if ti < a0.tables@.len() {
                        lemma_flush_compose(a0, pre.tables@[ti], self.tables@[ti],
                            a0.tables@[ti], mig0);
                    } else {
                        let tbl0 = pre.tables@[ti];
                        let tbl1 = self.tables@[ti];
                        assert(table_ids(tbl1.rows@) =~= table_ids(tbl0.rows@));
                        lemma_matching_same_ids(a0.spawn@.reverse(), tbl0, tbl1);
                        lemma_matching_same_ids(mig0.reverse(), tbl0, tbl1);
                        lemma_dcols_no_cols(tbl0.queue.destroy@,
                            (tbl0.num_entities + tbl0.queue.spawn@.len()) as nat);
                        assert(tbl1.num_entities
                            == tbl0.num_entities + tbl0.queue.spawn@.len());
                        lemma_migrant_count(a0, mig0, tbl1);
                        assert(tbl1.num_entities
                            == matching_spawns_tbl(a0.spawn@.reverse(), tbl1).len()
                                + matching_migrants(migration_stream(a0), tbl1).len());
                    }
                    assert forall|k: int| 0 <= k < a0.spawn@.len() implies
                        some_table_matches(self.tables@, #[trigger] a0.spawn@[k]) by {
                        lemma_matches_persist(pre.tables@, self.tables@, a0.spawn@[k]);
                    }
                    assert forall|k: int| 0 <= k < mig0.len() implies
                        some_table_matches(self.tables@, #[trigger] mig0[k]) by {
                        lemma_matches_persist(pre.tables@, self.tables@, mig0[k]);
                    }
                }
            } else {
                proof {
                    let ti = t as int;
                    if ti < a0.tables@.len() {
                        assert(self.tables@[ti].queue.spawn@.len() == 0);
                        assert(self.tables@[ti].queue.destroy@.len() == 0);
                        lemma_flush_compose_clean(a0, self.tables@[ti], a0.tables@[ti],
                            mig0);
                    } else {
                        let tbl = self.tables@[ti];
                        assert(tbl.queue.spawn@.len() == 0);
                        lemma_migrant_count(a0, mig0, tbl);
                        assert(tbl.num_entities
                            == matching_spawns_tbl(a0.spawn@.reverse(), tbl).len()
                                + matching_migrants(migration_stream(a0), tbl).len());
                    }
                }
            }
            t = t + 1;
        }
        proof {
            assert forall|k: int| 0 <= k < migration_stream(a0).len() implies
                exists|t2: int| 0 <= t2 < self.tables@.len()
                    && table_ids(self.tables@[t2].rows@).to_multiset()
                        == ids_of(#[trigger] migration_stream(a0)[k]).to_multiset() by {
                let stream = migration_stream(a0);
                assert(stream =~= mig0.map_values(|e: Entity| e.components@).reverse());
                let j = mig0.len() - 1 - k;
                assert(stream[k] == mig0[j].components@);
                assert(some_table_matches(self.tables@, mig0[j]));
                let t2 = choose|t2: int| 0 <= t2 < self.tables@.len()
                    && table_matches(self.tables@[t2], mig0[j]);
                assert(table_ids(self.tables@[t2].rows@).to_multiset()
                    == ids_of(stream[k]).to_multiset());
            }
        }
    }

    /// Whether every staged entity still matches no table: what a
    /// flush relies on, checkable by an embedder before flushing.
    pub fn staging_is_fresh(&self) -> (r: bool)
        requires
            self.wf(),
        ensures
            r == self.staging_fresh(),
    {
        let mut k: usize = 0;
        while k < self.spawn.len()
            invariant
                self.wf(),
                k <= self.spawn@.len(),
                forall|m: int| 0 <= m < k ==> staged(self.tables@, #[trigger] self.spawn@[m]),
            decreases self.spawn@.len() - k,
        {
            let found = self.find_table(&self.spawn[k]);
            if found.is_some() {
                proof {
                    let t = choose|t: int| 0 <= t < self.tables@.len()
                        && table_matches(self.tables@[t], self.spawn@[k as int]);
                    assert(!staged(self.tables@, self.spawn@[k as int]));
                }
                return false;
            }
            k = k + 1;
        }
        true
    }

    /// Whether the pending work fits the flush's room: what a flush
    /// relies on, checkable by an embedder before flushing.
    pub fn flush_fits(&self) -> (r: bool)
        ensures
            r == (self.flush_budget() <= usize::MAX),
    {
        let mut acc: usize = 0;
        let mut t: usize = 0;
        while t < self.tables.len()
            invariant
                t <= self.tables@.len(),
                acc + tables_load(self.tables@, t as int) + self.tables@.len() - t
                    == tables_load(self.tables@, 0) + self.tables@.len(),
            decreases self.tables@.len() - t,
        {
            proof {
                lemma_load_nonneg(self.tables@, t + 1);
                assert(tables_load(self.tables@, t as int)
                    == table_load(self.tables@[t as int])
                        + tables_load(self.tables@, t + 1));
            }
            let tb = &self.tables[t];
            let n1 = tb.num_entities;
            let n2 = tb.queue.spawn.len();
            let n3 = tb.queue.modify.len();
            if n1 > usize::MAX - acc {
                proof {
                    assert(self.flush_budget() > usize::MAX);
                }
                return false;
            }
            let acc1 = acc + n1;
            if n2 > usize::MAX - acc1 {
                proof {
                    assert(self.flush_budget() > usize::MAX);
                }
                return false;
            }
            let acc2 = acc1 + n2;
            if n3 > usize::MAX - acc2 {
                proof {
                    assert(self.flush_budget() > usize::MAX);
                }
                return false;
            }
            let acc3 = acc2 + n3;
            if n3 > usize::MAX - acc3 {
                proof {
                    assert(self.flush_budget() > usize::MAX);
                }
                return false;
            }
            let acc4 = acc3 + n3;
            if acc4 == usize::MAX {
                proof {
                    assert(self.flush_budget() > usize::MAX);
                }
                return false;
            }
            acc = acc4 + 1;
            t = t + 1;
        }
        proof {
            assert(tables_load(self.tables@, self.tables@.len() as int) == 0);
        }
        let m1 = self.spawn.len();
        let m2 = self.modify.len();
        if m1 > usize::MAX - acc {
            proof {
                assert(self.flush_budget() > usize::MAX);
            }
            return false;
        }
        let acc5 = acc + m1;
        if m1 > usize::MAX - acc5 {
            proof {
                assert(self.flush_budget() > usize::MAX);
            }
            return false;
        }
        let acc6 = acc5 + m1;
        if m2 > usize::MAX - acc6 {
            proof {
                assert(self.flush_budget() > usize::MAX);
            }
            return false;
        }
        let acc7 = acc6 + m2;
        if m2 > usize::MAX - acc7 {
            proof {
                assert(self.flush_budget() > usize::MAX);
            }
            return false;
        }
        proof {
            assert(self.flush_budget() == acc7 + m2);
        }
        true
    }

    /// Register a query: record its id list under the list's
    /// fingerprint, initialised with every existing table whose
    /// archetype contains the ids. A query already registered under
    /// the same fingerprint is replaced.
    #[verifier::rlimit(50)]
    pub fn add_query(&mut self, ids: Vec<ComponentId>)
        requires
            old(self).wf(),
        ensures
            final(self).wf(),
            final(self).tables@ == old(self).tables@,
            final(self).spawn@ == old(self).spawn@,
            final(self).modify@ == old(self).modify@,
            old(self).staging_fresh() ==> final(self).staging_fresh(),
            has_query(final(self).cache@, fp_of(ids@)),
            final(self).cache@[query_index(final(self).cache@, fp_of(ids@))].ids@ == ids@,
            !has_query(old(self).cache@, fp_of(ids@)) ==> final(self).cache@.len()
                == old(self).cache@.len() + 1
                && (forall|k: int| 0 <= k < old(self).cache@.len()
                    ==> final(self).cache@[k] == old(self).cache@[k]),
            has_query(old(self).cache@, fp_of(ids@)) ==> final(self).cache@.len()
                == old(self).cache@.len()
                && (forall|k: int| 0 <= k < old(self).cache@.len()
                    && k != query_index(old(self).cache@, fp_of(ids@))
                    ==> final(self).cache@[k] == old(self).cache@[k]),
    {
        let mut arch = Archetype::new();
        let mut k: usize = 0;
        while k < ids.len()
            invariant
                k <= ids@.len(),
                arch.0 == fp_of(ids@.take(k as int)),
            decreases ids@.len() - k,
        {
            arch.add(ids[k]);
            proof {
                assert(ids@.take(k + 1).drop_last() =~= ids@.take(k as int));
                assert(ids@.take(k + 1).last() == ids@[k as int]);
            }
            k = k + 1;
        }
        proof {
            assert(ids@.take(ids@.len() as int) =~= ids@);
        }
        let fp = arch.0;
        let mut set = iset_new();
        let mut t: usize = 0;
        while t < self.tables.len()
            invariant
                self.wf(),
                t <= self.tables@.len(),
                iset_view(set).no_duplicates(),
                forall|m: int| 0 <= m < iset_view(set).len()
                    ==> t > (#[trigger] iset_view(set)[m]),
                forall|u: TableIndex| u < t
                    ==> (#[trigger] iset_view(set).contains(u)
                        <==> contains_all(self.tables@[u as int].ids(), ids@)),
            decreases self.tables@.len() - t,
        {
            let m = self.tables[t].contains(&ids);
            if m {
                let ghost pre_set = set;
                let ins = iset_insert(&mut set, t);
                proof {
                    assert(!iset_view(pre_set).contains(t)) by {
                        if iset_view(pre_set).contains(t) {
                            let m2 = choose|m2: int| 0 <= m2 < iset_view(pre_set).len()
                                && iset_view(pre_set)[m2] == t;
                            assert(t > iset_view(pre_set)[m2]);
                        }
                    }
                    assert(iset_view(set) =~= iset_view(pre_set).push(t));
                    assert forall|u: TableIndex| u < t + 1 implies
                        (#[trigger] iset_view(set).contains(u)
                            <==> contains_all(self.tables@[u as int].ids(), ids@)) by {
                        assert(iset_view(set).contains(u)
                            <==> iset_view(pre_set).contains(u) || u == t) by {
                            if iset_view(set).contains(u) {
                                let m2 = choose|m2: int| 0 <= m2 < iset_view(set).len()
                                    && iset_view(set)[m2] == u;
                                if m2 < iset_view(pre_set).len() {
                                    assert(iset_view(pre_set)[m2] == u);
                                }
                            }
                            if iset_view(pre_set).contains(u) {
                                let m2 = choose|m2: int| 0 <= m2 < iset_view(pre_set).len()
                                    && iset_view(pre_set)[m2] == u;
                                assert(iset_view(set)[m2] == u);
                            }
                            if u == t {
                                assert(iset_view(set).last() == t);
                            }
                        }
                    }
                }
            } else {
                proof {
                    assert forall|u: TableIndex| u < t + 1 implies
                        (#[trigger] iset_view(set).contains(u)
                            <==> contains_all(self.tables@[u as int].ids(), ids@)) by {
                        if u == t && iset_view(set).contains(u) {
                            let m2 = choose|m2: int| 0 <= m2 < iset_view(set).len()
                                && iset_view(set)[m2] == u;
                            assert(t > iset_view(set)[m2]);
                        }
                    }
                }
            }
            t = t + 1;
        }
        let entry = QueryEntry { fp, ids, tables: set };
        let ghost pre_cache = self.cache@;
        let mut q: usize = 0;
        while q < self.cache.len() && self.cache[q].fp != fp
            invariant
                q <= pre_cache.len(),
                pre_cache == self.cache@,
                forall|m: int| 0 <= m < q ==> (#[trigger] pre_cache[m]).fp != fp,
            decreases pre_cache.len() - q,
        {
            q = q + 1;
        }
        let ghost entry_snap = entry;
        if q < self.cache.len() {
            proof {
                assert(pre_cache[q as int].fp == fp);
                assert(has_query(pre_cache, fp));
                lemma_query_index(pre_cache, fp, q as int);
            }
            self.cache.set(q, entry);
            proof {
                lemma_query_index(self.cache@, fp, q as int);
                assert(self.cache@[q as int].fp == fp);
                assert(has_query(self.cache@, fp));
            }
        } else {
            proof {
                assert(!has_query(pre_cache, fp));
            }
            self.cache.push(entry);
            proof {
                lemma_query_index(self.cache@, fp, pre_cache.len() as int);
                assert(self.cache@[pre_cache.len() as int].fp == fp);
                assert(has_query(self.cache@, fp));
            }
        }
        proof {
            assert(self.query_entry_ok(entry_snap)) by {
                assert(forall|u: TableIndex| u < self.tables@.len()
                    ==> (#[trigger] iset_view(entry_snap.tables).contains(u)
                        <==> contains_all(self.tables@[u as int].ids(), entry_snap.ids@)));
            }
        }
    }

    /// The values of component `id` over the given cached table set,
    /// chained in cache-insertion order. Every named table must carry
    /// the component: the cache only names superset tables.
    pub fn collect(&self, indices: &indexmap::IndexSet<TableIndex, RandomState>,
        id: ComponentId) -> (r: ValueIterChain)
        requires
            self.wf(),
            forall|m: int| 0 <= m < iset_view(*indices).len()
                ==> (#[trigger] iset_view(*indices)[m]) < self.tables@.len()
                    && self.tables@[iset_view(*indices)[m] as int].ids().contains(id),
        ensures
            r.pos == 0,
            r.pos <= r.iters@.len(),
            r.remaining() =~= chain_values(self.tables@, iset_view(*indices), id),
    {
        let ghost view = iset_view(*indices);
        let len = iset_len(indices);
        let mut chain = ValueIterChain::with_capacity(len);
        let mut k: usize = 0;
        while k < len
            invariant
                self.wf(),
                view == iset_view(*indices),
                len == view.len(),
                k <= view.len(),
                forall|m: int| 0 <= m < view.len()
                    ==> (#[trigger] view[m]) < self.tables@.len()
                        && self.tables@[view[m] as int].ids().contains(id),
                chain.pos == 0,
                chain.pos <= chain.iters@.len(),
                chain.remaining() =~= chain_values(self.tables@, view.take(k as int), id),
            decreases view.len() - k,
        {
            let t = iset_get_index(indices, k).unwrap();
            let it = self.tables[t].collect(id);
            proof {
                lemma_chain_values_push(self.tables@, view.take(k as int), view[k as int], id);
                assert(view.take(k + 1) =~= view.take(k as int).push(view[k as int]));
            }
            match it {
                Some(iter) => {
                    chain.push(iter);
                },
                None => {
                    proof {
                        assert(self.tables@[t as int].num_entities == 0);
                    }
                },
            }
            k = k + 1;
        }
        proof {
            assert(view.take(view.len() as int) =~= view);
        }
        chain
    }

    /// The entity locations over the given cached table set, chained
    /// in cache-insertion order, each table contributing its columns
    /// left to right.
    pub fn collect_indices(&self, indices: &indexmap::IndexSet<TableIndex, RandomState>)
        -> (r: EntityIndexChain)
        requires
            self.wf(),
            forall|m: int| 0 <= m < iset_view(*indices).len()
                ==> (#[trigger] iset_view(*indices)[m]) < self.tables@.len(),
        ensures
            r.pos == 0,
            r.pos <= r.iters@.len(),
            r.remaining() =~= chain_indices(self.tables@, iset_view(*indices)),
    {
        let ghost view = iset_view(*indices);
        let len = iset_len(indices);
        let mut chain = EntityIndexChain::with_capacity(len);
        let mut k: usize = 0;
        while k < len
            invariant
                self.wf(),
                view == iset_view(*indices),
                len == view.len(),
                k <= view.len(),
                forall|m: int| 0 <= m < view.len()
                    ==> (#[trigger] view[m]) < self.tables@.len(),
                chain.pos == 0,
                chain.pos <= chain.iters@.len(),
                chain.remaining() =~= chain_indices(self.tables@, view.take(k as int)),
            decreases view.len() - k,
        {
            let t = iset_get_index(indices, k).unwrap();
            let it = self.tables[t].collect_indices(t);
            proof {
                lemma_chain_indices_push(self.tables@, view.take(k as int), view[k as int]);
                assert(view.take(k + 1) =~= view.take(k as int).push(view[k as int]));
            }
            match it {
                Some(iter) => {
                    chain.push(iter);
                    proof {
                        assert(iter.remaining() =~= Seq::new(
                            self.tables@[t as int].num_entities as nat,
                            |c: int| EntityIndex { table: t, col: c as usize }));
                    }
                },
                None => {
                    proof {
                        assert(self.tables@[t as int].num_entities == 0);
                    }
                },
            }
            k = k + 1;
        }
        proof {
            assert(view.take(view.len() as int) =~= view);
        }
        chain
    }

    /// The cached table set for the query whose id list hashes to
    /// this fingerprint. The query must have been registered.
    pub fn query(&self, arch: Archetype) -> (r: &indexmap::IndexSet<TableIndex, RandomState>)
        requires
            self.wf(),
            has_query(self.cache@, arch.0),
        ensures
            *r == self.cache@[query_index(self.cache@, arch.0)].tables,
    {
        let mut q: usize = 0;
        while q < self.cache.len() && self.cache[q].fp != arch.0
            invariant
                has_query(self.cache@, arch.0),
                q <= self.cache@.len(),
                forall|m: int| 0 <= m < q ==> (#[trigger] self.cache@[m]).fp != arch.0,
            decreases self.cache@.len() - q,
        {
            q = q + 1;
        }
        proof {
            if q == self.cache@.len() {
                assert(!has_query(self.cache@, arch.0));
            }
            lemma_query_index(self.cache@, arch.0, q as int);
        }
        &self.cache[q].tables
    }
}

} // verus!
