use strata::archetypes::Archetypes;
use strata::commands::Commands;
use strata::entity::{Entity, EntityIndex};
use strata::fingerprint::Archetype;
use strata::scheduler::{Accessor, Scheduler};
use strata::systems::{Stage, Systems};
use strata::engine::Engine;

fn spawn_entity(cmd: &mut Commands, parts: &[(u64, u64)]) {
    let mut e = Entity::new();
    for &(id, data) in parts {
        e.insert(id, data);
    }
    cmd.spawn(e);
}

fn fingerprint_of(ids: &[u64]) -> Archetype {
    let mut arch = Archetype::new();
    for &id in ids {
        arch.add(id);
    }
    arch
}

fn query_count(arch: &Archetypes, ids: &[u64]) -> usize {
    let set = arch.query(fingerprint_of(ids));
    let mut chain = arch.collect_indices(set);
    let mut count = 0;
    while let Some(_) = chain.next() {
        count += 1;
    }
    count
}

fn query_values(arch: &Archetypes, ids: &[u64], component: u64) -> Vec<u64> {
    let set = arch.query(fingerprint_of(ids));
    let mut chain = arch.collect(set, component);
    let mut out = Vec::new();
    while let Some(v) = chain.next() {
        out.push(v);
    }
    out
}

#[test]
fn fingerprint_commutes() {
    let a = fingerprint_of(&[1, 2, 3]);
    let b = fingerprint_of(&[3, 1, 2]);
    let c = fingerprint_of(&[2, 3, 1]);
    assert_eq!(a.0, b.0);
    assert_eq!(a.0, c.0);
    let d = fingerprint_of(&[1, 2]);
    assert_ne!(a.0, d.0);
}

#[test]
fn fingerprint_clear_resets() {
    let mut a = fingerprint_of(&[7, 9]);
    a.clear();
    assert_eq!(a.0, 0);
    assert_eq!(a.0, Archetype::new().0);
}

#[test]
fn spawn_then_query() {
    let mut arch = Archetypes::new();
    arch.add_query(vec![1]);
    arch.add_query(vec![1, 2]);
    let mut cmd = Commands::new();
    for k in 0..3 {
        spawn_entity(&mut cmd, &[(1, 10 + k), (2, 20 + k)]);
    }
    for k in 0..2 {
        spawn_entity(&mut cmd, &[(1, 30 + k)]);
    }
    arch.queue(cmd.into_queue());
    arch.flush_queues();
    assert_eq!(query_count(&arch, &[1]), 5);
    assert_eq!(query_count(&arch, &[1, 2]), 3);
}

#[test]
fn insert_to_existing_archetype() {
    let mut arch = Archetypes::new();
    arch.add_query(vec![1]);
    arch.add_query(vec![1, 2]);
    let mut cmd = Commands::new();
    for k in 0..3 {
        spawn_entity(&mut cmd, &[(1, 10 + k), (2, 20 + k)]);
    }
    for k in 0..2 {
        spawn_entity(&mut cmd, &[(1, 30 + k)]);
    }
    arch.queue(cmd.into_queue());
    arch.flush_queues();
    // find the {A}-only table: one row, two entities
    let mut t_a = usize::MAX;
    let mut t_ab = usize::MAX;
    for (t, table) in arch.tables.iter().enumerate() {
        if table.rows.len() == 1 {
            t_a = t;
        } else if table.rows.len() == 2 {
            t_ab = t;
        }
    }
    assert_eq!(arch.tables[t_a].num_entities, 2);
    assert_eq!(arch.tables[t_ab].num_entities, 3);
    let mut cmd = Commands::new();
    cmd.insert(EntityIndex { table: t_a, col: 0 }, 2, 99);
    arch.queue(cmd.into_queue());
    arch.flush_queues();
    assert_eq!(arch.tables[t_a].num_entities, 1);
    assert_eq!(arch.tables[t_ab].num_entities, 4);
}

#[test]
fn remove_creating_new_archetype() {
    let mut arch = Archetypes::new();
    arch.add_query(vec![1, 2, 3]);
    arch.add_query(vec![1]);
    let mut cmd = Commands::new();
    spawn_entity(&mut cmd, &[(1, 11), (2, 22), (3, 33)]);
    arch.queue(cmd.into_queue());
    arch.flush_queues();
    assert_eq!(arch.tables.len(), 1);
    let set_abc = arch.query(fingerprint_of(&[1, 2, 3]));
    assert!(set_abc.contains(&0));
    let set_a = arch.query(fingerprint_of(&[1]));
    assert!(set_a.contains(&0));
    let mut cmd = Commands::new();
    cmd.remove(EntityIndex { table: 0, col: 0 }, 3);
    arch.queue(cmd.into_queue());
    arch.flush_queues();
    assert_eq!(arch.tables.len(), 2);
    assert_eq!(arch.tables[0].num_entities, 0);
    assert_eq!(arch.tables[1].num_entities, 1);
    assert_eq!(arch.tables[1].rows.len(), 2);
    let set_a = arch.query(fingerprint_of(&[1]));
    assert!(set_a.contains(&0));
    assert!(set_a.contains(&1));
    let set_abc = arch.query(fingerprint_of(&[1, 2, 3]));
    assert!(set_abc.contains(&0));
    assert!(!set_abc.contains(&1));
}

#[test]
fn conflict_prevents_parallelism() {
    let mut sched = Scheduler::new();
    sched.insert(vec![Accessor::Mut(1)]);
    sched.insert(vec![Accessor::Ref(1)]);
    assert_eq!(sched.systems[0].edges, vec![0]);
    assert_eq!(sched.systems[1].edges, vec![1]);
    let plan = sched.plan();
    assert_eq!(plan.len(), 2);
    assert_eq!(plan[0], vec![0]);
    assert_eq!(plan[1], vec![1]);
}

#[test]
fn concurrent_safe_pair() {
    let mut sched = Scheduler::new();
    sched.insert(vec![Accessor::Mut(1)]);
    sched.insert(vec![Accessor::Mut(2)]);
    assert!(sched.systems[0].edges.contains(&1));
    assert!(sched.systems[1].edges.contains(&0));
    let plan = sched.plan();
    assert_eq!(plan.len(), 1);
    assert_eq!(plan[0].len(), 2);
}

#[test]
fn resource_conflicts() {
    let mut sched = Scheduler::new();
    sched.insert(vec![Accessor::Res(5)]);
    sched.insert(vec![Accessor::Res(5)]);
    sched.insert(vec![Accessor::ResMut(5)]);
    // shared readers co-run; the writer conflicts with both
    assert!(sched.systems[0].edges.contains(&1));
    assert!(!sched.systems[0].edges.contains(&2));
    assert!(!sched.systems[1].edges.contains(&2));
    let plan = sched.plan();
    assert_eq!(plan.len(), 2);
    assert_eq!(plan[0], vec![0, 1]);
    assert_eq!(plan[1], vec![2]);
}

#[test]
fn no_access_never_conflicts() {
    let mut sched = Scheduler::new();
    sched.insert(vec![Accessor::NoAccess]);
    sched.insert(vec![Accessor::Mut(1)]);
    sched.insert(vec![Accessor::Ref(1)]);
    assert!(sched.systems[0].edges.contains(&1));
    assert!(sched.systems[0].edges.contains(&2));
}

#[test]
fn destroy_wins_over_modify() {
    let mut arch = Archetypes::new();
    arch.add_query(vec![1]);
    let mut cmd = Commands::new();
    spawn_entity(&mut cmd, &[(1, 77)]);
    arch.queue(cmd.into_queue());
    arch.flush_queues();
    assert_eq!(query_count(&arch, &[1]), 1);
    let e = EntityIndex { table: 0, col: 0 };
    let mut cmd1 = Commands::new();
    cmd1.insert(e, 2, 88);
    let mut cmd2 = Commands::new();
    cmd2.destroy(e);
    arch.queue(cmd1.into_queue());
    arch.queue(cmd2.into_queue());
    arch.flush_queues();
    for table in arch.tables.iter() {
        assert_eq!(table.num_entities, 0);
    }
    assert_eq!(query_count(&arch, &[1]), 0);
}

#[test]
fn destroy_idempotent() {
    let mut arch = Archetypes::new();
    arch.add_query(vec![1]);
    let mut cmd = Commands::new();
    spawn_entity(&mut cmd, &[(1, 1)]);
    spawn_entity(&mut cmd, &[(1, 2)]);
    arch.queue(cmd.into_queue());
    arch.flush_queues();
    assert_eq!(arch.tables[0].num_entities, 2);
    let mut cmd = Commands::new();
    cmd.destroy(EntityIndex { table: 0, col: 0 });
    cmd.destroy(EntityIndex { table: 0, col: 0 });
    arch.queue(cmd.into_queue());
    arch.flush_queues();
    assert_eq!(arch.tables[0].num_entities, 1);
}

#[test]
fn column_lengths_uniform() {
    let mut arch = Archetypes::new();
    arch.add_query(vec![1, 2]);
    let mut cmd = Commands::new();
    for k in 0..4 {
        spawn_entity(&mut cmd, &[(1, k), (2, 100 + k)]);
    }
    arch.queue(cmd.into_queue());
    arch.flush_queues();
    let mut cmd = Commands::new();
    cmd.destroy(EntityIndex { table: 0, col: 1 });
    arch.queue(cmd.into_queue());
    arch.flush_queues();
    for table in arch.tables.iter() {
        for row in table.rows.iter() {
            assert_eq!(row.data.len(), table.num_entities);
        }
    }
    assert_eq!(arch.tables[0].num_entities, 3);
}

#[test]
fn query_values_follow_spawn() {
    let mut arch = Archetypes::new();
    arch.add_query(vec![2]);
    let mut cmd = Commands::new();
    spawn_entity(&mut cmd, &[(1, 5), (2, 50)]);
    spawn_entity(&mut cmd, &[(2, 60)]);
    arch.queue(cmd.into_queue());
    arch.flush_queues();
    let mut values = query_values(&arch, &[2], 2);
    values.sort();
    assert_eq!(values, vec![50, 60]);
}

#[test]
fn insert_overwrites_existing_component() {
    let mut arch = Archetypes::new();
    arch.add_query(vec![1]);
    let mut cmd = Commands::new();
    spawn_entity(&mut cmd, &[(1, 5)]);
    arch.queue(cmd.into_queue());
    arch.flush_queues();
    // inserting an id the entity already has overwrites the value:
    // the entity keeps its single-component archetype
    let mut cmd = Commands::new();
    cmd.insert(EntityIndex { table: 0, col: 0 }, 1, 42);
    arch.queue(cmd.into_queue());
    arch.flush_queues();
    assert_eq!(query_count(&arch, &[1]), 1);
    let values = query_values(&arch, &[1], 1);
    assert_eq!(values, vec![42]);
}

#[test]
fn remove_missing_component_is_skipped() {
    let mut arch = Archetypes::new();
    arch.add_query(vec![1]);
    let mut cmd = Commands::new();
    spawn_entity(&mut cmd, &[(1, 5)]);
    arch.queue(cmd.into_queue());
    arch.flush_queues();
    let mut cmd = Commands::new();
    cmd.remove(EntityIndex { table: 0, col: 0 }, 9);
    arch.queue(cmd.into_queue());
    arch.flush_queues();
    assert_eq!(query_count(&arch, &[1]), 1);
    let values = query_values(&arch, &[1], 1);
    assert_eq!(values, vec![5]);
}

#[test]
fn resources_store_and_replace() {
    let mut res = strata::resources::Resources::new();
    assert!(!res.has(4));
    res.insert(4, 10);
    assert!(res.has(4));
    assert_eq!(res.get(4), 10);
    res.insert(4, 11);
    assert_eq!(res.get(4), 11);
    res.insert(6, 20);
    assert_eq!(res.get(4), 11);
    assert_eq!(res.get(6), 20);
}

#[test]
fn engine_finalize_registers_queries() {
    let mut engine = Engine::new();
    engine.systems.load_system(vec![Accessor::Ref(1)], Stage::Main);
    engine.finalize(vec![vec![1], vec![1, 2]]);
    let mut cmd = Commands::new();
    spawn_entity(&mut cmd, &[(1, 7), (2, 8)]);
    engine.archetypes.queue(cmd.into_queue());
    engine.archetypes.flush_queues();
    assert_eq!(query_count(&engine.archetypes, &[1]), 1);
    assert_eq!(query_count(&engine.archetypes, &[1, 2]), 1);
}

#[test]
fn stages_are_ordered() {
    assert_eq!(Stage::Core.index(), 0);
    assert_eq!(Stage::Early.index(), 1);
    assert_eq!(Stage::Main.index(), 2);
    assert_eq!(Stage::Late.index(), 3);
    assert_eq!(Stage::Render.index(), 4);
    let mut systems = Systems::new();
    systems.load_startup(vec![Accessor::Mut(1)], Stage::Early);
    systems.load_system(vec![Accessor::Mut(1)], Stage::Late);
    assert_eq!(systems.startup[1].systems.len(), 1);
    assert_eq!(systems.systems[3].systems.len(), 1);
    let plan = systems.plan_startup(Stage::Early);
    assert_eq!(plan, vec![vec![0]]);
}

#[test]
fn empty_spawn_entity_allowed_nowhere_spawns_nothing() {
    // an entity with no components forms the empty archetype
    let mut arch = Archetypes::new();
    arch.add_query(vec![]);
    let mut cmd = Commands::new();
    spawn_entity(&mut cmd, &[]);
    arch.queue(cmd.into_queue());
    arch.flush_queues();
    assert_eq!(arch.tables.len(), 1);
    assert_eq!(arch.tables[0].num_entities, 1);
    assert_eq!(arch.tables[0].rows.len(), 0);
}

#[test]
fn fingerprint_exact_value() {
    // one id: the mixed id shifted left by (mixed mod 32) + 1, wrapping
    let mut a = Archetype::new();
    a.add(1);
    assert_eq!(a.0, 15198298644190068736);
    a.add(2);
    assert_eq!(a.0, 4368472830001631232);
}

#[test]
fn modify_merges_inserts_and_removes() {
    // one system issuing several inserts and a remove on one entity
    // collapses into one modify record, applied removes first
    let mut arch = Archetypes::new();
    arch.add_query(vec![1]);
    arch.add_query(vec![1, 2]);
    let mut cmd = Commands::new();
    spawn_entity(&mut cmd, &[(1, 5), (2, 50)]);
    arch.queue(cmd.into_queue());
    arch.flush_queues();
    let e = EntityIndex { table: 0, col: 0 };
    let mut cmd = Commands::new();
    cmd.remove(e, 2);
    cmd.insert(e, 3, 30);
    cmd.insert(e, 3, 31);
    arch.queue(cmd.into_queue());
    arch.flush_queues();
    // the entity moved to a fresh {1, 3} table; queued inserts are
    // applied in submission order, so the last write wins
    assert_eq!(query_count(&arch, &[1]), 1);
    assert_eq!(query_count(&arch, &[1, 2]), 0);
    let values = query_values(&arch, &[1], 3);
    assert_eq!(values, vec![31]);
}

#[test]
fn flush_preconditions_checkable() {
    let mut arch = Archetypes::new();
    arch.add_query(vec![1]);
    assert!(arch.staging_is_fresh());
    assert!(arch.flush_fits());
    let mut cmd = Commands::new();
    spawn_entity(&mut cmd, &[(1, 9)]);
    arch.queue(cmd.into_queue());
    assert!(arch.staging_is_fresh());
    assert!(arch.flush_fits());
    arch.flush_queues();
    assert!(arch.staging_is_fresh());
}
