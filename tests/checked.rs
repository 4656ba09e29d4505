use bevy_hecs::{
    Access, ArchetypeAccess, ComponentId, DynamicComponentAccess, DynamicComponentInfo,
    DynamicComponentQuery, DynamicFetch, DynamicQuery, DynamicQueryBorrow, Entity, Fetch,
    FetchMut, FetchRead, GenericQuery, Location, Query, QueryError, QueryTerm, SoaBatch,
    TypeInfo, World,
};

fn ext(id: u64, size: usize) -> TypeInfo {
    DynamicComponentInfo { id, size, align: 1 }.into_type_info()
}

fn read(id: ComponentId) -> QueryTerm {
    QueryTerm::Fetch(Fetch::Read(FetchRead { id }))
}

fn write(id: ComponentId) -> QueryTerm {
    QueryTerm::Fetch(Fetch::Write(FetchMut { id }))
}

#[test]
fn checked_lookups_follow_declared_access() {
    let a = ext(1, 1);
    let b = ext(2, 1);
    let mut world = World::new();
    let la = world.spawn(Entity::from_id(1), vec![(a, vec![10])]);
    let lb = world.spawn(Entity::from_id(2), vec![(b, vec![20])]);
    let mut access = ArchetypeAccess::new();
    access.set_access_for_query(world.archetypes(), &Query::new(vec![read(a.id)]));
    let q = GenericQuery::new(&access);
    assert_eq!(q.get(&world, la, a.id).unwrap(), &vec![10]);
    assert!(matches!(q.get(&world, lb, b.id), Err(QueryError::CannotReadArchetype)));
    let nowhere = Location { archetype: 5, index: 0 };
    assert!(matches!(q.get(&world, nowhere, a.id), Err(QueryError::NoSuchEntity)));
    let past_end = Location { archetype: 0, index: 3 };
    assert!(matches!(q.entity(&world, past_end), Err(QueryError::NoSuchEntity)));
    match q.get(&world, la, b.id) {
        Err(QueryError::ComponentError(e)) => assert_eq!(e.id, b.id),
        _ => panic!("expected a missing component"),
    }
    let handle = q.entity(&world, la).unwrap();
    assert_eq!(handle.entity, Entity::from_id(1));
    assert!(matches!(q.entity(&world, lb), Err(QueryError::CannotReadArchetype)));
    // reading does not allow writing
    assert!(matches!(q.set(&mut world, la, a.id, vec![11]), Err(QueryError::CannotWriteArchetype)));

    let mut writes = ArchetypeAccess::new();
    writes.set_access_for_query(world.archetypes(), &Query::new(vec![write(a.id)]));
    let w = GenericQuery::new(&writes);
    w.set(&mut world, la, a.id, vec![12]).unwrap();
    assert_eq!(w.get(&world, la, a.id).unwrap(), &vec![12]);
    assert!(matches!(w.set(&mut world, la, b.id, vec![1]), Err(QueryError::ComponentError(_))));
    assert!(matches!(w.set(&mut world, nowhere, a.id, vec![1]), Err(QueryError::NoSuchEntity)));
    let col = world.archetypes()[la.archetype].get_storage_dynamic(a.id).unwrap();
    assert!(col.meta().is_mutated(la.index));
}

#[test]
fn dynamic_query_visits_matching_rows() {
    let pos = DynamicComponentInfo { id: 242237625853274575, size: 2, align: 1 };
    let vel = DynamicComponentInfo { id: 6820197023594215835, size: 2, align: 1 };
    let mut world = World::new();
    world.spawn(Entity::from_id(1), vec![(pos.into_type_info(), vec![0, 0]), (vel.into_type_info(), vec![0, 1])]);
    world.spawn(Entity::from_id(2), vec![(pos.into_type_info(), vec![5, 5])]);
    world.spawn(Entity::from_id(3), vec![(vel.into_type_info(), vec![1, 1]), (pos.into_type_info(), vec![1, 0])]);
    let mut query = DynamicQuery::new();
    query.push_dynamic(pos);
    query.push_dynamic_mut(vel);
    let mut borrow = DynamicQueryBorrow::new(&query);
    let rows = borrow.iter_mut(world.archetypes());
    assert_eq!(rows, vec![(0, 0), (0, 1)]);
    let results: Vec<(Entity, Vec<Vec<u8>>, Vec<Vec<u8>>)> = rows
        .iter()
        .map(|&(a, r)| {
            let res = query.fetch(&world.archetypes()[a], r);
            (res.entity, res.immutable, res.mutable)
        })
        .collect();
    assert_eq!(
        results,
        vec![
            (Entity::from_id(1), vec![vec![0, 0]], vec![vec![0, 1]]),
            (Entity::from_id(3), vec![vec![1, 0]], vec![vec![1, 1]]),
        ]
    );
}

#[test]
fn dynamic_query_borrows() {
    let pos = ext(1, 1);
    let vel = ext(2, 1);
    let mut world = World::new();
    world.spawn(Entity::from_id(1), vec![(pos, vec![0]), (vel, vec![0])]);
    let mut arch = bevy_hecs::Archetype::new(vec![pos, vel]);
    let mut q = DynamicQuery::new();
    q.push_type_info(pos);
    q.push_type_info_mut(vel);
    assert_eq!(q.borrow_requests(), vec![(pos.id, false), (vel.id, true)]);
    assert!(q.borrow(&mut arch));
    assert!(!q.borrow(&mut arch));
    q.release(&mut arch);
    assert!(q.borrow(&mut arch));
    assert_eq!(arch.column(1).meta().borrow_state(), -1);
}

#[test]
fn runtime_component_query() {
    let a = ext(1, 1);
    let b = ext(2, 1);
    let c = ext(3, 1);
    let mut world = World::new();
    world.spawn(Entity::from_id(1), vec![(a, vec![1]), (b, vec![2])]);
    world.spawn(Entity::from_id(2), vec![(c, vec![3])]);
    let q = DynamicComponentQuery::new(vec![
        DynamicComponentAccess { info: a, access: Access::Read },
        DynamicComponentAccess { info: b, access: Access::Write },
    ]);
    let ab = &world.archetypes()[0];
    let only_c = &world.archetypes()[1];
    assert_eq!(q.access(ab), Some(Access::Write));
    assert_eq!(q.access(only_c), None);
    assert!(DynamicFetch::get(&q, only_c, 0).is_none());
    let fetch = DynamicFetch::get(&q, ab, 0).unwrap();
    assert_eq!(fetch.item(&q, ab, 0), vec![Some(vec![1]), Some(vec![2])]);
    let partial = DynamicComponentQuery::new(vec![
        DynamicComponentAccess { info: c, access: Access::Read },
        DynamicComponentAccess { info: a, access: Access::Read },
    ]);
    assert_eq!(partial.access(ab), Some(Access::Read));
    let fetch = DynamicFetch::get(&partial, ab, 0).unwrap();
    assert_eq!(fetch.item(&partial, ab, 0), vec![None, Some(vec![1])]);
}

#[test]
fn structure_of_arrays_spawn() {
    let a = ext(1, 1);
    let b = ext(2, 2);
    let mut world = World::new();
    world.spawn(Entity::from_id(0), vec![(b, vec![9, 9]), (a, vec![9])]);
    let batch = SoaBatch::new(vec![
        (a, vec![vec![1], vec![2], vec![3]]),
        (b, vec![vec![1, 1], vec![2, 2], vec![3, 3]]),
    ]);
    let entities = vec![Entity::from_id(1), Entity::from_id(2), Entity::from_id(3)];
    let locs = batch.spawn(&mut world, entities.clone());
    assert_eq!(world.archetypes().len(), 1);
    assert_eq!(locs.iter().map(|l| l.index).collect::<Vec<_>>(), vec![1, 2, 3]);
    let arch = &world.archetypes()[0];
    assert_eq!(arch.len(), 4);
    for (k, l) in locs.iter().enumerate() {
        assert_eq!(arch.get_entity(l.index), entities[k]);
        assert_eq!(arch.get_value(l.index, a.id), Some(&vec![k as u8 + 1]));
        assert_eq!(arch.get_value(l.index, b.id), Some(&vec![k as u8 + 1; 2]));
    }
}

#[test]
fn store_wide_borrows_are_all_or_nothing() {
    let a = ext(1, 1);
    let b = ext(2, 1);
    let mut world = World::new();
    world.spawn(Entity::from_id(1), vec![(a, vec![0])]);
    world.spawn(Entity::from_id(2), vec![(a, vec![0]), (b, vec![0])]);
    let read_a = Query::new(vec![read(a.id)]);
    let write_b = Query::new(vec![write(b.id)]);
    let write_a = Query::new(vec![write(a.id)]);
    assert!(world.borrow_query(&write_b));
    // a writer on b in the second archetype refuses this query there; the first
    // archetype's borrow is given back
    let clash = Query::new(vec![read(a.id), QueryTerm::Optional(bevy_hecs::TryFetch { inner: Fetch::Read(FetchRead { id: b.id }) })]);
    assert!(!world.borrow_query(&clash));
    assert_eq!(world.archetypes()[0].column(0).meta().borrow_state(), 0);
    assert!(world.borrow_query(&read_a));
    assert!(world.borrow_query(&read_a));
    assert_eq!(world.archetypes()[0].column(0).meta().borrow_state(), 2);
    assert!(!world.borrow_query(&write_a));
    world.release_query(&read_a);
    world.release_query(&read_a);
    assert!(world.borrow_query(&write_a));
    world.release_query(&write_a);
    world.release_query(&write_b);
    assert_eq!(world.archetypes()[1].column(1).meta().borrow_state(), 0);
}

#[test]
fn row_counts_of_queries() {
    let a = ext(1, 1);
    let b = ext(2, 1);
    let mut world = World::new();
    world.spawn(Entity::from_id(1), vec![(a, vec![0])]);
    world.spawn(Entity::from_id(2), vec![(a, vec![0])]);
    world.spawn(Entity::from_id(3), vec![(a, vec![0]), (b, vec![0])]);
    world.spawn(Entity::from_id(4), vec![(b, vec![0])]);
    assert_eq!(Query::new(vec![read(a.id)]).len(world.archetypes()), 3);
    assert_eq!(Query::new(vec![read(b.id)]).len(world.archetypes()), 2);
    assert_eq!(Query::new(vec![read(a.id), write(b.id)]).len(world.archetypes()), 1);
    let mut dq = DynamicQuery::new();
    dq.push_type_info(b);
    assert_eq!(dq.len(world.archetypes()), 2);
}

#[test]
fn dynamic_access_needs_every_component() {
    let a = ext(1, 1);
    let b = ext(2, 1);
    let mut world = World::new();
    world.spawn(Entity::from_id(1), vec![(a, vec![0])]);
    world.spawn(Entity::from_id(2), vec![(a, vec![0]), (b, vec![0])]);
    let mut reads = DynamicQuery::new();
    reads.push_type_info(a);
    reads.push_type_info(b);
    // the first archetype lacks b: it is not accessed at all
    assert_eq!(reads.access(&world.archetypes()[0]), None);
    assert_eq!(reads.access(&world.archetypes()[1]), Some(Access::Read));
    assert_eq!(reads.len(world.archetypes()), 1);
    let mut writes = DynamicQuery::new();
    writes.push_type_info(a);
    writes.push_type_info_mut(b);
    assert_eq!(writes.access(&world.archetypes()[0]), None);
    assert_eq!(writes.access(&world.archetypes()[1]), Some(Access::Write));
    let empty = DynamicQuery::new();
    assert_eq!(empty.access(&world.archetypes()[1]), None);
}

#[test]
fn empty_batch_spawns_nothing() {
    let a = ext(1, 1);
    let mut world = World::new();
    let locs = SoaBatch::new(vec![(a, vec![])]).spawn(&mut world, vec![]);
    assert!(locs.is_empty());
    assert_eq!(world.archetypes().len(), 0);
}

#[test]
fn batch_rows_are_flagged_added() {
    let a = ext(1, 1);
    let mut world = World::new();
    let locs = SoaBatch::new(vec![(a, vec![vec![4], vec![5]])])
        .spawn(&mut world, vec![Entity::from_id(1), Entity::from_id(2)]);
    let col = world.archetypes()[0].get_storage_dynamic(a.id).unwrap();
    for l in locs.iter() {
        assert!(col.meta().is_added(l.index));
        assert!(!col.meta().is_mutated(l.index));
    }
    assert_eq!(col.get_value(locs[1].index), &vec![5]);
}

#[test]
fn single_entity_query_borrows_once() {
    let a = ext(1, 1);
    let b = ext(2, 1);
    let mut world = World::new();
    let la = world.spawn(Entity::from_id(1), vec![(a, vec![3])]);
    let mut access = ArchetypeAccess::new();
    access.set_access_for_query(world.archetypes(), &Query::new(vec![write(a.id)]));
    let q = GenericQuery::new(&access);
    let mut handle = q.entity(&world, la).unwrap();
    assert!(!handle.is_borrowed());
    // a query the archetype does not satisfy yields nothing and takes nothing
    assert_eq!(handle.get(&mut world, &Query::new(vec![read(b.id)])), None);
    assert!(!handle.is_borrowed());
    let writes_a = Query::new(vec![write(a.id)]);
    assert_eq!(handle.get(&mut world, &writes_a), Some((la.archetype, la.index)));
    assert!(handle.is_borrowed());
    assert_eq!(world.archetypes()[0].column(0).meta().borrow_state(), -1);
    // a second handle on the same row cannot take a clashing borrow
    let mut other = q.entity(&world, la).unwrap();
    assert_eq!(other.get(&mut world, &writes_a), None);
    handle.release(&mut world, &writes_a);
    assert!(!handle.is_borrowed());
    assert_eq!(world.archetypes()[0].column(0).meta().borrow_state(), 0);
}
