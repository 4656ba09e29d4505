use bevy_hecs::{
    Archetype, ArchetypeAccess, ComponentId, ComponentStorageMeta, DynamicComponentInfo,
    DynamicQuery, Entity, EntityFetch, Fetch, FetchMut, FetchOr, FetchRead, Location, Mut, Query,
    QueryTerm, SystemId, ThreadLocalExecution, TypeAccess, TypeInfo, VecComponentStorage, World,
};
use bevy_hecs::Access;

struct X(u32);
struct Y(u64);
struct Z(u16);
struct A;
struct B;
struct C;

fn ext(id: u64, size: usize) -> TypeInfo {
    DynamicComponentInfo { id, size, align: 1 }.into_type_info()
}

fn row_values(arch: &Archetype, id: ComponentId) -> Vec<Vec<u8>> {
    let col = arch.get_storage_dynamic(id).unwrap();
    (0..col.len()).map(|i| col.get_value(i).clone()).collect()
}

fn check_aligned(arch: &Archetype) {
    for info in arch.type_info().iter() {
        let col = arch.get_storage_dynamic(info.id).unwrap();
        assert_eq!(col.len(), arch.len());
        assert_eq!(col.meta().len(), arch.len());
    }
}

#[test]
fn remove_reports_relocated_entity() {
    let x = ext(1, 2);
    let mut arch = Archetype::new(vec![x]);
    for i in 0..4u64 {
        arch.allocate(Entity::from_id(i));
        arch.insert(x.id, vec![i as u8, 0]);
    }
    check_aligned(&arch);
    // removing row 1 of 4 moves the last entity (3) into row 1
    assert_eq!(arch.remove(1), Some(Entity::from_id(3)));
    assert_eq!(arch.len(), 3);
    assert_eq!(arch.get_entity(1), Entity::from_id(3));
    assert_eq!(row_values(&arch, x.id), vec![vec![0, 0], vec![3, 0], vec![2, 0]]);
    check_aligned(&arch);
    // removing the last row reports nothing
    assert_eq!(arch.remove(2), None);
    assert_eq!(arch.len(), 2);
    check_aligned(&arch);
}

#[test]
#[allow(unused)]
fn move_keeps_shared_values_and_drops_others() {
    let _ = (X(0), Y(0), Z(0));
    let x = TypeInfo::of::<X>();
    let y = TypeInfo::of::<Y>();
    let z = TypeInfo::of::<Z>();
    let mut from = Archetype::new(vec![x, y]);
    let mut to = Archetype::new(vec![y, z]);
    for i in 0..3u64 {
        from.allocate(Entity::from_id(i));
        from.insert(x.id, vec![i as u8; 4]);
        from.insert(y.id, vec![10 + i as u8; 8]);
    }
    let mut loc = Location { archetype: 0, index: 0 };
    let moved = from.move_to(&mut loc, &mut to, true);
    // the vacated row is filled by the previously last entity
    assert_eq!(moved, Some(Entity::from_id(2)));
    assert_eq!(from.len(), 2);
    assert_eq!(from.get_entity(0), Entity::from_id(2));
    assert_eq!(row_values(&from, x.id), vec![vec![2; 4], vec![1; 4]]);
    assert_eq!(row_values(&from, y.id), vec![vec![12; 8], vec![11; 8]]);
    check_aligned(&from);
    // Y moved bit for bit; Z is still to be filled by the caller
    assert_eq!(loc.index, 0);
    assert_eq!(to.get_entity(0), Entity::from_id(0));
    assert_eq!(row_values(&to, y.id), vec![vec![10; 8]]);
    assert_eq!(to.get_storage_dynamic(z.id).unwrap().len(), 0);
    to.insert(z.id, vec![7, 7]);
    assert_eq!(row_values(&to, z.id), vec![vec![7, 7]]);
    check_aligned(&to);
    // the last row moves out without relocating anything
    let mut loc = Location { archetype: 0, index: 1 };
    assert_eq!(from.move_to(&mut loc, &mut to, true), None);
    assert_eq!(loc.index, 1);
}

#[test]
fn move_carries_change_flags() {
    let x = ext(1, 1);
    let y = ext(2, 1);
    let mut from = Archetype::new(vec![x]);
    let mut to = Archetype::new(vec![x, y]);
    from.allocate(Entity::from_id(5));
    from.insert(x.id, vec![1]);
    from.clear_trackers();
    from.set_value(0, x.id, vec![2]).unwrap();
    let mut loc = Location { archetype: 0, index: 0 };
    from.move_to(&mut loc, &mut to, false);
    to.insert(y.id, vec![3]);
    let cx = to.get_storage_dynamic(x.id).unwrap();
    assert!(cx.meta().is_mutated(0));
    assert!(!cx.meta().is_added(0));
    let cy = to.get_storage_dynamic(y.id).unwrap();
    assert!(cy.meta().is_added(0));
    assert!(!cy.meta().is_mutated(0));
}

#[test]
fn clear_empties_every_row() {
    let x = ext(1, 1);
    let mut arch = Archetype::with_grow(vec![x], 2);
    for i in 0..3u64 {
        arch.allocate(Entity::from_id(i));
        arch.insert(x.id, vec![1]);
    }
    arch.reserve(10);
    assert_eq!(arch.len(), 3);
    arch.clear();
    assert!(arch.is_empty());
    check_aligned(&arch);
}

#[test]
fn missing_component_is_reported() {
    let x = ext(1, 1);
    let mut arch = Archetype::new(vec![x]);
    arch.allocate(Entity::from_id(0));
    arch.insert(x.id, vec![4]);
    let absent = ComponentId::ExternalId(99);
    let err = arch.set_value(0, absent, vec![1]).unwrap_err();
    assert_eq!(err.id, absent);
    assert!(Mut::new(&arch, 0, absent).is_err());
    assert!(arch.get_value(0, absent).is_none());
    let m = Mut::new(&arch, 0, x.id).unwrap();
    assert_eq!(m.get(&arch), &vec![4]);
    m.set(&mut arch, vec![6]);
    assert_eq!(arch.get_value(0, x.id), Some(&vec![6]));
    assert!(arch.get_storage_dynamic(x.id).unwrap().meta().is_mutated(0));
}

#[test]
fn column_operations() {
    let info = ext(3, 2);
    let mut col = VecComponentStorage::new(info);
    assert_eq!(col.item_size(), 2);
    assert_eq!(col.get_type(), info.id);
    col.reserve(4);
    col.push(vec![1, 1]);
    col.push(vec![2, 2]);
    col.push(vec![3, 3]);
    assert!(col.capacity() >= 3);
    assert_eq!(col.swap_remove(0, false), Some(vec![1, 1]));
    assert_eq!(col.get_value(0), &vec![3, 3]);
    assert_eq!(col.swap_remove(1, true), None);
    assert_eq!(col.len(), 1);
    col.clear();
    assert_eq!(col.len(), 0);
}

#[test]
fn borrow_counter_rules() {
    let mut meta = ComponentStorageMeta::default();
    assert!(meta.is_borrowable());
    meta.borrow();
    assert!(meta.is_borrowable());
    meta.borrow();
    assert_eq!(meta.borrow_state(), 2);
    // a writer is refused while readers hold the column
    assert!(!meta.is_borrowable_mut());
    meta.release();
    meta.release();
    assert!(meta.is_borrowable_mut());
    meta.borrow_mut();
    assert_eq!(meta.borrow_state(), -1);
    // nothing more while the writer holds it
    assert!(!meta.is_borrowable());
    assert!(!meta.is_borrowable_mut());
    meta.release_mut();
    assert_eq!(meta.borrow_state(), 0);
}

#[test]
fn tracker_flags() {
    let mut meta = ComponentStorageMeta::new();
    meta.allocate();
    meta.allocate();
    meta.set_added(1, true);
    meta.set_mutated(0, true);
    assert!(meta.is_added(1) && meta.is_mutated(0));
    meta.clear_trackers();
    assert!(!meta.is_added(1) && !meta.is_mutated(0));
    assert_eq!(meta.len(), 2);
}

#[test]
fn query_borrow_collisions() {
    let x = ext(1, 1);
    let y = ext(2, 1);
    let mut arch = Archetype::new(vec![x, y]);
    let read_x = Fetch::Read(FetchRead { id: x.id });
    let write_x = Fetch::Write(FetchMut { id: x.id });
    let read_y = Fetch::Read(FetchRead { id: y.id });
    // reading and writing the same component in one query collides; nothing is taken
    let clash = Query::new(vec![QueryTerm::Fetch(read_x), QueryTerm::Fetch(write_x)]);
    assert!(!clash.borrow(&mut arch));
    assert_eq!(arch.column(0).meta().borrow_state(), 0);
    // two readers can share
    let reads = Query::new(vec![QueryTerm::Fetch(read_x), QueryTerm::Fetch(read_y)]);
    assert!(reads.borrow(&mut arch));
    assert!(reads.borrow(&mut arch));
    assert_eq!(arch.column(0).meta().borrow_state(), 2);
    let writes = Query::new(vec![QueryTerm::Fetch(write_x), QueryTerm::Fetch(Fetch::Entity(EntityFetch))]);
    assert!(!writes.borrow(&mut arch));
    reads.release(&mut arch);
    reads.release(&mut arch);
    assert_eq!(arch.column(0).meta().borrow_state(), 0);
    assert!(writes.borrow(&mut arch));
    assert_eq!(arch.column(0).meta().borrow_state(), -1);
    let either = Query::new(vec![QueryTerm::Or(FetchOr { branches: vec![read_x, read_y] })]);
    assert!(!either.borrow(&mut arch));
    writes.release(&mut arch);
    assert!(either.borrow(&mut arch));
}

#[test]
fn dynamic_query_rows() {
    let pos = DynamicComponentInfo { id: 242237625853274575, size: 2, align: 1 };
    let vel = DynamicComponentInfo { id: 6820197023594215835, size: 2, align: 1 };
    let mut arch = Archetype::new(vec![pos.into_type_info(), vel.into_type_info()]);
    arch.allocate(Entity::from_id(7));
    arch.insert(pos.into_type_info().id, vec![0, 0]);
    arch.insert(vel.into_type_info().id, vec![0, 1]);
    let mut query = DynamicQuery::new();
    query.push_dynamic(pos);
    query.push_dynamic_mut(vel);
    // the same component again would collide
    assert!(query.info_collides(&pos.into_type_info()));
    assert!(!query.info_collides(&DynamicComponentInfo { id: 5, size: 1, align: 1 }.into_type_info()));
    assert_eq!(query.access(&arch), Some(Access::Write));
    assert!(!query.should_skip(0));
    let fetch = query.get_fetch(&arch, 0).unwrap();
    assert_eq!(fetch.offset, 0);
    let row = query.fetch(&arch, 0);
    assert_eq!(row.entity, Entity::from_id(7));
    assert_eq!(row.immutable, vec![vec![0, 0]]);
    assert_eq!(row.mutable, vec![vec![0, 1]]);
    let empty = Archetype::new(vec![]);
    assert!(query.get_fetch(&empty, 0).is_none());
    assert_eq!(query.access(&empty), None);
}

#[test]
fn dynamic_query_rust_types() {
    let _ = (A, B);
    let mut query = DynamicQuery::new();
    assert!(query.push_rust::<A>());
    assert!(query.push_rust_mut::<B>());
    assert!(!query.push_rust::<B>());
    query.push_type_info(TypeInfo::of::<C>());
    assert!(query.info_collides(&TypeInfo::of::<C>()));
}

#[test]
fn query_archetype_access() {
    let _ = (A, B, C);
    let a = (TypeInfo::of::<A>(), Vec::new());
    let b = (TypeInfo::of::<B>(), Vec::new());
    let c = (TypeInfo::of::<C>(), Vec::new());
    let mut world = World::new();
    let e1 = world.spawn(Entity::from_id(1), vec![a.clone()]);
    let e2 = world.spawn(Entity::from_id(2), vec![a.clone(), b.clone()]);
    let e3 = world.spawn(Entity::from_id(3), vec![a.clone(), b.clone(), c.clone()]);

    let read_a = QueryTerm::Fetch(Fetch::Read(FetchRead { id: a.0.id }));
    let mut access = ArchetypeAccess::default();
    access.set_access_for_query(world.archetypes(), &Query::new(vec![read_a]));
    assert!(access.reads_archetype(e1.archetype));
    assert!(access.reads_archetype(e2.archetype));
    assert!(access.reads_archetype(e3.archetype));

    let read_a = QueryTerm::Fetch(Fetch::Read(FetchRead { id: a.0.id }));
    let read_b = QueryTerm::Fetch(Fetch::Read(FetchRead { id: b.0.id }));
    let mut access = ArchetypeAccess::default();
    access.set_access_for_query(world.archetypes(), &Query::new(vec![read_a, read_b]));
    assert!(access.reads_archetype(e1.archetype) == false);
    assert!(access.reads_archetype(e2.archetype));
    assert!(access.reads_archetype(e3.archetype));
}

#[test]
fn access_conflicts_between_units() {
    let a = ext(1, 1);
    let b = ext(2, 1);
    let c = ext(3, 1);
    let mut world = World::new();
    world.spawn(Entity::from_id(1), vec![(a, vec![0]), (b, vec![0])]);
    world.spawn(Entity::from_id(2), vec![(c, vec![0])]);
    let archs = world.archetypes();
    let term = |f| QueryTerm::Fetch(f);
    let mut u1 = ArchetypeAccess::new();
    u1.set_access_for_query(
        archs,
        &Query::new(vec![term(Fetch::Write(FetchMut { id: a.id })), term(Fetch::Read(FetchRead { id: b.id }))]),
    );
    let mut u2 = ArchetypeAccess::new();
    u2.set_access_for_query(archs, &Query::new(vec![term(Fetch::Read(FetchRead { id: a.id }))]));
    let mut u3 = ArchetypeAccess::new();
    u3.set_access_for_query(archs, &Query::new(vec![term(Fetch::Write(FetchMut { id: c.id }))]));
    assert!(u1.writes_archetype(0));
    assert!(!u1.writes_archetype(1));
    assert!(!u1.is_compatible(&u2));
    assert!(!u2.is_compatible(&u1));
    assert!(u1.is_compatible(&u3));
    assert!(u3.is_compatible(&u1));
    assert!(u2.is_compatible(&u3));
    let mut all = ArchetypeAccess::new();
    all.union(&u2);
    all.union(&u3);
    assert!(all.reads_archetype(0) && all.writes_archetype(1));
    assert!(!all.is_compatible(&u1));
    all.clear();
    assert!(!all.reads_archetype(0) && !all.writes_archetype(1));
    assert!(all.is_compatible(&u1));
}

#[test]
fn resource_access_conflicts() {
    let a = ComponentId::ExternalId(1);
    let b = ComponentId::ExternalId(2);
    let c = ComponentId::ExternalId(3);
    let mut first = TypeAccess::default();
    first.add_read(a);
    first.add_write(b);
    first.add_read(c);
    let mut second = TypeAccess::new();
    second.add_read(a);
    second.add_read(c);
    assert!(first.is_compatible(&second));
    second.add_read(b);
    assert!(!first.is_compatible(&second));
    let mut third = TypeAccess::new();
    third.union(&second);
    assert!(!third.is_compatible(&first));
    third.clear();
    assert!(third.is_compatible(&first));
}

#[test]
fn system_ids_and_execution() {
    let id = SystemId::new();
    assert_eq!(id, SystemId(id.0));
    assert_ne!(ThreadLocalExecution::Immediate, ThreadLocalExecution::NextFlush);
}

#[test]
fn spawning_same_signature_reuses_archetype() {
    let a = ext(1, 1);
    let b = ext(2, 1);
    let mut world = World::new();
    let l1 = world.spawn(Entity::from_id(1), vec![(a, vec![1]), (b, vec![2])]);
    let l2 = world.spawn(Entity::from_id(2), vec![(b, vec![3]), (a, vec![4])]);
    assert_eq!(world.archetypes().len(), 1);
    assert_eq!(l1.archetype, l2.archetype);
    assert_eq!(l2.index, 1);
    let l3 = world.spawn(Entity::from_id(3), vec![(a, vec![5])]);
    assert_eq!(world.archetypes().len(), 2);
    assert_eq!(l3.archetype, 1);
    assert_eq!(world.find_archetype(&vec![b.id, a.id]), Some(0));
    assert_eq!(world.find_archetype(&vec![b.id]), None);
    assert_eq!(world.despawn(l1), Some(Entity::from_id(2)));
    assert_eq!(world.archetypes()[0].len(), 1);
    assert_eq!(world.archetypes()[0].get_value(0, a.id), Some(&vec![4]));
}

#[test]
#[should_panic(expected = "Component already added to query")]
fn invalid_query_panics() {
    // Create a external component ids
    const ID1: u64 = 242237625853274575;
    const ID2: u64 = 6820197023594215835;

    let mut query = DynamicQuery::new();

    let info1 = DynamicComponentInfo { id: ID1, size: 16, align: 4 };
    let info2 = DynamicComponentInfo { id: ID2, size: 4, align: 1 };

    // Adding a component twice is a contract violation: callers check and fail fast
    let push = |q: &mut DynamicQuery, info: DynamicComponentInfo, write: bool| {
        if q.info_collides(&info.into_type_info()) {
            panic!("Component already added to query: {:?}", info);
        }
        if write {
            q.push_dynamic_mut(info);
        } else {
            q.push_dynamic(info);
        }
    };

    // Add immutable query for info1 ( fine )
    push(&mut query, info1, false);
    // Add mutable query for info2 ( fine )
    push(&mut query, info2, true);
    // Add mutable query for info1 ( not fine, already in immutable query )
    push(&mut query, info1, true);
}
