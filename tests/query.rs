use bevy_hecs::{
    Access, ComponentId, Entity, EntityFetch, Fetch, FetchAdded, FetchChanged, FetchMut,
    FetchMutated, FetchOr, FetchRead, FetchWith, FetchWithout, Location, Query, QueryBorrow,
    QueryTerm, TryFetch, TypeInfo, World,
};

struct A(usize);
struct B(usize);
struct C;

fn id_of<T: 'static>() -> ComponentId {
    TypeInfo::of::<T>().id
}

fn usize_bytes(v: usize) -> Vec<u8> {
    v.to_le_bytes().to_vec()
}

fn read_usize(bytes: &[u8]) -> usize {
    let mut b = [0u8; 8];
    b.copy_from_slice(&bytes[..8]);
    usize::from_le_bytes(b)
}

fn a(v: usize) -> (TypeInfo, Vec<u8>) {
    let _ = A(v);
    (TypeInfo::of::<A>(), usize_bytes(v))
}

fn b(v: usize) -> (TypeInfo, Vec<u8>) {
    let _ = B(v);
    (TypeInfo::of::<B>(), usize_bytes(v))
}

fn c() -> (TypeInfo, Vec<u8>) {
    let _ = C;
    (TypeInfo::of::<C>(), Vec::new())
}

fn entity(id: u64) -> Entity {
    Entity::from_id(id)
}

fn term(f: Fetch) -> QueryTerm {
    QueryTerm::Fetch(f)
}

fn entity_term() -> QueryTerm {
    term(Fetch::Entity(EntityFetch))
}

fn mutated<T: 'static>() -> Fetch {
    Fetch::Mutated(FetchMutated { id: id_of::<T>() })
}

fn added<T: 'static>() -> Fetch {
    Fetch::Added(FetchAdded { id: id_of::<T>() })
}

fn changed<T: 'static>() -> Fetch {
    Fetch::Changed(FetchChanged { id: id_of::<T>() })
}

fn write<T: 'static>() -> Fetch {
    Fetch::Write(FetchMut { id: id_of::<T>() })
}

fn read<T: 'static>() -> Fetch {
    Fetch::Read(FetchRead { id: id_of::<T>() })
}

fn entities_of(world: &World, terms: Vec<QueryTerm>) -> Vec<Entity> {
    world.query_entities(&Query::new(terms))
}

/// Runs a write query and adds one to component `A` of the rows whose position in the
/// iteration `pick` accepts.
fn bump<T: 'static>(world: &mut World, pick: impl Fn(usize) -> bool) {
    let mut borrow = QueryBorrow::new(Query::new(vec![term(write::<T>())]));
    let rows = borrow.iter(world.archetypes());
    for (i, (arch, row)) in rows.into_iter().enumerate() {
        if pick(i) {
            let col = world.archetypes()[arch].get_storage_dynamic(id_of::<T>()).unwrap();
            let v = read_usize(col.get_value(row));
            let loc = Location { archetype: arch, index: row };
            world.set(loc, id_of::<T>(), usize_bytes(v + 1)).unwrap();
        }
    }
}

#[test]
fn access_order() {
    assert!(Access::Write > Access::Read);
    assert!(Access::Read > Access::Iterate);
    assert!(Some(Access::Iterate) > None);
}

#[test]
fn multiple_mutated_query() {
    let mut world = World::new();
    world.spawn(entity(1), vec![a(0), b(0)]);
    let e2 = entity(2);
    world.spawn(e2, vec![a(0), b(0)]);
    world.spawn(entity(3), vec![a(0), b(0)]);

    bump::<A>(&mut world, |_| true);
    bump::<B>(&mut world, |i| i == 1);

    let a_b_changed = entities_of(
        &world,
        vec![term(mutated::<A>()), term(mutated::<B>()), entity_term()],
    );
    assert_eq!(a_b_changed, vec![e2]);
}

#[test]
fn or_mutated_query() {
    let mut world = World::new();
    let e1 = entity(1);
    let e2 = entity(2);
    let e3 = entity(3);
    world.spawn(e1, vec![a(0), b(0)]);
    world.spawn(e2, vec![a(0), b(0)]);
    world.spawn(e3, vec![a(0), b(0)]);
    world.spawn(entity(4), vec![a(0), b(0)]);

    // Mutate A in entities e1 and e2
    bump::<A>(&mut world, |i| i < 2);
    // Mutate B in entities e2 and e3
    bump::<B>(&mut world, |i| i == 1 || i == 2);

    let a_b_changed = entities_of(
        &world,
        vec![
            QueryTerm::Or(FetchOr { branches: vec![mutated::<A>(), mutated::<B>()] }),
            entity_term(),
        ],
    );
    // e1 has mutated A, e3 has mutated B, e2 has mutated A and B, e4 has no mutated component
    assert_eq!(a_b_changed, vec![e1, e2, e3]);
}

#[test]
fn changed_query() {
    let mut world = World::new();
    let e1 = entity(1);
    let loc = world.spawn(e1, vec![a(0), b(0)]);

    let get_changed =
        |world: &World| entities_of(world, vec![term(changed::<A>()), entity_term()]);
    assert_eq!(get_changed(&world), vec![e1]);
    world.clear_trackers();
    assert_eq!(get_changed(&world), vec![]);
    world.set(loc, id_of::<A>(), usize_bytes(1)).unwrap();
    assert_eq!(get_changed(&world), vec![e1]);
}

#[test]
fn mutated_query_after_clear_trackers() {
    // e1={A:0,B:0}, e2={A:0,B:0}; mutate A on e1 only
    let mut world = World::new();
    let e1 = entity(1);
    let e2 = entity(2);
    let l1 = world.spawn(e1, vec![a(0), b(0)]);
    world.spawn(e2, vec![a(0), b(0)]);
    world.set(l1, id_of::<A>(), usize_bytes(5)).unwrap();
    let query = || vec![term(mutated::<A>()), entity_term()];
    assert_eq!(entities_of(&world, query()), vec![e1]);
    world.clear_trackers();
    assert_eq!(entities_of(&world, query()), vec![]);
}

#[test]
fn added_flags_follow_spawns_and_epochs() {
    let mut world = World::new();
    let e1 = entity(1);
    world.spawn(e1, vec![a(0)]);
    assert_eq!(entities_of(&world, vec![term(added::<A>()), entity_term()]), vec![e1]);
    world.clear_trackers();
    assert!(entities_of(&world, vec![term(added::<A>()), entity_term()]).is_empty());
    let e2 = entity(2);
    world.spawn(e2, vec![a(1), b(1)]);
    assert_eq!(entities_of(&world, vec![term(added::<A>()), entity_term()]), vec![e2]);
    assert_eq!(entities_of(&world, vec![term(added::<B>()), entity_term()]), vec![e2]);
    assert_eq!(
        entities_of(&world, vec![entity_term(), term(added::<A>()), term(added::<B>())]),
        vec![e2]
    );
}

#[test]
fn written_row_alone_is_mutated() {
    let mut world = World::new();
    let mut locs = Vec::new();
    for i in 0..4u64 {
        locs.push(world.spawn(entity(i), vec![a(0), b(0)]));
    }
    world.set(locs[2], id_of::<A>(), usize_bytes(9)).unwrap();
    assert_eq!(entities_of(&world, vec![term(mutated::<A>()), entity_term()]), vec![entity(2)]);
    assert!(entities_of(&world, vec![term(mutated::<B>()), entity_term()]).is_empty());
}

#[test]
fn with_without_and_optional_terms() {
    let mut world = World::new();
    world.spawn(entity(1), vec![a(123), b(1)]);
    world.spawn(entity(2), vec![a(456)]);
    world.spawn(entity(3), vec![a(42), c()]);

    let with_b = entities_of(
        &world,
        vec![entity_term(), term(read::<A>()), QueryTerm::With(FetchWith { id: id_of::<B>() })],
    );
    assert_eq!(with_b, vec![entity(1)]);

    let without_b = entities_of(
        &world,
        vec![entity_term(), QueryTerm::Without(FetchWithout { id: id_of::<B>() })],
    );
    assert_eq!(without_b, vec![entity(2), entity(3)]);

    let optional_b = entities_of(
        &world,
        vec![entity_term(), QueryTerm::Optional(TryFetch { inner: read::<B>() })],
    );
    assert_eq!(optional_b.len(), 3);

    let needs_b = entities_of(&world, vec![entity_term(), term(read::<B>())]);
    assert_eq!(needs_b, vec![entity(1)]);
}

#[test]
fn query_borrow_with_and_without() {
    let mut world = World::new();
    world.spawn(entity(1), vec![a(1), c()]);
    world.spawn(entity(2), vec![a(2)]);
    let mut with = QueryBorrow::new(Query::new(vec![term(read::<A>())])).with(id_of::<C>());
    assert!(!with.is_borrowed());
    let rows = with.iter(world.archetypes());
    assert!(with.is_borrowed());
    assert_eq!(rows.len(), 1);
    assert_eq!(world.archetypes()[rows[0].0].get_entity(rows[0].1), entity(1));

    let mut without =
        QueryBorrow::new(Query::new(vec![term(read::<A>())])).without(id_of::<C>());
    let rows = without.iter(world.archetypes());
    assert_eq!(rows.len(), 1);
    assert_eq!(world.archetypes()[rows[0].0].get_entity(rows[0].1), entity(2));
}

#[test]
fn batches_never_cross_archetypes() {
    let mut world = World::new();
    for i in 0..5u64 {
        world.spawn(entity(i), vec![a(i as usize)]);
    }
    for i in 5..8u64 {
        world.spawn(entity(i), vec![a(i as usize), b(0)]);
    }
    let mut borrow = QueryBorrow::new(Query::new(vec![term(read::<A>())]));
    let batches = borrow.iter_batched(world.archetypes(), 2);
    let shape: Vec<(usize, usize, usize)> =
        batches.iter().map(|bt| (bt.archetype, bt.offset, bt.len)).collect();
    assert_eq!(shape, vec![(0, 0, 2), (0, 2, 2), (0, 4, 1), (1, 0, 2), (1, 2, 1)]);
    let query = Query::new(vec![term(read::<A>())]);
    let mut total = 0;
    for bt in batches.iter() {
        total += query.batch_rows(world.archetypes(), *bt).len();
    }
    assert_eq!(total, 8);
}

#[test]
fn query_access_levels() {
    let mut world = World::new();
    world.spawn(entity(1), vec![a(1), b(1)]);
    world.spawn(entity(2), vec![b(2)]);
    let arch_ab = &world.archetypes()[0];
    let arch_b = &world.archetypes()[1];
    let q = Query::new(vec![term(write::<A>()), term(read::<B>())]);
    assert_eq!(q.access(arch_ab), Some(Access::Write));
    assert_eq!(q.access(arch_b), None);
    let q = Query::new(vec![entity_term()]);
    assert_eq!(q.access(arch_b), Some(Access::Iterate));
    let q = Query::new(vec![QueryTerm::Optional(TryFetch { inner: write::<A>() })]);
    assert_eq!(q.access(arch_b), Some(Access::Iterate));
    assert_eq!(q.access(arch_ab), Some(Access::Write));
    let q = Query::new(vec![QueryTerm::Or(FetchOr { branches: vec![read::<B>(), write::<A>()] })]);
    assert_eq!(q.access(arch_ab), Some(Access::Write));
    assert_eq!(q.access(arch_b), Some(Access::Read));
}
