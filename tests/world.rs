use std::collections::HashMap;

use bevy_hecs::{
    ComponentId, Entity, EntityFetch, Fetch, FetchAdded, FetchMut, FetchMutated, Location, Query,
    QueryBorrow, QueryTerm, TypeInfo, World,
};

struct A(usize);
struct B(usize);
struct BFn;
struct C;

fn id_of<T: 'static>() -> ComponentId {
    TypeInfo::of::<T>().id
}

fn a(v: usize) -> (TypeInfo, Vec<u8>) {
    let _ = A(v);
    (TypeInfo::of::<A>(), v.to_le_bytes().to_vec())
}

fn b(v: usize) -> (TypeInfo, Vec<u8>) {
    let _ = B(v);
    (TypeInfo::of::<B>(), v.to_le_bytes().to_vec())
}

fn b_fn() -> (TypeInfo, Vec<u8>) {
    let _ = BFn;
    (TypeInfo::of::<BFn>(), Vec::new())
}

fn c() -> (TypeInfo, Vec<u8>) {
    let _ = C;
    (TypeInfo::of::<C>(), Vec::new())
}

/// Entity locations, kept up to date as the store reports relocations.
struct Index {
    world: World,
    at: HashMap<Entity, Location>,
    next: u64,
}

impl Index {
    fn new() -> Self {
        Index { world: World::new(), at: HashMap::new(), next: 1 }
    }

    fn spawn(&mut self, components: Vec<(TypeInfo, Vec<u8>)>) -> Entity {
        let e = Entity::from_id(self.next);
        self.next += 1;
        let loc = self.world.spawn(e, components);
        self.at.insert(e, loc);
        e
    }

    fn insert(&mut self, e: Entity, components: Vec<(TypeInfo, Vec<u8>)>) {
        let old = self.at[&e];
        let (loc, moved) = self.world.insert(old, components);
        self.at.insert(e, loc);
        if let Some(m) = moved {
            self.at.insert(m, old);
        }
    }

    fn despawn(&mut self, e: Entity) {
        let old = self.at.remove(&e).unwrap();
        if let Some(m) = self.world.despawn(old) {
            self.at.insert(m, old);
        }
    }
}

fn get_added<T: 'static>(world: &World) -> Vec<Entity> {
    world.query_entities(&Query::new(vec![
        QueryTerm::Fetch(Fetch::Added(FetchAdded { id: id_of::<T>() })),
        QueryTerm::Fetch(Fetch::Entity(EntityFetch)),
    ]))
}

fn get_changed_a(world: &World) -> Vec<Entity> {
    world.query_entities(&Query::new(vec![
        QueryTerm::Fetch(Fetch::Mutated(FetchMutated { id: id_of::<A>() })),
        QueryTerm::Fetch(Fetch::Entity(EntityFetch)),
    ]))
}

#[test]
fn added_queries() {
    let mut w = Index::new();
    let e1 = w.spawn(vec![a(0)]);

    assert_eq!(get_added::<A>(&w.world), vec![e1]);
    w.insert(e1, vec![b(0)]);
    assert_eq!(get_added::<A>(&w.world), vec![e1]);
    assert_eq!(get_added::<B>(&w.world), vec![e1]);

    w.world.clear_trackers();
    assert!(get_added::<A>(&w.world).is_empty());
    let e2 = w.spawn(vec![a(1), b(1)]);
    assert_eq!(get_added::<A>(&w.world), vec![e2]);
    assert_eq!(get_added::<B>(&w.world), vec![e2]);

    let added = w.world.query_entities(&Query::new(vec![
        QueryTerm::Fetch(Fetch::Entity(EntityFetch)),
        QueryTerm::Fetch(Fetch::Added(FetchAdded { id: id_of::<A>() })),
        QueryTerm::Fetch(Fetch::Added(FetchAdded { id: id_of::<B>() })),
    ]));
    assert_eq!(added, vec![e2]);
}

#[test]
fn mutated_trackers() {
    let mut w = Index::new();
    let e1 = w.spawn(vec![a(0), b(0)]);
    let e2 = w.spawn(vec![a(0), b(0)]);
    let e3 = w.spawn(vec![a(0), b(0)]);
    w.spawn(vec![a(0), b_fn()]);

    let mut borrow = QueryBorrow::new(Query::new(vec![QueryTerm::Fetch(Fetch::Write(FetchMut { id: id_of::<A>() }))]));
    let rows = borrow.iter(w.world.archetypes());
    for (i, (arch, row)) in rows.into_iter().enumerate() {
        if i % 2 == 0 {
            let loc = Location { archetype: arch, index: row };
            let mut bytes = [0u8; 8];
            bytes.copy_from_slice(w.world.archetypes()[arch].get_value(row, id_of::<A>()).unwrap());
            let v = usize::from_le_bytes(bytes) + 1;
            w.world.set(loc, id_of::<A>(), v.to_le_bytes().to_vec()).unwrap();
        }
    }

    assert_eq!(get_changed_a(&w.world), vec![e1, e3]);

    // ensure changing an entity's archetypes also moves its mutated state
    w.insert(e1, vec![c()]);

    assert_eq!(get_changed_a(&w.world), vec![e3, e1], "changed entities list should not change (although the order will due to archetype moves)");

    // spawning a new A entity should not change existing mutated state
    w.insert(e1, vec![a(0), b_fn()]);
    assert_eq!(
        get_changed_a(&w.world),
        vec![e3, e1],
        "changed entities list should not change"
    );

    // removing an unchanged entity should not change mutated state
    w.despawn(e2);
    assert_eq!(
        get_changed_a(&w.world),
        vec![e3, e1],
        "changed entities list should not change"
    );

    // removing a changed entity should remove it from enumeration
    w.despawn(e1);
    assert_eq!(
        get_changed_a(&w.world),
        vec![e3],
        "e1 should no longer be returned"
    );

    w.world.clear_trackers();

    assert!(get_changed_a(&w.world).is_empty());
}

#[test]
fn insert_moves_entity_and_keeps_values() {
    let mut w = Index::new();
    let e1 = w.spawn(vec![a(7), b(8)]);
    let e2 = w.spawn(vec![a(1), b(2)]);
    w.insert(e1, vec![c()]);
    assert_eq!(w.world.archetypes().len(), 2);
    let l1 = w.at[&e1];
    assert_eq!(l1.archetype, 1);
    let arch = &w.world.archetypes()[1];
    assert_eq!(arch.get_entity(l1.index), e1);
    assert_eq!(arch.get_value(l1.index, id_of::<A>()), Some(&7usize.to_le_bytes().to_vec()));
    assert_eq!(arch.get_value(l1.index, id_of::<B>()), Some(&8usize.to_le_bytes().to_vec()));
    // e2 was moved into the vacated row
    assert_eq!(w.at[&e2], Location { archetype: 0, index: 0 });
    assert_eq!(w.world.archetypes()[0].get_entity(0), e2);
    // replacing a value in place keeps the row where it is
    w.insert(e2, vec![a(3)]);
    assert_eq!(w.at[&e2], Location { archetype: 0, index: 0 });
    assert_eq!(w.world.archetypes()[0].get_value(0, id_of::<A>()), Some(&3usize.to_le_bytes().to_vec()));
}
