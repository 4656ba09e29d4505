use crate::archetype::col_of;
use crate::component::{ComponentId, Entity, Location, MissingComponent};
use crate::system::ArchetypeAccess;
use crate::archetype::same_col;
use crate::query::Query;
use crate::storage::release_fold;
use crate::world::{borrowed_from, unchanged_from, World};
use vstd::prelude::*;

verus! {

/// Why a checked lookup failed.
#[derive(Debug, Clone, Copy)]
pub enum QueryError {
    /// The system may not read the entity's archetype
    CannotReadArchetype,
    /// The system may not write the entity's archetype
    CannotWriteArchetype,
    /// The entity lacks the component
    ComponentError(MissingComponent),
    /// No row lives at the location
    NoSuchEntity,
}

/// Lookups of single entities on behalf of a system, checked against the archetypes the
/// system declared it reads and writes.
#[derive(Debug)]
pub struct GenericQuery<'w> {
    pub archetype_access: &'w ArchetypeAccess,
}

/// A row exists at `location`.
pub open spec fn valid_location(world: World, location: Location) -> bool {
    &&& location.archetype < world.archs().len()
    &&& location.index < world.archs()[location.archetype as int].n()
}

/// The access lets the system read archetype `i`.
pub open spec fn may_read(access: ArchetypeAccess, i: usize) -> bool {
    access.reads().contains(i as nat) || access.writes().contains(i as nat)
}

/// A checked handle on the row of one entity, through which a query is run once.
#[derive(Debug)]
pub struct QueryOneChecked {
    pub location: Location,
    pub entity: Entity,
    borrowed: bool,
}

impl QueryOneChecked {
    /// Whether the handle holds the borrows of its query.
    pub closed spec fn spec_borrowed(&self) -> bool {
        self.borrowed
    }

    /// The row the handle is for.
    pub closed spec fn spec_location(&self) -> Location {
        self.location
    }

    /// The entity of that row.
    pub closed spec fn spec_entity(&self) -> Entity {
        self.entity
    }

    /// Whether the handle holds the borrows of its query.
    pub fn is_borrowed(&self) -> (r: bool)
        ensures
            r == self.spec_borrowed(),
    {
        self.borrowed
    }

    /// Runs `query` on the handle's row: when the query matches the row's archetype and its
    /// borrows can all be taken there, takes them and yields the (archetype, row) pair;
    /// otherwise yields nothing and takes nothing. A handle runs once.
    pub fn get(&mut self, world: &mut World, query: &Query) -> (r: Option<(usize, usize)>)
        requires
            !old(self).spec_borrowed(),
            old(world).wf(),
            valid_location(*old(world), old(self).spec_location()),
        ensures
            final(world).wf(),
            final(self).spec_location() == old(self).spec_location(),
            final(self).spec_entity() == old(self).spec_entity(),
            final(world).archs().len() == old(world).archs().len(),
            forall|i: int| 0 <= i < old(world).archs().len() && i != old(self).spec_location().archetype ==> #[trigger] final(world).archs()[i] == old(world).archs()[i],
            ({
                let l = old(self).spec_location();
                let a = old(world).archs()[l.archetype as int];
                let f = final(world).archs()[l.archetype as int];
                &&& r is Some <==> query.spec_matches(a.ids()) && a.can_take(query.spec_requests())
                &&& r is Some ==> r == Some((l.archetype, l.index)) && final(self).spec_borrowed() && borrowed_from(f, a, query.spec_requests())
                &&& r is None ==> !final(self).spec_borrowed() && unchanged_from(f, a)
            }),
    {
        let l = self.location;
        proof {
            assert(world.archs()[l.archetype as int].wf());
        }
        if !query.matches(&world.archetypes()[l.archetype]) {
            proof {
                let a = world.archs()[l.archetype as int];
                assert forall|c: int| 0 <= c < a.columns().len() implies same_col(#[trigger] a.columns()[c], a.columns()[c]) by {}
            }
            return None;
        }
        if world.borrow_archetype(l.archetype, query) {
            self.borrowed = true;
            Some((l.archetype, l.index))
        } else {
            None
        }
    }

    /// Gives back the borrows the handle took.
    pub fn release(&mut self, world: &mut World, query: &Query)
        requires
            old(self).spec_borrowed(),
            old(world).wf(),
            old(self).spec_location().archetype < old(world).archs().len(),
            forall|c: int| 0 <= c < old(world).archs()[old(self).spec_location().archetype as int].columns().len() ==> release_fold(
                (#[trigger] old(world).archs()[old(self).spec_location().archetype as int].columns()[c]).meta_view().borrow_count(),
                query.spec_requests(),
                old(world).archs()[old(self).spec_location().archetype as int].ids()[c],
            ) is Some,
        ensures
            final(world).wf(),
            !final(self).spec_borrowed(),
            final(self).spec_location() == old(self).spec_location(),
            final(world).archs().len() == old(world).archs().len(),
            forall|i: int| 0 <= i < old(world).archs().len() && i != old(self).spec_location().archetype ==> #[trigger] final(world).archs()[i] == old(world).archs()[i],
            forall|c: int| 0 <= c < old(world).archs()[old(self).spec_location().archetype as int].columns().len() ==> {
                let col = #[trigger] final(world).archs()[old(self).spec_location().archetype as int].columns()[c];
                let o = old(world).archs()[old(self).spec_location().archetype as int].columns()[c];
                &&& col.rows() == o.rows()
                &&& col.meta_view().borrow_count() == release_fold(o.meta_view().borrow_count(), query.spec_requests(), old(world).archs()[old(self).spec_location().archetype as int].ids()[c])->Some_0
            },
    {
        world.release_archetype(self.location.archetype, query);
        self.borrowed = false;
    }
}

impl<'w> GenericQuery<'w> {
    /// Lookups checked against `archetype_access`.
    pub fn new(archetype_access: &'w ArchetypeAccess) -> (r: GenericQuery<'w>)
        ensures
            r.archetype_access == archetype_access,
    {
        GenericQuery { archetype_access }
    }

    /// Whether the row at `location` exists and may be read.
    fn check_read(&self, world: &World, location: Location) -> (r: Result<(), QueryError>)
        requires
            world.wf(),
        ensures
            !valid_location(*world, location) ==> r == Err::<(), QueryError>(QueryError::NoSuchEntity),
            valid_location(*world, location) && !may_read(*self.archetype_access, location.archetype) ==> r
                == Err::<(), QueryError>(QueryError::CannotReadArchetype),
            valid_location(*world, location) && may_read(*self.archetype_access, location.archetype) ==> r is Ok,
    {
        if location.archetype >= world.archetypes().len() || location.index >= world.archetypes()[location.archetype].len() {
            return Err(QueryError::NoSuchEntity);
        }
        if self.archetype_access.reads_archetype(location.archetype) || self.archetype_access.writes_archetype(location.archetype) {
            Ok(())
        } else {
            Err(QueryError::CannotReadArchetype)
        }
    }

    /// The bytes of component `id` of the row at `location`. Fails when no row lives there,
    /// when the system may not read its archetype, or when the row lacks the component.
    pub fn get<'a>(&self, world: &'a World, location: Location, id: ComponentId) -> (r: Result<&'a Vec<u8>, QueryError>)
        requires
            world.wf(),
        ensures
            !valid_location(*world, location) ==> r matches Err(QueryError::NoSuchEntity),
            valid_location(*world, location) && !may_read(*self.archetype_access, location.archetype) ==> r matches Err(QueryError::CannotReadArchetype),
            valid_location(*world, location) && may_read(*self.archetype_access, location.archetype) ==> {
                let a = world.archs()[location.archetype as int];
                &&& !a.ids().contains(id) ==> (r matches Err(QueryError::ComponentError(e)) && e.id == id)
                &&& a.ids().contains(id) ==> (r matches Ok(v) && v@ == col_of(a, id).rows()[location.index as int])
            },
    {
        match self.check_read(world, location) {
            Err(e) => Err(e),
            Ok(()) => {
                let a = &world.archetypes()[location.archetype];
                proof {
                    assert(world.archs()[location.archetype as int].wf());
                }
                match a.get_storage_dynamic(id) {
                    Some(col) => Ok(col.get_value(location.index)),
                    None => Err(QueryError::ComponentError(MissingComponent::new(id))),
                }
            },
        }
    }

    /// A handle on the row at `location`. Fails when no row lives there or when the system
    /// may not read its archetype.
    pub fn entity(&self, world: &World, location: Location) -> (r: Result<QueryOneChecked, QueryError>)
        requires
            world.wf(),
        ensures
            !valid_location(*world, location) ==> r matches Err(QueryError::NoSuchEntity),
            valid_location(*world, location) && !may_read(*self.archetype_access, location.archetype) ==> r matches Err(QueryError::CannotReadArchetype),
            valid_location(*world, location) && may_read(*self.archetype_access, location.archetype) ==> (r matches Ok(h)
                && h.spec_location() == location && h.spec_entity() == world.archs()[location.archetype as int].entity_rows()[location.index as int]
                && !h.spec_borrowed()),
    {
        match self.check_read(world, location) {
            Err(e) => Err(e),
            Ok(()) => {
                let entity = world.archetypes()[location.archetype].get_entity(location.index);
                Ok(QueryOneChecked { location, entity, borrowed: false })
            },
        }
    }

    /// Writes `value` over component `id` of the row at `location`, marking it mutated.
    /// Fails, changing nothing, when no row lives there, when the system may not write its
    /// archetype, or when the row lacks the component.
    pub fn set(&self, world: &mut World, location: Location, id: ComponentId, value: Vec<u8>) -> (r: Result<(), QueryError>)
        requires
            old(world).wf(),
            valid_location(*old(world), location) ==> forall|c: int| 0 <= c < old(world).archs()[location.archetype as int].ids().len()
                && old(world).archs()[location.archetype as int].ids()[c] == id
                ==> value@.len() == #[trigger] old(world).archs()[location.archetype as int].infos()[c].size,
        ensures
            final(world).wf(),
            !valid_location(*old(world), location) ==> r matches Err(QueryError::NoSuchEntity),
            valid_location(*old(world), location) && !self.archetype_access.writes().contains(location.archetype as nat) ==> r matches Err(QueryError::CannotWriteArchetype),
            valid_location(*old(world), location) && self.archetype_access.writes().contains(location.archetype as nat) ==> {
                let a = old(world).archs()[location.archetype as int];
                let f = final(world).archs()[location.archetype as int];
                &&& !a.ids().contains(id) ==> (r matches Err(QueryError::ComponentError(e)) && e.id == id)
                &&& a.ids().contains(id) ==> r is Ok && col_of(f, id).rows() == col_of(a, id).rows().update(location.index as int, value@)
                    && col_of(f, id).meta_view().mutated() == col_of(a, id).meta_view().mutated().update(location.index as int, true)
            },
            r is Err ==> *final(world) == *old(world),
    {
        if location.archetype >= world.archetypes().len() || location.index >= world.archetypes()[location.archetype].len() {
            return Err(QueryError::NoSuchEntity);
        }
        if !self.archetype_access.writes_archetype(location.archetype) {
            return Err(QueryError::CannotWriteArchetype);
        }
        let ghost a = world.archs()[location.archetype as int];
        if !world.archetypes()[location.archetype].has_type(id) {
            return Err(QueryError::ComponentError(MissingComponent::new(id)));
        }
        let r = world.set(location, id, value);
        proof {
            let f = world.archs()[location.archetype as int];
            let c = choose|c: int| 0 <= c < a.ids().len() && a.ids()[c] == id;
            crate::archetype::lemma_col_of(a, id, c);
            assert(f.ids() =~= a.ids());
            crate::archetype::lemma_col_of(f, id, c);
        }
        match r {
            Ok(()) => Ok(()),
            Err(e) => Err(QueryError::ComponentError(e)),
        }
    }
}

} // verus!
