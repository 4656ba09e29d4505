use core::any::TypeId;
use vstd::prelude::*;

verus! {

#[verifier::external_type_specification]
#[verifier::external_body]
pub struct ExTypeId(TypeId);

/// Relies on `TypeId::of`: an identifier for `T`, about which nothing more is claimed.
pub assume_specification<T: ?Sized + 'static>[ TypeId::of::<T> ]() -> (r: TypeId);

/// Relies on `TypeId`'s `==`: two ids compare equal exactly when they are the same id.
pub assume_specification[ <TypeId as PartialEq>::eq ](a: &TypeId, b: &TypeId) -> (r: bool)
    ensures
        r == (*a == *b),
;

/// Identifies a kind of component: a Rust type, or an id registered from outside.
#[derive(Debug, Clone, Copy, Hash)]
pub enum ComponentId {
    /// A component that is a Rust type
    RustTypeId(TypeId),
    /// A component registered at run time under a 64-bit id
    ExternalId(u64),
}

impl PartialEq for ComponentId {
    fn eq(&self, other: &ComponentId) -> (r: bool) {
        match (self, other) {
            (ComponentId::RustTypeId(a), ComponentId::RustTypeId(b)) => *a == *b,
            (ComponentId::ExternalId(a), ComponentId::ExternalId(b)) => *a == *b,
            _ => false,
        }
    }
}

impl vstd::std_specs::cmp::PartialEqSpecImpl for ComponentId {
    open spec fn obeys_eq_spec() -> bool {
        true
    }

    open spec fn eq_spec(&self, other: &ComponentId) -> bool {
        *self == *other
    }
}

impl Eq for ComponentId {
}

/// Exact equality of component ids.
pub fn same_id(a: ComponentId, b: ComponentId) -> (r: bool)
    ensures
        r == (a == b),
{
    match (a, b) {
        (ComponentId::RustTypeId(x), ComponentId::RustTypeId(y)) => x == y,
        (ComponentId::ExternalId(x), ComponentId::ExternalId(y)) => x == y,
        _ => false,
    }
}

/// Metadata of a component kind: its id and the size and alignment of one value.
#[derive(Debug, Clone, Copy)]
pub struct TypeInfo {
    pub id: ComponentId,
    pub size: usize,
    pub align: usize,
}

impl TypeInfo {
    /// The metadata of the Rust type `T`.
    pub fn of<T: 'static>() -> (r: TypeInfo)
        ensures
            r.size as nat == vstd::layout::size_of::<T>(),
            r.align as nat == vstd::layout::align_of::<T>(),
            r.id is RustTypeId,
    {
        TypeInfo {
            id: ComponentId::RustTypeId(TypeId::of::<T>()),
            size: core::mem::size_of::<T>(),
            align: core::mem::align_of::<T>(),
        }
    }

    /// The id of the component kind.
    pub fn id(&self) -> (r: ComponentId)
        ensures
            r == self.id,
    {
        self.id
    }
}

/// Type information about a component registered at run time.
#[derive(Debug, Clone, Copy)]
pub struct DynamicComponentInfo {
    /// The external component id
    pub id: u64,
    /// The size of one value, in bytes
    pub size: usize,
    /// The alignment of one value, in bytes
    pub align: usize,
}

impl DynamicComponentInfo {
    /// The metadata under which values of this component are stored.
    pub fn into_type_info(self) -> (r: TypeInfo)
        ensures
            r.id == ComponentId::ExternalId(self.id),
            r.size == self.size,
            r.align == self.align,
    {
        TypeInfo { id: ComponentId::ExternalId(self.id), size: self.size, align: self.align }
    }
}

/// Opaque identity of an entity, handed out by the entity allocator.
#[derive(Debug, Clone, Copy, PartialEq, Eq, Structural, Hash)]
pub struct Entity {
    pub id: u64,
}

impl Entity {
    /// The entity with the given id.
    pub fn from_id(id: u64) -> (r: Entity)
        ensures
            r.id == id,
    {
        Entity { id }
    }
}

/// Where an entity's row lives: an archetype index and a row index in it.
#[derive(Debug, Clone, Copy, PartialEq, Eq, Structural)]
pub struct Location {
    pub archetype: usize,
    pub index: usize,
}

/// Error indicating that an entity did not have a required component.
#[derive(Debug, Clone, Copy)]
pub struct MissingComponent {
    pub id: ComponentId,
}

impl MissingComponent {
    /// An error representing a missing component of kind `id`.
    pub fn new(id: ComponentId) -> (r: MissingComponent)
        ensures
            r.id == id,
    {
        MissingComponent { id }
    }
}

/// Whether `id` occurs in `ids`.
pub fn contains_id(ids: &Vec<ComponentId>, id: ComponentId) -> (r: bool)
    ensures
        r == ids@.contains(id),
{
    let mut i: usize = 0;
    while i < ids.len()
        invariant
            i <= ids@.len(),
            forall|k: int| 0 <= k < i ==> ids@[k] != id,
        decreases ids@.len() - i,
    {
        if same_id(ids[i], id) {
            return true;
        }
        i = i + 1;
    }
    false
}

} // verus!
