use crate::access::Access;
use crate::archetype::Archetype;
use crate::component::{contains_id, ComponentId};
use crate::query::Query;
use fixedbitset::FixedBitSet;
use vstd::prelude::*;

verus! {

#[verifier::external_type_specification]
#[verifier::external_body]
pub struct ExFixedBitSet(FixedBitSet);

/// The bits that are set in a bit set.
pub uninterp spec fn bits_of(b: FixedBitSet) -> Set<nat>;

/// The number of bits a bit set has room for.
pub uninterp spec fn bit_len(b: FixedBitSet) -> nat;

/// Relies on `FixedBitSet::with_capacity`: `bits` bits, all clear.
#[verifier::external_body]
fn bitset_with_capacity(bits: usize) -> (r: FixedBitSet)
    ensures
        bits_of(r) == Set::<nat>::empty(),
        bit_len(r) == bits,
{
    FixedBitSet::with_capacity(bits)
}

/// Relies on `FixedBitSet::grow`: room for at least `bits` bits, the new ones clear.
#[verifier::external_body]
fn bitset_grow(b: &mut FixedBitSet, bits: usize)
    ensures
        bits_of(*final(b)) == bits_of(*old(b)),
        bit_len(*final(b)) == (if bits > bit_len(*old(b)) { bits as nat } else { bit_len(*old(b)) }),
{
    b.grow(bits)
}

/// Relies on `FixedBitSet::insert`: sets one bit, which must be in range.
#[verifier::external_body]
fn bitset_insert(b: &mut FixedBitSet, bit: usize)
    requires
        bit < bit_len(*old(b)),
    ensures
        bits_of(*final(b)) == bits_of(*old(b)).insert(bit as nat),
        bit_len(*final(b)) == bit_len(*old(b)),
{
    b.insert(bit)
}

/// Relies on `FixedBitSet::contains`: whether a bit is set; bits out of range are clear.
#[verifier::external_body]
fn bitset_contains(b: &FixedBitSet, bit: usize) -> (r: bool)
    ensures
        r == bits_of(*b).contains(bit as nat),
{
    b.contains(bit)
}

/// Relies on `FixedBitSet::clear`: every bit becomes clear; the length stays.
#[verifier::external_body]
fn bitset_clear(b: &mut FixedBitSet)
    ensures
        bits_of(*final(b)) == Set::<nat>::empty(),
        bit_len(*final(b)) == bit_len(*old(b)),
{
    b.clear()
}

/// Relies on `FixedBitSet::is_disjoint`: whether no bit is set in both.
#[verifier::external_body]
fn bitset_is_disjoint(a: &FixedBitSet, b: &FixedBitSet) -> (r: bool)
    ensures
        r == bits_of(*a).disjoint(bits_of(*b)),
{
    a.is_disjoint(b)
}

/// Relies on `FixedBitSet::union_with`: adds the bits of `other`, growing to its length.
#[verifier::external_body]
fn bitset_union_with(b: &mut FixedBitSet, other: &FixedBitSet)
    ensures
        bits_of(*final(b)) == bits_of(*old(b)).union(bits_of(*other)),
        bit_len(*final(b)) == (if bit_len(*other) > bit_len(*old(b)) { bit_len(*other) } else { bit_len(*old(b)) }),
{
    b.union_with(other)
}

/// Two units of work may run at the same time: neither writes what the other touches.
pub open spec fn spec_compatible(a_read: Set<nat>, a_write: Set<nat>, b_read: Set<nat>, b_write: Set<nat>) -> bool {
    &&& a_write.disjoint(b_write)
    &&& a_write.disjoint(b_read)
    &&& a_read.disjoint(b_write)
}

/// Access conflicts are symmetric: `a` may run beside `b` exactly when `b` may run beside `a`.
pub proof fn lemma_compatible_symmetric(a_read: Set<nat>, a_write: Set<nat>, b_read: Set<nat>, b_write: Set<nat>)
    ensures
        spec_compatible(a_read, a_write, b_read, b_write) == spec_compatible(b_read, b_write, a_read, a_write),
{
}

/// Access conflicts: a unit that writes archetype `x` (and reads `y`) conflicts with a unit
/// that reads `x`; units that write disjoint archetypes `x` and `z` do not conflict.
pub proof fn lemma_conflict_rules(x: nat, y: nat, z: nat)
    requires
        x != z,
    ensures
        !spec_compatible(set![y], set![x], set![x], Set::<nat>::empty()),
        !spec_compatible(set![x], Set::<nat>::empty(), set![y], set![x]),
        spec_compatible(Set::<nat>::empty(), set![x], Set::<nat>::empty(), set![z]),
{
    assert(set![x].contains(x));
    assert(set![x].disjoint(set![z]));
}

/// The positions of the archetypes in `archs` that `q` accesses at level `level`.
pub open spec fn archetypes_at(q: Query, archs: Seq<Archetype>, level: Access) -> Set<nat> {
    Set::new(|i: nat| i < archs.len() && q.spec_access(archs[i as int].ids()) == Some(level))
}

/// Which archetypes a unit of work reads (only) and which it writes.
#[derive(Debug)]
pub struct ArchetypeAccess {
    pub immutable: FixedBitSet,
    pub mutable: FixedBitSet,
}

impl ArchetypeAccess {
    /// Archetypes read and not written.
    pub open spec fn reads(&self) -> Set<nat> {
        bits_of(self.immutable)
    }

    /// Archetypes written.
    pub open spec fn writes(&self) -> Set<nat> {
        bits_of(self.mutable)
    }

    /// No archetype is read or written.
    pub fn new() -> (r: ArchetypeAccess)
        ensures
            r.reads() == Set::<nat>::empty(),
            r.writes() == Set::<nat>::empty(),
            bit_len(r.immutable) == 0,
            bit_len(r.mutable) == 0,
    {
        ArchetypeAccess { immutable: bitset_with_capacity(0), mutable: bitset_with_capacity(0) }
    }

    /// Whether this unit of work and `other` may run at the same time.
    pub fn is_compatible(&self, other: &ArchetypeAccess) -> (r: bool)
        ensures
            r == spec_compatible(self.reads(), self.writes(), other.reads(), other.writes()),
    {
        bitset_is_disjoint(&self.mutable, &other.mutable) && bitset_is_disjoint(&self.mutable, &other.immutable)
            && bitset_is_disjoint(&self.immutable, &other.mutable)
    }

    /// Adds the accesses of `other` to these.
    pub fn union(&mut self, other: &ArchetypeAccess)
        ensures
            final(self).reads() == old(self).reads().union(other.reads()),
            final(self).writes() == old(self).writes().union(other.writes()),
    {
        bitset_union_with(&mut self.mutable, &other.mutable);
        bitset_union_with(&mut self.immutable, &other.immutable);
    }

    /// Records how `query` accesses each archetype of `archetypes`: its position is added to
    /// the reads when the access is `Read`, to the writes when it is `Write`.
    pub fn set_access_for_query(&mut self, archetypes: &Vec<Archetype>, query: &Query)
        requires
            forall|i: int| 0 <= i < archetypes@.len() ==> (#[trigger] archetypes@[i]).wf(),
        ensures
            final(self).reads() == old(self).reads().union(archetypes_at(*query, archetypes@, Access::Read)),
            final(self).writes() == old(self).writes().union(archetypes_at(*query, archetypes@, Access::Write)),
            bit_len(final(self).immutable) >= archetypes@.len(),
            bit_len(final(self).mutable) >= archetypes@.len(),
    {
        let n = archetypes.len();
        bitset_grow(&mut self.immutable, n);
        bitset_grow(&mut self.mutable, n);
        let mut i: usize = 0;
        while i < n
            invariant
                n == archetypes@.len(),
                forall|k: int| 0 <= k < archetypes@.len() ==> (#[trigger] archetypes@[k]).wf(),
                i <= n,
                bit_len(self.immutable) >= n,
                bit_len(self.mutable) >= n,
                self.reads() == old(self).reads().union(archetypes_at(*query, archetypes@.subrange(0, i as int), Access::Read)),
                self.writes() == old(self).writes().union(archetypes_at(*query, archetypes@.subrange(0, i as int), Access::Write)),
            decreases n - i,
        {
            let access = query.access(&archetypes[i]);
            proof {
                let pre = archetypes@.subrange(0, i as int);
                let post = archetypes@.subrange(0, i as int + 1);
                assert(post[i as int] == archetypes@[i as int]);
                assert forall|j: nat| j < i implies #[trigger] post[j as int] == pre[j as int] by {}
            }
            let ghost r0 = self.reads();
            let ghost w0 = self.writes();
            match access {
                Some(Access::Read) => bitset_insert(&mut self.immutable, i),
                Some(Access::Write) => bitset_insert(&mut self.mutable, i),
                _ => {},
            }
            proof {
                let pre = archetypes@.subrange(0, i as int);
                let post = archetypes@.subrange(0, i as int + 1);
                assert(archetypes_at(*query, post, Access::Read) =~= (if access == Some(Access::Read) {
                    archetypes_at(*query, pre, Access::Read).insert(i as nat)
                } else {
                    archetypes_at(*query, pre, Access::Read)
                }));
                assert(archetypes_at(*query, post, Access::Write) =~= (if access == Some(Access::Write) {
                    archetypes_at(*query, pre, Access::Write).insert(i as nat)
                } else {
                    archetypes_at(*query, pre, Access::Write)
                }));
                assert(self.reads() =~= old(self).reads().union(archetypes_at(*query, post, Access::Read)));
                assert(self.writes() =~= old(self).writes().union(archetypes_at(*query, post, Access::Write)));
            }
            i = i + 1;
        }
        assert(archetypes@.subrange(0, n as int) =~= archetypes@);
    }

    /// Forgets every access.
    pub fn clear(&mut self)
        ensures
            final(self).reads() == Set::<nat>::empty(),
            final(self).writes() == Set::<nat>::empty(),
    {
        bitset_clear(&mut self.immutable);
        bitset_clear(&mut self.mutable);
    }

    /// Whether archetype `index` is read (and not written).
    pub fn reads_archetype(&self, index: usize) -> (r: bool)
        ensures
            r == self.reads().contains(index as nat),
    {
        bitset_contains(&self.immutable, index)
    }

    /// Whether archetype `index` is written.
    pub fn writes_archetype(&self, index: usize) -> (r: bool)
        ensures
            r == self.writes().contains(index as nat),
    {
        bitset_contains(&self.mutable, index)
    }
}

impl Default for ArchetypeAccess {
    fn default() -> (r: ArchetypeAccess)
        ensures
            r.reads() == Set::<nat>::empty(),
            r.writes() == Set::<nat>::empty(),
    {
        ArchetypeAccess::new()
    }
}

/// Whether no id occurs in both lists.
fn disjoint_ids(a: &Vec<ComponentId>, b: &Vec<ComponentId>) -> (r: bool)
    ensures
        r == a@.to_set().disjoint(b@.to_set()),
{
    let mut i: usize = 0;
    while i < a.len()
        invariant
            i <= a@.len(),
            forall|k: int| 0 <= k < i ==> !b@.contains(#[trigger] a@[k]),
        decreases a@.len() - i,
    {
        if contains_id(b, a[i]) {
            assert(a@.to_set().contains(a@[i as int]) && b@.to_set().contains(a@[i as int]));
            return false;
        }
        i = i + 1;
    }
    true
}

/// Appends to `ids` each id of `more` that it lacks.
fn extend_ids(ids: &mut Vec<ComponentId>, more: &Vec<ComponentId>)
    ensures
        final(ids)@.to_set() == old(ids)@.to_set().union(more@.to_set()),
{
    let mut i: usize = 0;
    while i < more.len()
        invariant
            i <= more@.len(),
            ids@.to_set() == old(ids)@.to_set().union(more@.subrange(0, i as int).to_set()),
        decreases more@.len() - i,
    {
        let id = more[i];
        if !contains_id(ids, id) {
            proof {
                ids@.lemma_push_to_set_commute(id);
            }
            ids.push(id);
        }
        proof {
            more@.subrange(0, i as int).lemma_push_to_set_commute(id);
        }
        proof {
            assert(more@.subrange(0, i as int + 1) =~= more@.subrange(0, i as int).push(id));
        }
        assert(ids@.to_set() =~= old(ids)@.to_set().union(more@.subrange(0, i as int + 1).to_set()));
        i = i + 1;
    }
    assert(more@.subrange(0, more@.len() as int) =~= more@);
}

/// Which resource kinds a unit of work reads (only) and which it writes.
#[derive(Debug)]
pub struct TypeAccess {
    immutable: Vec<ComponentId>,
    mutable: Vec<ComponentId>,
}

impl TypeAccess {
    /// Kinds read and not written.
    pub closed spec fn reads(&self) -> Set<ComponentId> {
        self.immutable@.to_set()
    }

    /// Kinds written.
    pub closed spec fn writes(&self) -> Set<ComponentId> {
        self.mutable@.to_set()
    }

    /// No kind is read or written.
    pub fn new() -> (r: TypeAccess)
        ensures
            r.reads() == Set::<ComponentId>::empty(),
            r.writes() == Set::<ComponentId>::empty(),
    {
        let r = TypeAccess { immutable: Vec::new(), mutable: Vec::new() };
        assert(r.reads() =~= Set::<ComponentId>::empty());
        assert(r.writes() =~= Set::<ComponentId>::empty());
        r
    }

    /// Records a read of `id`.
    pub fn add_read(&mut self, id: ComponentId)
        ensures
            final(self).reads() == old(self).reads().insert(id),
            final(self).writes() == old(self).writes(),
    {
        if !contains_id(&self.immutable, id) {
            proof {
                self.immutable@.lemma_push_to_set_commute(id);
            }
            self.immutable.push(id);
        }
        assert(self.reads() =~= old(self).reads().insert(id));
    }

    /// Records a write of `id`.
    pub fn add_write(&mut self, id: ComponentId)
        ensures
            final(self).reads() == old(self).reads(),
            final(self).writes() == old(self).writes().insert(id),
    {
        if !contains_id(&self.mutable, id) {
            proof {
                self.mutable@.lemma_push_to_set_commute(id);
            }
            self.mutable.push(id);
        }
        assert(self.writes() =~= old(self).writes().insert(id));
    }

    /// Whether this unit of work and `other` may run at the same time.
    pub fn is_compatible(&self, other: &TypeAccess) -> (r: bool)
        ensures
            r == {
                &&& self.writes().disjoint(other.writes())
                &&& self.writes().disjoint(other.reads())
                &&& self.reads().disjoint(other.writes())
            },
    {
        disjoint_ids(&self.mutable, &other.mutable) && disjoint_ids(&self.mutable, &other.immutable)
            && disjoint_ids(&self.immutable, &other.mutable)
    }

    /// Adds the accesses of `other` to these.
    pub fn union(&mut self, other: &TypeAccess)
        ensures
            final(self).reads() == old(self).reads().union(other.reads()),
            final(self).writes() == old(self).writes().union(other.writes()),
    {
        extend_ids(&mut self.mutable, &other.mutable);
        extend_ids(&mut self.immutable, &other.immutable);
    }

    /// Forgets every access.
    pub fn clear(&mut self)
        ensures
            final(self).reads() == Set::<ComponentId>::empty(),
            final(self).writes() == Set::<ComponentId>::empty(),
    {
        self.immutable.clear();
        self.mutable.clear();
        assert(self.reads() =~= Set::<ComponentId>::empty());
        assert(self.writes() =~= Set::<ComponentId>::empty());
    }
}

impl Default for TypeAccess {
    fn default() -> (r: TypeAccess)
        ensures
            r.reads() == Set::<ComponentId>::empty(),
            r.writes() == Set::<ComponentId>::empty(),
    {
        TypeAccess::new()
    }
}

/// When the thread-local part of a system runs.
#[derive(Debug, Clone, Copy, PartialEq, Eq, Structural)]
pub enum ThreadLocalExecution {
    Immediate,
    NextFlush,
}

/// Relies on `rand::random`: a value drawn from the thread-local generator; nothing is
/// known of it.
pub assume_specification<T>[ rand::random::<T> ]() -> (r: T)
    where
        rand::distributions::Standard: rand::distributions::Distribution<T>,
;

/// The identity of a system.
#[derive(Debug, Clone, Copy, PartialEq, Eq, Structural, Hash)]
pub struct SystemId(pub usize);

impl SystemId {
    /// A random identity.
    pub fn new() -> (r: SystemId) {
        SystemId(rand::random::<usize>())
    }
}

} // verus!
