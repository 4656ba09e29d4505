use crate::component::{ComponentId, TypeInfo};
use vstd::prelude::*;

verus! {

/// A shared borrow may be taken from a counter in state `count`: no writer holds it and
/// the count of readers can grow.
pub open spec fn read_allowed(count: int) -> bool {
    0 <= count < i64::MAX
}

/// The exclusive borrow may be taken from a counter in state `count`: nobody holds it.
pub open spec fn write_allowed(count: int) -> bool {
    count == 0
}

/// Borrow aliasing: a writer is refused while any borrow is held, readers are refused while
/// the writer holds the column, two readers may hold it together, and giving a borrow back
/// restores the state it was taken from.
pub proof fn lemma_borrow_aliasing(count: int)
    requires
        count >= -1,
    ensures
        count != 0 ==> !write_allowed(count),
        count == -1 ==> !read_allowed(count),
        count == 0 ==> read_allowed(count) && read_allowed(count + 1),
        read_allowed(count) ==> (count + 1) - 1 == count && count + 1 > 0,
        write_allowed(count) ==> -1 + 1 == count,
{
}

/// The counter state after taking one borrow (`write` for the exclusive one), or `None`
/// when the borrow is refused.
pub open spec fn borrow_step(count: int, write: bool) -> Option<int> {
    if write {
        if write_allowed(count) { Some(-1) } else { None }
    } else {
        if read_allowed(count) { Some(count + 1) } else { None }
    }
}

/// The counter state after giving back one borrow, or `None` when none such is held.
pub open spec fn release_step(count: int, write: bool) -> Option<int> {
    if write {
        if count == -1 { Some(0) } else { None }
    } else {
        if count > 0 { Some(count - 1) } else { None }
    }
}

/// The state of the counter of component `id` after the borrows `reqs` are taken in order,
/// starting from `count` (requests for other components leave it alone), or `None` when one
/// of them is refused.
pub open spec fn borrow_fold(count: int, reqs: Seq<(ComponentId, bool)>, id: ComponentId) -> Option<int>
    decreases reqs.len(),
{
    if reqs.len() == 0 {
        Some(count)
    } else {
        match borrow_fold(count, reqs.drop_last(), id) {
            None => None,
            Some(c) => if reqs.last().0 == id { borrow_step(c, reqs.last().1) } else { Some(c) },
        }
    }
}

/// The state of the counter of component `id` after the borrows `reqs` are given back, the
/// last first, starting from `count`, or `None` when one of them is not held.
pub open spec fn release_fold(count: int, reqs: Seq<(ComponentId, bool)>, id: ComponentId) -> Option<int>
    decreases reqs.len(),
{
    if reqs.len() == 0 {
        Some(count)
    } else {
        let first = if reqs.last().0 == id { release_step(count, reqs.last().1) } else { Some(count) };
        match first {
            None => None,
            Some(c) => release_fold(c, reqs.drop_last(), id),
        }
    }
}

/// When a list of borrows can be taken in full, every prefix of it can.
pub proof fn lemma_borrow_fold_prefix(count: int, reqs: Seq<(ComponentId, bool)>, id: ComponentId, k: int)
    requires
        borrow_fold(count, reqs, id) is Some,
        0 <= k <= reqs.len(),
    ensures
        borrow_fold(count, reqs.subrange(0, k), id) is Some,
    decreases reqs.len(),
{
    if k < reqs.len() {
        lemma_borrow_fold_prefix(count, reqs.drop_last(), id, k);
        assert(reqs.drop_last().subrange(0, k) =~= reqs.subrange(0, k));
    } else {
        assert(reqs.subrange(0, k) =~= reqs);
    }
}

/// Borrows are given back exactly once: giving back, last first, every borrow of a list
/// that was taken in full restores the counter to where it started.
pub proof fn lemma_release_undoes_borrow(count: int, reqs: Seq<(ComponentId, bool)>, id: ComponentId)
    requires
        count >= -1,
        borrow_fold(count, reqs, id) is Some,
    ensures
        release_fold(borrow_fold(count, reqs, id)->Some_0, reqs, id) == Some(count),
    decreases reqs.len(),
{
    if reqs.len() > 0 {
        lemma_borrow_fold_at_least(count, reqs.drop_last(), id);
        lemma_release_undoes_borrow(count, reqs.drop_last(), id);
    }
}

/// A counter never drops below `-1` while borrows are taken.
proof fn lemma_borrow_fold_at_least(count: int, reqs: Seq<(ComponentId, bool)>, id: ComponentId)
    requires
        count >= -1,
    ensures
        borrow_fold(count, reqs, id) matches Some(c) ==> c >= -1,
    decreases reqs.len(),
{
    if reqs.len() > 0 {
        lemma_borrow_fold_at_least(count, reqs.drop_last(), id);
    }
}

/// Per-column bookkeeping: a borrow counter and the change-detection flags of each row.
///
/// The counter is `0` when the column is free, `n > 0` while `n` readers hold it and
/// `-1` while one writer holds it.
#[derive(Debug)]
pub struct ComponentStorageMeta {
    borrow: i64,
    mutated_entities: Vec<bool>,
    added_entities: Vec<bool>,
}

/// Relies on `Vec::capacity`: a vector never holds more elements than its capacity.
#[verifier::external_body]
pub(crate) fn vec_capacity<T>(v: &Vec<T>) -> (r: usize)
    ensures
        r >= v@.len(),
{
    v.capacity()
}

impl ComponentStorageMeta {
    /// The borrow counter.
    pub closed spec fn borrow_count(&self) -> int {
        self.borrow as int
    }

    /// The "added since the last epoch" flag of each row.
    pub closed spec fn added(&self) -> Seq<bool> {
        self.added_entities@
    }

    /// The "mutated since the last epoch" flag of each row.
    pub closed spec fn mutated(&self) -> Seq<bool> {
        self.mutated_entities@
    }

    /// The counter is a valid state and both flag arrays have one entry per row.
    pub open spec fn wf(&self) -> bool {
        &&& self.borrow_count() >= -1
        &&& self.added().len() == self.mutated().len()
    }

    /// Whether a shared borrow may be taken now.
    pub open spec fn can_borrow(&self) -> bool {
        read_allowed(self.borrow_count())
    }

    /// Whether the exclusive borrow may be taken now.
    pub open spec fn can_borrow_mut(&self) -> bool {
        write_allowed(self.borrow_count())
    }

    /// A free counter and no rows.
    pub fn new() -> (r: ComponentStorageMeta)
        ensures
            r.wf(),
            r.borrow_count() == 0,
            r.added() == Seq::<bool>::empty(),
            r.mutated() == Seq::<bool>::empty(),
    {
        ComponentStorageMeta { borrow: 0, mutated_entities: Vec::new(), added_entities: Vec::new() }
    }

    /// Number of rows the flags describe.
    pub fn len(&self) -> (r: usize)
        requires
            self.wf(),
        ensures
            r == self.added().len(),
    {
        self.added_entities.len()
    }

    /// Starts a new change-detection epoch: every flag becomes false.
    pub fn clear_trackers(&mut self)
        requires
            old(self).wf(),
        ensures
            final(self).wf(),
            final(self).borrow_count() == old(self).borrow_count(),
            final(self).added() == Seq::new(old(self).added().len(), |i: int| false),
            final(self).mutated() == Seq::new(old(self).mutated().len(), |i: int| false),
    {
        let n = self.mutated_entities.len();
        let mut i: usize = 0;
        while i < n
            invariant
                n == self.mutated_entities@.len(),
                i <= n,
                self.added_entities@ == old(self).added_entities@,
                self.borrow == old(self).borrow,
                forall|j: int| 0 <= j < i ==> !self.mutated_entities@[j],
            decreases n - i,
        {
            self.mutated_entities.set(i, false);
            i = i + 1;
        }
        let m = self.added_entities.len();
        let mut i: usize = 0;
        while i < m
            invariant
                m == self.added_entities@.len(),
                i <= m,
                n == self.mutated_entities@.len(),
                self.borrow == old(self).borrow,
                forall|j: int| 0 <= j < n ==> !self.mutated_entities@[j],
                forall|j: int| 0 <= j < i ==> !self.added_entities@[j],
            decreases m - i,
        {
            self.added_entities.set(i, false);
            i = i + 1;
        }
        assert(self.added_entities@ =~= Seq::new(m as nat, |i: int| false));
        assert(self.mutated_entities@ =~= Seq::new(n as nat, |i: int| false));
    }

    /// Makes room for `count` more rows of flags.
    pub fn reserve(&mut self, count: usize)
        ensures
            final(self).borrow_count() == old(self).borrow_count(),
            final(self).added() == old(self).added(),
            final(self).mutated() == old(self).mutated(),
    {
        self.added_entities.reserve(count);
        self.mutated_entities.reserve(count);
    }

    /// Appends the flags of a new row, both false.
    pub fn allocate(&mut self)
        ensures
            final(self).borrow_count() == old(self).borrow_count(),
            final(self).added() == old(self).added().push(false),
            final(self).mutated() == old(self).mutated().push(false),
    {
        self.added_entities.push(false);
        self.mutated_entities.push(false);
    }

    /// Removes the flags of row `index`, moving the last row's flags into its place.
    pub fn swap_remove(&mut self, index: usize)
        requires
            old(self).wf(),
            index < old(self).added().len(),
        ensures
            final(self).wf(),
            final(self).borrow_count() == old(self).borrow_count(),
            final(self).added() == old(self).added().update(index as int, old(self).added().last()).drop_last(),
            final(self).mutated() == old(self).mutated().update(index as int, old(self).mutated().last()).drop_last(),
    {
        self.added_entities.swap_remove(index);
        self.mutated_entities.swap_remove(index);
    }

    /// Removes the flags of every row.
    pub fn clear(&mut self)
        ensures
            final(self).borrow_count() == old(self).borrow_count(),
            final(self).added() == Seq::<bool>::empty(),
            final(self).mutated() == Seq::<bool>::empty(),
    {
        self.added_entities.clear();
        self.mutated_entities.clear();
    }

    /// The "added" flag of row `index`.
    pub fn is_added(&self, index: usize) -> (r: bool)
        requires
            index < self.added().len(),
        ensures
            r == self.added()[index as int],
    {
        self.added_entities[index]
    }

    /// The "mutated" flag of row `index`.
    pub fn is_mutated(&self, index: usize) -> (r: bool)
        requires
            index < self.mutated().len(),
        ensures
            r == self.mutated()[index as int],
    {
        self.mutated_entities[index]
    }

    /// Sets the "added" flag of row `index`.
    pub fn set_added(&mut self, index: usize, value: bool)
        requires
            index < old(self).added().len(),
        ensures
            final(self).borrow_count() == old(self).borrow_count(),
            final(self).added() == old(self).added().update(index as int, value),
            final(self).mutated() == old(self).mutated(),
    {
        self.added_entities.set(index, value);
    }

    /// Sets the "mutated" flag of row `index`.
    pub fn set_mutated(&mut self, index: usize, value: bool)
        requires
            index < old(self).mutated().len(),
        ensures
            final(self).borrow_count() == old(self).borrow_count(),
            final(self).added() == old(self).added(),
            final(self).mutated() == old(self).mutated().update(index as int, value),
    {
        self.mutated_entities.set(index, value);
    }

    /// The current borrow counter.
    pub fn borrow_state(&self) -> (r: i64)
        ensures
            r as int == self.borrow_count(),
    {
        self.borrow
    }

    /// Whether a shared borrow may be taken now: no writer holds the column and the count of
    /// readers can grow.
    pub fn is_borrowable(&self) -> (r: bool)
        ensures
            r == self.can_borrow(),
    {
        0 <= self.borrow && self.borrow < i64::MAX
    }

    /// Whether the exclusive borrow may be taken now: nobody holds the column.
    pub fn is_borrowable_mut(&self) -> (r: bool)
        ensures
            r == self.can_borrow_mut(),
    {
        self.borrow == 0
    }

    /// Takes a shared borrow, which must be allowed: taking one while a writer holds the
    /// column is a contract violation.
    pub fn borrow(&mut self)
        requires
            old(self).can_borrow(),
        ensures
            final(self).borrow_count() == old(self).borrow_count() + 1,
            final(self).added() == old(self).added(),
            final(self).mutated() == old(self).mutated(),
    {
        self.borrow = self.borrow + 1;
    }

    /// Takes the exclusive borrow, which must be allowed: taking it while any borrow is held
    /// is a contract violation.
    pub fn borrow_mut(&mut self)
        requires
            old(self).can_borrow_mut(),
        ensures
            final(self).borrow_count() == -1,
            final(self).added() == old(self).added(),
            final(self).mutated() == old(self).mutated(),
    {
        self.borrow = -1;
    }

    /// Gives back one shared borrow.
    pub fn release(&mut self)
        requires
            old(self).borrow_count() > 0,
        ensures
            final(self).borrow_count() == old(self).borrow_count() - 1,
            final(self).added() == old(self).added(),
            final(self).mutated() == old(self).mutated(),
    {
        self.borrow = self.borrow - 1;
    }

    /// Gives back the exclusive borrow.
    pub fn release_mut(&mut self)
        requires
            old(self).borrow_count() == -1,
        ensures
            final(self).borrow_count() == 0,
            final(self).added() == old(self).added(),
            final(self).mutated() == old(self).mutated(),
    {
        self.borrow = 0;
    }
}

impl Default for ComponentStorageMeta {
    fn default() -> (r: ComponentStorageMeta)
        ensures
            r.wf(),
            r.borrow_count() == 0,
            r.added() == Seq::<bool>::empty(),
            r.mutated() == Seq::<bool>::empty(),
    {
        ComponentStorageMeta::new()
    }
}

/// A column: the values of one component kind, one row per entity, each value held as
/// its bytes, together with the column's bookkeeping.
#[derive(Debug)]
pub struct VecComponentStorage {
    info: TypeInfo,
    storage: Vec<Vec<u8>>,
    meta: ComponentStorageMeta,
}

impl VecComponentStorage {
    /// The component kind this column is configured for.
    pub closed spec fn info(&self) -> TypeInfo {
        self.info
    }

    /// The bytes of each row's value.
    pub closed spec fn rows(&self) -> Seq<Seq<u8>> {
        self.storage@.map_values(|v: Vec<u8>| v@)
    }

    /// The column's bookkeeping.
    pub closed spec fn meta_view(&self) -> ComponentStorageMeta {
        self.meta
    }

    /// Bookkeeping is valid and every value has the configured size.
    pub open spec fn wf(&self) -> bool {
        &&& self.meta_view().wf()
        &&& forall|i: int| 0 <= i < self.rows().len() ==> #[trigger] self.rows()[i].len() == self.info().size
    }

    /// An empty column for the component kind `info`.
    pub fn new(info: TypeInfo) -> (r: VecComponentStorage)
        ensures
            r.wf(),
            r.info() == info,
            r.rows() == Seq::<Seq<u8>>::empty(),
            r.meta_view().borrow_count() == 0,
            r.meta_view().added() == Seq::<bool>::empty(),
            r.meta_view().mutated() == Seq::<bool>::empty(),
    {
        let r = VecComponentStorage { info, storage: Vec::new(), meta: ComponentStorageMeta::new() };
        assert(r.rows() =~= Seq::<Seq<u8>>::empty());
        r
    }

    /// The column's bookkeeping.
    pub fn meta(&self) -> (r: &ComponentStorageMeta)
        ensures
            *r == self.meta_view(),
    {
        &self.meta
    }

    /// The column's bookkeeping, for change.
    pub fn meta_mut(&mut self) -> (r: &mut ComponentStorageMeta)
        ensures
            *r == old(self).meta_view(),
            final(self).info() == old(self).info(),
            final(self).rows() == old(self).rows(),
            final(self).meta_view() == *final(r),
    {
        &mut self.meta
    }

    /// The id of the component kind stored here.
    pub fn get_type(&self) -> (r: ComponentId)
        ensures
            r == self.info().id,
    {
        self.info.id
    }

    /// The metadata of the component kind stored here.
    pub fn type_info(&self) -> (r: TypeInfo)
        ensures
            r == self.info(),
    {
        self.info
    }

    /// The bytes of the value at row `index`.
    pub fn get_value(&self, index: usize) -> (r: &Vec<u8>)
        requires
            index < self.rows().len(),
        ensures
            r@ == self.rows()[index as int],
    {
        &self.storage[index]
    }

    /// Appends a value at the end of the column.
    pub fn push(&mut self, value: Vec<u8>)
        requires
            old(self).wf(),
            value@.len() == old(self).info().size,
        ensures
            final(self).wf(),
            final(self).info() == old(self).info(),
            final(self).rows() == old(self).rows().push(value@),
            final(self).meta_view() == old(self).meta_view(),
    {
        self.storage.push(value);
        assert(self.rows() =~= old(self).rows().push(value@));
    }

    /// Makes room for `count` more values.
    pub fn reserve(&mut self, count: usize)
        ensures
            final(self).info() == old(self).info(),
            final(self).rows() == old(self).rows(),
            final(self).meta_view() == old(self).meta_view(),
    {
        self.storage.reserve(count);
        assert(self.rows() =~= old(self).rows());
    }

    /// Removes the value at row `index`, moving the last value into its place.
    ///
    /// With `forget` the value is leaked, its ownership having been passed on already;
    /// otherwise it is handed back to be dropped.
    pub fn swap_remove(&mut self, index: usize, forget: bool) -> (r: Option<Vec<u8>>)
        requires
            old(self).wf(),
            index < old(self).rows().len(),
        ensures
            final(self).wf(),
            final(self).info() == old(self).info(),
            final(self).rows() == old(self).rows().update(index as int, old(self).rows().last()).drop_last(),
            final(self).meta_view() == old(self).meta_view(),
            forget ==> r is None,
            !forget ==> r is Some && r->0@ == old(self).rows()[index as int],
    {
        let value = self.storage.swap_remove(index);
        assert(self.rows() =~= old(self).rows().update(index as int, old(self).rows().last()).drop_last());
        if forget {
            None
        } else {
            Some(value)
        }
    }

    /// Removes every value and every row's flags; the borrow counter is kept.
    pub fn clear(&mut self)
        requires
            old(self).wf(),
        ensures
            final(self).wf(),
            final(self).info() == old(self).info(),
            final(self).rows() == Seq::<Seq<u8>>::empty(),
            final(self).meta_view().borrow_count() == old(self).meta_view().borrow_count(),
            final(self).meta_view().added() == Seq::<bool>::empty(),
            final(self).meta_view().mutated() == Seq::<bool>::empty(),
    {
        self.storage.clear();
        self.meta.clear();
        assert(self.rows() =~= Seq::<Seq<u8>>::empty());
    }

    /// Replaces the value at row `index`.
    pub fn set(&mut self, index: usize, value: Vec<u8>)
        requires
            old(self).wf(),
            index < old(self).rows().len(),
            value@.len() == old(self).info().size,
        ensures
            final(self).wf(),
            final(self).info() == old(self).info(),
            final(self).rows() == old(self).rows().update(index as int, value@),
            final(self).meta_view() == old(self).meta_view(),
    {
        self.storage.set(index, value);
        assert(self.rows() =~= old(self).rows().update(index as int, value@));
    }

    /// Number of values held.
    pub fn len(&self) -> (r: usize)
        ensures
            r == self.rows().len(),
    {
        self.storage.len()
    }

    /// Number of values the column can hold without growing its buffer.
    pub fn capacity(&self) -> (r: usize)
        ensures
            r >= self.rows().len(),
    {
        vec_capacity(&self.storage)
    }

    /// Size in bytes of one value.
    pub fn item_size(&self) -> (r: usize)
        ensures
            r == self.info().size,
    {
        self.info.size
    }
}

} // verus!
