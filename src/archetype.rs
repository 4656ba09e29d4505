use crate::component::{same_id, ComponentId, Entity, Location, MissingComponent, TypeInfo};
use crate::storage::{
    borrow_fold, lemma_borrow_fold_prefix, release_fold, vec_capacity, ComponentStorageMeta,
    VecComponentStorage,
};
use vstd::prelude::*;

verus! {

/// `s` after its element `i` is removed and the last element moved into its place.
pub open spec fn swap_removed<A>(s: Seq<A>, i: int) -> Seq<A> {
    s.update(i, s.last()).drop_last()
}

/// The ids of a list of component metadata.
pub open spec fn ids_of(infos: Seq<TypeInfo>) -> Seq<ComponentId> {
    infos.map_values(|t: TypeInfo| t.id)
}

/// No id occurs twice in `ids`.
pub open spec fn distinct_ids(ids: Seq<ComponentId>) -> bool {
    forall|i: int, j: int| 0 <= i < ids.len() && 0 <= j < ids.len() && i != j ==> ids[i] != ids[j]
}

/// Column `new` is column `old` with row `i` swap-removed, values and flags alike.
pub open spec fn col_swap_removed(old: VecComponentStorage, new: VecComponentStorage, i: int) -> bool {
    &&& new.wf()
    &&& new.info() == old.info()
    &&& new.rows() == swap_removed(old.rows(), i)
    &&& new.meta_view().added() == swap_removed(old.meta_view().added(), i)
    &&& new.meta_view().mutated() == swap_removed(old.meta_view().mutated(), i)
    &&& new.meta_view().borrow_count() == old.meta_view().borrow_count()
}

/// Column `new` is column `o` with row `i` of column `src` appended, value and flags.
pub open spec fn col_received(new: VecComponentStorage, o: VecComponentStorage, src: VecComponentStorage, i: int) -> bool {
    &&& new.info() == o.info()
    &&& new.rows() == o.rows().push(src.rows()[i])
    &&& new.meta_view().added() == o.meta_view().added().push(src.meta_view().added()[i])
    &&& new.meta_view().mutated() == o.meta_view().mutated().push(src.meta_view().mutated()[i])
    &&& new.meta_view().borrow_count() == o.meta_view().borrow_count()
}

/// Column `new` is column `o` with the flags of one more row, both false, and no new value.
pub open spec fn col_allocated(new: VecComponentStorage, o: VecComponentStorage) -> bool {
    &&& new.info() == o.info()
    &&& new.rows() == o.rows()
    &&& new.meta_view().added() == o.meta_view().added().push(false)
    &&& new.meta_view().mutated() == o.meta_view().mutated().push(false)
    &&& new.meta_view().borrow_count() == o.meta_view().borrow_count()
}

/// Once a borrow of a list is refused, the list as a whole is refused.
proof fn lemma_fold_stuck(count: int, reqs: Seq<(ComponentId, bool)>, id: ComponentId, k: int)
    requires
        0 <= k <= reqs.len(),
        borrow_fold(count, reqs.subrange(0, k), id) is None,
    ensures
        borrow_fold(count, reqs, id) is None,
    decreases reqs.len() - k,
{
    if k < reqs.len() {
        assert(reqs.subrange(0, k + 1).drop_last() =~= reqs.subrange(0, k));
        lemma_fold_stuck(count, reqs, id, k + 1);
    } else {
        assert(reqs.subrange(0, k) =~= reqs);
    }
}

/// The column of `a` for `id` (meaningful when `a` has one).
pub open spec fn col_of(a: Archetype, id: ComponentId) -> VecComponentStorage {
    a.columns()[choose|c: int| 0 <= c < a.ids().len() && a.ids()[c] == id]
}

/// In a valid archetype, the column for `id` is the one at the position of `id`.
pub proof fn lemma_col_of(a: Archetype, id: ComponentId, c: int)
    requires
        a.wf(),
        0 <= c < a.ids().len(),
        a.ids()[c] == id,
    ensures
        col_of(a, id) == a.columns()[c],
        a.col_wf(c),
{
    let k = choose|k: int| 0 <= k < a.ids().len() && a.ids()[k] == id;
    assert(a.ids()[k] == a.ids()[c]);
}

/// Component kinds that two lists share have the same metadata in both.
pub open spec fn infos_agree(a: Seq<TypeInfo>, b: Seq<TypeInfo>) -> bool {
    forall|i: int, j: int| 0 <= i < a.len() && 0 <= j < b.len() && #[trigger] a[i].id == #[trigger] b[j].id ==> a[i] == b[j]
}

/// Columns `a` and `b` hold the same kind, values, flags and borrow count.
pub open spec fn same_col(a: VecComponentStorage, b: VecComponentStorage) -> bool {
    &&& a.info() == b.info()
    &&& a.rows() == b.rows()
    &&& a.meta_view().added() == b.meta_view().added()
    &&& a.meta_view().mutated() == b.meta_view().mutated()
    &&& a.meta_view().borrow_count() == b.meta_view().borrow_count()
}

/// The entities that have the same component kinds, one column per kind.
///
/// Row `i` of every column, of every column's flags and of the entity list describe the
/// same entity.
#[derive(Debug)]
pub struct Archetype {
    type_info: Vec<TypeInfo>,
    entities: Vec<Entity>,
    grow_size: usize,
    component_storages: Vec<VecComponentStorage>,
}

impl Archetype {
    /// Metadata of each column, in column order.
    pub closed spec fn infos(&self) -> Seq<TypeInfo> {
        self.type_info@
    }

    /// The ids of the columns, in column order.
    pub open spec fn ids(&self) -> Seq<ComponentId> {
        ids_of(self.infos())
    }

    /// The entity of each row.
    pub closed spec fn entity_rows(&self) -> Seq<Entity> {
        self.entities@
    }

    /// The columns.
    pub closed spec fn columns(&self) -> Seq<VecComponentStorage> {
        self.component_storages@
    }

    /// Number of rows reserved at once when the archetype runs out of room.
    pub closed spec fn grow(&self) -> nat {
        self.grow_size as nat
    }

    /// Number of rows.
    pub open spec fn n(&self) -> nat {
        self.entity_rows().len()
    }

    /// The number of rows fits in a `usize`.
    pub proof fn lemma_len_bounded(&self)
        ensures
            self.n() <= usize::MAX,
    {
        assert(self.entities.len() == self.entities@.len());
    }

    /// Column `c` is valid, belongs to this archetype and has flags for every row and a value
    /// for every row but possibly the last.
    pub open spec fn col_wf(&self, c: int) -> bool {
        let col = self.columns()[c];
        &&& col.wf()
        &&& col.info() == self.infos()[c]
        &&& col.meta_view().added().len() == self.n()
        &&& (col.rows().len() == self.n() || col.rows().len() + 1 == self.n())
    }

    /// The rows of all structures line up and no component kind occurs twice.
    pub open spec fn wf(&self) -> bool {
        &&& self.columns().len() == self.infos().len()
        &&& forall|c: int| 0 <= c < self.columns().len() ==> #[trigger] self.col_wf(c)
        &&& distinct_ids(self.ids())
    }

    /// Every column holds a value for every row.
    pub open spec fn complete(&self) -> bool {
        forall|c: int| 0 <= c < self.columns().len() ==> #[trigger] self.columns()[c].rows().len() == self.n()
    }

    /// An archetype for the component kinds `type_info`, which grows 64 rows at a time.
    pub fn new(type_info: Vec<TypeInfo>) -> (r: Archetype)
        requires
            distinct_ids(ids_of(type_info@)),
        ensures
            r.wf(),
            r.complete(),
            r.infos() == type_info@,
            r.n() == 0,
            r.grow() == 64,
            forall|c: int| 0 <= c < r.columns().len() ==> #[trigger] r.columns()[c].meta_view().borrow_count() == 0,
    {
        Self::with_grow(type_info, 64)
    }

    /// An archetype for the component kinds `type_info`, which grows `grow_size` rows at a time.
    pub fn with_grow(type_info: Vec<TypeInfo>, grow_size: usize) -> (r: Archetype)
        requires
            distinct_ids(ids_of(type_info@)),
        ensures
            r.wf(),
            r.complete(),
            r.infos() == type_info@,
            r.n() == 0,
            r.grow() == grow_size,
            forall|c: int| 0 <= c < r.columns().len() ==> #[trigger] r.columns()[c].meta_view().borrow_count() == 0,
    {
        let mut component_storages: Vec<VecComponentStorage> = Vec::with_capacity(type_info.len());
        let mut i: usize = 0;
        while i < type_info.len()
            invariant
                i <= type_info@.len(),
                component_storages@.len() == i,
                forall|c: int| 0 <= c < i ==> {
                    let col = #[trigger] component_storages@[c];
                    &&& col.wf()
                    &&& col.info() == type_info@[c]
                    &&& col.rows().len() == 0
                    &&& col.meta_view().added().len() == 0
                    &&& col.meta_view().borrow_count() == 0
                },
            decreases type_info@.len() - i,
        {
            component_storages.push(VecComponentStorage::new(type_info[i]));
            i = i + 1;
        }
        Archetype { type_info, entities: Vec::new(), grow_size, component_storages }
    }

    /// Removes every row; the columns and their borrow counters stay.
    pub fn clear(&mut self)
        requires
            old(self).wf(),
        ensures
            final(self).wf(),
            final(self).complete(),
            final(self).infos() == old(self).infos(),
            final(self).grow() == old(self).grow(),
            final(self).n() == 0,
            forall|c: int| 0 <= c < final(self).columns().len() ==> #[trigger] final(self).columns()[c].meta_view().borrow_count() == old(self).columns()[c].meta_view().borrow_count(),
    {
        let ncols = self.component_storages.len();
        let mut c: usize = 0;
        while c < ncols
            invariant
                old(self).wf(),
                ncols == self.columns().len(),
                ncols == old(self).columns().len(),
                ncols == self.infos().len(),
                c <= ncols,
                self.infos() == old(self).infos(),
                self.entity_rows() == old(self).entity_rows(),
                self.grow() == old(self).grow(),
                distinct_ids(self.ids()),
                forall|k: int| 0 <= k < c ==> {
                    let col = #[trigger] self.columns()[k];
                    &&& col.wf()
                    &&& col.info() == self.infos()[k]
                    &&& col.rows().len() == 0
                    &&& col.meta_view().added().len() == 0
                    &&& col.meta_view().borrow_count() == old(self).columns()[k].meta_view().borrow_count()
                },
                forall|k: int| c <= k < ncols ==> #[trigger] self.columns()[k] == old(self).columns()[k],
                forall|k: int| 0 <= k < ncols ==> old(self).col_wf(k),
            decreases ncols - c,
        {
            proof {
                assert(old(self).col_wf(c as int));
            }
            self.component_storages[c].clear();
            c = c + 1;
        }
        self.entities.clear();
        assert forall|k: int| 0 <= k < self.columns().len() implies #[trigger] self.col_wf(k) by {
            assert(self.columns()[k].rows().len() == 0);
        }
    }

    /// Position of the column for `id`, if there is one.
    pub fn type_index_dynamic(&self, id: ComponentId) -> (r: Option<usize>)
        requires
            self.wf(),
        ensures
            match r {
                Some(c) => c < self.ids().len() && self.ids()[c as int] == id,
                None => !self.ids().contains(id),
            },
    {
        let mut c: usize = 0;
        while c < self.type_info.len()
            invariant
                c <= self.ids().len(),
                self.ids().len() == self.type_info@.len(),
                forall|k: int| 0 <= k < c ==> self.ids()[k] != id,
            decreases self.ids().len() - c,
        {
            if same_id(self.type_info[c].id, id) {
                return Some(c);
            }
            c = c + 1;
        }
        None
    }

    /// Whether the archetype has a column for `id`.
    pub fn has_type(&self, id: ComponentId) -> (r: bool)
        requires
            self.wf(),
        ensures
            r == self.ids().contains(id),
    {
        self.type_index_dynamic(id).is_some()
    }

    /// Whether the archetype has a column for the Rust type `T`.
    pub fn has<T: 'static>(&self) -> (r: bool)
        requires
            self.wf(),
        ensures
            exists|id: ComponentId| id is RustTypeId && r == self.ids().contains(id),
    {
        let info = TypeInfo::of::<T>();
        self.has_type(info.id)
    }

    /// The column for `id`, if there is one.
    pub fn get_storage_dynamic(&self, id: ComponentId) -> (r: Option<&VecComponentStorage>)
        requires
            self.wf(),
        ensures
            match r {
                Some(col) => self.ids().contains(id) && *col == col_of(*self, id) && col.wf()
                    && col.meta_view().added().len() == self.n() && col.info().id == id,
                None => !self.ids().contains(id),
            },
    {
        match self.type_index_dynamic(id) {
            Some(c) => {
                proof {
                    lemma_col_of(*self, id, c as int);
                }
                Some(&self.component_storages[c])
            },
            None => None,
        }
    }

    /// The column for the Rust type `T`, if there is one.
    pub fn get_storage<T: 'static>(&self) -> (r: Option<&VecComponentStorage>)
        requires
            self.wf(),
        ensures
            exists|id: ComponentId| {
                &&& id is RustTypeId
                &&& #[trigger] self.ids().contains(id) == r is Some
                &&& r matches Some(col) ==> *col == col_of(*self, id)
            },
    {
        let info = TypeInfo::of::<T>();
        let r = self.get_storage_dynamic(info.id);
        assert(self.ids().contains(info.id) == r is Some);
        r
    }

    /// The column `c`.
    pub fn column(&self, c: usize) -> (r: &VecComponentStorage)
        requires
            c < self.columns().len(),
        ensures
            *r == self.columns()[c as int],
    {
        &self.component_storages[c]
    }

    /// Metadata of every column, in column order.
    pub fn type_info(&self) -> (r: &Vec<TypeInfo>)
        ensures
            r@ == self.infos(),
    {
        &self.type_info
    }

    /// Number of rows.
    pub fn len(&self) -> (r: usize)
        ensures
            r == self.n(),
    {
        self.entities.len()
    }

    /// Whether there are no rows.
    pub fn is_empty(&self) -> (r: bool)
        ensures
            r == (self.n() == 0),
    {
        self.entities.len() == 0
    }

    /// The entity of each row.
    pub fn entities(&self) -> (r: &Vec<Entity>)
        ensures
            r@ == self.entity_rows(),
    {
        &self.entities
    }

    /// The entity of row `index`.
    pub fn get_entity(&self, index: usize) -> (r: Entity)
        requires
            index < self.n(),
        ensures
            r == self.entity_rows()[index as int],
    {
        self.entities[index]
    }

    /// Makes room for `count` more rows in every structure.
    pub fn reserve(&mut self, count: usize)
        requires
            old(self).wf(),
        ensures
            final(self).wf(),
            final(self).infos() == old(self).infos(),
            final(self).entity_rows() == old(self).entity_rows(),
            final(self).grow() == old(self).grow(),
            final(self).columns().len() == old(self).columns().len(),
            forall|c: int| 0 <= c < final(self).columns().len() ==> same_col(#[trigger] final(self).columns()[c], old(self).columns()[c]),
    {
        self.entities.reserve(count);
        let ncols = self.component_storages.len();
        let mut c: usize = 0;
        while c < ncols
            invariant
                ncols == self.columns().len(),
                c <= ncols,
                self.infos() == old(self).infos(),
                self.entity_rows() == old(self).entity_rows(),
                self.grow() == old(self).grow(),
                ncols == old(self).columns().len(),
                forall|k: int| 0 <= k < ncols ==> same_col(#[trigger] self.columns()[k], old(self).columns()[k]),
            decreases ncols - c,
        {
            self.component_storages[c].reserve(count);
            self.component_storages[c].meta_mut().reserve(count);
            c = c + 1;
        }
        assert forall|k: int| 0 <= k < self.columns().len() implies #[trigger] self.col_wf(k) by {
            assert(old(self).col_wf(k));
        }
    }

    /// Appends a row for `entity`: its flags are false and its values are still to be
    /// inserted, one per column. Returns the row's index.
    pub fn allocate(&mut self, entity: Entity) -> (r: usize)
        requires
            old(self).wf(),
            old(self).complete(),
        ensures
            final(self).wf(),
            r == old(self).n(),
            final(self).infos() == old(self).infos(),
            final(self).grow() == old(self).grow(),
            final(self).entity_rows() == old(self).entity_rows().push(entity),
            final(self).columns().len() == old(self).columns().len(),
            forall|c: int| 0 <= c < final(self).columns().len() ==> {
                let col = #[trigger] final(self).columns()[c];
                let o = old(self).columns()[c];
                &&& col.info() == o.info()
                &&& col.rows() == o.rows()
                &&& col.meta_view().added() == o.meta_view().added().push(false)
                &&& col.meta_view().mutated() == o.meta_view().mutated().push(false)
                &&& col.meta_view().borrow_count() == o.meta_view().borrow_count()
            },
    {
        if self.entities.len() == vec_capacity(&self.entities) {
            self.reserve(self.grow_size);
        }
        let ghost mid = self.columns();
        assert(forall|k: int| 0 <= k < mid.len() ==> same_col(#[trigger] mid[k], old(self).columns()[k]));
        let index = self.entities.len();
        self.entities.push(entity);
        let ncols = self.component_storages.len();
        let mut c: usize = 0;
        while c < ncols
            invariant
                old(self).wf(),
                old(self).complete(),
                ncols == self.columns().len(),
                ncols == old(self).columns().len(),
                ncols == mid.len(),
                forall|k: int| 0 <= k < ncols ==> same_col(#[trigger] mid[k], old(self).columns()[k]),
                c <= ncols,
                self.infos() == old(self).infos(),
                self.entity_rows() == old(self).entity_rows().push(entity),
                self.grow() == old(self).grow(),
                forall|k: int| 0 <= k < c ==> {
                    let col = #[trigger] self.columns()[k];
                    let o = old(self).columns()[k];
                    &&& col.wf()
                    &&& col.info() == o.info()
                    &&& col.rows() == o.rows()
                    &&& col.meta_view().added() == o.meta_view().added().push(false)
                    &&& col.meta_view().mutated() == o.meta_view().mutated().push(false)
                    &&& col.meta_view().borrow_count() == o.meta_view().borrow_count()
                },
                forall|k: int| c <= k < ncols ==> #[trigger] self.columns()[k] == mid[k],
            decreases ncols - c,
        {
            proof {
                assert(old(self).col_wf(c as int));
                assert(same_col(mid[c as int], old(self).columns()[c as int]));
            }
            self.component_storages[c].meta_mut().allocate();
            c = c + 1;
        }
        assert forall|k: int| 0 <= k < self.columns().len() implies #[trigger] self.col_wf(k) by {
            assert(old(self).col_wf(k));
            assert(old(self).columns()[k].rows().len() == old(self).n());
        }
        index
    }

    /// Starts a new change-detection epoch: every flag of every column becomes false.
    pub fn clear_trackers(&mut self)
        requires
            old(self).wf(),
        ensures
            final(self).wf(),
            final(self).infos() == old(self).infos(),
            final(self).grow() == old(self).grow(),
            final(self).entity_rows() == old(self).entity_rows(),
            final(self).columns().len() == old(self).columns().len(),
            forall|c: int| 0 <= c < final(self).columns().len() ==> {
                let col = #[trigger] final(self).columns()[c];
                let o = old(self).columns()[c];
                &&& col.info() == o.info()
                &&& col.rows() == o.rows()
                &&& col.meta_view().added() == Seq::new(old(self).n(), |i: int| false)
                &&& col.meta_view().mutated() == Seq::new(old(self).n(), |i: int| false)
                &&& col.meta_view().borrow_count() == o.meta_view().borrow_count()
            },
            crate::query::trackers_clear(*final(self)),
    {
        let ncols = self.component_storages.len();
        let mut c: usize = 0;
        while c < ncols
            invariant
                old(self).wf(),
                ncols == self.columns().len(),
                ncols == old(self).columns().len(),
                c <= ncols,
                self.infos() == old(self).infos(),
                self.entity_rows() == old(self).entity_rows(),
                self.grow() == old(self).grow(),
                forall|k: int| 0 <= k < c ==> {
                    let col = #[trigger] self.columns()[k];
                    let o = old(self).columns()[k];
                    &&& col.wf()
                    &&& col.info() == o.info()
                    &&& col.rows() == o.rows()
                    &&& col.meta_view().added() == Seq::new(old(self).n(), |i: int| false)
                    &&& col.meta_view().mutated() == Seq::new(old(self).n(), |i: int| false)
                    &&& col.meta_view().borrow_count() == o.meta_view().borrow_count()
                },
                forall|k: int| c <= k < ncols ==> #[trigger] self.columns()[k] == old(self).columns()[k],
                forall|k: int| 0 <= k < ncols ==> old(self).col_wf(k),
            decreases ncols - c,
        {
            proof {
                assert(old(self).col_wf(c as int));
            }
            self.component_storages[c].meta_mut().clear_trackers();
            c = c + 1;
        }
        assert forall|k: int| 0 <= k < self.columns().len() implies #[trigger] self.col_wf(k) by {
            assert(old(self).col_wf(k));
        }
    }

    /// Appends `value` into the column for `id`, filling that column's slot of the last
    /// row, and marks the value as added.
    pub fn insert(&mut self, id: ComponentId, value: Vec<u8>)
        requires
            old(self).wf(),
            old(self).ids().contains(id),
            forall|c: int| 0 <= c < old(self).ids().len() && old(self).ids()[c] == id ==> {
                &&& #[trigger] old(self).columns()[c].rows().len() + 1 == old(self).n()
                &&& value@.len() == old(self).infos()[c].size
            },
        ensures
            final(self).wf(),
            final(self).infos() == old(self).infos(),
            final(self).grow() == old(self).grow(),
            final(self).entity_rows() == old(self).entity_rows(),
            final(self).columns().len() == old(self).columns().len(),
            forall|c: int| 0 <= c < final(self).columns().len() ==> {
                let col = #[trigger] final(self).columns()[c];
                let o = old(self).columns()[c];
                if old(self).ids()[c] == id {
                    &&& col.info() == o.info()
                    &&& col.rows() == o.rows().push(value@)
                    &&& col.meta_view().added() == o.meta_view().added().update(old(self).n() - 1, true)
                    &&& col.meta_view().mutated() == o.meta_view().mutated()
                    &&& col.meta_view().borrow_count() == o.meta_view().borrow_count()
                } else {
                    same_col(col, o)
                }
            },
    {
        let c = match self.type_index_dynamic(id) {
            Some(c) => c,
            None => {
                proof {
                    assert(false);
                }
                return;
            },
        };
        proof {
            assert(old(self).col_wf(c as int));
        }
        let row = self.entities.len() - 1;
        self.component_storages[c].push(value);
        self.component_storages[c].meta_mut().set_added(row, true);
        assert forall|k: int| 0 <= k < self.columns().len() implies #[trigger] self.col_wf(k) by {
            assert(old(self).col_wf(k));
        }
    }

    /// The bytes of the value of row `index` in the column for `id`, if there is one.
    pub fn get_value(&self, index: usize, id: ComponentId) -> (r: Option<&Vec<u8>>)
        requires
            self.wf(),
            self.complete(),
            index < self.n(),
        ensures
            match r {
                Some(v) => exists|c: int| 0 <= c < self.ids().len() && self.ids()[c] == id && v@ == #[trigger] self.columns()[c].rows()[index as int],
                None => !self.ids().contains(id),
            },
    {
        match self.type_index_dynamic(id) {
            Some(c) => {
                proof {
                    assert(self.col_wf(c as int));
                }
                Some(self.component_storages[c].get_value(index))
            },
            None => None,
        }
    }

    /// Writes `value` over the value of row `index` in the column for `id` and marks the row
    /// mutated. Fails, changing nothing, when there is no such column.
    pub fn set_value(&mut self, index: usize, id: ComponentId, value: Vec<u8>) -> (r: Result<(), MissingComponent>)
        requires
            old(self).wf(),
            old(self).complete(),
            index < old(self).n(),
            forall|c: int| 0 <= c < old(self).ids().len() && old(self).ids()[c] == id ==> value@.len() == #[trigger] old(self).infos()[c].size,
        ensures
            final(self).wf(),
            final(self).complete(),
            final(self).infos() == old(self).infos(),
            final(self).grow() == old(self).grow(),
            final(self).entity_rows() == old(self).entity_rows(),
            final(self).columns().len() == old(self).columns().len(),
            r is Err <==> !old(self).ids().contains(id),
            r is Err ==> r->Err_0.id == id,
            forall|c: int| 0 <= c < final(self).columns().len() ==> {
                let col = #[trigger] final(self).columns()[c];
                let o = old(self).columns()[c];
                if old(self).ids()[c] == id {
                    &&& col.info() == o.info()
                    &&& col.rows() == o.rows().update(index as int, value@)
                    &&& col.meta_view().added() == o.meta_view().added()
                    &&& col.meta_view().mutated() == o.meta_view().mutated().update(index as int, true)
                    &&& col.meta_view().borrow_count() == o.meta_view().borrow_count()
                } else {
                    same_col(col, o)
                }
            },
    {
        match self.type_index_dynamic(id) {
            Some(c) => {
                proof {
                    assert(old(self).col_wf(c as int));
                }
                self.component_storages[c].set(index, value);
                self.component_storages[c].meta_mut().set_mutated(index, true);
                assert forall|k: int| 0 <= k < self.columns().len() implies #[trigger] self.col_wf(k) by {
                    assert(old(self).col_wf(k));
                }
                Ok(())
            },
            None => Err(MissingComponent::new(id)),
        }
    }

    /// Writes `value` over the value of row `index` in the column for `id`, leaving its flags
    /// as they are. Fails, changing nothing, when there is no such column.
    pub fn replace_value(&mut self, index: usize, id: ComponentId, value: Vec<u8>) -> (r: Result<(), MissingComponent>)
        requires
            old(self).wf(),
            index < old(self).n(),
            forall|c: int| 0 <= c < old(self).ids().len() && old(self).ids()[c] == id ==> #[trigger] old(self).columns()[c].rows().len() == old(self).n(),
            forall|c: int| 0 <= c < old(self).ids().len() && old(self).ids()[c] == id ==> value@.len() == #[trigger] old(self).infos()[c].size,
        ensures
            final(self).wf(),
            old(self).complete() ==> final(self).complete(),
            final(self).infos() == old(self).infos(),
            final(self).grow() == old(self).grow(),
            final(self).entity_rows() == old(self).entity_rows(),
            final(self).columns().len() == old(self).columns().len(),
            r is Err <==> !old(self).ids().contains(id),
            r is Err ==> r->Err_0.id == id,
            forall|c: int| 0 <= c < final(self).columns().len() ==> {
                let col = #[trigger] final(self).columns()[c];
                let o = old(self).columns()[c];
                if old(self).ids()[c] == id {
                    &&& col.info() == o.info()
                    &&& col.rows() == o.rows().update(index as int, value@)
                    &&& col.meta_view().added() == o.meta_view().added()
                    &&& col.meta_view().mutated() == o.meta_view().mutated()
                    &&& col.meta_view().borrow_count() == o.meta_view().borrow_count()
                } else {
                    same_col(col, o)
                }
            },
    {
        match self.type_index_dynamic(id) {
            Some(c) => {
                proof {
                    assert(old(self).col_wf(c as int));
                }
                self.component_storages[c].set(index, value);
                assert forall|k: int| 0 <= k < self.columns().len() implies #[trigger] self.col_wf(k) by {
                    assert(old(self).col_wf(k));
                }
                Ok(())
            },
            None => Err(MissingComponent::new(id)),
        }
    }

    /// Removes row `index` from every structure, moving the last row into its place.
    /// Returns the entity that now sits at `index`, or `None` when `index` was the last row.
    pub fn remove(&mut self, index: usize) -> (r: Option<Entity>)
        requires
            old(self).wf(),
            old(self).complete(),
            index < old(self).n(),
        ensures
            final(self).wf(),
            final(self).complete(),
            final(self).infos() == old(self).infos(),
            final(self).grow() == old(self).grow(),
            final(self).entity_rows() == swap_removed(old(self).entity_rows(), index as int),
            final(self).columns().len() == old(self).columns().len(),
            forall|c: int| 0 <= c < final(self).columns().len() ==> col_swap_removed(old(self).columns()[c], #[trigger] final(self).columns()[c], index as int),
            index + 1 == old(self).n() ==> r is None,
            index + 1 < old(self).n() ==> r == Some(old(self).entity_rows().last()),
    {
        let ncols = self.component_storages.len();
        let mut c: usize = 0;
        while c < ncols
            invariant
                old(self).wf(),
                old(self).complete(),
                index < old(self).n(),
                ncols == self.columns().len(),
                ncols == old(self).columns().len(),
                c <= ncols,
                self.infos() == old(self).infos(),
                self.entity_rows() == old(self).entity_rows(),
                self.grow() == old(self).grow(),
                forall|k: int| 0 <= k < c ==> col_swap_removed(old(self).columns()[k], #[trigger] self.columns()[k], index as int),
                forall|k: int| c <= k < ncols ==> #[trigger] self.columns()[k] == old(self).columns()[k],
            decreases ncols - c,
        {
            proof {
                assert(old(self).col_wf(c as int));
            }
            self.component_storages[c].swap_remove(index, false);
            self.component_storages[c].meta_mut().swap_remove(index);
            c = c + 1;
        }
        let r = self.take_entity(index);
        assert forall|k: int| 0 <= k < self.columns().len() implies #[trigger] self.col_wf(k) by {
            assert(old(self).col_wf(k));
        }
        r
    }

    /// Swap-removes the entity of row `index` alone.
    fn take_entity(&mut self, index: usize) -> (r: Option<Entity>)
        requires
            index < old(self).entities@.len(),
        ensures
            final(self).entities@ == swap_removed(old(self).entities@, index as int),
            final(self).type_info == old(self).type_info,
            final(self).grow_size == old(self).grow_size,
            final(self).component_storages == old(self).component_storages,
            index + 1 == old(self).entities@.len() ==> r is None,
            index + 1 < old(self).entities@.len() ==> r == Some(old(self).entities@.last()),
    {
        let last = self.entities.len() - 1;
        if index == last {
            self.entities.pop();
            assert(self.entities@ =~= swap_removed(old(self).entities@, index as int));
            None
        } else {
            self.entities.swap_remove(index);
            Some(self.entities[index])
        }
    }

    /// Moves the entity of row `location.index` into a new row of `archetype`.
    ///
    /// Each value whose kind `archetype` also has is moved there with its flags; the others
    /// are dropped (with `drop_unused`) or leaked (without it). The destination's columns of
    /// kinds this archetype lacks are left for the caller to fill. `location.index` becomes
    /// the destination row. Returns the entity that now sits in the vacated row, or `None`
    /// when the moved row was the last.
    pub fn move_to(&mut self, location: &mut Location, archetype: &mut Archetype, drop_unused: bool) -> (r: Option<Entity>)
        requires
            old(self).wf(),
            old(self).complete(),
            old(archetype).wf(),
            old(archetype).complete(),
            old(location).index < old(self).n(),
            infos_agree(old(self).infos(), old(archetype).infos()),
        ensures
            final(self).wf(),
            final(self).complete(),
            final(self).infos() == old(self).infos(),
            final(self).grow() == old(self).grow(),
            final(self).entity_rows() == swap_removed(old(self).entity_rows(), old(location).index as int),
            final(self).columns().len() == old(self).columns().len(),
            forall|c: int| 0 <= c < final(self).columns().len() ==> col_swap_removed(old(self).columns()[c], #[trigger] final(self).columns()[c], old(location).index as int),
            old(location).index + 1 == old(self).n() ==> r is None,
            old(location).index + 1 < old(self).n() ==> r == Some(old(self).entity_rows().last()),
            final(location).archetype == old(location).archetype,
            final(location).index == old(archetype).n(),
            final(archetype).wf(),
            final(archetype).infos() == old(archetype).infos(),
            final(archetype).grow() == old(archetype).grow(),
            final(archetype).entity_rows() == old(archetype).entity_rows().push(old(self).entity_rows()[old(location).index as int]),
            final(archetype).columns().len() == old(archetype).columns().len(),
            forall|d: int, k: int| 0 <= d < final(archetype).columns().len() && 0 <= k < old(self).columns().len() && old(archetype).ids()[d] == old(self).ids()[k] ==> col_received(#[trigger] final(archetype).columns()[d], old(archetype).columns()[d], #[trigger] old(self).columns()[k], old(location).index as int),
            forall|d: int| 0 <= d < final(archetype).columns().len() && !old(self).ids().contains(old(archetype).ids()[d]) ==> col_allocated(#[trigger] final(archetype).columns()[d], old(archetype).columns()[d]),
    {
        let i = location.index;
        let entity = self.entities[i];
        let target = archetype.allocate(entity);
        location.index = target;
        let ghost mid = archetype.columns();
        let ncols = self.component_storages.len();
        let ndest = archetype.component_storages.len();
        let mut s: usize = 0;
        while s < ncols
            invariant
                old(self).wf(),
                old(self).complete(),
                old(archetype).wf(),
                old(archetype).complete(),
                infos_agree(old(self).infos(), old(archetype).infos()),
                i < old(self).n(),
                ncols == self.columns().len(),
                ncols == old(self).columns().len(),
                ndest == archetype.columns().len(),
                ndest == old(archetype).columns().len(),
                ndest == mid.len(),
                target == old(archetype).n(),
                s <= ncols,
                self.infos() == old(self).infos(),
                self.entity_rows() == old(self).entity_rows(),
                self.grow() == old(self).grow(),
                archetype.wf(),
                archetype.infos() == old(archetype).infos(),
                archetype.grow() == old(archetype).grow(),
                archetype.entity_rows() == old(archetype).entity_rows().push(entity),
                forall|k: int| 0 <= k < s ==> col_swap_removed(old(self).columns()[k], #[trigger] self.columns()[k], i as int),
                forall|k: int| s <= k < ncols ==> #[trigger] self.columns()[k] == old(self).columns()[k],
                forall|d: int| 0 <= d < ndest ==> col_allocated(#[trigger] mid[d], old(archetype).columns()[d]),
                forall|d: int, k: int| 0 <= d < ndest && 0 <= k < s && old(archetype).ids()[d] == old(self).ids()[k] ==> col_received(#[trigger] archetype.columns()[d], old(archetype).columns()[d], #[trigger] old(self).columns()[k], i as int),
                forall|d: int| 0 <= d < ndest && !old(self).ids().subrange(0, s as int).contains(old(archetype).ids()[d]) ==> same_col(#[trigger] archetype.columns()[d], mid[d]),
            decreases ncols - s,
        {
            proof {
                assert(old(self).col_wf(s as int));
            }
            let id = self.type_info[s].id;
            let added = self.component_storages[s].meta().is_added(i);
            let mutated = self.component_storages[s].meta().is_mutated(i);
            let ghost arch_before = *archetype;
            match archetype.type_index_dynamic(id) {
                Some(d) => {
                    proof {
                        assert(archetype.col_wf(d as int));
                        assert(old(archetype).col_wf(d as int));
                        assert(old(self).infos()[s as int].id == old(archetype).infos()[d as int].id);
                        assert(!old(self).ids().subrange(0, s as int).contains(id)) by {
                            if old(self).ids().subrange(0, s as int).contains(id) {
                                let k = choose|k: int| 0 <= k < s && old(self).ids().subrange(0, s as int)[k] == id;
                                assert(old(self).ids()[k] == old(self).ids()[s as int]);
                            }
                        }
                    }
                    let taken = self.component_storages[s].swap_remove(i, false);
                    let value = match taken {
                        Some(v) => v,
                        None => {
                            proof {
                                assert(false);
                            }
                            Vec::new()
                        },
                    };
                    archetype.component_storages[d].push(value);
                    archetype.component_storages[d].meta_mut().set_added(target, added);
                    archetype.component_storages[d].meta_mut().set_mutated(target, mutated);
                    proof {
                        let o = old(archetype).columns()[d as int];
                        let col = archetype.columns()[d as int];
                        assert(col.meta_view().added() =~= o.meta_view().added().push(added));
                        assert(col.meta_view().mutated() =~= o.meta_view().mutated().push(mutated));
                        assert forall|e: int| 0 <= e < ndest implies #[trigger] archetype.col_wf(e) by {
                            assert(arch_before.col_wf(e));
                        }
                        assert(col_received(col, o, old(self).columns()[s as int], i as int));
                        assert forall|e: int, k: int| 0 <= e < ndest && 0 <= k < s + 1 && old(archetype).ids()[e] == old(self).ids()[k] implies col_received(#[trigger] archetype.columns()[e], old(archetype).columns()[e], #[trigger] old(self).columns()[k], i as int) by {
                            if k == s {
                                assert(e == d);
                            } else {
                                assert(e != d);
                                assert(arch_before.columns()[e] == archetype.columns()[e]);
                            }
                        }
                        assert forall|e: int| 0 <= e < ndest && !old(self).ids().subrange(0, s as int + 1).contains(old(archetype).ids()[e]) implies same_col(#[trigger] archetype.columns()[e], mid[e]) by {
                            assert(old(self).ids().subrange(0, s as int + 1)[s as int] == id);
                            assert(e != d);
                            assert(!old(self).ids().subrange(0, s as int).contains(old(archetype).ids()[e])) by {
                                if old(self).ids().subrange(0, s as int).contains(old(archetype).ids()[e]) {
                                    let k = choose|k: int| 0 <= k < s && old(self).ids().subrange(0, s as int)[k] == old(archetype).ids()[e];
                                    assert(old(self).ids().subrange(0, s as int + 1)[k] == old(archetype).ids()[e]);
                                }
                            }
                            assert(arch_before.columns()[e] == archetype.columns()[e]);
                        }
                    }
                },
                None => {
                    self.component_storages[s].swap_remove(i, !drop_unused);
                    proof {
                        assert(archetype.ids() == old(archetype).ids());
                        assert forall|e: int| 0 <= e < ndest && !old(self).ids().subrange(0, s as int + 1).contains(old(archetype).ids()[e]) implies same_col(#[trigger] archetype.columns()[e], mid[e]) by {
                            assert(!old(self).ids().subrange(0, s as int).contains(old(archetype).ids()[e])) by {
                                if old(self).ids().subrange(0, s as int).contains(old(archetype).ids()[e]) {
                                    let k = choose|k: int| 0 <= k < s && old(self).ids().subrange(0, s as int)[k] == old(archetype).ids()[e];
                                    assert(old(self).ids().subrange(0, s as int + 1)[k] == old(archetype).ids()[e]);
                                }
                            }
                        }
                        assert forall|e: int, k: int| 0 <= e < ndest && 0 <= k < s + 1 && old(archetype).ids()[e] == old(self).ids()[k] implies col_received(#[trigger] archetype.columns()[e], old(archetype).columns()[e], #[trigger] old(self).columns()[k], i as int) by {
                            if k == s {
                                assert(archetype.ids()[e] == id);
                                assert(archetype.ids().contains(id));
                            }
                        }
                    }
                },
            }
            self.component_storages[s].meta_mut().swap_remove(i);
            proof {
                assert(old(self).ids().subrange(0, s as int + 1) =~= old(self).ids().subrange(0, s as int).push(id));
            }
            s = s + 1;
        }
        let r = self.take_entity(i);
        assert forall|k: int| 0 <= k < self.columns().len() implies #[trigger] self.col_wf(k) by {
            assert(old(self).col_wf(k));
        }
        assert(old(self).ids().subrange(0, ncols as int) =~= old(self).ids());
        assert forall|d: int| 0 <= d < ndest && !old(self).ids().contains(old(archetype).ids()[d]) implies col_allocated(#[trigger] archetype.columns()[d], old(archetype).columns()[d]) by {
            assert(same_col(archetype.columns()[d], mid[d]));
            assert(col_allocated(mid[d], old(archetype).columns()[d]));
        }
        r
    }

    /// Row alignment: in a valid archetype whose rows are complete, every column, and each
    /// of its two flag arrays, has exactly one entry per entity.
    pub proof fn lemma_row_alignment(&self)
        requires
            self.wf(),
            self.complete(),
        ensures
            forall|c: int| 0 <= c < self.columns().len() ==> {
                &&& (#[trigger] self.columns()[c]).rows().len() == self.n()
                &&& self.columns()[c].meta_view().added().len() == self.n()
                &&& self.columns()[c].meta_view().mutated().len() == self.n()
            },
    {
        assert forall|c: int| 0 <= c < self.columns().len() implies {
            &&& (#[trigger] self.columns()[c]).rows().len() == self.n()
            &&& self.columns()[c].meta_view().added().len() == self.n()
            &&& self.columns()[c].meta_view().mutated().len() == self.n()
        } by {
            assert(self.col_wf(c));
        }
    }

    /// Whether every column's counter can grant, in order, the borrows `reqs` asks of it.
    pub open spec fn can_take(&self, reqs: Seq<(ComponentId, bool)>) -> bool {
        forall|c: int| 0 <= c < self.columns().len() ==> borrow_fold(
            (#[trigger] self.columns()[c]).meta_view().borrow_count(),
            reqs,
            self.ids()[c],
        ) is Some
    }

    /// Whether the counter of column `c` can grant, in order, the borrows `reqs` asks of it.
    fn column_can_take(&self, c: usize, reqs: &Vec<(ComponentId, bool)>) -> (r: bool)
        requires
            self.wf(),
            c < self.columns().len(),
        ensures
            r == borrow_fold(self.columns()[c as int].meta_view().borrow_count(), reqs@, self.ids()[c as int]) is Some,
    {
        let id = self.type_info[c].id;
        let ghost start = self.columns()[c as int].meta_view().borrow_count();
        let mut count: i64 = self.component_storages[c].meta().borrow_state();
        let mut k: usize = 0;
        while k < reqs.len()
            invariant
                k <= reqs@.len(),
                c < self.columns().len(),
                self.columns().len() == self.infos().len(),
                id == self.ids()[c as int],
                start == self.columns()[c as int].meta_view().borrow_count(),
                borrow_fold(start, reqs@.subrange(0, k as int), id) == Some(count as int),
            decreases reqs@.len() - k,
        {
            proof {
                assert(reqs@.subrange(0, k as int + 1).drop_last() =~= reqs@.subrange(0, k as int));
            }
            let (rid, write) = reqs[k];
            if crate::component::same_id(rid, id) {
                if write {
                    if count == 0 {
                        count = -1;
                    } else {
                        proof {
                            lemma_fold_stuck(start, reqs@, id, k as int + 1);
                        }
                        return false;
                    }
                } else {
                    if 0 <= count && count < i64::MAX {
                        count = count + 1;
                    } else {
                        proof {
                            lemma_fold_stuck(start, reqs@, id, k as int + 1);
                        }
                        return false;
                    }
                }
            }
            k = k + 1;
        }
        assert(reqs@.subrange(0, reqs@.len() as int) =~= reqs@);
        true
    }

    /// Takes the borrows `reqs` (a component and whether the borrow is exclusive), in order,
    /// from the columns they name; requests for components this archetype lacks are ignored.
    /// All or nothing: when some borrow would be refused, no counter changes.
    pub fn try_borrow(&mut self, reqs: &Vec<(ComponentId, bool)>) -> (r: bool)
        requires
            old(self).wf(),
        ensures
            final(self).wf(),
            final(self).infos() == old(self).infos(),
            final(self).grow() == old(self).grow(),
            final(self).entity_rows() == old(self).entity_rows(),
            final(self).columns().len() == old(self).columns().len(),
            r == old(self).can_take(reqs@),
            forall|c: int| 0 <= c < final(self).columns().len() ==> {
                let col = #[trigger] final(self).columns()[c];
                let o = old(self).columns()[c];
                &&& col.info() == o.info()
                &&& col.rows() == o.rows()
                &&& col.meta_view().added() == o.meta_view().added()
                &&& col.meta_view().mutated() == o.meta_view().mutated()
                &&& col.meta_view().borrow_count() == (if r {
                    borrow_fold(o.meta_view().borrow_count(), reqs@, old(self).ids()[c])->Some_0
                } else {
                    o.meta_view().borrow_count()
                })
            },
    {
        let ncols = self.component_storages.len();
        let mut c: usize = 0;
        while c < ncols
            invariant
                self.wf(),
                *self == *old(self),
                ncols == self.columns().len(),
                c <= ncols,
                forall|k: int| 0 <= k < c ==> borrow_fold(
                    (#[trigger] self.columns()[k]).meta_view().borrow_count(),
                    reqs@,
                    self.ids()[k],
                ) is Some,
            decreases ncols - c,
        {
            if !self.column_can_take(c, reqs) {
                return false;
            }
            c = c + 1;
        }
        let mut k: usize = 0;
        assert forall|j: int| 0 <= j < ncols implies ({
            let col = #[trigger] self.columns()[j];
            let o = old(self).columns()[j];
            &&& col.info() == o.info()
            &&& col.rows() == o.rows()
            &&& col.meta_view().added() == o.meta_view().added()
            &&& col.meta_view().mutated() == o.meta_view().mutated()
            &&& Some(col.meta_view().borrow_count()) == borrow_fold(o.meta_view().borrow_count(), reqs@.subrange(0, 0), old(self).ids()[j])
        }) by {}
        while k < reqs.len()
            invariant
                old(self).wf(),
                old(self).can_take(reqs@),
                self.wf(),
                ncols == self.columns().len(),
                ncols == old(self).columns().len(),
                k <= reqs@.len(),
                self.infos() == old(self).infos(),
                self.grow() == old(self).grow(),
                self.entity_rows() == old(self).entity_rows(),
                forall|j: int| 0 <= j < ncols ==> ({
                    let col = #[trigger] self.columns()[j];
                    let o = old(self).columns()[j];
                    &&& col.info() == o.info()
                    &&& col.rows() == o.rows()
                    &&& col.meta_view().added() == o.meta_view().added()
                    &&& col.meta_view().mutated() == o.meta_view().mutated()
                    &&& Some(col.meta_view().borrow_count()) == borrow_fold(o.meta_view().borrow_count(), reqs@.subrange(0, k as int), old(self).ids()[j])
                }),
            decreases reqs@.len() - k,
        {
            let (id, write) = reqs[k];
            let ghost before = *self;
            proof {
                assert(reqs@.subrange(0, k as int + 1).drop_last() =~= reqs@.subrange(0, k as int));
                assert forall|j: int| 0 <= j < ncols implies borrow_fold(
                    old(self).columns()[j].meta_view().borrow_count(),
                    reqs@.subrange(0, k as int + 1),
                    old(self).ids()[j],
                ) is Some by {
                    assert(borrow_fold(old(self).columns()[j].meta_view().borrow_count(), reqs@, old(self).ids()[j]) is Some);
                    lemma_borrow_fold_prefix(old(self).columns()[j].meta_view().borrow_count(), reqs@, old(self).ids()[j], k as int + 1);
                }
            }
            match self.type_index_dynamic(id) {
                Some(c) => {
                    proof {
                        assert(self.col_wf(c as int));
                    }
                    if write {
                        self.component_storages[c].meta_mut().borrow_mut();
                    } else {
                        self.component_storages[c].meta_mut().borrow();
                    }
                    proof {
                        assert forall|j: int| 0 <= j < ncols implies #[trigger] self.col_wf(j) by {
                            assert(before.col_wf(j));
                        }
                        assert forall|j: int| 0 <= j < ncols && j != c implies old(self).ids()[j] != id by {
                            assert(old(self).ids()[j] != old(self).ids()[c as int]);
                        }
                    }
                },
                None => {},
            }
            k = k + 1;
        }
        assert(reqs@.subrange(0, reqs@.len() as int) =~= reqs@);
        true
    }

    /// Gives back the borrows `reqs`, the last first, to the columns they name; requests for
    /// components this archetype lacks are ignored.
    pub fn release_borrows(&mut self, reqs: &Vec<(ComponentId, bool)>)
        requires
            old(self).wf(),
            forall|c: int| 0 <= c < old(self).columns().len() ==> release_fold(
                (#[trigger] old(self).columns()[c]).meta_view().borrow_count(),
                reqs@,
                old(self).ids()[c],
            ) is Some,
        ensures
            final(self).wf(),
            final(self).infos() == old(self).infos(),
            final(self).grow() == old(self).grow(),
            final(self).entity_rows() == old(self).entity_rows(),
            final(self).columns().len() == old(self).columns().len(),
            forall|c: int| 0 <= c < final(self).columns().len() ==> {
                let col = #[trigger] final(self).columns()[c];
                let o = old(self).columns()[c];
                &&& col.info() == o.info()
                &&& col.rows() == o.rows()
                &&& col.meta_view().added() == o.meta_view().added()
                &&& col.meta_view().mutated() == o.meta_view().mutated()
                &&& col.meta_view().borrow_count() == release_fold(o.meta_view().borrow_count(), reqs@, old(self).ids()[c])->Some_0
            },
    {
        let ncols = self.component_storages.len();
        let mut k: usize = reqs.len();
        assert(reqs@.subrange(0, reqs@.len() as int) =~= reqs@);
        while k > 0
            invariant
                old(self).wf(),
                self.wf(),
                ncols == self.columns().len(),
                ncols == old(self).columns().len(),
                k <= reqs@.len(),
                self.infos() == old(self).infos(),
                self.grow() == old(self).grow(),
                self.entity_rows() == old(self).entity_rows(),
                forall|j: int| 0 <= j < ncols ==> ({
                    let col = #[trigger] self.columns()[j];
                    let o = old(self).columns()[j];
                    &&& col.info() == o.info()
                    &&& col.rows() == o.rows()
                    &&& col.meta_view().added() == o.meta_view().added()
                    &&& col.meta_view().mutated() == o.meta_view().mutated()
                    &&& release_fold(col.meta_view().borrow_count(), reqs@.subrange(0, k as int), old(self).ids()[j])
                        == release_fold(o.meta_view().borrow_count(), reqs@, old(self).ids()[j])
                    &&& release_fold(o.meta_view().borrow_count(), reqs@, old(self).ids()[j]) is Some
                }),
            decreases k,
        {
            let (id, write) = reqs[k - 1];
            let ghost before = *self;
            proof {
                assert(reqs@.subrange(0, k as int).drop_last() =~= reqs@.subrange(0, k as int - 1));
                assert(reqs@.subrange(0, k as int).last() == reqs@[k as int - 1]);
            }
            match self.type_index_dynamic(id) {
                Some(c) => {
                    proof {
                        assert(self.col_wf(c as int));
                    }
                    if write {
                        self.component_storages[c].meta_mut().release_mut();
                    } else {
                        self.component_storages[c].meta_mut().release();
                    }
                    proof {
                        assert forall|j: int| 0 <= j < ncols implies #[trigger] self.col_wf(j) by {
                            assert(before.col_wf(j));
                        }
                        assert forall|j: int| 0 <= j < ncols && j != c implies old(self).ids()[j] != id by {
                            assert(old(self).ids()[j] != old(self).ids()[c as int]);
                        }
                    }
                },
                None => {},
            }
            k = k - 1;
        }
    }
}

} // verus!
