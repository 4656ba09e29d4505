use crate::access::Access;
use crate::archetype::{col_of, distinct_ids, ids_of, lemma_col_of, Archetype};
use crate::component::ComponentId;
use crate::storage::{borrow_fold, release_fold};
use crate::component::{DynamicComponentInfo, Entity, TypeInfo};
use vstd::prelude::*;

verus! {

/// A query assembled at run time from component metadata: a list of components read and a
/// list of components written. No component occurs twice across the two lists.
#[derive(Debug)]
pub struct DynamicQuery {
    immutable: Vec<TypeInfo>,
    mutable: Vec<TypeInfo>,
}

/// Archetype `a` has every component of `infos`.
pub open spec fn has_all(a: Archetype, infos: Seq<TypeInfo>) -> bool {
    forall|i: int| 0 <= i < infos.len() ==> a.ids().contains(#[trigger] infos[i].id)
}

/// Whether `a` has every component of `infos`.
fn presence(a: &Archetype, infos: &Vec<TypeInfo>) -> (r: bool)
    requires
        a.wf(),
    ensures
        r == has_all(*a, infos@),
{
    let mut i: usize = 0;
    while i < infos.len()
        invariant
            a.wf(),
            i <= infos@.len(),
            has_all(*a, infos@.subrange(0, i as int)),
        decreases infos@.len() - i,
    {
        if !a.has_type(infos[i].id) {
            return false;
        }
        proof {
            let pre = infos@.subrange(0, i as int);
            let post = infos@.subrange(0, i as int + 1);
            assert forall|j: int| 0 <= j < post.len() implies a.ids().contains(#[trigger] post[j].id) by {
                if j < i {
                    assert(pre[j] == post[j]);
                }
            }
        }
        i = i + 1;
    }
    assert(infos@.subrange(0, infos@.len() as int) =~= infos@);
    true
}

impl DynamicQuery {
    /// The components read.
    pub closed spec fn reads(&self) -> Seq<TypeInfo> {
        self.immutable@
    }

    /// The components written.
    pub closed spec fn writes(&self) -> Seq<TypeInfo> {
        self.mutable@
    }

    /// No component occurs twice across the two lists.
    pub open spec fn wf(&self) -> bool {
        distinct_ids(ids_of(self.reads() + self.writes()))
    }

    /// A query that touches nothing.
    pub fn new() -> (r: DynamicQuery)
        ensures
            r.wf(),
            r.reads() == Seq::<TypeInfo>::empty(),
            r.writes() == Seq::<TypeInfo>::empty(),
    {
        let r = DynamicQuery { immutable: Vec::new(), mutable: Vec::new() };
        assert(ids_of(r.reads() + r.writes()) =~= Seq::<crate::component::ComponentId>::empty());
        r
    }

    /// Whether the component of `info` is already in the query.
    pub fn info_collides(&self, info: &TypeInfo) -> (r: bool)
        ensures
            r == ids_of(self.reads() + self.writes()).contains(info.id),
    {
        let mut i: usize = 0;
        while i < self.immutable.len()
            invariant
                i <= self.immutable@.len(),
                forall|k: int| 0 <= k < i ==> self.immutable@[k].id != info.id,
            decreases self.immutable@.len() - i,
        {
            if crate::component::same_id(self.immutable[i].id, info.id) {
                assert(ids_of(self.reads() + self.writes())[i as int] == info.id);
                return true;
            }
            i = i + 1;
        }
        let mut j: usize = 0;
        while j < self.mutable.len()
            invariant
                j <= self.mutable@.len(),
                forall|k: int| 0 <= k < self.immutable@.len() ==> self.immutable@[k].id != info.id,
                forall|k: int| 0 <= k < j ==> self.mutable@[k].id != info.id,
            decreases self.mutable@.len() - j,
        {
            if crate::component::same_id(self.mutable[j].id, info.id) {
                assert(ids_of(self.reads() + self.writes())[self.immutable@.len() + j] == info.id);
                return true;
            }
            j = j + 1;
        }
        assert forall|k: int| 0 <= k < ids_of(self.reads() + self.writes()).len() implies ids_of(self.reads() + self.writes())[k] != info.id by {
            if k >= self.immutable@.len() {
                assert((self.reads() + self.writes())[k] == self.mutable@[k - self.immutable@.len()]);
            }
        }
        false
    }

    /// Adds a read of `info`'s component; refused (`false`, nothing changed) when the
    /// component is already in the query.
    fn try_push_read(&mut self, info: TypeInfo) -> (r: bool)
        requires
            old(self).wf(),
        ensures
            final(self).wf(),
            r == !ids_of(old(self).reads() + old(self).writes()).contains(info.id),
            r ==> final(self).reads() == old(self).reads().push(info) && final(self).writes() == old(self).writes(),
            !r ==> final(self).reads() == old(self).reads() && final(self).writes() == old(self).writes(),
    {
        if self.info_collides(&info) {
            return false;
        }
        let ghost old_all = ids_of(self.reads() + self.writes());
        self.immutable.push(info);
        proof {
            let all = ids_of(self.reads() + self.writes());
            let ni = old(self).reads().len();
            assert forall|k: int| 0 <= k < all.len() implies #[trigger] all[k] == (if k < ni {
                old_all[k]
            } else if k == ni {
                info.id
            } else {
                old_all[k - 1]
            }) by {
                if k < ni {
                } else if k == ni {
                } else {
                    assert((self.reads() + self.writes())[k] == self.mutable@[k - ni - 1]);
                    assert((old(self).reads() + old(self).writes())[k - 1] == self.mutable@[k - ni - 1]);
                }
            }
            assert forall|x: int, y: int| 0 <= x < all.len() && 0 <= y < all.len() && x != y implies all[x] != all[y] by {
                if x != ni && y != ni {
                    let x0 = if x < ni { x } else { x - 1 };
                    let y0 = if y < ni { y } else { y - 1 };
                    assert(all[x] == old_all[x0]);
                    assert(all[y] == old_all[y0]);
                } else if x == ni {
                    let y0 = if y < ni { y } else { y - 1 };
                    assert(all[y] == old_all[y0]);
                } else {
                    let x0 = if x < ni { x } else { x - 1 };
                    assert(all[x] == old_all[x0]);
                }
            }
        }
        true
    }

    /// Adds a write of `info`'s component. Refused (`false`, nothing changed) when the
    /// component is already in the query.
    fn try_push_write(&mut self, info: TypeInfo) -> (r: bool)
        requires
            old(self).wf(),
        ensures
            final(self).wf(),
            r == !ids_of(old(self).reads() + old(self).writes()).contains(info.id),
            r ==> final(self).writes() == old(self).writes().push(info) && final(self).reads() == old(self).reads(),
            !r ==> final(self).reads() == old(self).reads() && final(self).writes() == old(self).writes(),
    {
        if self.info_collides(&info) {
            return false;
        }
        let ghost old_all = ids_of(self.reads() + self.writes());
        self.mutable.push(info);
        proof {
            let all = ids_of(self.reads() + self.writes());
            assert(all =~= old_all.push(info.id));
            assert forall|x: int, y: int| 0 <= x < all.len() && 0 <= y < all.len() && x != y implies all[x] != all[y] by {
                if x < old_all.len() && y < old_all.len() {
                    assert(all[x] == old_all[x]);
                    assert(all[y] == old_all[y]);
                } else if x < old_all.len() {
                    assert(old_all[x] == all[x]);
                } else if y < old_all.len() {
                    assert(old_all[y] == all[y]);
                }
            }
        }
        true
    }

    /// Adds a read of the Rust type `T`. Refused (`false`, nothing changed) when it is
    /// already in the query.
    pub fn push_rust<T: 'static>(&mut self) -> (r: bool)
        requires
            old(self).wf(),
        ensures
            final(self).wf(),
            exists|info: TypeInfo| {
                &&& info.id is RustTypeId
                &&& info.size as nat == vstd::layout::size_of::<T>()
                &&& info.align as nat == vstd::layout::align_of::<T>()
                &&& r == !(#[trigger] ids_of(old(self).reads() + old(self).writes()).contains(info.id))
                &&& r ==> final(self).reads() == old(self).reads().push(info)
            },
            r ==> final(self).writes() == old(self).writes(),
            !r ==> final(self).reads() == old(self).reads() && final(self).writes() == old(self).writes(),
    {
        let info = TypeInfo::of::<T>();
        let r = self.try_push_read(info);
        assert(r ==> self.reads() == old(self).reads().push(info));
        assert(info.id is RustTypeId && r == !ids_of(old(self).reads() + old(self).writes()).contains(info.id));
        r
    }

    /// Adds a write of the Rust type `T`. Refused (`false`, nothing changed) when it is
    /// already in the query.
    pub fn push_rust_mut<T: 'static>(&mut self) -> (r: bool)
        requires
            old(self).wf(),
        ensures
            final(self).wf(),
            exists|info: TypeInfo| {
                &&& info.id is RustTypeId
                &&& info.size as nat == vstd::layout::size_of::<T>()
                &&& info.align as nat == vstd::layout::align_of::<T>()
                &&& r == !(#[trigger] ids_of(old(self).reads() + old(self).writes()).contains(info.id))
                &&& r ==> final(self).writes() == old(self).writes().push(info)
            },
            r ==> final(self).reads() == old(self).reads(),
            !r ==> final(self).reads() == old(self).reads() && final(self).writes() == old(self).writes(),
    {
        let info = TypeInfo::of::<T>();
        let r = self.try_push_write(info);
        assert(r ==> self.writes() == old(self).writes().push(info));
        assert(info.id is RustTypeId && r == !ids_of(old(self).reads() + old(self).writes()).contains(info.id));
        r
    }

    /// Adds a read of `info`'s component, which must not be in the query yet (adding one
    /// twice is a contract violation).
    pub fn push_type_info(&mut self, info: TypeInfo)
        requires
            old(self).wf(),
            !ids_of(old(self).reads() + old(self).writes()).contains(info.id),
        ensures
            final(self).wf(),
            final(self).reads() == old(self).reads().push(info),
            final(self).writes() == old(self).writes(),
    {
        self.try_push_read(info);
    }

    /// Adds a write of `info`'s component, which must not be in the query yet (adding one
    /// twice is a contract violation).
    pub fn push_type_info_mut(&mut self, info: TypeInfo)
        requires
            old(self).wf(),
            !ids_of(old(self).reads() + old(self).writes()).contains(info.id),
        ensures
            final(self).wf(),
            final(self).reads() == old(self).reads(),
            final(self).writes() == old(self).writes().push(info),
    {
        self.try_push_write(info);
    }

    /// Adds a read of a component registered at run time, which must not be in the query
    /// yet (adding one twice is a contract violation).
    pub fn push_dynamic(&mut self, info: DynamicComponentInfo)
        requires
            old(self).wf(),
            !ids_of(old(self).reads() + old(self).writes()).contains(crate::component::ComponentId::ExternalId(info.id)),
        ensures
            final(self).wf(),
            final(self).reads() == old(self).reads().push(TypeInfo {
                id: crate::component::ComponentId::ExternalId(info.id),
                size: info.size,
                align: info.align,
            }),
            final(self).writes() == old(self).writes(),
    {
        self.push_type_info(info.into_type_info());
    }

    /// Adds a write of a component registered at run time, which must not be in the query
    /// yet (adding one twice is a contract violation).
    pub fn push_dynamic_mut(&mut self, info: DynamicComponentInfo)
        requires
            old(self).wf(),
            !ids_of(old(self).reads() + old(self).writes()).contains(crate::component::ComponentId::ExternalId(info.id)),
        ensures
            final(self).wf(),
            final(self).reads() == old(self).reads(),
            final(self).writes() == old(self).writes().push(TypeInfo {
                id: crate::component::ComponentId::ExternalId(info.id),
                size: info.size,
                align: info.align,
            }),
    {
        self.push_type_info_mut(info.into_type_info());
    }

    /// How the query touches an archetype: not at all unless the archetype is iterated (see
    /// `spec_matches`); then `Write` when the query writes a component, else `Read`.
    pub open spec fn spec_access(&self, a: Archetype) -> Option<Access> {
        if !self.spec_matches(a) {
            None
        } else if self.writes().len() > 0 {
            Some(Access::Write)
        } else {
            Some(Access::Read)
        }
    }

    /// Whether an archetype is iterated: the query names some component and the archetype
    /// has all of them.
    pub open spec fn spec_matches(&self, a: Archetype) -> bool {
        &&& self.reads().len() + self.writes().len() > 0
        &&& has_all(a, self.reads())
        &&& has_all(a, self.writes())
    }

    /// How the query touches `archetype`: not at all unless the query names some component
    /// and the archetype has every one of them; then `Write` when the query writes one, else
    /// `Read`.
    pub fn access(&self, archetype: &Archetype) -> (r: Option<Access>)
        requires
            archetype.wf(),
        ensures
            r == self.spec_access(*archetype),
    {
        if self.get_fetch(archetype, 0).is_none() {
            None
        } else if self.mutable.len() > 0 {
            Some(Access::Write)
        } else {
            Some(Access::Read)
        }
    }

    /// No row is filtered out by a dynamic query.
    pub fn should_skip(&self, _index: usize) -> (r: bool)
        ensures
            !r,
    {
        false
    }

    /// A cursor over `archetype` starting at row `offset`, when the archetype is iterated.
    pub fn get_fetch(&self, archetype: &Archetype, offset: usize) -> (r: Option<DynamicQueryFetch>)
        requires
            archetype.wf(),
        ensures
            r is Some <==> self.spec_matches(*archetype),
            r is Some ==> r->Some_0.offset == offset,
    {
        let all_read = presence(archetype, &self.immutable);
        let all_write = presence(archetype, &self.mutable);
        if (self.immutable.len() > 0 || self.mutable.len() > 0) && all_read && all_write {
            Some(DynamicQueryFetch { offset })
        } else {
            None
        }
    }

    /// The entity of row `index` and the bytes of each queried component of it, reads first
    /// in query order, then writes in query order.
    pub fn fetch(&self, archetype: &Archetype, index: usize) -> (r: DynamicQueryResult)
        requires
            archetype.wf(),
            archetype.complete(),
            self.spec_matches(*archetype),
            index < archetype.n(),
        ensures
            r.entity == archetype.entity_rows()[index as int],
            r.immutable@.len() == self.reads().len(),
            r.mutable@.len() == self.writes().len(),
            forall|k: int| 0 <= k < self.reads().len() ==> (#[trigger] r.immutable@[k])@ == col_of(*archetype, self.reads()[k].id).rows()[index as int],
            forall|k: int| 0 <= k < self.writes().len() ==> (#[trigger] r.mutable@[k])@ == col_of(*archetype, self.writes()[k].id).rows()[index as int],
    {
        let immutable = values_of(archetype, &self.immutable, index);
        let mutable = values_of(archetype, &self.mutable, index);
        DynamicQueryResult { entity: archetype.get_entity(index), immutable, mutable }
    }
}

/// Copies of the bytes of row `index` of the columns for `infos`.
fn values_of(archetype: &Archetype, infos: &Vec<TypeInfo>, index: usize) -> (r: Vec<Vec<u8>>)
    requires
        archetype.wf(),
        archetype.complete(),
        has_all(*archetype, infos@),
        index < archetype.n(),
    ensures
        r@.len() == infos@.len(),
        forall|k: int| 0 <= k < infos@.len() ==> (#[trigger] r@[k])@ == col_of(*archetype, infos@[k].id).rows()[index as int],
{
    let mut out: Vec<Vec<u8>> = Vec::new();
    let mut i: usize = 0;
    while i < infos.len()
        invariant
            archetype.wf(),
            archetype.complete(),
            has_all(*archetype, infos@),
            index < archetype.n(),
            i <= infos@.len(),
            out@.len() == i,
            forall|k: int| 0 <= k < i ==> (#[trigger] out@[k])@ == col_of(*archetype, infos@[k].id).rows()[index as int],
        decreases infos@.len() - i,
    {
        let id = infos[i].id;
        proof {
            assert(archetype.ids().contains(infos@[i as int].id));
        }
        let col = match archetype.get_storage_dynamic(id) {
            Some(col) => col,
            None => {
                proof {
                    assert(false);
                }
                return out;
            },
        };
        proof {
            let c = choose|c: int| 0 <= c < archetype.ids().len() && archetype.ids()[c] == id;
            lemma_col_of(*archetype, id, c);
        }
        let v = col.get_value(index).clone();
        assert(v@ =~= col.rows()[index as int]);
        out.push(v);
        i = i + 1;
    }
    out
}

/// A cursor of a dynamic query into one archetype.
#[derive(Debug, Clone, Copy)]
pub struct DynamicQueryFetch {
    pub offset: usize,
}

/// The data of one row that a dynamic query yields.
#[derive(Debug)]
pub struct DynamicQueryResult {
    /// The row's entity
    pub entity: Entity,
    /// The bytes of each read component, in query order
    pub immutable: Vec<Vec<u8>>,
    /// The bytes of each written component, in query order
    pub mutable: Vec<Vec<u8>>,
}

/// All rows `0..n` of the archetype at `ai`, in order.
pub open spec fn all_rows(ai: usize, n: nat) -> Seq<(usize, usize)> {
    Seq::new(n, |r: int| (ai, r as usize))
}

/// The rows that iterating `q` over `archs` yields: every row of every archetype `q` matches,
/// archetypes in order.
pub open spec fn dynamic_rows(q: DynamicQuery, archs: Seq<Archetype>) -> Seq<(usize, usize)>
    decreases archs.len(),
{
    if archs.len() == 0 {
        Seq::empty()
    } else {
        let prev = dynamic_rows(q, archs.drop_last());
        let a = archs.last();
        if q.spec_matches(a) {
            prev + all_rows((archs.len() - 1) as usize, a.n())
        } else {
            prev
        }
    }
}

/// The borrow requests of a list of components: each with the given exclusivity.
pub open spec fn infos_requests(infos: Seq<TypeInfo>, write: bool) -> Seq<(ComponentId, bool)> {
    infos.map_values(|t: TypeInfo| (t.id, write))
}

impl DynamicQuery {
    /// The borrows the query takes on an archetype: its reads, then its writes.
    pub open spec fn spec_requests(&self) -> Seq<(ComponentId, bool)> {
        infos_requests(self.reads(), false) + infos_requests(self.writes(), true)
    }

    /// The borrows the query takes on an archetype, in order.
    pub fn borrow_requests(&self) -> (r: Vec<(ComponentId, bool)>)
        ensures
            r@ == self.spec_requests(),
    {
        let mut out: Vec<(ComponentId, bool)> = Vec::new();
        let mut i: usize = 0;
        while i < self.immutable.len()
            invariant
                i <= self.immutable@.len(),
                out@ == infos_requests(self.immutable@.subrange(0, i as int), false),
            decreases self.immutable@.len() - i,
        {
            out.push((self.immutable[i].id, false));
            assert(infos_requests(self.immutable@.subrange(0, i as int + 1), false) =~= out@);
            i = i + 1;
        }
        assert(self.immutable@.subrange(0, self.immutable@.len() as int) =~= self.immutable@);
        let ghost first = out@;
        let mut j: usize = 0;
        while j < self.mutable.len()
            invariant
                j <= self.mutable@.len(),
                first == infos_requests(self.reads(), false),
                out@ == first + infos_requests(self.mutable@.subrange(0, j as int), true),
            decreases self.mutable@.len() - j,
        {
            out.push((self.mutable[j].id, true));
            assert(first + infos_requests(self.mutable@.subrange(0, j as int + 1), true) =~= out@);
            j = j + 1;
        }
        assert(self.mutable@.subrange(0, self.mutable@.len() as int) =~= self.mutable@);
        out
    }

    /// Takes the query's borrows on `archetype`, all or nothing: `false` (no counter
    /// changed) when another holder forbids one of them.
    pub fn borrow(&self, archetype: &mut Archetype) -> (r: bool)
        requires
            old(archetype).wf(),
        ensures
            final(archetype).wf(),
            final(archetype).infos() == old(archetype).infos(),
            final(archetype).entity_rows() == old(archetype).entity_rows(),
            final(archetype).columns().len() == old(archetype).columns().len(),
            r == old(archetype).can_take(self.spec_requests()),
            forall|c: int| 0 <= c < final(archetype).columns().len() ==> {
                let col = #[trigger] final(archetype).columns()[c];
                let o = old(archetype).columns()[c];
                &&& col.rows() == o.rows()
                &&& col.meta_view().added() == o.meta_view().added()
                &&& col.meta_view().mutated() == o.meta_view().mutated()
                &&& col.meta_view().borrow_count() == (if r {
                    borrow_fold(o.meta_view().borrow_count(), self.spec_requests(), old(archetype).ids()[c])->Some_0
                } else {
                    o.meta_view().borrow_count()
                })
            },
    {
        let reqs = self.borrow_requests();
        archetype.try_borrow(&reqs)
    }

    /// Gives back the query's borrows on `archetype`.
    pub fn release(&self, archetype: &mut Archetype)
        requires
            old(archetype).wf(),
            forall|c: int| 0 <= c < old(archetype).columns().len() ==> release_fold(
                (#[trigger] old(archetype).columns()[c]).meta_view().borrow_count(),
                self.spec_requests(),
                old(archetype).ids()[c],
            ) is Some,
        ensures
            final(archetype).wf(),
            final(archetype).infos() == old(archetype).infos(),
            final(archetype).entity_rows() == old(archetype).entity_rows(),
            final(archetype).columns().len() == old(archetype).columns().len(),
            forall|c: int| 0 <= c < final(archetype).columns().len() ==> {
                let col = #[trigger] final(archetype).columns()[c];
                let o = old(archetype).columns()[c];
                &&& col.rows() == o.rows()
                &&& col.meta_view().added() == o.meta_view().added()
                &&& col.meta_view().mutated() == o.meta_view().mutated()
                &&& col.meta_view().borrow_count() == release_fold(o.meta_view().borrow_count(), self.spec_requests(), old(archetype).ids()[c])->Some_0
            },
    {
        let reqs = self.borrow_requests();
        archetype.release_borrows(&reqs);
    }
}

/// The number of rows of the archetypes of `archs` that `q` accesses at all.
pub open spec fn dynamic_len(q: DynamicQuery, archs: Seq<Archetype>) -> nat
    decreases archs.len(),
{
    if archs.len() == 0 {
        0
    } else {
        dynamic_len(q, archs.drop_last()) + if q.spec_access(archs.last()) is Some {
            archs.last().n()
        } else {
            0
        }
    }
}

/// The count of a prefix of the archetypes is at most the count of them all.
pub proof fn lemma_dynamic_len_prefix(q: DynamicQuery, archs: Seq<Archetype>, k: int)
    requires
        0 <= k <= archs.len(),
    ensures
        dynamic_len(q, archs.subrange(0, k)) <= dynamic_len(q, archs),
    decreases archs.len(),
{
    if k < archs.len() {
        lemma_dynamic_len_prefix(q, archs.drop_last(), k);
        assert(archs.drop_last().subrange(0, k) =~= archs.subrange(0, k));
    } else {
        assert(archs.subrange(0, k) =~= archs);
    }
}

impl DynamicQuery {
    /// The number of rows of the archetypes of `archetypes` that the query accesses at all.
    pub fn len(&self, archetypes: &Vec<Archetype>) -> (r: usize)
        requires
            forall|i: int| 0 <= i < archetypes@.len() ==> (#[trigger] archetypes@[i]).wf(),
            dynamic_len(*self, archetypes@) <= usize::MAX,
        ensures
            r == dynamic_len(*self, archetypes@),
    {
        let mut total: usize = 0;
        let mut i: usize = 0;
        assert(archetypes@.subrange(0, 0) =~= Seq::<Archetype>::empty());
        while i < archetypes.len()
            invariant
                forall|k: int| 0 <= k < archetypes@.len() ==> (#[trigger] archetypes@[k]).wf(),
                dynamic_len(*self, archetypes@) <= usize::MAX,
                i <= archetypes@.len(),
                total == dynamic_len(*self, archetypes@.subrange(0, i as int)),
            decreases archetypes@.len() - i,
        {
            let a = &archetypes[i];
            proof {
                assert(archetypes@.subrange(0, i as int + 1).drop_last() =~= archetypes@.subrange(0, i as int));
                assert(archetypes@.subrange(0, i as int + 1).last() == archetypes@[i as int]);
                lemma_dynamic_len_prefix(*self, archetypes@, i as int + 1);
            }
            if self.access(a).is_some() {
                total = total + a.len();
            }
            i = i + 1;
        }
        assert(archetypes@.subrange(0, archetypes@.len() as int) =~= archetypes@);
        total
    }
}

/// A single-use handle that runs a dynamic query over a list of archetypes.
#[derive(Debug)]
pub struct DynamicQueryBorrow<'q> {
    query: &'q DynamicQuery,
    borrowed: bool,
}

impl<'q> DynamicQueryBorrow<'q> {
    /// Whether the handle has been used.
    pub closed spec fn spec_borrowed(&self) -> bool {
        self.borrowed
    }

    /// The query this handle runs.
    pub closed spec fn spec_query(&self) -> DynamicQuery {
        *self.query
    }

    /// A fresh handle for `query`.
    pub fn new(query: &'q DynamicQuery) -> (r: DynamicQueryBorrow<'q>)
        ensures
            !r.spec_borrowed(),
            r.spec_query() == *query,
    {
        DynamicQueryBorrow { query, borrowed: false }
    }

    /// Runs the query: every row of every matching archetype, as (archetype, row) pairs, in
    /// order. A handle runs once.
    pub fn iter_mut(&mut self, archetypes: &Vec<Archetype>) -> (r: Vec<(usize, usize)>)
        requires
            !old(self).spec_borrowed(),
            forall|i: int| 0 <= i < archetypes@.len() ==> (#[trigger] archetypes@[i]).wf(),
        ensures
            final(self).spec_borrowed(),
            final(self).spec_query() == old(self).spec_query(),
            r@ == dynamic_rows(old(self).spec_query(), archetypes@),
    {
        self.borrowed = true;
        let mut out: Vec<(usize, usize)> = Vec::new();
        let mut i: usize = 0;
        assert(archetypes@.subrange(0, 0) =~= Seq::<Archetype>::empty());
        while i < archetypes.len()
            invariant
                forall|k: int| 0 <= k < archetypes@.len() ==> (#[trigger] archetypes@[k]).wf(),
                i <= archetypes@.len(),
                out@ == dynamic_rows(*self.query, archetypes@.subrange(0, i as int)),
            decreases archetypes@.len() - i,
        {
            let a = &archetypes[i];
            proof {
                assert(archetypes@.subrange(0, i as int + 1).drop_last() =~= archetypes@.subrange(0, i as int));
                assert(archetypes@.subrange(0, i as int + 1).last() == archetypes@[i as int]);
            }
            if self.query.get_fetch(a, 0).is_some() {
                let n = a.len();
                let ghost start = out@;
                let mut row: usize = 0;
                while row < n
                    invariant
                        row <= n,
                        out@ == start + all_rows(i, row as nat),
                    decreases n - row,
                {
                    out.push((i, row));
                    assert(out@ =~= start + all_rows(i, row as nat + 1));
                    row = row + 1;
                }
            }
            i = i + 1;
        }
        assert(archetypes@.subrange(0, archetypes@.len() as int) =~= archetypes@);
        out
    }
}

} // verus!
