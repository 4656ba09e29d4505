use crate::archetype::{distinct_ids, ids_of, infos_agree, same_col, Archetype};
use crate::component::{contains_id, ComponentId, Entity, Location, MissingComponent, TypeInfo};
use crate::archetype::col_of;
use crate::query::{added_at, mutated_at, query_rows, rows_range, Query};
use crate::storage::{borrow_fold, release_fold, VecComponentStorage};
use vstd::prelude::*;

verus! {

/// Two archetypes have the same signature: the same set of component kinds.
pub open spec fn same_signature(a: Seq<ComponentId>, b: Seq<ComponentId>) -> bool {
    a.to_set() == b.to_set()
}

/// Whether `a` and `b` hold the same ids, in any order.
fn same_id_set(a: &Vec<ComponentId>, b: &Vec<ComponentId>) -> (r: bool)
    ensures
        r == same_signature(a@, b@),
{
    let mut i: usize = 0;
    while i < a.len()
        invariant
            i <= a@.len(),
            forall|k: int| 0 <= k < i ==> b@.contains(#[trigger] a@[k]),
        decreases a@.len() - i,
    {
        if !contains_id(b, a[i]) {
            assert(a@.to_set().contains(a@[i as int]));
            return false;
        }
        i = i + 1;
    }
    let mut j: usize = 0;
    while j < b.len()
        invariant
            j <= b@.len(),
            forall|k: int| 0 <= k < a@.len() ==> b@.contains(#[trigger] a@[k]),
            forall|k: int| 0 <= k < j ==> a@.contains(#[trigger] b@[k]),
        decreases b@.len() - j,
    {
        if !contains_id(a, b[j]) {
            assert(b@.to_set().contains(b@[j as int]));
            return false;
        }
        j = j + 1;
    }
    assert forall|x: ComponentId| a@.to_set().contains(x) <==> b@.to_set().contains(x) by {
        if a@.contains(x) {
            let k = choose|k: int| 0 <= k < a@.len() && a@[k] == x;
            assert(b@.contains(a@[k]));
        }
        if b@.contains(x) {
            let k = choose|k: int| 0 <= k < b@.len() && b@[k] == x;
            assert(a@.contains(b@[k]));
        }
    }
    assert(a@.to_set() =~= b@.to_set());
    true
}

/// The ids of a list of component metadata.
fn ids_of_infos(infos: &Vec<TypeInfo>) -> (r: Vec<ComponentId>)
    ensures
        r@ == ids_of(infos@),
{
    let mut out: Vec<ComponentId> = Vec::new();
    let mut i: usize = 0;
    while i < infos.len()
        invariant
            i <= infos@.len(),
            out@ == ids_of(infos@.subrange(0, i as int)),
        decreases infos@.len() - i,
    {
        out.push(infos[i].id);
        assert(ids_of(infos@.subrange(0, i as int + 1)) =~= ids_of(infos@.subrange(0, i as int)).push(infos@[i as int].id));
        i = i + 1;
    }
    assert(infos@.subrange(0, infos@.len() as int) =~= infos@);
    out
}

/// Column `new` is column `o` with one more row holding `value`, flagged added and not mutated.
pub open spec fn col_spawned(new: VecComponentStorage, o_rows: Seq<Seq<u8>>, o_added: Seq<bool>, o_mutated: Seq<bool>, value: Seq<u8>) -> bool {
    &&& new.rows() == o_rows.push(value)
    &&& new.meta_view().added() == o_added.push(true)
    &&& new.meta_view().mutated() == o_mutated.push(false)
}

/// The metadata of each component to spawn.
pub open spec fn comp_infos(cs: Seq<(TypeInfo, Vec<u8>)>) -> Seq<TypeInfo> {
    cs.map_values(|c: (TypeInfo, Vec<u8>)| c.0)
}

/// The entities of archetype `t` before a spawn (none when `t` is new).
pub open spec fn entities_before(archs: Seq<Archetype>, t: int) -> Seq<Entity> {
    if t < archs.len() { archs[t].entity_rows() } else { Seq::empty() }
}

/// The values of column `c` of archetype `t` before a spawn (none when `t` is new).
pub open spec fn rows_before(archs: Seq<Archetype>, t: int, c: int) -> Seq<Seq<u8>> {
    if t < archs.len() { archs[t].columns()[c].rows() } else { Seq::empty() }
}

/// The "added" flags of column `c` of archetype `t` before a spawn (none when `t` is new).
pub open spec fn added_before(archs: Seq<Archetype>, t: int, c: int) -> Seq<bool> {
    if t < archs.len() { archs[t].columns()[c].meta_view().added() } else { Seq::empty() }
}

/// The "mutated" flags of column `c` of archetype `t` before a spawn (none when `t` is new).
pub open spec fn mutated_before(archs: Seq<Archetype>, t: int, c: int) -> Seq<bool> {
    if t < archs.len() { archs[t].columns()[c].meta_view().mutated() } else { Seq::empty() }
}

/// The entity of each (archetype, row) pair.
pub open spec fn entities_at(archs: Seq<Archetype>, rows: Seq<(usize, usize)>) -> Seq<Entity> {
    rows.map_values(|p: (usize, usize)| archs[p.0 as int].entity_rows()[p.1 as int])
}

/// Every pair that iterating a query yields names an existing row.
pub proof fn lemma_query_rows_valid(q: Query, archs: Seq<Archetype>)
    requires
        archs.len() <= usize::MAX,
        forall|i: int| 0 <= i < archs.len() ==> (#[trigger] archs[i]).n() <= usize::MAX,
    ensures
        forall|k: int| 0 <= k < query_rows(q, archs).len() ==> {
            let p = #[trigger] query_rows(q, archs)[k];
            p.0 < archs.len() && p.1 < archs[p.0 as int].n()
        },
    decreases archs.len(),
{
    if archs.len() > 0 {
        let prev = archs.drop_last();
        lemma_query_rows_valid(q, prev);
        let a = archs.last();
        let ai = (archs.len() - 1) as usize;
        assert(a == archs[archs.len() - 1]);
        lemma_rows_range_valid(q, a, ai, 0, a.n());
        assert forall|k: int| 0 <= k < query_rows(q, archs).len() implies {
            let p = #[trigger] query_rows(q, archs)[k];
            p.0 < archs.len() && p.1 < archs[p.0 as int].n()
        } by {
            let qp = query_rows(q, prev);
            if k < qp.len() {
                assert(query_rows(q, archs)[k] == qp[k]);
                assert(archs[qp[k].0 as int] == prev[qp[k].0 as int]);
            } else {
                assert(query_rows(q, archs)[k] == rows_range(q, a, ai, 0, a.n())[k - qp.len()]);
            }
        }
    }
}

/// Every pair of `rows_range` is a row of `lo..hi` at `ai`.
pub proof fn lemma_rows_range_valid(q: Query, a: Archetype, ai: usize, lo: nat, hi: nat)
    requires
        hi <= usize::MAX,
    ensures
        forall|k: int| 0 <= k < rows_range(q, a, ai, lo, hi).len() ==> {
            let p = #[trigger] rows_range(q, a, ai, lo, hi)[k];
            p.0 == ai && lo <= p.1 < hi
        },
    decreases hi,
{
    if hi > lo {
        lemma_rows_range_valid(q, a, ai, lo, (hi - 1) as nat);
        let prev = rows_range(q, a, ai, lo, (hi - 1) as nat);
        assert forall|k: int| 0 <= k < rows_range(q, a, ai, lo, hi).len() implies {
            let p = #[trigger] rows_range(q, a, ai, lo, hi)[k];
            p.0 == ai && lo <= p.1 < hi
        } by {
            if k < prev.len() {
                assert(rows_range(q, a, ai, lo, hi)[k] == prev[k]);
            }
        }
    }
}

/// Signature uniqueness: no two archetypes of a valid store have the same set of
/// component kinds.
pub proof fn lemma_signatures_unique(w: World, i: int, j: int)
    requires
        w.wf(),
        0 <= i < w.archs().len(),
        0 <= j < w.archs().len(),
        i != j,
    ensures
        !same_signature(w.archs()[i].ids(), w.archs()[j].ids()),
{
}

/// Writes the values `comps` into row `row` of `arch`, the last row: a column that already
/// holds a value there has it replaced, flags kept; a column still waiting for one (those
/// outside `kept`) receives it, flagged added.
fn fill_row(arch: &mut Archetype, row: usize, comps: Vec<(TypeInfo, Vec<u8>)>, Ghost(kept): Ghost<Set<ComponentId>>)
    requires
        old(arch).wf(),
        row < old(arch).n(),
        distinct_ids(ids_of(comp_infos(comps@))),
        forall|k: int| 0 <= k < comps@.len() ==> (#[trigger] comps@[k]).1@.len() == comps@[k].0.size,
        infos_agree(comp_infos(comps@), old(arch).infos()),
        forall|k: int| 0 <= k < comps@.len() ==> old(arch).ids().contains((#[trigger] comps@[k]).0.id),
        forall|c: int| 0 <= c < old(arch).columns().len() && kept.contains(old(arch).ids()[c]) ==> (#[trigger] old(arch).columns()[c]).rows().len() == old(arch).n(),
        forall|c: int| 0 <= c < old(arch).columns().len() && !kept.contains(old(arch).ids()[c]) ==> {
            &&& (#[trigger] old(arch).columns()[c]).rows().len() == row
            &&& row + 1 == old(arch).n()
            &&& !old(arch).columns()[c].meta_view().mutated()[row as int]
            &&& ids_of(comp_infos(comps@)).contains(old(arch).ids()[c])
        },
    ensures
        final(arch).wf(),
        final(arch).complete(),
        final(arch).infos() == old(arch).infos(),
        final(arch).grow() == old(arch).grow(),
        final(arch).entity_rows() == old(arch).entity_rows(),
        final(arch).columns().len() == old(arch).columns().len(),
        forall|c: int| 0 <= c < final(arch).columns().len() && !ids_of(comp_infos(comps@)).contains(old(arch).ids()[c])
            ==> same_col(#[trigger] final(arch).columns()[c], old(arch).columns()[c]),
        forall|c: int, k: int| 0 <= c < final(arch).columns().len() && 0 <= k < comps@.len() && old(arch).ids()[c] == (#[trigger] comps@[k]).0.id ==> {
            let col = #[trigger] final(arch).columns()[c];
            let o = old(arch).columns()[c];
            &&& col.rows()[row as int] == comps@[k].1@
            &&& forall|j: int| 0 <= j < old(arch).n() && j != row ==> #[trigger] col.rows()[j] == o.rows()[j]
            &&& col.meta_view().mutated() == o.meta_view().mutated()
            &&& kept.contains(o.info().id) ==> col.meta_view().added() == o.meta_view().added()
            &&& !kept.contains(o.info().id) ==> col.meta_view().added() == o.meta_view().added().update(row as int, true)
        },
{
    let ghost cids = ids_of(comp_infos(comps@));
    let ghost all = comps@;
    let mut comps = comps;
    while comps.len() > 0
        invariant
            old(arch).wf(),
            row < old(arch).n(),
            cids == ids_of(comp_infos(all)),
            distinct_ids(cids),
            forall|k: int| 0 <= k < all.len() ==> (#[trigger] all[k]).1@.len() == all[k].0.size,
            infos_agree(comp_infos(all), old(arch).infos()),
            forall|k: int| 0 <= k < all.len() ==> old(arch).ids().contains((#[trigger] all[k]).0.id),
            forall|c: int| 0 <= c < old(arch).columns().len() && kept.contains(old(arch).ids()[c]) ==> (#[trigger] old(arch).columns()[c]).rows().len() == old(arch).n(),
            forall|c: int| 0 <= c < old(arch).columns().len() && !kept.contains(old(arch).ids()[c]) ==> {
                &&& (#[trigger] old(arch).columns()[c]).rows().len() == row
                &&& row + 1 == old(arch).n()
                &&& !old(arch).columns()[c].meta_view().mutated()[row as int]
                &&& cids.contains(old(arch).ids()[c])
            },
            comps.len() <= all.len(),
            comps@ == all.subrange(0, comps@.len() as int),
            arch.wf(),
            arch.infos() == old(arch).infos(),
            arch.grow() == old(arch).grow(),
            arch.entity_rows() == old(arch).entity_rows(),
            arch.columns().len() == old(arch).columns().len(),
            forall|c: int| 0 <= c < arch.columns().len() && !cids.subrange(comps@.len() as int, cids.len() as int).contains(old(arch).ids()[c])
                ==> same_col(#[trigger] arch.columns()[c], old(arch).columns()[c]),
            forall|c: int, k: int| 0 <= c < arch.columns().len() && comps@.len() <= k < all.len() && old(arch).ids()[c] == (#[trigger] all[k]).0.id ==> {
                let col = #[trigger] arch.columns()[c];
                let o = old(arch).columns()[c];
                &&& col.rows().len() == old(arch).n()
                &&& col.rows()[row as int] == all[k].1@
                &&& forall|j: int| 0 <= j < old(arch).n() && j != row ==> #[trigger] col.rows()[j] == o.rows()[j]
                &&& col.meta_view().mutated() == o.meta_view().mutated()
                &&& kept.contains(o.info().id) ==> col.meta_view().added() == o.meta_view().added()
                &&& !kept.contains(o.info().id) ==> col.meta_view().added() == o.meta_view().added().update(row as int, true)
            },
        decreases comps.len(),
    {
        let m = comps.len() - 1;
        let (info, value) = match comps.pop() {
            Some(p) => p,
            None => {
                proof {
                    assert(false);
                }
                return;
            },
        };
        let ghost cur = *arch;
        proof {
            assert((info, value) == all[m as int]);
            assert(cids[m as int] == info.id);
            assert(old(arch).ids().contains(info.id));
        }
        let c0 = match arch.type_index_dynamic(info.id) {
            Some(c) => c,
            None => {
                proof {
                    assert(cur.ids() =~= old(arch).ids());
                    assert(false);
                }
                return;
            },
        };
        proof {
            assert(cur.ids() =~= old(arch).ids());
            assert(!cids.subrange(m as int + 1, cids.len() as int).contains(info.id)) by {
                if cids.subrange(m as int + 1, cids.len() as int).contains(info.id) {
                    let j = choose|j: int| 0 <= j < cids.len() - m - 1 && #[trigger] cids.subrange(m as int + 1, cids.len() as int)[j] == info.id;
                    assert(cids[m as int + 1 + j] == cids[m as int]);
                }
            }
            assert(same_col(cur.columns()[c0 as int], old(arch).columns()[c0 as int]));
            assert(old(arch).col_wf(c0 as int));
            assert(comp_infos(all)[m as int].id == old(arch).infos()[c0 as int].id);
        }
        let complete = arch.column(c0).len() == arch.len();
        if complete {
            proof {
                assert forall|c: int| 0 <= c < cur.ids().len() && cur.ids()[c] == info.id implies #[trigger] cur.columns()[c].rows().len() == cur.n() by {
                    assert(cur.ids()[c] == cur.ids()[c0 as int]);
                }
                assert forall|c: int| 0 <= c < cur.ids().len() && cur.ids()[c] == info.id implies value@.len() == #[trigger] cur.infos()[c].size by {
                    assert(cur.ids()[c] == cur.ids()[c0 as int]);
                }
            }
            let _ = arch.replace_value(row, info.id, value);
        } else {
            proof {
                assert(cur.col_wf(c0 as int));
                assert forall|c: int| 0 <= c < cur.ids().len() && cur.ids()[c] == info.id implies {
                    &&& #[trigger] cur.columns()[c].rows().len() + 1 == cur.n()
                    &&& value@.len() == cur.infos()[c].size
                } by {
                    assert(cur.ids()[c] == cur.ids()[c0 as int]);
                }
            }
            arch.insert(info.id, value);
        }
        proof {
            let rest = cids.subrange(m as int, cids.len() as int);
            assert(rest =~= seq![info.id] + cids.subrange(m as int + 1, cids.len() as int));
            let kept_c0 = kept.contains(old(arch).ids()[c0 as int]);
            assert(kept_c0 ==> complete);
            assert(!kept_c0 ==> !complete);
            assert forall|c: int| 0 <= c < arch.columns().len() && !rest.contains(old(arch).ids()[c])
                implies same_col(#[trigger] arch.columns()[c], old(arch).columns()[c]) by {
                assert(rest[0] == info.id);
                assert(c != c0);
                assert(!cids.subrange(m as int + 1, cids.len() as int).contains(old(arch).ids()[c])) by {
                    if cids.subrange(m as int + 1, cids.len() as int).contains(old(arch).ids()[c]) {
                        let j = choose|j: int| 0 <= j < cids.len() - m - 1 && #[trigger] cids.subrange(m as int + 1, cids.len() as int)[j] == old(arch).ids()[c];
                        assert(rest[j + 1] == old(arch).ids()[c]);
                    }
                }
            }
            assert forall|c: int, k: int| 0 <= c < arch.columns().len() && m <= k < all.len() && old(arch).ids()[c] == (#[trigger] all[k]).0.id implies {
                let col = #[trigger] arch.columns()[c];
                let o = old(arch).columns()[c];
                &&& col.rows().len() == old(arch).n()
                &&& col.rows()[row as int] == all[k].1@
                &&& forall|j: int| 0 <= j < old(arch).n() && j != row ==> #[trigger] col.rows()[j] == o.rows()[j]
                &&& col.meta_view().mutated() == o.meta_view().mutated()
                &&& kept.contains(o.info().id) ==> col.meta_view().added() == o.meta_view().added()
                &&& !kept.contains(o.info().id) ==> col.meta_view().added() == o.meta_view().added().update(row as int, true)
            } by {
                assert(old(arch).col_wf(c));
                if k == m {
                    assert(old(arch).ids()[c] == old(arch).ids()[c0 as int]);
                    assert(c == c0);
                } else {
                    assert(cids[k] == all[k].0.id);
                    assert(cids[k] != cids[m as int]);
                    assert(c != c0);
                }
            }
            assert(comps@ =~= all.subrange(0, m as int));
        }
    }
    proof {
        assert(comps@.len() == 0);
        assert(cids.subrange(comps@.len() as int, cids.len() as int) =~= cids);
        assert forall|c: int| 0 <= c < arch.columns().len() implies #[trigger] arch.columns()[c].rows().len() == arch.n() by {
            if !cids.contains(old(arch).ids()[c]) {
                let oc = old(arch).columns()[c];
                assert(kept.contains(old(arch).ids()[c]) || oc.rows().len() == row);
                assert(!cids.subrange(comps@.len() as int, cids.len() as int).contains(old(arch).ids()[c]));
                assert(same_col(arch.columns()[c], old(arch).columns()[c]));
                assert(kept.contains(old(arch).ids()[c]));
            } else {
                let k = choose|k: int| 0 <= k < cids.len() && cids[k] == old(arch).ids()[c];
                assert(all[k].0.id == cids[k]);
            }
        }
    }
}

/// Every row of `o` but row `skip` keeps its values and flags in `f`.
pub open spec fn rows_kept(f: Archetype, o: Archetype, skip: int) -> bool {
    forall|c: int, j: int|
        #![trigger f.columns()[c].rows()[j]]
        0 <= c < f.columns().len() && 0 <= j < o.n() && j != skip ==> {
            &&& f.columns()[c].rows()[j] == o.columns()[c].rows()[j]
            &&& f.columns()[c].meta_view().added()[j] == o.columns()[c].meta_view().added()[j]
            &&& f.columns()[c].meta_view().mutated()[j] == o.columns()[c].meta_view().mutated()[j]
        }
}

/// Archetype `a` is `o` with every column's counter advanced by the borrows `reqs`.
pub open spec fn borrowed_from(a: Archetype, o: Archetype, reqs: Seq<(ComponentId, bool)>) -> bool {
    &&& a.wf()
    &&& a.infos() == o.infos()
    &&& a.entity_rows() == o.entity_rows()
    &&& a.columns().len() == o.columns().len()
    &&& forall|c: int| 0 <= c < a.columns().len() ==> {
        let col = #[trigger] a.columns()[c];
        let oc = o.columns()[c];
        &&& col.rows() == oc.rows()
        &&& col.meta_view().added() == oc.meta_view().added()
        &&& col.meta_view().mutated() == oc.meta_view().mutated()
        &&& borrow_fold(oc.meta_view().borrow_count(), reqs, o.ids()[c]) == Some(col.meta_view().borrow_count())
    }
}

/// Archetype `a` is `o` in every respect the store's validity depends on, and every column
/// of it is the same.
pub open spec fn unchanged_from(a: Archetype, o: Archetype) -> bool {
    &&& a.wf()
    &&& a.infos() == o.infos()
    &&& a.entity_rows() == o.entity_rows()
    &&& a.columns().len() == o.columns().len()
    &&& forall|c: int| 0 <= c < a.columns().len() ==> same_col(#[trigger] a.columns()[c], o.columns()[c])
}

/// A store of archetypes: one per signature, each keeping its rows aligned.
#[derive(Debug)]
pub struct World {
    archetypes: Vec<Archetype>,
}

impl World {
    /// The archetypes, in creation order.
    pub closed spec fn archs(&self) -> Seq<Archetype> {
        self.archetypes@
    }

    /// Every archetype is valid with complete rows, no two share a signature, and the
    /// metadata of each component kind is the same wherever it occurs.
    pub open spec fn wf(&self) -> bool {
        &&& forall|i: int| 0 <= i < self.archs().len() ==> (#[trigger] self.archs()[i]).wf() && self.archs()[i].complete()
        &&& forall|i: int, j: int| 0 <= i < self.archs().len() && 0 <= j < self.archs().len() && i != j
            ==> !same_signature(#[trigger] self.archs()[i].ids(), #[trigger] self.archs()[j].ids())
        &&& forall|i: int, j: int| 0 <= i < self.archs().len() && 0 <= j < self.archs().len()
            ==> infos_agree(#[trigger] self.archs()[i].infos(), #[trigger] self.archs()[j].infos())
    }

    /// An empty store.
    pub fn new() -> (r: World)
        ensures
            r.wf(),
            r.archs() == Seq::<Archetype>::empty(),
    {
        World { archetypes: Vec::new() }
    }

    /// The archetypes, in creation order.
    pub fn archetypes(&self) -> (r: &Vec<Archetype>)
        ensures
            r@ == self.archs(),
    {
        &self.archetypes
    }

    /// The position of the archetype whose signature is the set `ids`, if there is one.
    pub fn find_archetype(&self, ids: &Vec<ComponentId>) -> (r: Option<usize>)
        requires
            self.wf(),
        ensures
            match r {
                Some(i) => i < self.archs().len() && same_signature(self.archs()[i as int].ids(), ids@),
                None => forall|i: int| 0 <= i < self.archs().len() ==> !same_signature(#[trigger] self.archs()[i].ids(), ids@),
            },
    {
        let mut i: usize = 0;
        while i < self.archetypes.len()
            invariant
                i <= self.archs().len(),
                forall|k: int| 0 <= k < i ==> !same_signature(#[trigger] self.archs()[k].ids(), ids@),
            decreases self.archs().len() - i,
        {
            let own = ids_of_infos(self.archetypes[i].type_info());
            if same_id_set(&own, ids) {
                return Some(i);
            }
            i = i + 1;
        }
        None
    }

    /// The position of the archetype for the component kinds `infos`, created (empty) when
    /// no archetype has that signature yet. An existing archetype is reused, never doubled.
    pub fn get_or_create(&mut self, infos: Vec<TypeInfo>) -> (r: usize)
        requires
            old(self).wf(),
            distinct_ids(ids_of(infos@)),
            forall|k: int| 0 <= k < old(self).archs().len() ==> infos_agree(infos@, #[trigger] old(self).archs()[k].infos()),
        ensures
            final(self).wf(),
            r < final(self).archs().len(),
            same_signature(final(self).archs()[r as int].ids(), ids_of(infos@)),
            (exists|i: int| 0 <= i < old(self).archs().len() && same_signature(#[trigger] old(self).archs()[i].ids(), ids_of(infos@)))
                ==> final(self).archs() == old(self).archs(),
            (forall|i: int| 0 <= i < old(self).archs().len() ==> !same_signature(#[trigger] old(self).archs()[i].ids(), ids_of(infos@)))
                ==> {
                &&& final(self).archs().len() == old(self).archs().len() + 1
                &&& r == old(self).archs().len()
                &&& final(self).archs().drop_last() == old(self).archs()
                &&& final(self).archs()[r as int].infos() == infos@
                &&& final(self).archs()[r as int].n() == 0
            },
    {
        let ids = ids_of_infos(&infos);
        match self.find_archetype(&ids) {
            Some(i) => {
                proof {
                    assert forall|k: int| 0 <= k < old(self).archs().len() && same_signature(#[trigger] old(self).archs()[k].ids(), ids_of(infos@)) implies k == i by {
                        if k != i {
                            assert(old(self).archs()[k].ids().to_set() == old(self).archs()[i as int].ids().to_set());
                        }
                    }
                }
                i
            },
            None => {
                let a = Archetype::new(infos);
                let ghost before = self.archs();
                self.archetypes.push(a);
                proof {
                    let n = before.len();
                    assert(self.archs().drop_last() =~= before);
                    assert forall|i: int, j: int| 0 <= i < self.archs().len() && 0 <= j < self.archs().len() implies infos_agree(#[trigger] self.archs()[i].infos(), #[trigger] self.archs()[j].infos()) by {
                        if i == n && j == n {
                            assert forall|x: int, y: int| 0 <= x < infos@.len() && 0 <= y < infos@.len() && #[trigger] infos@[x].id == #[trigger] infos@[y].id implies infos@[x] == infos@[y] by {
                                assert(ids_of(infos@)[x] == ids_of(infos@)[y]);
                            }
                        } else if i == n {
                            assert(infos_agree(infos@, before[j].infos()));
                        } else if j == n {
                            assert(infos_agree(infos@, before[i].infos()));
                        }
                    }
                    assert forall|i: int, j: int| 0 <= i < self.archs().len() && 0 <= j < self.archs().len() && i != j implies !same_signature(#[trigger] self.archs()[i].ids(), #[trigger] self.archs()[j].ids()) by {
                        if i == n {
                            assert(!same_signature(before[j].ids(), ids@));
                        } else if j == n {
                            assert(!same_signature(before[i].ids(), ids@));
                        }
                    }
                }
                self.archetypes.len() - 1
            },
        }
    }

    /// Every archetype count and row count fits in a `usize`.
    pub proof fn lemma_sizes_bounded(&self)
        ensures
            self.archs().len() <= usize::MAX,
            forall|i: int| 0 <= i < self.archs().len() ==> (#[trigger] self.archs()[i]).n() <= usize::MAX,
    {
        assert(self.archetypes.len() == self.archetypes@.len());
        assert forall|i: int| 0 <= i < self.archs().len() implies (#[trigger] self.archs()[i]).n() <= usize::MAX by {
            self.archs()[i].lemma_len_bounded();
        }
    }

    /// Adds a row for `entity` with the given components to the archetype of their signature
    /// (created when new). Every value is flagged added and not mutated.
    pub fn spawn(&mut self, entity: Entity, components: Vec<(TypeInfo, Vec<u8>)>) -> (r: Location)
        requires
            old(self).wf(),
            distinct_ids(ids_of(comp_infos(components@))),
            forall|k: int| 0 <= k < components@.len() ==> (#[trigger] components@[k]).1@.len() == components@[k].0.size,
            forall|a: int| 0 <= a < old(self).archs().len() ==> infos_agree(comp_infos(components@), #[trigger] old(self).archs()[a].infos()),
        ensures
            final(self).wf(),
            r.archetype < final(self).archs().len(),
            same_signature(final(self).archs()[r.archetype as int].ids(), ids_of(comp_infos(components@))),
            (exists|i: int| 0 <= i < old(self).archs().len() && same_signature(#[trigger] old(self).archs()[i].ids(), ids_of(comp_infos(components@))))
                ==> final(self).archs().len() == old(self).archs().len(),
            final(self).archs().len() == old(self).archs().len() || (final(self).archs().len() == old(self).archs().len() + 1
                && r.archetype == old(self).archs().len()),
            forall|i: int| 0 <= i < old(self).archs().len() && i != r.archetype ==> #[trigger] final(self).archs()[i] == old(self).archs()[i],
            final(self).archs()[r.archetype as int].entity_rows() == entities_before(old(self).archs(), r.archetype as int).push(entity),
            r.archetype < old(self).archs().len() ==> final(self).archs()[r.archetype as int].infos() == old(self).archs()[r.archetype as int].infos(),
            r.index + 1 == final(self).archs()[r.archetype as int].n(),
            forall|a: int| 0 <= a < final(self).archs().len() ==> infos_agree(comp_infos(components@), #[trigger] final(self).archs()[a].infos()),
            forall|c: int, k: int| 0 <= c < final(self).archs()[r.archetype as int].columns().len() && 0 <= k < components@.len()
                && final(self).archs()[r.archetype as int].ids()[c] == (#[trigger] components@[k]).0.id ==> col_spawned(
                    #[trigger] final(self).archs()[r.archetype as int].columns()[c],
                    rows_before(old(self).archs(), r.archetype as int, c),
                    added_before(old(self).archs(), r.archetype as int, c),
                    mutated_before(old(self).archs(), r.archetype as int, c),
                    components@[k].1@,
                ),
    {
        let mut infos: Vec<TypeInfo> = Vec::new();
        let mut i: usize = 0;
        while i < components.len()
            invariant
                i <= components@.len(),
                infos@ == comp_infos(components@.subrange(0, i as int)),
            decreases components@.len() - i,
        {
            infos.push(components[i].0);
            assert(comp_infos(components@.subrange(0, i as int + 1)) =~= comp_infos(components@.subrange(0, i as int)).push(components@[i as int].0));
            i = i + 1;
        }
        assert(components@.subrange(0, components@.len() as int) =~= components@);
        let ghost cinfos = infos@;
        let ghost cids = ids_of(cinfos);
        let t = self.get_or_create(infos);
        let ghost after = self.archs();
        let ghost pre = self.archs()[t as int];
        proof {
            assert(pre.wf() && pre.complete());
            if t < old(self).archs().len() {
                assert(pre == old(self).archs()[t as int]);
            } else {
                assert(pre.infos() == cinfos);
                assert forall|x: int, y: int| 0 <= x < cinfos.len() && 0 <= y < cinfos.len() && #[trigger] cinfos[x].id == #[trigger] cinfos[y].id implies cinfos[x] == cinfos[y] by {
                    assert(cids[x] == cids[y]);
                }
            }
            assert(infos_agree(cinfos, pre.infos()));
        }
        let row = self.archetypes[t].allocate(entity);
        let mut comps = components;
        while comps.len() > 0
            invariant
                old(self).wf(),
                after.len() == self.archs().len(),
                t < after.len(),
                pre == after[t as int],
                pre.wf(),
                pre.complete(),
                forall|k: int| 0 <= k < components@.len() ==> (#[trigger] components@[k]).1@.len() == components@[k].0.size,
                cinfos == comp_infos(components@),
                cids == ids_of(cinfos),
                distinct_ids(cids),
                infos_agree(cinfos, pre.infos()),
                same_signature(pre.ids(), cids),
                comps.len() <= components.len(),
                comps@ == components@.subrange(0, comps@.len() as int),
                forall|i: int| 0 <= i < after.len() && i != t ==> #[trigger] self.archs()[i] == after[i],
                self.archs()[t as int].wf(),
                self.archs()[t as int].infos() == pre.infos(),
                self.archs()[t as int].entity_rows() == pre.entity_rows().push(entity),
                self.archs()[t as int].columns().len() == pre.columns().len(),
                forall|c: int, k: int| 0 <= c < pre.columns().len() && comps@.len() <= k < components@.len()
                    && pre.ids()[c] == (#[trigger] components@[k]).0.id ==> col_spawned(
                        #[trigger] self.archs()[t as int].columns()[c],
                        pre.columns()[c].rows(),
                        pre.columns()[c].meta_view().added(),
                        pre.columns()[c].meta_view().mutated(),
                        components@[k].1@,
                    ),
                forall|c: int| 0 <= c < pre.columns().len() && !cids.subrange(comps@.len() as int, cids.len() as int).contains(pre.ids()[c])
                    ==> crate::archetype::col_allocated(#[trigger] self.archs()[t as int].columns()[c], pre.columns()[c]),
            decreases comps.len(),
        {
            let m = comps.len() - 1;
            let (info, value) = match comps.pop() {
                Some(p) => p,
                None => {
                    proof {
                        assert(false);
                    }
                    return Location { archetype: t, index: row };
                },
            };
            let ghost cur = self.archs()[t as int];
            proof {
                assert(info == cinfos[m as int]);
                assert((info, value) == components@[m as int]);
                assert(info.id == cids[m as int]);
                assert(pre.ids().to_set().contains(info.id)) by {
                    assert(cids.to_set().contains(cids[m as int]));
                }
                let c0 = choose|c: int| 0 <= c < pre.ids().len() && pre.ids()[c] == info.id;
                assert(!cids.subrange(m as int + 1, cids.len() as int).contains(info.id)) by {
                    if cids.subrange(m as int + 1, cids.len() as int).contains(info.id) {
                        let j = choose|j: int| 0 <= j < cids.len() - m - 1 && #[trigger] cids.subrange(m as int + 1, cids.len() as int)[j] == info.id;
                        assert(cids[m as int + 1 + j] == cids[m as int]);
                    }
                }
                assert(cur.ids() =~= pre.ids());
                assert forall|c: int| 0 <= c < cur.ids().len() && cur.ids()[c] == info.id implies {
                    &&& #[trigger] cur.columns()[c].rows().len() + 1 == cur.n()
                    &&& value@.len() == cur.infos()[c].size
                } by {
                    assert(pre.ids()[c] == pre.ids()[c0]);
                    assert(crate::archetype::col_allocated(cur.columns()[c], pre.columns()[c]));
                    assert(pre.col_wf(c));
                    assert(cinfos[m as int].id == pre.infos()[c].id);
                }
                assert(cur.ids().contains(info.id)) by {
                    assert(cur.ids()[c0] == info.id);
                }
            }
            self.archetypes[t].insert(info.id, value);
            proof {
                let now = self.archs()[t as int];
                let rest = cids.subrange(m as int, cids.len() as int);
                assert(rest =~= seq![info.id] + cids.subrange(m as int + 1, cids.len() as int));
                assert forall|c: int, k: int| 0 <= c < pre.columns().len() && m <= k < components@.len()
                    && pre.ids()[c] == (#[trigger] components@[k]).0.id implies col_spawned(
                        #[trigger] now.columns()[c],
                        pre.columns()[c].rows(),
                        pre.columns()[c].meta_view().added(),
                        pre.columns()[c].meta_view().mutated(),
                        components@[k].1@,
                    ) by {
                    if k == m {
                        assert(cur.ids()[c] == info.id);
                        assert(!cids.subrange(m as int + 1, cids.len() as int).contains(pre.ids()[c]));
                        assert(crate::archetype::col_allocated(cur.columns()[c], pre.columns()[c]));
                        assert(pre.col_wf(c));
                        assert(cur.n() == pre.n() + 1);
                        assert(now.columns()[c].meta_view().added() =~= pre.columns()[c].meta_view().added().push(true));
                        assert(value@ == components@[k].1@);
                    } else {
                        assert(cids[k] == components@[k].0.id);
                        assert(cids[k] != cids[m as int]);
                        assert(cur.ids()[c] != info.id);
                    }
                }
                assert forall|c: int| 0 <= c < pre.columns().len() && !rest.contains(pre.ids()[c])
                    implies crate::archetype::col_allocated(#[trigger] now.columns()[c], pre.columns()[c]) by {
                    assert(rest[0] == info.id);
                    assert(cur.ids()[c] != info.id);
                    assert(!cids.subrange(m as int + 1, cids.len() as int).contains(pre.ids()[c])) by {
                        if cids.subrange(m as int + 1, cids.len() as int).contains(pre.ids()[c]) {
                            let j = choose|j: int| 0 <= j < cids.len() - m - 1 && #[trigger] cids.subrange(m as int + 1, cids.len() as int)[j] == pre.ids()[c];
                            assert(rest[j + 1] == pre.ids()[c]);
                        }
                    }
                }
                assert(comps@ =~= components@.subrange(0, m as int));
            }
        }
        proof {
            let now = self.archs()[t as int];
            assert(cids.subrange(0, cids.len() as int) =~= cids);
            assert forall|c: int| 0 <= c < now.columns().len() implies #[trigger] now.columns()[c].rows().len() == now.n() by {
                assert(pre.ids().to_set().contains(pre.ids()[c]));
                assert(cids.to_set().contains(pre.ids()[c]));
                let k = choose|k: int| 0 <= k < cids.len() && cids[k] == pre.ids()[c];
                assert(components@[k].0.id == cids[k]);
                assert(pre.columns()[c].rows().len() == pre.n());
            }
            assert(now.ids() =~= pre.ids());
            assert forall|i: int, j: int| 0 <= i < self.archs().len() && 0 <= j < self.archs().len() && i != j implies !same_signature(#[trigger] self.archs()[i].ids(), #[trigger] self.archs()[j].ids()) by {
                assert(self.archs()[i].ids() == after[i].ids());
                assert(self.archs()[j].ids() == after[j].ids());
            }
            assert forall|i: int, j: int| 0 <= i < self.archs().len() && 0 <= j < self.archs().len() implies infos_agree(#[trigger] self.archs()[i].infos(), #[trigger] self.archs()[j].infos()) by {
                assert(self.archs()[i].infos() == after[i].infos());
                assert(self.archs()[j].infos() == after[j].infos());
            }
            assert forall|a: int| 0 <= a < self.archs().len() implies infos_agree(comp_infos(components@), #[trigger] self.archs()[a].infos()) by {
                if a != t {
                    assert(self.archs()[a] == after[a]);
                    if a < old(self).archs().len() {
                        assert(after[a] == old(self).archs()[a]);
                    }
                }
            }
            if t == old(self).archs().len() {
                assert(pre.entity_rows() =~= Seq::<Entity>::empty());
                assert forall|c: int| 0 <= c < pre.columns().len() implies {
                    &&& (#[trigger] pre.columns()[c]).rows() =~= Seq::<Seq<u8>>::empty()
                    &&& pre.columns()[c].meta_view().added() =~= Seq::<bool>::empty()
                    &&& pre.columns()[c].meta_view().mutated() =~= Seq::<bool>::empty()
                } by {
                    assert(pre.col_wf(c));
                }
            }
        }
        Location { archetype: t, index: row }
    }

    /// Removes the row at `location`. Returns the entity moved into the vacated row (whose
    /// location the caller must update), or `None` when the row was its archetype's last.
    pub fn despawn(&mut self, location: Location) -> (r: Option<Entity>)
        requires
            old(self).wf(),
            location.archetype < old(self).archs().len(),
            location.index < old(self).archs()[location.archetype as int].n(),
        ensures
            final(self).wf(),
            final(self).archs().len() == old(self).archs().len(),
            forall|i: int| 0 <= i < old(self).archs().len() && i != location.archetype ==> #[trigger] final(self).archs()[i] == old(self).archs()[i],
            ({
                let a = final(self).archs()[location.archetype as int];
                let o = old(self).archs()[location.archetype as int];
                &&& a.infos() == o.infos()
                &&& a.entity_rows() == crate::archetype::swap_removed(o.entity_rows(), location.index as int)
                &&& a.columns().len() == o.columns().len()
                &&& forall|c: int| 0 <= c < a.columns().len() ==> crate::archetype::col_swap_removed(o.columns()[c], #[trigger] a.columns()[c], location.index as int)
                &&& location.index + 1 == o.n() ==> r is None
                &&& location.index + 1 < o.n() ==> r == Some(o.entity_rows().last())
            }),
    {
        let r = self.archetypes[location.archetype].remove(location.index);
        proof {
            let t = location.archetype as int;
            assert forall|i: int, j: int| 0 <= i < self.archs().len() && 0 <= j < self.archs().len() && i != j implies !same_signature(#[trigger] self.archs()[i].ids(), #[trigger] self.archs()[j].ids()) by {
                assert(self.archs()[i].ids() == old(self).archs()[i].ids());
                assert(self.archs()[j].ids() == old(self).archs()[j].ids());
            }
            assert forall|i: int, j: int| 0 <= i < self.archs().len() && 0 <= j < self.archs().len() implies infos_agree(#[trigger] self.archs()[i].infos(), #[trigger] self.archs()[j].infos()) by {
                assert(self.archs()[i].infos() == old(self).archs()[i].infos());
                assert(self.archs()[j].infos() == old(self).archs()[j].infos());
            }
        }
        r
    }

    /// Writes `value` over component `id` of the row at `location` and marks exactly that
    /// value mutated; fails, changing nothing, when the row has no such component.
    pub fn set(&mut self, location: Location, id: ComponentId, value: Vec<u8>) -> (r: Result<(), MissingComponent>)
        requires
            old(self).wf(),
            location.archetype < old(self).archs().len(),
            location.index < old(self).archs()[location.archetype as int].n(),
            forall|c: int| 0 <= c < old(self).archs()[location.archetype as int].ids().len()
                && old(self).archs()[location.archetype as int].ids()[c] == id
                ==> value@.len() == #[trigger] old(self).archs()[location.archetype as int].infos()[c].size,
        ensures
            final(self).wf(),
            final(self).archs().len() == old(self).archs().len(),
            forall|i: int| 0 <= i < old(self).archs().len() && i != location.archetype ==> #[trigger] final(self).archs()[i] == old(self).archs()[i],
            r is Err <==> !old(self).archs()[location.archetype as int].ids().contains(id),
            ({
                let a = final(self).archs()[location.archetype as int];
                let o = old(self).archs()[location.archetype as int];
                &&& a.infos() == o.infos()
                &&& a.entity_rows() == o.entity_rows()
                &&& a.columns().len() == o.columns().len()
                &&& forall|c: int| 0 <= c < a.columns().len() ==> {
                    let col = #[trigger] a.columns()[c];
                    let oc = o.columns()[c];
                    if o.ids()[c] == id {
                        &&& col.info() == oc.info()
                        &&& col.rows() == oc.rows().update(location.index as int, value@)
                        &&& col.meta_view().added() == oc.meta_view().added()
                        &&& col.meta_view().mutated() == oc.meta_view().mutated().update(location.index as int, true)
                        &&& col.meta_view().borrow_count() == oc.meta_view().borrow_count()
                    } else {
                        crate::archetype::same_col(col, oc)
                    }
                }
            }),
    {
        let r = self.archetypes[location.archetype].set_value(location.index, id, value);
        proof {
            assert forall|i: int, j: int| 0 <= i < self.archs().len() && 0 <= j < self.archs().len() && i != j implies !same_signature(#[trigger] self.archs()[i].ids(), #[trigger] self.archs()[j].ids()) by {
                assert(self.archs()[i].ids() == old(self).archs()[i].ids());
                assert(self.archs()[j].ids() == old(self).archs()[j].ids());
            }
            assert forall|i: int, j: int| 0 <= i < self.archs().len() && 0 <= j < self.archs().len() implies infos_agree(#[trigger] self.archs()[i].infos(), #[trigger] self.archs()[j].infos()) by {
                assert(self.archs()[i].infos() == old(self).archs()[i].infos());
                assert(self.archs()[j].infos() == old(self).archs()[j].infos());
            }
        }
        r
    }

    /// Starts a new change-detection epoch in every archetype: every flag becomes false.
    pub fn clear_trackers(&mut self)
        requires
            old(self).wf(),
        ensures
            final(self).wf(),
            final(self).archs().len() == old(self).archs().len(),
            forall|i: int| 0 <= i < final(self).archs().len() ==> {
                let a = #[trigger] final(self).archs()[i];
                let o = old(self).archs()[i];
                &&& a.infos() == o.infos()
                &&& a.entity_rows() == o.entity_rows()
                &&& a.columns().len() == o.columns().len()
                &&& forall|c: int| 0 <= c < a.columns().len() ==> {
                    let col = #[trigger] a.columns()[c];
                    &&& col.rows() == o.columns()[c].rows()
                    &&& col.meta_view().added() == Seq::new(o.n(), |r: int| false)
                    &&& col.meta_view().mutated() == Seq::new(o.n(), |r: int| false)
                }
            },
            forall|i: int| 0 <= i < final(self).archs().len() ==> crate::query::trackers_clear(#[trigger] final(self).archs()[i]),
    {
        let n = self.archetypes.len();
        let mut i: usize = 0;
        while i < n
            invariant
                old(self).wf(),
                n == self.archs().len(),
                n == old(self).archs().len(),
                i <= n,
                forall|k: int| 0 <= k < n ==> (#[trigger] self.archs()[k]).wf() && self.archs()[k].complete(),
                forall|k: int| 0 <= k < n ==> (#[trigger] self.archs()[k]).infos() == old(self).archs()[k].infos(),
                forall|k: int| 0 <= k < i ==> crate::query::trackers_clear(#[trigger] self.archs()[k]),
                forall|k: int| i <= k < n ==> #[trigger] self.archs()[k] == old(self).archs()[k],
                forall|k: int| 0 <= k < i ==> {
                    let a = #[trigger] self.archs()[k];
                    let o = old(self).archs()[k];
                    &&& a.entity_rows() == o.entity_rows()
                    &&& a.columns().len() == o.columns().len()
                    &&& forall|c: int| 0 <= c < a.columns().len() ==> {
                        let col = #[trigger] a.columns()[c];
                        &&& col.rows() == o.columns()[c].rows()
                        &&& col.meta_view().added() == Seq::new(o.n(), |r: int| false)
                        &&& col.meta_view().mutated() == Seq::new(o.n(), |r: int| false)
                    }
                },
            decreases n - i,
        {
            self.archetypes[i].clear_trackers();
            proof {
                let a = self.archs()[i as int];
                assert forall|c: int| 0 <= c < a.columns().len() implies #[trigger] a.columns()[c].rows().len() == a.n() by {
                    assert(old(self).archs()[i as int].complete());
                    assert(old(self).archs()[i as int].columns()[c].rows().len() == old(self).archs()[i as int].n());
                }
            }
            i = i + 1;
        }
        proof {
            assert forall|a: int, b: int| 0 <= a < n && 0 <= b < n && a != b implies !same_signature(#[trigger] self.archs()[a].ids(), #[trigger] self.archs()[b].ids()) by {
                assert(self.archs()[a].ids() == old(self).archs()[a].ids());
                assert(self.archs()[b].ids() == old(self).archs()[b].ids());
            }
        }
    }

    /// The entities that iterating `query` over the store yields, in order.
    pub fn query_entities(&self, query: &Query) -> (r: Vec<Entity>)
        requires
            self.wf(),
        ensures
            r@ == entities_at(self.archs(), query_rows(*query, self.archs())),
    {
        let rows = query.rows(&self.archetypes);
        proof {
            self.lemma_sizes_bounded();
            lemma_query_rows_valid(*query, self.archs());
        }
        let mut out: Vec<Entity> = Vec::new();
        let mut k: usize = 0;
        while k < rows.len()
            invariant
                k <= rows@.len(),
                rows@ == query_rows(*query, self.archs()),
                forall|j: int| 0 <= j < rows@.len() ==> {
                    let p = #[trigger] rows@[j];
                    p.0 < self.archs().len() && p.1 < self.archs()[p.0 as int].n()
                },
                out@ == entities_at(self.archs(), rows@.subrange(0, k as int)),
            decreases rows@.len() - k,
        {
            let (a, row) = rows[k];
            let e = self.archetypes[a].get_entity(row);
            proof {
                assert(rows@.subrange(0, k as int + 1) =~= rows@.subrange(0, k as int).push(rows@[k as int]));
            }
            out.push(e);
            assert(out@ =~= entities_at(self.archs(), rows@.subrange(0, k as int + 1)));
            k = k + 1;
        }
        assert(rows@.subrange(0, rows@.len() as int) =~= rows@);
        out
    }

    /// The metadata of the archetype at `la` followed by that of each component of
    /// `components` it lacks: the signature an entity there has once they are added.
    fn grown_infos(&self, la: usize, components: &Vec<(TypeInfo, Vec<u8>)>) -> (r: Vec<TypeInfo>)
        requires
            self.wf(),
            la < self.archs().len(),
            distinct_ids(ids_of(comp_infos(components@))),
            forall|a: int| 0 <= a < self.archs().len() ==> infos_agree(comp_infos(components@), #[trigger] self.archs()[a].infos()),
        ensures
            distinct_ids(ids_of(r@)),
            same_signature(ids_of(r@), self.archs()[la as int].ids() + ids_of(comp_infos(components@))),
            forall|a: int| 0 <= a < self.archs().len() ==> infos_agree(r@, #[trigger] self.archs()[a].infos()),
            infos_agree(comp_infos(components@), r@),
    {
        let ghost src = self.archs()[la as int];
        let ghost cinfos = comp_infos(components@);
        let src_infos = self.archetypes[la].type_info();
        let mut out: Vec<TypeInfo> = Vec::new();
        let mut ids: Vec<ComponentId> = Vec::new();
        let mut j: usize = 0;
        while j < src_infos.len()
            invariant
                src_infos@ == src.infos(),
                src.wf(),
                j <= src_infos@.len(),
                out@ == src.infos().subrange(0, j as int),
                ids@ == ids_of(out@),
            decreases src_infos@.len() - j,
        {
            out.push(src_infos[j]);
            ids.push(src_infos[j].id);
            assert(out@ =~= src.infos().subrange(0, j as int + 1));
            assert(ids@ =~= ids_of(out@));
            j = j + 1;
        }
        assert(out@ =~= src.infos());
        let mut k: usize = 0;
        while k < components.len()
            invariant
                self.wf(),
                la < self.archs().len(),
                src == self.archs()[la as int],
                cinfos == comp_infos(components@),
                forall|a: int| 0 <= a < self.archs().len() ==> infos_agree(cinfos, #[trigger] self.archs()[a].infos()),
                k <= components@.len(),
                ids@ == ids_of(out@),
                distinct_ids(ids@),
                ids@.to_set() == src.ids().to_set().union(ids_of(cinfos).subrange(0, k as int).to_set()),
                forall|x: int| 0 <= x < out@.len() ==> src.infos().contains(#[trigger] out@[x]) || cinfos.contains(out@[x]),
            decreases components@.len() - k,
        {
            let info = components[k].0;
            proof {
                assert(cinfos[k as int] == info);
                assert(ids_of(cinfos).subrange(0, k as int + 1) =~= ids_of(cinfos).subrange(0, k as int).push(info.id));
                ids_of(cinfos).subrange(0, k as int).lemma_push_to_set_commute(info.id);
            }
            if !contains_id(&ids, info.id) {
                proof {
                    ids@.lemma_push_to_set_commute(info.id);
                }
                let ghost prev = ids@;
                out.push(info);
                ids.push(info.id);
                proof {
                    assert(ids@ =~= ids_of(out@));
                    assert forall|x: int, y: int| 0 <= x < ids@.len() && 0 <= y < ids@.len() && x != y implies ids@[x] != ids@[y] by {
                        if x == prev.len() {
                            assert(ids@[y] == prev[y]);
                            assert(prev.contains(prev[y]));
                        } else if y == prev.len() {
                            assert(ids@[x] == prev[x]);
                            assert(prev.contains(prev[x]));
                        } else {
                            assert(ids@[x] == prev[x] && ids@[y] == prev[y]);
                        }
                    }
                    assert(out@.last() == info);
                    assert(cinfos.contains(info)) by {
                        assert(cinfos[k as int] == info);
                    }
                }
            } else {
                proof {
                    assert(ids@.to_set().insert(info.id) =~= ids@.to_set());
                }
            }
            proof {
                assert(ids@.to_set() =~= src.ids().to_set().union(ids_of(cinfos).subrange(0, k as int + 1).to_set()));
            }
            k = k + 1;
        }
        proof {
            assert(ids_of(cinfos).subrange(0, components@.len() as int) =~= ids_of(cinfos));
            assert((src.ids() + ids_of(cinfos)).to_set() =~= src.ids().to_set().union(ids_of(cinfos).to_set())) by {
                assert forall|x: ComponentId| (src.ids() + ids_of(cinfos)).contains(x) <==> (src.ids().contains(x) || ids_of(cinfos).contains(x)) by {
                    if (src.ids() + ids_of(cinfos)).contains(x) {
                        let y = choose|y: int| 0 <= y < (src.ids() + ids_of(cinfos)).len() && (src.ids() + ids_of(cinfos))[y] == x;
                        if y >= src.ids().len() {
                            assert(ids_of(cinfos)[y - src.ids().len()] == x);
                        }
                    }
                    if src.ids().contains(x) {
                        let y = choose|y: int| 0 <= y < src.ids().len() && src.ids()[y] == x;
                        assert((src.ids() + ids_of(cinfos))[y] == x);
                    }
                    if ids_of(cinfos).contains(x) {
                        let y = choose|y: int| 0 <= y < ids_of(cinfos).len() && ids_of(cinfos)[y] == x;
                        assert((src.ids() + ids_of(cinfos))[src.ids().len() + y] == x);
                    }
                }
            }
            assert forall|x: int, y: int| 0 <= x < cinfos.len() && 0 <= y < out@.len() && #[trigger] cinfos[x].id == #[trigger] out@[y].id implies cinfos[x] == out@[y] by {
                assert(infos_agree(cinfos, src.infos()));
                if src.infos().contains(out@[y]) {
                    let z = choose|z: int| 0 <= z < src.infos().len() && src.infos()[z] == out@[y];
                    assert(cinfos[x].id == src.infos()[z].id);
                } else {
                    let z = choose|z: int| 0 <= z < cinfos.len() && cinfos[z] == out@[y];
                    assert(ids_of(cinfos)[x] == ids_of(cinfos)[z]);
                }
            }
            assert forall|a: int| 0 <= a < self.archs().len() implies infos_agree(out@, #[trigger] self.archs()[a].infos()) by {
                let b = self.archs()[a].infos();
                assert(infos_agree(src.infos(), b));
                assert(infos_agree(cinfos, b));
                assert forall|x: int, y: int| 0 <= x < out@.len() && 0 <= y < b.len() && #[trigger] out@[x].id == #[trigger] b[y].id implies out@[x] == b[y] by {
                    if src.infos().contains(out@[x]) {
                        let z = choose|z: int| 0 <= z < src.infos().len() && src.infos()[z] == out@[x];
                        assert(src.infos()[z].id == b[y].id);
                    } else {
                        let z = choose|z: int| 0 <= z < cinfos.len() && cinfos[z] == out@[x];
                        assert(cinfos[z].id == b[y].id);
                    }
                }
            }
        }
        out
    }

    /// Adds `components` to the entity of the row at `location`; a value of a kind it
    /// already has replaces the old one, flags kept. When its signature grows, the row moves
    /// to the archetype of the new signature (created when new), its other values moved bit
    /// for bit with their flags, the new values flagged added. Returns the entity's new
    /// location and, when a row moved, the entity that now sits in the vacated row.
    pub fn insert(&mut self, location: Location, components: Vec<(TypeInfo, Vec<u8>)>) -> (r: (Location, Option<Entity>))
        requires
            old(self).wf(),
            location.archetype < old(self).archs().len(),
            location.index < old(self).archs()[location.archetype as int].n(),
            distinct_ids(ids_of(comp_infos(components@))),
            forall|k: int| 0 <= k < components@.len() ==> (#[trigger] components@[k]).1@.len() == components@[k].0.size,
            forall|a: int| 0 <= a < old(self).archs().len() ==> infos_agree(comp_infos(components@), #[trigger] old(self).archs()[a].infos()),
        ensures
            final(self).wf(),
            r.0.archetype < final(self).archs().len(),
            r.0.index < final(self).archs()[r.0.archetype as int].n(),
            final(self).archs()[r.0.archetype as int].entity_rows()[r.0.index as int]
                == old(self).archs()[location.archetype as int].entity_rows()[location.index as int],
            same_signature(
                final(self).archs()[r.0.archetype as int].ids(),
                old(self).archs()[location.archetype as int].ids() + ids_of(comp_infos(components@)),
            ),
            forall|k: int| 0 <= k < components@.len() ==> col_of(final(self).archs()[r.0.archetype as int], (#[trigger] components@[k]).0.id).rows()[r.0.index as int]
                == components@[k].1@,
            forall|id: ComponentId| #[trigger] old(self).archs()[location.archetype as int].ids().contains(id) ==> {
                let f = final(self).archs()[r.0.archetype as int];
                let o = old(self).archs()[location.archetype as int];
                &&& !ids_of(comp_infos(components@)).contains(id) ==> col_of(f, id).rows()[r.0.index as int] == col_of(o, id).rows()[location.index as int]
                &&& added_at(f, id, r.0.index as int) == added_at(o, id, location.index as int)
                &&& mutated_at(f, id, r.0.index as int) == mutated_at(o, id, location.index as int)
            },
            forall|k: int| 0 <= k < components@.len() && !old(self).archs()[location.archetype as int].ids().contains((#[trigger] components@[k]).0.id) ==> {
                let f = final(self).archs()[r.0.archetype as int];
                &&& added_at(f, components@[k].0.id, r.0.index as int)
                &&& !mutated_at(f, components@[k].0.id, r.0.index as int)
            },
            final(self).archs().len() == old(self).archs().len() || (final(self).archs().len() == old(self).archs().len() + 1
                && r.0.archetype == old(self).archs().len()),
            forall|i: int| 0 <= i < old(self).archs().len() && i != location.archetype && i != r.0.archetype
                ==> #[trigger] final(self).archs()[i] == old(self).archs()[i],
            r.0.archetype == old(self).archs().len() ==> final(self).archs()[r.0.archetype as int].n() == 1,
            r.0.archetype < old(self).archs().len() ==> ({
                let f = final(self).archs()[r.0.archetype as int];
                let o = old(self).archs()[r.0.archetype as int];
                &&& f.infos() == o.infos()
                &&& rows_kept(f, o, r.0.index as int)
            }),
            r.0.archetype == location.archetype ==> r.0 == location && r.1 is None,
            r.0.archetype != location.archetype ==> ({
                let o = old(self).archs()[location.archetype as int];
                let g = final(self).archs()[location.archetype as int];
                &&& g.infos() == o.infos()
                &&& g.columns().len() == o.columns().len()
                &&& forall|c: int| 0 <= c < g.columns().len() ==> crate::archetype::col_swap_removed(o.columns()[c], #[trigger] g.columns()[c], location.index as int)
                &&& final(self).archs()[location.archetype as int].entity_rows() == crate::archetype::swap_removed(o.entity_rows(), location.index as int)
                &&& location.index + 1 == o.n() ==> r.1 is None
                &&& location.index + 1 < o.n() ==> r.1 == Some(o.entity_rows().last())
            }),
    {
        let la = location.archetype;
        let infos = self.grown_infos(la, &components);
        let ghost cids = ids_of(comp_infos(components@));
        let ghost src = self.archs()[la as int];
        let ghost before = self.archs();
        let t = self.get_or_create(infos);
        let ghost after = self.archs();
        if t == la {
            proof {
                assert(after == before);
                assert forall|k: int| 0 <= k < components@.len() implies src.ids().contains((#[trigger] components@[k]).0.id) by {
                    assert(cids[k] == components@[k].0.id);
                    assert((src.ids() + cids)[src.ids().len() + k] == cids[k]);
                    assert((src.ids() + cids).to_set().contains(cids[k]));
                }
                assert(src.complete());
                assert(infos_agree(comp_infos(components@), src.infos()));
                assert forall|c: int| 0 <= c < src.columns().len() && src.ids().to_set().contains(src.ids()[c]) implies (#[trigger] src.columns()[c]).rows().len() == src.n() by {}
                assert forall|c: int| 0 <= c < src.columns().len() implies src.ids().to_set().contains(#[trigger] src.ids()[c]) by {}
            }
            let ghost kept = src.ids().to_set();
            let ghost comps = components@;
            fill_row(&mut self.archetypes[la], location.index, components, Ghost(kept));
            proof {
                let fin = self.archs()[la as int];
                assert(fin.ids() =~= src.ids());
                assert(fin.entity_rows() == src.entity_rows());
                assert(src == old(self).archs()[la as int]);
                assert(same_signature(fin.ids(), src.ids() + cids));
                assert forall|k: int| 0 <= k < comps.len() implies col_of(fin, (#[trigger] comps[k]).0.id).rows()[location.index as int] == comps[k].1@ by {
                    assert(src.ids().contains(comps[k].0.id));
                    let c = choose|c: int| 0 <= c < src.ids().len() && src.ids()[c] == comps[k].0.id;
                    crate::archetype::lemma_col_of(fin, comps[k].0.id, c);
                }
                assert forall|id: ComponentId| #[trigger] src.ids().contains(id) implies {
                    &&& !cids.contains(id) ==> col_of(fin, id).rows()[location.index as int] == col_of(src, id).rows()[location.index as int]
                    &&& added_at(fin, id, location.index as int) == added_at(src, id, location.index as int)
                    &&& mutated_at(fin, id, location.index as int) == mutated_at(src, id, location.index as int)
                } by {
                    let c = choose|c: int| 0 <= c < src.ids().len() && src.ids()[c] == id;
                    crate::archetype::lemma_col_of(fin, id, c);
                    crate::archetype::lemma_col_of(src, id, c);
                    assert(src.col_wf(c));
                    if cids.contains(id) {
                        let k = choose|k: int| 0 <= k < cids.len() && cids[k] == id;
                        assert(comps[k].0.id == cids[k]);
                        assert(kept.contains(src.columns()[c].info().id));
                    }
                }
                assert forall|i: int| 0 <= i < self.archs().len() implies (#[trigger] self.archs()[i]).wf() && self.archs()[i].complete() by {
                    if i != la {
                        assert(self.archs()[i] == after[i]);
                    }
                }
                assert forall|c: int, j: int| 0 <= c < fin.columns().len() && 0 <= j < src.n() && j != location.index implies {
                    &&& #[trigger] fin.columns()[c].rows()[j] == src.columns()[c].rows()[j]
                    &&& fin.columns()[c].meta_view().added()[j] == src.columns()[c].meta_view().added()[j]
                    &&& fin.columns()[c].meta_view().mutated()[j] == src.columns()[c].meta_view().mutated()[j]
                } by {
                    if cids.contains(src.ids()[c]) {
                        let k = choose|k: int| 0 <= k < cids.len() && cids[k] == src.ids()[c];
                        assert(comps[k].0.id == cids[k]);
                        assert(src.col_wf(c));
                        assert(kept.contains(src.columns()[c].info().id));
                    } else {
                        assert(same_col(fin.columns()[c], src.columns()[c]));
                    }
                }
                assert forall|i: int, j: int| 0 <= i < self.archs().len() && 0 <= j < self.archs().len() && i != j implies !same_signature(#[trigger] self.archs()[i].ids(), #[trigger] self.archs()[j].ids()) by {
                    assert(self.archs()[i].ids() == after[i].ids());
                    assert(self.archs()[j].ids() == after[j].ids());
                }
                assert forall|i: int, j: int| 0 <= i < self.archs().len() && 0 <= j < self.archs().len() implies infos_agree(#[trigger] self.archs()[i].infos(), #[trigger] self.archs()[j].infos()) by {
                    assert(self.archs()[i].infos() == after[i].infos());
                    assert(self.archs()[j].infos() == after[j].infos());
                }
            }
            (location, None)
        } else {
            let mut moving = Archetype::new(Vec::new());
            std::mem::swap(&mut moving, &mut self.archetypes[la]);
            let mut loc = location;
            proof {
                assert(moving == src);
                assert(self.archs()[t as int] == after[t as int]);
                assert(infos_agree(src.infos(), after[t as int].infos()));
            }
            let moved = moving.move_to(&mut loc, &mut self.archetypes[t], false);
            loc.archetype = t;
            std::mem::swap(&mut moving, &mut self.archetypes[la]);
            let ghost mid = self.archs()[t as int];
            let ghost kept = src.ids().to_set();
            let ghost comps = components@;
            proof {
                let dest = after[t as int];
                assert(dest.wf() && dest.complete());
                assert(infos_agree(comp_infos(comps), mid.infos()));
                assert forall|k: int| 0 <= k < comps.len() implies mid.ids().contains((#[trigger] comps[k]).0.id) by {
                    assert(cids[k] == comps[k].0.id);
                    assert((src.ids() + cids)[src.ids().len() + k] == cids[k]);
                    assert((src.ids() + cids).to_set().contains(cids[k]));
                    assert(mid.ids() =~= dest.ids());
                }
                assert forall|c: int| 0 <= c < mid.columns().len() && kept.contains(mid.ids()[c]) implies (#[trigger] mid.columns()[c]).rows().len() == mid.n() by {
                    assert(src.ids().contains(mid.ids()[c]));
                    let s0 = choose|s0: int| 0 <= s0 < src.ids().len() && src.ids()[s0] == mid.ids()[c];
                    assert(mid.ids() =~= dest.ids());
                    assert(dest.ids()[c] == src.ids()[s0]);
                    assert(dest.col_wf(c));
                    assert(crate::archetype::col_received(mid.columns()[c], dest.columns()[c], src.columns()[s0], location.index as int));
                }
                assert forall|c: int| 0 <= c < mid.columns().len() && !kept.contains(mid.ids()[c]) implies {
                    &&& (#[trigger] mid.columns()[c]).rows().len() == loc.index
                    &&& loc.index + 1 == mid.n()
                    &&& !mid.columns()[c].meta_view().mutated()[loc.index as int]
                    &&& cids.contains(mid.ids()[c])
                } by {
                    assert(mid.ids() =~= dest.ids());
                    assert(dest.ids()[c] == mid.ids()[c]);
                    assert(!src.ids().contains(dest.ids()[c]));
                    assert(dest.col_wf(c));
                    assert(crate::archetype::col_allocated(mid.columns()[c], dest.columns()[c]));
                    assert(dest.ids().to_set().contains(dest.ids()[c]));
                    assert((src.ids() + cids).to_set().contains(dest.ids()[c]));
                    let y = choose|y: int| 0 <= y < (src.ids() + cids).len() && (src.ids() + cids)[y] == dest.ids()[c];
                    if y < src.ids().len() {
                        assert(src.ids()[y] == dest.ids()[c]);
                    } else {
                        assert(cids[y - src.ids().len()] == dest.ids()[c]);
                    }
                }
            }
            fill_row(&mut self.archetypes[t], loc.index, components, Ghost(kept));
            proof {
                let dest = after[t as int];
                let fin = self.archs()[t as int];
                let gone = self.archs()[la as int];
                assert(fin.ids() =~= dest.ids());
                assert(gone.ids() =~= src.ids());
                assert(fin.n() == dest.n() + 1);
                assert(src == old(self).archs()[la as int]);
                assert(loc.index == dest.n());
                assert(fin.entity_rows()[loc.index as int] == src.entity_rows()[location.index as int]);
                assert(same_signature(fin.ids(), src.ids() + cids));
                assert forall|k: int| 0 <= k < comps.len() implies col_of(fin, (#[trigger] comps[k]).0.id).rows()[loc.index as int] == comps[k].1@ by {
                    assert(mid.ids().contains(comps[k].0.id));
                    let c = choose|c: int| 0 <= c < mid.ids().len() && mid.ids()[c] == comps[k].0.id;
                    crate::archetype::lemma_col_of(fin, comps[k].0.id, c);
                }
                assert forall|id: ComponentId| #[trigger] src.ids().contains(id) implies {
                    &&& !cids.contains(id) ==> col_of(fin, id).rows()[loc.index as int] == col_of(src, id).rows()[location.index as int]
                    &&& added_at(fin, id, loc.index as int) == added_at(src, id, location.index as int)
                    &&& mutated_at(fin, id, loc.index as int) == mutated_at(src, id, location.index as int)
                } by {
                    let s0 = choose|s0: int| 0 <= s0 < src.ids().len() && src.ids()[s0] == id;
                    assert((src.ids() + cids)[s0] == id);
                    assert((src.ids() + cids).to_set().contains(id));
                    assert(dest.ids().to_set().contains(id));
                    let c = choose|c: int| 0 <= c < dest.ids().len() && dest.ids()[c] == id;
                    crate::archetype::lemma_col_of(fin, id, c);
                    crate::archetype::lemma_col_of(src, id, s0);
                    assert(dest.col_wf(c));
                    assert(mid.ids() =~= dest.ids());
                    assert(crate::archetype::col_received(mid.columns()[c], dest.columns()[c], src.columns()[s0], location.index as int));
                    assert(mid.columns()[c].info().id == id);
                    if cids.contains(id) {
                        let k = choose|k: int| 0 <= k < cids.len() && cids[k] == id;
                        assert(comps[k].0.id == cids[k]);
                    } else {
                        assert(same_col(fin.columns()[c], mid.columns()[c]));
                    }
                }
                assert forall|k: int| 0 <= k < comps.len() && !src.ids().contains((#[trigger] comps[k]).0.id) implies {
                    &&& added_at(fin, comps[k].0.id, loc.index as int)
                    &&& !mutated_at(fin, comps[k].0.id, loc.index as int)
                } by {
                    let id = comps[k].0.id;
                    assert(mid.ids().contains(id));
                    let c = choose|c: int| 0 <= c < mid.ids().len() && mid.ids()[c] == id;
                    crate::archetype::lemma_col_of(fin, id, c);
                    assert(mid.ids() =~= dest.ids());
                    assert(dest.col_wf(c));
                    assert(crate::archetype::col_allocated(mid.columns()[c], dest.columns()[c]));
                    assert(mid.columns()[c].info().id == id);
                    assert(!kept.contains(id));
                }
                assert forall|i: int| 0 <= i < self.archs().len() implies (#[trigger] self.archs()[i]).wf() && self.archs()[i].complete() by {
                    if i != t && i != la {
                        assert(self.archs()[i] == after[i]);
                    }
                }
                assert forall|i: int| 0 <= i < old(self).archs().len() && i != la && i != t implies #[trigger] self.archs()[i] == old(self).archs()[i] by {
                    assert(self.archs()[i] == after[i]);
                    assert(after.drop_last() == before || after == before);
                    if after.len() > before.len() {
                        assert(after.drop_last()[i] == after[i]);
                    }
                }
                assert(gone.infos() == src.infos());
                if t < old(self).archs().len() {
                    assert(dest == old(self).archs()[t as int]) by {
                        if after.len() > before.len() {
                            assert(after.drop_last()[t as int] == after[t as int]);
                        }
                    }
                    assert forall|c: int, j: int| 0 <= c < fin.columns().len() && 0 <= j < dest.n() && j != loc.index implies {
                        &&& #[trigger] fin.columns()[c].rows()[j] == dest.columns()[c].rows()[j]
                        &&& fin.columns()[c].meta_view().added()[j] == dest.columns()[c].meta_view().added()[j]
                        &&& fin.columns()[c].meta_view().mutated()[j] == dest.columns()[c].meta_view().mutated()[j]
                    } by {
                        assert(dest.col_wf(c));
                        assert(mid.ids() =~= dest.ids());
                        let id = dest.ids()[c];
                        if src.ids().contains(id) {
                            let s0 = choose|s0: int| 0 <= s0 < src.ids().len() && src.ids()[s0] == id;
                            assert(crate::archetype::col_received(mid.columns()[c], dest.columns()[c], src.columns()[s0], location.index as int));
                        } else {
                            assert(crate::archetype::col_allocated(mid.columns()[c], dest.columns()[c]));
                        }
                        if cids.contains(id) {
                            let k = choose|k: int| 0 <= k < cids.len() && cids[k] == id;
                            assert(comps[k].0.id == cids[k]);
                            assert(mid.col_wf(c));
                        } else {
                            assert(same_col(fin.columns()[c], mid.columns()[c]));
                        }
                    }
                } else {
                    assert(dest.n() == 0);
                }
                assert forall|i: int, j: int| 0 <= i < self.archs().len() && 0 <= j < self.archs().len() && i != j implies !same_signature(#[trigger] self.archs()[i].ids(), #[trigger] self.archs()[j].ids()) by {
                    assert(self.archs()[i].ids() == after[i].ids());
                    assert(self.archs()[j].ids() == after[j].ids());
                }
                assert forall|i: int, j: int| 0 <= i < self.archs().len() && 0 <= j < self.archs().len() implies infos_agree(#[trigger] self.archs()[i].infos(), #[trigger] self.archs()[j].infos()) by {
                    assert(self.archs()[i].infos() == after[i].infos());
                    assert(self.archs()[j].infos() == after[j].infos());
                }
            }
            (loc, moved)
        }
    }


    /// Takes the borrows of `query` on every archetype it matches, in order, all or
    /// nothing: when one archetype refuses, those taken already are given back and `false`
    /// is returned with every counter as it was.
    pub fn borrow_query(&mut self, query: &Query) -> (r: bool)
        requires
            old(self).wf(),
        ensures
            final(self).wf(),
            final(self).archs().len() == old(self).archs().len(),
            r == forall|i: int| 0 <= i < old(self).archs().len() && query.spec_matches(old(self).archs()[i].ids())
                ==> (#[trigger] old(self).archs()[i]).can_take(query.spec_requests()),
            forall|i: int| 0 <= i < old(self).archs().len() ==> if r && query.spec_matches(old(self).archs()[i].ids()) {
                borrowed_from(#[trigger] final(self).archs()[i], old(self).archs()[i], query.spec_requests())
            } else {
                unchanged_from(#[trigger] final(self).archs()[i], old(self).archs()[i])
            },
    {
        let ghost reqs = query.spec_requests();
        let n = self.archetypes.len();
        let mut i: usize = 0;
        while i < n
            invariant
                old(self).wf(),
                reqs == query.spec_requests(),
                n == self.archs().len(),
                n == old(self).archs().len(),
                i <= n,
                forall|k: int| 0 <= k < i && query.spec_matches(old(self).archs()[k].ids()) ==> {
                    &&& (#[trigger] old(self).archs()[k]).can_take(reqs)
                    &&& borrowed_from(self.archs()[k], old(self).archs()[k], reqs)
                },
                forall|k: int| 0 <= k < i && !query.spec_matches(old(self).archs()[k].ids()) ==> unchanged_from(#[trigger] self.archs()[k], old(self).archs()[k]),
                forall|k: int| i <= k < n ==> #[trigger] self.archs()[k] == old(self).archs()[k],
            decreases n - i,
        {
            proof {
                assert(old(self).archs()[i as int].wf());
            }
            if query.matches(&self.archetypes[i]) {
                let ghost o = self.archs()[i as int];
                if !query.borrow(&mut self.archetypes[i]) {
                    proof {
                        assert(unchanged_from(self.archs()[i as int], o));
                    }
                    self.release_prefix(query, i, Ghost(*old(self)));
                    proof {
                        assert(!old(self).archs()[i as int].can_take(reqs));
                        assert forall|k: int| 0 <= k < n implies {
                            let f = #[trigger] self.archs()[k];
                            unchanged_from(f, old(self).archs()[k])
                        } by {
                            if k > i {
                                assert(self.archs()[k] == old(self).archs()[k]);
                                assert(old(self).archs()[k].wf());
                                assert forall|c: int| 0 <= c < self.archs()[k].columns().len() implies same_col(#[trigger] self.archs()[k].columns()[c], old(self).archs()[k].columns()[c]) by {}
                            }
                        }
                        self.lemma_counters_only(*old(self));
                    }
                    return false;
                }
            } else {
                proof {
                    let a = self.archs()[i as int];
                    assert forall|c: int| 0 <= c < a.columns().len() implies same_col(#[trigger] a.columns()[c], old(self).archs()[i as int].columns()[c]) by {}
                }
            }
            i = i + 1;
        }
        proof {
            assert forall|k: int| 0 <= k < n implies {
                let f = #[trigger] self.archs()[k];
                f.wf() && f.infos() == old(self).archs()[k].infos() && f.entity_rows() == old(self).archs()[k].entity_rows()
                    && f.columns().len() == old(self).archs()[k].columns().len()
                    && forall|c: int| 0 <= c < f.columns().len() ==> (#[trigger] f.columns()[c]).rows() == old(self).archs()[k].columns()[c].rows()
            } by {
                if query.spec_matches(old(self).archs()[k].ids()) {
                    assert(borrowed_from(self.archs()[k], old(self).archs()[k], reqs));
                } else {
                    assert(unchanged_from(self.archs()[k], old(self).archs()[k]));
                }
            }
            self.lemma_rows_kept(*old(self));
        }
        true
    }

    /// Takes the borrows of `query` on archetype `a` alone, all or nothing.
    pub fn borrow_archetype(&mut self, a: usize, query: &Query) -> (r: bool)
        requires
            old(self).wf(),
            a < old(self).archs().len(),
        ensures
            final(self).wf(),
            final(self).archs().len() == old(self).archs().len(),
            forall|i: int| 0 <= i < old(self).archs().len() && i != a ==> #[trigger] final(self).archs()[i] == old(self).archs()[i],
            r == old(self).archs()[a as int].can_take(query.spec_requests()),
            r ==> borrowed_from(final(self).archs()[a as int], old(self).archs()[a as int], query.spec_requests()),
            !r ==> unchanged_from(final(self).archs()[a as int], old(self).archs()[a as int]),
    {
        proof {
            assert(old(self).archs()[a as int].wf());
        }
        let r = query.borrow(&mut self.archetypes[a]);
        proof {
            let f = self.archs()[a as int];
            let o = old(self).archs()[a as int];
            if !r {
                assert forall|c: int| 0 <= c < f.columns().len() implies same_col(#[trigger] f.columns()[c], o.columns()[c]) by {}
            }
            assert forall|k: int| 0 <= k < self.archs().len() implies {
                let g = #[trigger] self.archs()[k];
                g.wf() && g.infos() == old(self).archs()[k].infos() && g.entity_rows() == old(self).archs()[k].entity_rows()
                    && g.columns().len() == old(self).archs()[k].columns().len()
                    && forall|c: int| 0 <= c < g.columns().len() ==> (#[trigger] g.columns()[c]).rows() == old(self).archs()[k].columns()[c].rows()
            } by {
                if k != a {
                    assert(self.archs()[k] == old(self).archs()[k]);
                    assert(old(self).archs()[k].wf());
                }
            }
            self.lemma_rows_kept(*old(self));
        }
        r
    }

    /// Gives back the borrows of `query` on archetype `a` alone.
    pub fn release_archetype(&mut self, a: usize, query: &Query)
        requires
            old(self).wf(),
            a < old(self).archs().len(),
            forall|c: int| 0 <= c < old(self).archs()[a as int].columns().len() ==> release_fold(
                (#[trigger] old(self).archs()[a as int].columns()[c]).meta_view().borrow_count(),
                query.spec_requests(),
                old(self).archs()[a as int].ids()[c],
            ) is Some,
        ensures
            final(self).wf(),
            final(self).archs().len() == old(self).archs().len(),
            forall|i: int| 0 <= i < old(self).archs().len() && i != a ==> #[trigger] final(self).archs()[i] == old(self).archs()[i],
            final(self).archs()[a as int].infos() == old(self).archs()[a as int].infos(),
            final(self).archs()[a as int].entity_rows() == old(self).archs()[a as int].entity_rows(),
            final(self).archs()[a as int].columns().len() == old(self).archs()[a as int].columns().len(),
            forall|c: int| 0 <= c < old(self).archs()[a as int].columns().len() ==> {
                let col = #[trigger] final(self).archs()[a as int].columns()[c];
                let o = old(self).archs()[a as int].columns()[c];
                &&& col.rows() == o.rows()
                &&& col.meta_view().added() == o.meta_view().added()
                &&& col.meta_view().mutated() == o.meta_view().mutated()
                &&& col.meta_view().borrow_count() == release_fold(o.meta_view().borrow_count(), query.spec_requests(), old(self).archs()[a as int].ids()[c])->Some_0
            },
    {
        proof {
            assert(old(self).archs()[a as int].wf());
        }
        query.release(&mut self.archetypes[a]);
        proof {
            assert forall|k: int| 0 <= k < self.archs().len() implies {
                let g = #[trigger] self.archs()[k];
                g.wf() && g.infos() == old(self).archs()[k].infos() && g.entity_rows() == old(self).archs()[k].entity_rows()
                    && g.columns().len() == old(self).archs()[k].columns().len()
                    && forall|c: int| 0 <= c < g.columns().len() ==> (#[trigger] g.columns()[c]).rows() == old(self).archs()[k].columns()[c].rows()
            } by {
                if k != a {
                    assert(self.archs()[k] == old(self).archs()[k]);
                    assert(old(self).archs()[k].wf());
                }
            }
            self.lemma_rows_kept(*old(self));
        }
    }

    /// Gives back the borrows of `query` on every archetype it matches.
    pub fn release_query(&mut self, query: &Query)
        requires
            old(self).wf(),
            forall|i: int, c: int| 0 <= i < old(self).archs().len() && query.spec_matches(old(self).archs()[i].ids())
                && 0 <= c < old(self).archs()[i].columns().len() ==> release_fold(
                    (#[trigger] old(self).archs()[i].columns()[c]).meta_view().borrow_count(),
                    query.spec_requests(),
                    old(self).archs()[i].ids()[c],
                ) is Some,
        ensures
            final(self).wf(),
            final(self).archs().len() == old(self).archs().len(),
            forall|i: int| 0 <= i < old(self).archs().len() && !query.spec_matches(old(self).archs()[i].ids())
                ==> unchanged_from(#[trigger] final(self).archs()[i], old(self).archs()[i]),
            forall|i: int, c: int| 0 <= i < old(self).archs().len() && query.spec_matches(old(self).archs()[i].ids())
                && 0 <= c < old(self).archs()[i].columns().len() ==> {
                let col = #[trigger] final(self).archs()[i].columns()[c];
                let o = old(self).archs()[i].columns()[c];
                &&& col.rows() == o.rows()
                &&& col.meta_view().added() == o.meta_view().added()
                &&& col.meta_view().mutated() == o.meta_view().mutated()
                &&& col.meta_view().borrow_count() == release_fold(o.meta_view().borrow_count(), query.spec_requests(), old(self).archs()[i].ids()[c])->Some_0
            },
    {
        let n = self.archetypes.len();
        let mut i: usize = 0;
        while i < n
            invariant
                old(self).wf(),
                forall|i: int, c: int| 0 <= i < old(self).archs().len() && query.spec_matches(old(self).archs()[i].ids())
                    && 0 <= c < old(self).archs()[i].columns().len() ==> release_fold(
                        (#[trigger] old(self).archs()[i].columns()[c]).meta_view().borrow_count(),
                        query.spec_requests(),
                        old(self).archs()[i].ids()[c],
                    ) is Some,
                n == self.archs().len(),
                n == old(self).archs().len(),
                i <= n,
                forall|k: int| 0 <= k < n ==> {
                    let f = #[trigger] self.archs()[k];
                    f.wf() && f.infos() == old(self).archs()[k].infos() && f.entity_rows() == old(self).archs()[k].entity_rows()
                        && f.columns().len() == old(self).archs()[k].columns().len()
                        && forall|c: int| 0 <= c < f.columns().len() ==> (#[trigger] f.columns()[c]).rows() == old(self).archs()[k].columns()[c].rows()
                },
                forall|k: int| 0 <= k < i && !query.spec_matches(old(self).archs()[k].ids()) ==> unchanged_from(#[trigger] self.archs()[k], old(self).archs()[k]),
                forall|k: int, c: int| 0 <= k < i && query.spec_matches(old(self).archs()[k].ids()) && 0 <= c < old(self).archs()[k].columns().len() ==> {
                    let col = #[trigger] self.archs()[k].columns()[c];
                    let o = old(self).archs()[k].columns()[c];
                    &&& col.rows() == o.rows()
                    &&& col.meta_view().added() == o.meta_view().added()
                    &&& col.meta_view().mutated() == o.meta_view().mutated()
                    &&& col.meta_view().borrow_count() == release_fold(o.meta_view().borrow_count(), query.spec_requests(), old(self).archs()[k].ids()[c])->Some_0
                },
                forall|k: int| i <= k < n ==> #[trigger] self.archs()[k] == old(self).archs()[k],
            decreases n - i,
        {
            let ghost o = self.archs()[i as int];
            proof {
                assert(o == old(self).archs()[i as int]);
                assert(o.wf());
            }
            if query.matches(&self.archetypes[i]) {
                proof {
                    assert forall|c: int| 0 <= c < o.columns().len() implies release_fold(
                        (#[trigger] o.columns()[c]).meta_view().borrow_count(),
                        query.spec_requests(),
                        o.ids()[c],
                    ) is Some by {
                        assert(old(self).archs()[i as int].columns()[c] == o.columns()[c]);
                    }
                }
                query.release(&mut self.archetypes[i]);
            } else {
                proof {
                    assert forall|c: int| 0 <= c < o.columns().len() implies same_col(#[trigger] o.columns()[c], o.columns()[c]) by {}
                }
            }
            proof {
                let f = self.archs()[i as int];
                assert(f.ids() =~= o.ids());
            }
            i = i + 1;
        }
        proof {
            self.lemma_rows_kept(*old(self));
        }
    }

    /// Gives back the borrows of `query` on the archetypes before `end` that it matches,
    /// which hold exactly those borrows on top of the counters of `base`.
    fn release_prefix(&mut self, query: &Query, end: usize, Ghost(base): Ghost<World>)
        requires
            base.wf(),
            old(self).archs().len() == base.archs().len(),
            end <= base.archs().len(),
            forall|k: int| 0 <= k < end && query.spec_matches(base.archs()[k].ids()) ==> borrowed_from(#[trigger] old(self).archs()[k], base.archs()[k], query.spec_requests()),
            forall|k: int| 0 <= k < end && !query.spec_matches(base.archs()[k].ids()) ==> unchanged_from(#[trigger] old(self).archs()[k], base.archs()[k]),
        ensures
            final(self).archs().len() == old(self).archs().len(),
            forall|k: int| 0 <= k < end ==> unchanged_from(#[trigger] final(self).archs()[k], base.archs()[k]),
            forall|k: int| end <= k < old(self).archs().len() ==> #[trigger] final(self).archs()[k] == old(self).archs()[k],
    {
        let ghost reqs = query.spec_requests();
        let mut j: usize = 0;
        while j < end
            invariant
                base.wf(),
                reqs == query.spec_requests(),
                self.archs().len() == base.archs().len(),
                self.archs().len() == old(self).archs().len(),
                end <= base.archs().len(),
                j <= end,
                forall|k: int| 0 <= k < j ==> unchanged_from(#[trigger] self.archs()[k], base.archs()[k]),
                forall|k: int| j <= k < self.archs().len() ==> #[trigger] self.archs()[k] == old(self).archs()[k],
                forall|k: int| 0 <= k < end && query.spec_matches(base.archs()[k].ids()) ==> borrowed_from(#[trigger] old(self).archs()[k], base.archs()[k], reqs),
                forall|k: int| 0 <= k < end && !query.spec_matches(base.archs()[k].ids()) ==> unchanged_from(#[trigger] old(self).archs()[k], base.archs()[k]),
            decreases end - j,
        {
            let ghost o = self.archs()[j as int];
            let ghost b = base.archs()[j as int];
            proof {
                assert(b.wf());
                if query.spec_matches(b.ids()) {
                    assert(borrowed_from(o, b, reqs));
                    assert(o.ids() =~= b.ids());
                } else {
                    assert(unchanged_from(o, b));
                    assert(o.ids() =~= b.ids());
                }
            }
            if query.matches(&self.archetypes[j]) {
                proof {
                    assert forall|c: int| 0 <= c < o.columns().len() implies release_fold(
                        (#[trigger] o.columns()[c]).meta_view().borrow_count(),
                        reqs,
                        o.ids()[c],
                    ) is Some by {
                        assert(b.col_wf(c));
                        crate::storage::lemma_release_undoes_borrow(b.columns()[c].meta_view().borrow_count(), reqs, b.ids()[c]);
                    }
                }
                query.release(&mut self.archetypes[j]);
                proof {
                    let f = self.archs()[j as int];
                    assert(query.spec_matches(b.ids()));
                    assert(borrowed_from(o, b, reqs));
                    assert forall|c: int| 0 <= c < f.columns().len() implies same_col(#[trigger] f.columns()[c], b.columns()[c]) by {
                        assert(b.col_wf(c));
                        let oc = o.columns()[c];
                        assert(borrow_fold(b.columns()[c].meta_view().borrow_count(), reqs, b.ids()[c]) == Some(oc.meta_view().borrow_count()));
                        crate::storage::lemma_release_undoes_borrow(b.columns()[c].meta_view().borrow_count(), reqs, b.ids()[c]);
                        assert(f.col_wf(c));
                        assert(f.infos() == b.infos());
                    }
                }
            }
            j = j + 1;
        }
    }

    /// A store whose archetypes differ from a valid one only in column counters is valid.
    proof fn lemma_counters_only(&self, base: World)
        requires
            base.wf(),
            self.archs().len() == base.archs().len(),
            forall|k: int| 0 <= k < self.archs().len() ==> unchanged_from(#[trigger] self.archs()[k], base.archs()[k]),
        ensures
            self.wf(),
    {
        assert forall|k: int| 0 <= k < self.archs().len() implies {
            let f = #[trigger] self.archs()[k];
            f.wf() && f.infos() == base.archs()[k].infos() && f.entity_rows() == base.archs()[k].entity_rows()
                && f.columns().len() == base.archs()[k].columns().len()
                && forall|c: int| 0 <= c < f.columns().len() ==> (#[trigger] f.columns()[c]).rows() == base.archs()[k].columns()[c].rows()
        } by {
            assert(unchanged_from(self.archs()[k], base.archs()[k]));
        }
        self.lemma_rows_kept(base);
    }

    /// A store whose archetypes keep the metadata, entities and values of a valid one is valid.
    proof fn lemma_rows_kept(&self, base: World)
        requires
            base.wf(),
            self.archs().len() == base.archs().len(),
            forall|k: int| 0 <= k < self.archs().len() ==> {
                let f = #[trigger] self.archs()[k];
                f.wf() && f.infos() == base.archs()[k].infos() && f.entity_rows() == base.archs()[k].entity_rows()
                    && f.columns().len() == base.archs()[k].columns().len()
                    && forall|c: int| 0 <= c < f.columns().len() ==> (#[trigger] f.columns()[c]).rows() == base.archs()[k].columns()[c].rows()
            },
        ensures
            self.wf(),
    {
        assert forall|i: int| 0 <= i < self.archs().len() implies (#[trigger] self.archs()[i]).wf() && self.archs()[i].complete() by {
            let f = self.archs()[i];
            let b = base.archs()[i];
            assert(b.complete());
            assert forall|c: int| 0 <= c < f.columns().len() implies #[trigger] f.columns()[c].rows().len() == f.n() by {
                assert(b.columns()[c].rows().len() == b.n());
            }
        }
        assert forall|i: int, j: int| 0 <= i < self.archs().len() && 0 <= j < self.archs().len() && i != j implies !same_signature(#[trigger] self.archs()[i].ids(), #[trigger] self.archs()[j].ids()) by {
            assert(self.archs()[i].ids() == base.archs()[i].ids());
            assert(self.archs()[j].ids() == base.archs()[j].ids());
        }
        assert forall|i: int, j: int| 0 <= i < self.archs().len() && 0 <= j < self.archs().len() implies infos_agree(#[trigger] self.archs()[i].infos(), #[trigger] self.archs()[j].infos()) by {
            assert(self.archs()[i].infos() == base.archs()[i].infos());
            assert(self.archs()[j].infos() == base.archs()[j].infos());
        }
    }
}

} // verus!
