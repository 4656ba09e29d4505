use crate::archetype::{distinct_ids, ids_of, infos_agree, Archetype};
use crate::component::{Entity, Location, TypeInfo};
use crate::world::{added_before, col_spawned, comp_infos, mutated_before, rows_before, same_signature, World};
use vstd::prelude::*;

verus! {

/// Components of many entities laid out as one array per component kind: entity `k` has
/// value `k` of every array.
#[derive(Debug)]
pub struct SoaBatch {
    component_arrays: Vec<(TypeInfo, Vec<Vec<u8>>)>,
}

/// Row `row` of archetype `a` holds value `k` of every array, flagged added and not mutated.
pub open spec fn holds_row(a: Archetype, arrays: Seq<(TypeInfo, Vec<Vec<u8>>)>, k: int, row: int) -> bool {
    forall|c: int, j: int|
        #![trigger a.columns()[c], arrays[j]]
        0 <= c < a.columns().len() && 0 <= j < arrays.len() && a.ids()[c] == arrays[j].0.id ==> {
            &&& a.columns()[c].rows()[row] == arrays[j].1@[k]@
            &&& a.columns()[c].meta_view().added()[row]
            &&& !a.columns()[c].meta_view().mutated()[row]
        }
}

/// After a spawn of `row` (value `k` of every array) into archetype `t`, the new last row
/// of the archetype holds value `k` of every array, and the rows it had keep their values.
proof fn lemma_spawned_row(
    a: Archetype,
    olds: Seq<Archetype>,
    t: int,
    arrays: Seq<(TypeInfo, Vec<Vec<u8>>)>,
    row: Seq<(TypeInfo, Vec<u8>)>,
    k: int,
)
    requires
        a.wf(),
        row.len() == arrays.len(),
        forall|j: int| 0 <= j < row.len() ==> (#[trigger] row[j]).1@ == arrays[j].1@[k]@ && row[j].0 == arrays[j].0,
        forall|c: int, m: int| 0 <= c < a.columns().len() && 0 <= m < row.len() && a.ids()[c] == (#[trigger] row[m]).0.id ==> col_spawned(
            #[trigger] a.columns()[c],
            rows_before(olds, t, c),
            added_before(olds, t, c),
            mutated_before(olds, t, c),
            row[m].1@,
        ),
        0 <= t,
        t < olds.len() ==> olds[t].wf() && olds[t].complete() && olds[t].infos() == a.infos() && olds[t].n() + 1 == a.n(),
        t >= olds.len() ==> a.n() == 1,
    ensures
        holds_row(a, arrays, k, a.n() - 1),
        t < olds.len() ==> forall|i: int, x: int| 0 <= x < olds[t].n() && #[trigger] holds_row(olds[t], arrays, i, x) ==> holds_row(a, arrays, i, x),
{
    assert forall|c: int, j: int| 0 <= c < a.columns().len() && 0 <= j < arrays.len() && a.ids()[c] == arrays[j].0.id implies {
        &&& (#[trigger] a.columns()[c]).rows()[a.n() - 1] == (#[trigger] arrays[j]).1@[k]@
        &&& a.columns()[c].meta_view().added()[a.n() - 1]
        &&& !a.columns()[c].meta_view().mutated()[a.n() - 1]
    } by {
        assert(row[j].0 == arrays[j].0);
        assert(col_spawned(a.columns()[c], rows_before(olds, t, c), added_before(olds, t, c), mutated_before(olds, t, c), row[j].1@));
        if t < olds.len() {
            assert(olds[t].col_wf(c));
        }
    }
    if t < olds.len() {
        let o = olds[t];
        assert forall|i: int, x: int| 0 <= x < o.n() && #[trigger] holds_row(o, arrays, i, x) implies holds_row(a, arrays, i, x) by {
            assert forall|c: int, j: int| 0 <= c < a.columns().len() && 0 <= j < arrays.len() && a.ids()[c] == arrays[j].0.id implies {
                &&& (#[trigger] a.columns()[c]).rows()[x] == (#[trigger] arrays[j]).1@[i]@
                &&& a.columns()[c].meta_view().added()[x]
                &&& !a.columns()[c].meta_view().mutated()[x]
            } by {
                assert(row[j].0 == arrays[j].0);
                assert(col_spawned(a.columns()[c], rows_before(olds, t, c), added_before(olds, t, c), mutated_before(olds, t, c), row[j].1@));
                assert(o.col_wf(c));
                assert(o.ids()[c] == a.ids()[c]);
                assert(o.columns()[c] == o.columns()[c]);
            }
        }
    }
}

/// The metadata of each array.
pub open spec fn array_infos(arrays: Seq<(TypeInfo, Vec<Vec<u8>>)>) -> Seq<TypeInfo> {
    arrays.map_values(|a: (TypeInfo, Vec<Vec<u8>>)| a.0)
}

impl SoaBatch {
    /// The arrays, one per component kind.
    pub closed spec fn arrays(&self) -> Seq<(TypeInfo, Vec<Vec<u8>>)> {
        self.component_arrays@
    }

    /// A batch of the arrays `components`.
    pub fn new(components: Vec<(TypeInfo, Vec<Vec<u8>>)>) -> (r: SoaBatch)
        ensures
            r.arrays() == components@,
    {
        SoaBatch { component_arrays: components }
    }

    /// The batch can be spawned for `n` entities into `world`: one value per entity in
    /// every array, each of its kind's size, distinct kinds that agree
    /// with the store's metadata.
    pub open spec fn fits(&self, world: World, n: nat) -> bool {
        &&& distinct_ids(ids_of(array_infos(self.arrays())))
        &&& forall|j: int| 0 <= j < self.arrays().len() ==> (#[trigger] self.arrays()[j]).1@.len() == n
        &&& forall|j: int, k: int| 0 <= j < self.arrays().len() && 0 <= k < n ==> (#[trigger] self.arrays()[j].1@[k])@.len() == self.arrays()[j].0.size
        &&& forall|a: int| 0 <= a < world.archs().len() ==> infos_agree(array_infos(self.arrays()), #[trigger] world.archs()[a].infos())
    }

    /// The components of entity `k`.
    fn row(&self, k: usize) -> (r: Vec<(TypeInfo, Vec<u8>)>)
        requires
            forall|j: int| 0 <= j < self.arrays().len() ==> k < (#[trigger] self.arrays()[j]).1@.len(),
        ensures
            comp_infos(r@) == array_infos(self.arrays()),
            r@.len() == self.arrays().len(),
            forall|j: int| 0 <= j < r@.len() ==> (#[trigger] r@[j]).1@ == self.arrays()[j].1@[k as int]@ && r@[j].0 == self.arrays()[j].0,
    {
        let mut out: Vec<(TypeInfo, Vec<u8>)> = Vec::new();
        let mut j: usize = 0;
        while j < self.component_arrays.len()
            invariant
                forall|i: int| 0 <= i < self.arrays().len() ==> k < (#[trigger] self.arrays()[i]).1@.len(),
                j <= self.arrays().len(),
                comp_infos(out@) == array_infos(self.arrays().subrange(0, j as int)),
                forall|i: int| 0 <= i < out@.len() ==> (#[trigger] out@[i]).1@ == self.arrays()[i].1@[k as int]@ && out@[i].0 == self.arrays()[i].0,
                out@.len() == j,
            decreases self.arrays().len() - j,
        {
            let info = self.component_arrays[j].0;
            let src = &self.component_arrays[j].1[k];
            let value = src.clone();
            assert(value@ =~= src@);
            out.push((info, value));
            assert(comp_infos(out@) =~= array_infos(self.arrays().subrange(0, j as int + 1)));
            j = j + 1;
        }
        assert(self.arrays().subrange(0, self.arrays().len() as int) =~= self.arrays());
        out
    }

    /// Spawns entity `entities[k]` with value `k` of every array, all into the archetype of
    /// the batch's signature (created when new), in consecutive rows. Returns each entity's
    /// location.
    pub fn spawn(self, world: &mut World, entities: Vec<Entity>) -> (r: Vec<Location>)
        requires
            old(world).wf(),
            self.fits(*old(world), entities@.len()),
        ensures
            final(world).wf(),
            r@.len() == entities@.len(),
            entities@.len() == 0 ==> *final(world) == *old(world),
            entities@.len() > 0 ==> {
                let t = r@[0].archetype as int;
                &&& t < final(world).archs().len()
                &&& same_signature(final(world).archs()[t].ids(), ids_of(array_infos(self.arrays())))
                &&& forall|k: int| 0 <= k < r@.len() ==> {
                    &&& (#[trigger] r@[k]).archetype == r@[0].archetype
                    &&& r@[k].index == r@[0].index + k
                    &&& r@[k].index < final(world).archs()[t].n()
                    &&& final(world).archs()[t].entity_rows()[r@[k].index as int] == entities@[k]
                    &&& holds_row(final(world).archs()[t], self.arrays(), k, r@[k].index as int)
                }
            },
    {
        let ghost cinfos = array_infos(self.arrays());
        let mut out: Vec<Location> = Vec::new();
        if entities.len() == 0 {
            return out;
        }
        let first = self.row(0);
        proof {
            assert forall|j: int| 0 <= j < first@.len() implies (#[trigger] first@[j]).1@.len() == first@[j].0.size by {
                assert(self.arrays()[j].1@[0]@.len() == self.arrays()[j].0.size);
            }
        }
        let ghost start = world.archs();
        let l0 = world.spawn(entities[0], first);
        proof {
            let t0 = l0.archetype as int;
            if t0 < start.len() {
                assert(start[t0].wf() && start[t0].complete());
            }
            lemma_spawned_row(world.archs()[t0], start, t0, self.arrays(), first@, 0);
        }
        out.push(l0);
        let mut k: usize = 1;
        while k < entities.len()
            invariant
                world.wf(),
                self.fits(*old(world), entities@.len()),
                cinfos == array_infos(self.arrays()),
                1 <= k <= entities@.len(),
                out@.len() == k,
                out@[0] == l0,
                l0.archetype < world.archs().len(),
                same_signature(world.archs()[l0.archetype as int].ids(), ids_of(cinfos)),
                world.archs()[l0.archetype as int].n() == l0.index + k,
                forall|a: int| 0 <= a < world.archs().len() ==> infos_agree(cinfos, #[trigger] world.archs()[a].infos()),
                forall|i: int| 0 <= i < k ==> {
                    &&& (#[trigger] out@[i]).archetype == l0.archetype
                    &&& out@[i].index == l0.index + i
                    &&& world.archs()[l0.archetype as int].entity_rows()[out@[i].index as int] == entities@[i]
                    &&& holds_row(world.archs()[l0.archetype as int], self.arrays(), i, out@[i].index as int)
                },
            decreases entities@.len() - k,
        {
            let row = self.row(k);
            proof {
                assert forall|j: int| 0 <= j < row@.len() implies (#[trigger] row@[j]).1@.len() == row@[j].0.size by {
                    assert(self.arrays()[j].1@[k as int]@.len() == self.arrays()[j].0.size);
                }
            }
            let ghost before = world.archs();
            let loc = world.spawn(entities[k], row);
            proof {
                let t = loc.archetype as int;
                let t0 = l0.archetype as int;
                assert(exists|i: int| 0 <= i < before.len() && same_signature(#[trigger] before[i].ids(), ids_of(comp_infos(row@))));
                assert(world.archs().len() == before.len());
                if t != t0 {
                    assert(world.archs()[t0] == before[t0]);
                    assert(world.archs()[t].ids().to_set() == world.archs()[t0].ids().to_set());
                }
                assert(before[t0].wf() && before[t0].complete());
                lemma_spawned_row(world.archs()[t0], before, t0, self.arrays(), row@, k as int);
                assert forall|i: int| 0 <= i < k implies holds_row(world.archs()[t0], self.arrays(), i, (#[trigger] out@[i]).index as int) by {
                    assert(holds_row(before[t0], self.arrays(), i, out@[i].index as int));
                }
            }
            out.push(loc);
            k = k + 1;
        }
        out
    }
}

} // verus!
