use crate::access::{max_access, opt_rank, spec_max_access, Access};
use crate::archetype::{col_of, same_col, Archetype};
use crate::component::{ComponentId, MissingComponent, TypeInfo};
use crate::storage::{borrow_fold, release_fold};
use vstd::prelude::*;

verus! {

/// Fetches the entity of each row; touches no component.
#[derive(Debug, Clone, Copy)]
pub struct EntityFetch;

/// Reads component `id`.
#[derive(Debug, Clone, Copy)]
pub struct FetchRead {
    pub id: ComponentId,
}

/// Reads and writes component `id`.
#[derive(Debug, Clone, Copy)]
pub struct FetchMut {
    pub id: ComponentId,
}

/// Reads component `id` on the rows where it was added in the current epoch.
#[derive(Debug, Clone, Copy)]
pub struct FetchAdded {
    pub id: ComponentId,
}

/// Reads component `id` on the rows where it was mutated in the current epoch.
#[derive(Debug, Clone, Copy)]
pub struct FetchMutated {
    pub id: ComponentId,
}

/// Reads component `id` on the rows where it was added or mutated in the current epoch.
#[derive(Debug, Clone, Copy)]
pub struct FetchChanged {
    pub id: ComponentId,
}

/// One basic access of a query.
#[derive(Debug, Clone, Copy)]
pub enum Fetch {
    Entity(EntityFetch),
    Read(FetchRead),
    Write(FetchMut),
    Added(FetchAdded),
    Mutated(FetchMutated),
    Changed(FetchChanged),
}

/// An optional access: archetypes without the component are not excluded.
#[derive(Debug, Clone, Copy)]
pub struct TryFetch {
    pub inner: Fetch,
}

/// Keeps only archetypes that have component `id`, without borrowing it.
#[derive(Debug, Clone, Copy)]
pub struct FetchWith {
    pub id: ComponentId,
}

/// Keeps only archetypes that lack component `id`.
#[derive(Debug, Clone, Copy)]
pub struct FetchWithout {
    pub id: ComponentId,
}

/// A logical or of accesses: a row is skipped only when every branch skips it.
#[derive(Debug)]
pub struct FetchOr {
    pub branches: Vec<Fetch>,
}

/// One element of a query.
#[derive(Debug)]
pub enum QueryTerm {
    Fetch(Fetch),
    Optional(TryFetch),
    With(FetchWith),
    Without(FetchWithout),
    Or(FetchOr),
}

/// A query: a tuple of terms, all of which an archetype must satisfy.
#[derive(Debug)]
pub struct Query {
    pub terms: Vec<QueryTerm>,
}

/// The "added" flag of row `row` in the column of `a` for `id`.
pub open spec fn added_at(a: Archetype, id: ComponentId, row: int) -> bool {
    col_of(a, id).meta_view().added()[row]
}

/// The "mutated" flag of row `row` in the column of `a` for `id`.
pub open spec fn mutated_at(a: Archetype, id: ComponentId, row: int) -> bool {
    col_of(a, id).meta_view().mutated()[row]
}

impl Fetch {
    /// How this access touches an archetype with component kinds `ids`, if at all.
    pub open spec fn spec_access(self, ids: Seq<ComponentId>) -> Option<Access> {
        match self {
            Fetch::Entity(_) => Some(Access::Iterate),
            Fetch::Read(f) => if ids.contains(f.id) { Some(Access::Read) } else { None },
            Fetch::Write(f) => if ids.contains(f.id) { Some(Access::Write) } else { None },
            Fetch::Added(f) => if ids.contains(f.id) { Some(Access::Read) } else { None },
            Fetch::Mutated(f) => if ids.contains(f.id) { Some(Access::Read) } else { None },
            Fetch::Changed(f) => if ids.contains(f.id) { Some(Access::Read) } else { None },
        }
    }

    /// Whether this access can be served by an archetype with component kinds `ids`.
    pub open spec fn spec_matches(self, ids: Seq<ComponentId>) -> bool {
        self.spec_access(ids) is Some
    }

    /// Whether row `row` of `a` is filtered out by this access.
    pub open spec fn spec_skip(self, a: Archetype, row: int) -> bool {
        match self {
            Fetch::Added(f) => !added_at(a, f.id, row),
            Fetch::Mutated(f) => !mutated_at(a, f.id, row),
            Fetch::Changed(f) => !added_at(a, f.id, row) && !mutated_at(a, f.id, row),
            _ => false,
        }
    }

    /// How this access touches `archetype`, if at all.
    pub fn access(&self, archetype: &Archetype) -> (r: Option<Access>)
        requires
            archetype.wf(),
        ensures
            r == self.spec_access(archetype.ids()),
    {
        match self {
            Fetch::Entity(_) => Some(Access::Iterate),
            Fetch::Read(f) => if archetype.has_type(f.id) { Some(Access::Read) } else { None },
            Fetch::Write(f) => if archetype.has_type(f.id) { Some(Access::Write) } else { None },
            Fetch::Added(f) => if archetype.has_type(f.id) { Some(Access::Read) } else { None },
            Fetch::Mutated(f) => if archetype.has_type(f.id) { Some(Access::Read) } else { None },
            Fetch::Changed(f) => if archetype.has_type(f.id) { Some(Access::Read) } else { None },
        }
    }

    /// Whether row `row` of `archetype` is filtered out by this access.
    pub fn should_skip(&self, archetype: &Archetype, row: usize) -> (r: bool)
        requires
            archetype.wf(),
            self.spec_matches(archetype.ids()),
            row < archetype.n(),
        ensures
            r == self.spec_skip(*archetype, row as int),
    {
        match self {
            Fetch::Added(f) => !added_flag(archetype, f.id, row),
            Fetch::Mutated(f) => !mutated_flag(archetype, f.id, row),
            Fetch::Changed(f) => !added_flag(archetype, f.id, row) && !mutated_flag(archetype, f.id, row),
            _ => false,
        }
    }
}

/// The "added" flag of row `row` in the column for `id`.
fn added_flag(archetype: &Archetype, id: ComponentId, row: usize) -> (r: bool)
    requires
        archetype.wf(),
        archetype.ids().contains(id),
        row < archetype.n(),
    ensures
        r == added_at(*archetype, id, row as int),
{
    match archetype.get_storage_dynamic(id) {
        Some(col) => col.meta().is_added(row),
        None => false,
    }
}

/// The "mutated" flag of row `row` in the column for `id`.
fn mutated_flag(archetype: &Archetype, id: ComponentId, row: usize) -> (r: bool)
    requires
        archetype.wf(),
        archetype.ids().contains(id),
        row < archetype.n(),
    ensures
        r == mutated_at(*archetype, id, row as int),
{
    match archetype.get_storage_dynamic(id) {
        Some(col) => col.meta().is_mutated(row),
        None => false,
    }
}

/// The strongest access among `fs`, `None` when there is none.
pub open spec fn or_access(fs: Seq<Fetch>, ids: Seq<ComponentId>) -> Option<Access>
    decreases fs.len(),
{
    if fs.len() == 0 {
        None
    } else {
        spec_max_access(or_access(fs.drop_last(), ids), fs.last().spec_access(ids))
    }
}

/// Every access of `fs` can be served by an archetype with kinds `ids`.
pub open spec fn or_matches(fs: Seq<Fetch>, ids: Seq<ComponentId>) -> bool {
    forall|i: int| 0 <= i < fs.len() ==> #[trigger] fs[i].spec_matches(ids)
}

/// Every access of `fs` filters out row `row` of `a`.
pub open spec fn or_skip(fs: Seq<Fetch>, a: Archetype, row: int) -> bool {
    forall|i: int| 0 <= i < fs.len() ==> #[trigger] fs[i].spec_skip(a, row)
}

impl QueryTerm {
    /// How this term touches an archetype with component kinds `ids`, if at all.
    pub open spec fn spec_access(self, ids: Seq<ComponentId>) -> Option<Access> {
        match self {
            QueryTerm::Fetch(f) => f.spec_access(ids),
            QueryTerm::Optional(t) => match t.inner.spec_access(ids) {
                Some(x) => Some(x),
                None => Some(Access::Iterate),
            },
            QueryTerm::With(w) => if ids.contains(w.id) { Some(Access::Iterate) } else { None },
            QueryTerm::Without(w) => if ids.contains(w.id) { None } else { Some(Access::Iterate) },
            QueryTerm::Or(o) => or_access(o.branches@, ids),
        }
    }

    /// Whether this term lets an archetype with component kinds `ids` be iterated.
    pub open spec fn spec_matches(self, ids: Seq<ComponentId>) -> bool {
        match self {
            QueryTerm::Fetch(f) => f.spec_matches(ids),
            QueryTerm::Optional(_) => true,
            QueryTerm::With(w) => ids.contains(w.id),
            QueryTerm::Without(w) => !ids.contains(w.id),
            QueryTerm::Or(o) => or_matches(o.branches@, ids),
        }
    }

    /// Whether row `row` of `a` is filtered out by this term.
    pub open spec fn spec_skip(self, a: Archetype, row: int) -> bool {
        match self {
            QueryTerm::Fetch(f) => f.spec_skip(a, row),
            QueryTerm::Optional(t) => t.inner.spec_matches(a.ids()) && t.inner.spec_skip(a, row),
            QueryTerm::With(_) => false,
            QueryTerm::Without(_) => false,
            QueryTerm::Or(o) => or_skip(o.branches@, a, row),
        }
    }

    /// How this term touches `archetype`, if at all.
    pub fn access(&self, archetype: &Archetype) -> (r: Option<Access>)
        requires
            archetype.wf(),
        ensures
            r == self.spec_access(archetype.ids()),
    {
        match self {
            QueryTerm::Fetch(f) => f.access(archetype),
            QueryTerm::Optional(t) => match t.inner.access(archetype) {
                Some(x) => Some(x),
                None => Some(Access::Iterate),
            },
            QueryTerm::With(w) => if archetype.has_type(w.id) { Some(Access::Iterate) } else { None },
            QueryTerm::Without(w) => if archetype.has_type(w.id) { None } else { Some(Access::Iterate) },
            QueryTerm::Or(o) => {
                let mut acc: Option<Access> = None;
                let mut i: usize = 0;
                while i < o.branches.len()
                    invariant
                        archetype.wf(),
                        i <= o.branches@.len(),
                        acc == or_access(o.branches@.subrange(0, i as int), archetype.ids()),
                    decreases o.branches@.len() - i,
                {
                    let a = o.branches[i].access(archetype);
                    proof {
                        let s = o.branches@.subrange(0, i as int + 1);
                        assert(s.drop_last() =~= o.branches@.subrange(0, i as int));
                    }
                    acc = max_access(acc, a);
                    i = i + 1;
                }
                assert(o.branches@.subrange(0, o.branches@.len() as int) =~= o.branches@);
                acc
            },
        }
    }

    /// Whether this term lets `archetype` be iterated.
    pub fn matches(&self, archetype: &Archetype) -> (r: bool)
        requires
            archetype.wf(),
        ensures
            r == self.spec_matches(archetype.ids()),
    {
        match self {
            QueryTerm::Fetch(f) => f.access(archetype).is_some(),
            QueryTerm::Optional(_) => true,
            QueryTerm::With(w) => archetype.has_type(w.id),
            QueryTerm::Without(w) => !archetype.has_type(w.id),
            QueryTerm::Or(o) => {
                let mut i: usize = 0;
                while i < o.branches.len()
                    invariant
                        archetype.wf(),
                        i <= o.branches@.len(),
                        self.spec_matches(archetype.ids()) == or_matches(o.branches@, archetype.ids()),
                        forall|k: int| 0 <= k < i ==> #[trigger] o.branches@[k].spec_matches(archetype.ids()),
                    decreases o.branches@.len() - i,
                {
                    if o.branches[i].access(archetype).is_none() {
                        assert(!o.branches@[i as int].spec_matches(archetype.ids()));
                        assert(!or_matches(o.branches@, archetype.ids()));
                        return false;
                    }
                    i = i + 1;
                }
                true
            },
        }
    }

    /// Whether row `row` of `archetype` is filtered out by this term.
    pub fn should_skip(&self, archetype: &Archetype, row: usize) -> (r: bool)
        requires
            archetype.wf(),
            self.spec_matches(archetype.ids()),
            row < archetype.n(),
        ensures
            r == self.spec_skip(*archetype, row as int),
    {
        match self {
            QueryTerm::Fetch(f) => f.should_skip(archetype, row),
            QueryTerm::Optional(t) => t.inner.access(archetype).is_some() && t.inner.should_skip(archetype, row),
            QueryTerm::With(_) => false,
            QueryTerm::Without(_) => false,
            QueryTerm::Or(o) => {
                let mut i: usize = 0;
                while i < o.branches.len()
                    invariant
                        archetype.wf(),
                        row < archetype.n(),
                        or_matches(o.branches@, archetype.ids()),
                        self.spec_skip(*archetype, row as int) == or_skip(o.branches@, *archetype, row as int),
                        i <= o.branches@.len(),
                        forall|k: int| 0 <= k < i ==> #[trigger] o.branches@[k].spec_skip(*archetype, row as int),
                    decreases o.branches@.len() - i,
                {
                    proof {
                        assert(o.branches@[i as int].spec_matches(archetype.ids()));
                    }
                    if !o.branches[i].should_skip(archetype, row) {
                        assert(!o.branches@[i as int].spec_skip(*archetype, row as int));
                        assert(!or_skip(o.branches@, *archetype, row as int));
                        return false;
                    }
                    i = i + 1;
                }
                true
            },
        }
    }
}

/// The combined access of a tuple of terms: `None` when some term excludes the
/// archetype, else the strongest access among them (at least `Iterate`).
pub open spec fn terms_access(ts: Seq<QueryTerm>, ids: Seq<ComponentId>) -> Option<Access>
    decreases ts.len(),
{
    if ts.len() == 0 {
        Some(Access::Iterate)
    } else {
        match (terms_access(ts.drop_last(), ids), ts.last().spec_access(ids)) {
            (Some(x), Some(y)) => Some(if x.rank() >= y.rank() { x } else { y }),
            _ => None,
        }
    }
}

/// The rows `lo..hi` of archetype `a` (at position `ai`) that `q` does not filter out, in order.
pub open spec fn rows_range(q: Query, a: Archetype, ai: usize, lo: nat, hi: nat) -> Seq<(usize, usize)>
    decreases hi,
{
    if hi <= lo {
        Seq::empty()
    } else {
        let prev = rows_range(q, a, ai, lo, (hi - 1) as nat);
        if q.spec_skip(a, hi - 1) {
            prev
        } else {
            prev.push((ai, (hi - 1) as usize))
        }
    }
}

/// The rows that iterating `q` over `archs` yields, as (archetype, row) pairs: archetypes in
/// order, skipping those `q` does not match, and in each the rows `q` does not filter out.
pub open spec fn query_rows(q: Query, archs: Seq<Archetype>) -> Seq<(usize, usize)>
    decreases archs.len(),
{
    if archs.len() == 0 {
        Seq::empty()
    } else {
        let prev = query_rows(q, archs.drop_last());
        let a = archs.last();
        if q.spec_matches(a.ids()) {
            prev + rows_range(q, a, (archs.len() - 1) as usize, 0, a.n())
        } else {
            prev
        }
    }
}

impl Query {
    /// A query made of `terms`.
    pub fn new(terms: Vec<QueryTerm>) -> (r: Query)
        ensures
            r.terms@ == terms@,
    {
        Query { terms }
    }

    /// How this query touches an archetype with component kinds `ids`, if at all.
    pub open spec fn spec_access(self, ids: Seq<ComponentId>) -> Option<Access> {
        terms_access(self.terms@, ids)
    }

    /// Whether an archetype with component kinds `ids` is iterated.
    pub open spec fn spec_matches(self, ids: Seq<ComponentId>) -> bool {
        forall|i: int| 0 <= i < self.terms@.len() ==> #[trigger] self.terms@[i].spec_matches(ids)
    }

    /// Whether row `row` of `a` is filtered out.
    pub open spec fn spec_skip(self, a: Archetype, row: int) -> bool {
        exists|i: int| 0 <= i < self.terms@.len() && #[trigger] self.terms@[i].spec_skip(a, row)
    }

    /// How this query touches `archetype`, if at all.
    pub fn access(&self, archetype: &Archetype) -> (r: Option<Access>)
        requires
            archetype.wf(),
        ensures
            r == self.spec_access(archetype.ids()),
    {
        let mut acc: Option<Access> = Some(Access::Iterate);
        let mut i: usize = 0;
        while i < self.terms.len()
            invariant
                archetype.wf(),
                i <= self.terms@.len(),
                acc == terms_access(self.terms@.subrange(0, i as int), archetype.ids()),
            decreases self.terms@.len() - i,
        {
            let a = self.terms[i].access(archetype);
            proof {
                assert(self.terms@.subrange(0, i as int + 1).drop_last() =~= self.terms@.subrange(0, i as int));
            }
            acc = match (acc, a) {
                (Some(x), Some(y)) => Some(x.max(y)),
                _ => None,
            };
            i = i + 1;
        }
        assert(self.terms@.subrange(0, self.terms@.len() as int) =~= self.terms@);
        acc
    }

    /// Whether `archetype` is iterated.
    pub fn matches(&self, archetype: &Archetype) -> (r: bool)
        requires
            archetype.wf(),
        ensures
            r == self.spec_matches(archetype.ids()),
    {
        let mut i: usize = 0;
        while i < self.terms.len()
            invariant
                archetype.wf(),
                i <= self.terms@.len(),
                forall|k: int| 0 <= k < i ==> #[trigger] self.terms@[k].spec_matches(archetype.ids()),
            decreases self.terms@.len() - i,
        {
            if !self.terms[i].matches(archetype) {
                assert(!self.terms@[i as int].spec_matches(archetype.ids()));
                return false;
            }
            i = i + 1;
        }
        true
    }

    /// Whether row `row` of `archetype` is filtered out.
    pub fn should_skip(&self, archetype: &Archetype, row: usize) -> (r: bool)
        requires
            archetype.wf(),
            self.spec_matches(archetype.ids()),
            row < archetype.n(),
        ensures
            r == self.spec_skip(*archetype, row as int),
    {
        let mut i: usize = 0;
        while i < self.terms.len()
            invariant
                archetype.wf(),
                self.spec_matches(archetype.ids()),
                row < archetype.n(),
                i <= self.terms@.len(),
                forall|k: int| 0 <= k < i ==> !(#[trigger] self.terms@[k].spec_skip(*archetype, row as int)),
            decreases self.terms@.len() - i,
        {
            proof {
                assert(self.terms@[i as int].spec_matches(archetype.ids()));
            }
            if self.terms[i].should_skip(archetype, row) {
                return true;
            }
            i = i + 1;
        }
        false
    }

    /// The rows `lo..hi` of `archetype` (at position `ai`) that are not filtered out.
    pub fn rows_between(&self, archetype: &Archetype, ai: usize, lo: usize, hi: usize) -> (r: Vec<(usize, usize)>)
        requires
            archetype.wf(),
            self.spec_matches(archetype.ids()),
            lo <= hi <= archetype.n(),
        ensures
            r@ == rows_range(*self, *archetype, ai, lo as nat, hi as nat),
    {
        let mut out: Vec<(usize, usize)> = Vec::new();
        let mut row: usize = lo;
        assert(out@ =~= rows_range(*self, *archetype, ai, lo as nat, lo as nat));
        while row < hi
            invariant
                archetype.wf(),
                self.spec_matches(archetype.ids()),
                lo <= row <= hi <= archetype.n(),
                out@ == rows_range(*self, *archetype, ai, lo as nat, row as nat),
            decreases hi - row,
        {
            if !self.should_skip(archetype, row) {
                out.push((ai, row));
            }
            row = row + 1;
        }
        out
    }

    /// Every row that iterating the query over `archetypes` yields, as (archetype, row) pairs.
    pub fn rows(&self, archetypes: &Vec<Archetype>) -> (r: Vec<(usize, usize)>)
        requires
            forall|i: int| 0 <= i < archetypes@.len() ==> (#[trigger] archetypes@[i]).wf(),
        ensures
            r@ == query_rows(*self, archetypes@),
    {
        let mut out: Vec<(usize, usize)> = Vec::new();
        let mut i: usize = 0;
        assert(archetypes@.subrange(0, 0) =~= Seq::<Archetype>::empty());
        while i < archetypes.len()
            invariant
                forall|k: int| 0 <= k < archetypes@.len() ==> (#[trigger] archetypes@[k]).wf(),
                i <= archetypes@.len(),
                out@ == query_rows(*self, archetypes@.subrange(0, i as int)),
            decreases archetypes@.len() - i,
        {
            let a = &archetypes[i];
            proof {
                assert(archetypes@.subrange(0, i as int + 1).drop_last() =~= archetypes@.subrange(0, i as int));
                assert(archetypes@.subrange(0, i as int + 1).last() == archetypes@[i as int]);
            }
            if self.matches(a) {
                let mut more = self.rows_between(a, i, 0, a.len());
                out.append(&mut more);
            }
            i = i + 1;
        }
        assert(archetypes@.subrange(0, archetypes@.len() as int) =~= archetypes@);
        out
    }
}

impl Fetch {
    /// The borrow this access takes: its component, and whether the borrow is exclusive.
    pub open spec fn spec_requests(self) -> Seq<(ComponentId, bool)> {
        match self {
            Fetch::Entity(_) => Seq::empty(),
            Fetch::Read(f) => seq![(f.id, false)],
            Fetch::Write(f) => seq![(f.id, true)],
            Fetch::Added(f) => seq![(f.id, false)],
            Fetch::Mutated(f) => seq![(f.id, false)],
            Fetch::Changed(f) => seq![(f.id, false)],
        }
    }

    /// Appends the borrow this access takes to `out`.
    pub fn push_requests(&self, out: &mut Vec<(ComponentId, bool)>)
        ensures
            final(out)@ == old(out)@ + self.spec_requests(),
    {
        match self {
            Fetch::Entity(_) => {},
            Fetch::Read(f) => out.push((f.id, false)),
            Fetch::Write(f) => out.push((f.id, true)),
            Fetch::Added(f) => out.push((f.id, false)),
            Fetch::Mutated(f) => out.push((f.id, false)),
            Fetch::Changed(f) => out.push((f.id, false)),
        }
        assert(out@ =~= old(out)@ + self.spec_requests());
    }
}

/// The borrows of a list of accesses, in order.
pub open spec fn fetches_requests(fs: Seq<Fetch>) -> Seq<(ComponentId, bool)>
    decreases fs.len(),
{
    if fs.len() == 0 {
        Seq::empty()
    } else {
        fetches_requests(fs.drop_last()) + fs.last().spec_requests()
    }
}

impl QueryTerm {
    /// The borrows this term takes, in order.
    pub open spec fn spec_requests(self) -> Seq<(ComponentId, bool)> {
        match self {
            QueryTerm::Fetch(f) => f.spec_requests(),
            QueryTerm::Optional(t) => t.inner.spec_requests(),
            QueryTerm::With(_) => Seq::empty(),
            QueryTerm::Without(_) => Seq::empty(),
            QueryTerm::Or(o) => fetches_requests(o.branches@),
        }
    }

    /// Appends the borrows this term takes to `out`.
    pub fn push_requests(&self, out: &mut Vec<(ComponentId, bool)>)
        ensures
            final(out)@ == old(out)@ + self.spec_requests(),
    {
        match self {
            QueryTerm::Fetch(f) => f.push_requests(out),
            QueryTerm::Optional(t) => t.inner.push_requests(out),
            QueryTerm::With(_) => {
                assert(out@ =~= old(out)@ + self.spec_requests());
            },
            QueryTerm::Without(_) => {
                assert(out@ =~= old(out)@ + self.spec_requests());
            },
            QueryTerm::Or(o) => {
                let mut i: usize = 0;
                assert(out@ =~= old(out)@ + fetches_requests(o.branches@.subrange(0, 0)));
                while i < o.branches.len()
                    invariant
                        i <= o.branches@.len(),
                        self.spec_requests() == fetches_requests(o.branches@),
                        out@ == old(out)@ + fetches_requests(o.branches@.subrange(0, i as int)),
                    decreases o.branches@.len() - i,
                {
                    o.branches[i].push_requests(out);
                    proof {
                        assert(o.branches@.subrange(0, i as int + 1).drop_last() =~= o.branches@.subrange(0, i as int));
                    }
                    assert(out@ =~= old(out)@ + fetches_requests(o.branches@.subrange(0, i as int + 1)));
                    i = i + 1;
                }
                assert(o.branches@.subrange(0, o.branches@.len() as int) =~= o.branches@);
            },
        }
    }
}

/// The borrows of a tuple of terms, in order.
pub open spec fn terms_requests(ts: Seq<QueryTerm>) -> Seq<(ComponentId, bool)>
    decreases ts.len(),
{
    if ts.len() == 0 {
        Seq::empty()
    } else {
        terms_requests(ts.drop_last()) + ts.last().spec_requests()
    }
}

impl Query {
    /// The borrows the query takes on an archetype, in order.
    pub open spec fn spec_requests(self) -> Seq<(ComponentId, bool)> {
        terms_requests(self.terms@)
    }

    /// The borrows the query takes on an archetype, in order: each a component and whether
    /// the borrow is exclusive.
    pub fn borrow_requests(&self) -> (r: Vec<(ComponentId, bool)>)
        ensures
            r@ == self.spec_requests(),
    {
        let mut out: Vec<(ComponentId, bool)> = Vec::new();
        let mut i: usize = 0;
        assert(out@ =~= terms_requests(self.terms@.subrange(0, 0)));
        while i < self.terms.len()
            invariant
                i <= self.terms@.len(),
                out@ == terms_requests(self.terms@.subrange(0, i as int)),
            decreases self.terms@.len() - i,
        {
            self.terms[i].push_requests(&mut out);
            proof {
                assert(self.terms@.subrange(0, i as int + 1).drop_last() =~= self.terms@.subrange(0, i as int));
            }
            i = i + 1;
        }
        assert(self.terms@.subrange(0, self.terms@.len() as int) =~= self.terms@);
        out
    }

    /// Takes the query's borrows on `archetype`, all or nothing: `false` (no counter
    /// changed) when two of its accesses collide or another holder forbids one.
    pub fn borrow(&self, archetype: &mut Archetype) -> (r: bool)
        requires
            old(archetype).wf(),
        ensures
            final(archetype).wf(),
            final(archetype).infos() == old(archetype).infos(),
            final(archetype).entity_rows() == old(archetype).entity_rows(),
            final(archetype).columns().len() == old(archetype).columns().len(),
            r == old(archetype).can_take(self.spec_requests()),
            forall|c: int| 0 <= c < final(archetype).columns().len() ==> {
                let col = #[trigger] final(archetype).columns()[c];
                let o = old(archetype).columns()[c];
                &&& col.info() == o.info()
                &&& col.rows() == o.rows()
                &&& col.meta_view().added() == o.meta_view().added()
                &&& col.meta_view().mutated() == o.meta_view().mutated()
                &&& col.meta_view().borrow_count() == (if r {
                    borrow_fold(o.meta_view().borrow_count(), self.spec_requests(), old(archetype).ids()[c])->Some_0
                } else {
                    o.meta_view().borrow_count()
                })
            },
    {
        let reqs = self.borrow_requests();
        archetype.try_borrow(&reqs)
    }

    /// Gives back the query's borrows on `archetype`.
    pub fn release(&self, archetype: &mut Archetype)
        requires
            old(archetype).wf(),
            forall|c: int| 0 <= c < old(archetype).columns().len() ==> release_fold(
                (#[trigger] old(archetype).columns()[c]).meta_view().borrow_count(),
                self.spec_requests(),
                old(archetype).ids()[c],
            ) is Some,
        ensures
            final(archetype).wf(),
            final(archetype).infos() == old(archetype).infos(),
            final(archetype).entity_rows() == old(archetype).entity_rows(),
            final(archetype).columns().len() == old(archetype).columns().len(),
            forall|c: int| 0 <= c < final(archetype).columns().len() ==> {
                let col = #[trigger] final(archetype).columns()[c];
                let o = old(archetype).columns()[c];
                &&& col.info() == o.info()
                &&& col.rows() == o.rows()
                &&& col.meta_view().added() == o.meta_view().added()
                &&& col.meta_view().mutated() == o.meta_view().mutated()
                &&& col.meta_view().borrow_count() == release_fold(o.meta_view().borrow_count(), self.spec_requests(), old(archetype).ids()[c])->Some_0
            },
    {
        let reqs = self.borrow_requests();
        archetype.release_borrows(&reqs);
    }
}

/// A component of a run-time query and the access the query makes to it.
#[derive(Debug, Clone, Copy)]
pub struct DynamicComponentAccess {
    pub info: TypeInfo,
    pub access: Access,
}

/// A query made at run time of optional component accesses: an archetype is visited when
/// it has at least one of the components.
#[derive(Debug)]
pub struct DynamicComponentQuery {
    pub accesses: Vec<DynamicComponentAccess>,
}

/// The strongest access among those of `accs` whose component is among `ids`.
pub open spec fn dynamic_access(accs: Seq<DynamicComponentAccess>, ids: Seq<ComponentId>) -> Option<Access>
    decreases accs.len(),
{
    if accs.len() == 0 {
        None
    } else {
        let last = accs.last();
        spec_max_access(
            dynamic_access(accs.drop_last(), ids),
            if ids.contains(last.info.id) { Some(last.access) } else { None },
        )
    }
}

/// The bytes of row `row` of the column of `a` for `id`, when `a` has one.
pub open spec fn value_at(a: Archetype, id: ComponentId, row: int) -> Option<Seq<u8>> {
    if a.ids().contains(id) { Some(col_of(a, id).rows()[row]) } else { None }
}

impl DynamicComponentQuery {
    /// A query of the accesses `accesses`.
    pub fn new(accesses: Vec<DynamicComponentAccess>) -> (r: DynamicComponentQuery)
        ensures
            r.accesses@ == accesses@,
    {
        DynamicComponentQuery { accesses }
    }

    /// How the query touches `archetype`: the strongest access among the components it
    /// has, or not at all when it has none.
    pub fn access(&self, archetype: &Archetype) -> (r: Option<Access>)
        requires
            archetype.wf(),
        ensures
            r == dynamic_access(self.accesses@, archetype.ids()),
    {
        let mut acc: Option<Access> = None;
        let mut i: usize = 0;
        while i < self.accesses.len()
            invariant
                archetype.wf(),
                i <= self.accesses@.len(),
                acc == dynamic_access(self.accesses@.subrange(0, i as int), archetype.ids()),
            decreases self.accesses@.len() - i,
        {
            let ca = self.accesses[i];
            let here = if archetype.has_type(ca.info.id) { Some(ca.access) } else { None };
            proof {
                assert(self.accesses@.subrange(0, i as int + 1).drop_last() =~= self.accesses@.subrange(0, i as int));
            }
            acc = max_access(acc, here);
            i = i + 1;
        }
        assert(self.accesses@.subrange(0, self.accesses@.len() as int) =~= self.accesses@);
        acc
    }
}

/// A cursor of a run-time query into one archetype, starting at row `offset`.
#[derive(Debug, Clone, Copy)]
pub struct DynamicFetch {
    pub offset: usize,
}

impl DynamicFetch {
    /// A cursor into `archetype` at row `offset`, when the archetype has at least one of the
    /// query's components.
    pub fn get(query: &DynamicComponentQuery, archetype: &Archetype, offset: usize) -> (r: Option<DynamicFetch>)
        requires
            archetype.wf(),
        ensures
            r is Some <==> exists|i: int| 0 <= i < query.accesses@.len() && archetype.ids().contains(#[trigger] query.accesses@[i].info.id),
            r is Some ==> r->Some_0.offset == offset,
    {
        let mut i: usize = 0;
        while i < query.accesses.len()
            invariant
                archetype.wf(),
                i <= query.accesses@.len(),
                forall|k: int| 0 <= k < i ==> !archetype.ids().contains(#[trigger] query.accesses@[k].info.id),
            decreases query.accesses@.len() - i,
        {
            if archetype.has_type(query.accesses[i].info.id) {
                return Some(DynamicFetch { offset });
            }
            i = i + 1;
        }
        None
    }

    /// The values of row `offset + index`: for each access of the query, the bytes of its
    /// component, or `None` when the archetype lacks it.
    pub fn item(&self, query: &DynamicComponentQuery, archetype: &Archetype, index: usize) -> (r: Vec<Option<Vec<u8>>>)
        requires
            archetype.wf(),
            archetype.complete(),
            self.offset + index < archetype.n(),
        ensures
            r@.len() == query.accesses@.len(),
            forall|k: int| 0 <= k < r@.len() ==> match (#[trigger] r@[k], value_at(*archetype, query.accesses@[k].info.id, self.offset + index)) {
                (Some(v), Some(w)) => v@ == w,
                (None, None) => true,
                _ => false,
            },
    {
        proof {
            archetype.lemma_len_bounded();
        }
        let row = self.offset + index;
        let mut out: Vec<Option<Vec<u8>>> = Vec::new();
        let mut i: usize = 0;
        while i < query.accesses.len()
            invariant
                archetype.wf(),
                archetype.complete(),
                row < archetype.n(),
                row == self.offset + index,
                i <= query.accesses@.len(),
                out@.len() == i,
                forall|k: int| 0 <= k < i ==> match (#[trigger] out@[k], value_at(*archetype, query.accesses@[k].info.id, row as int)) {
                    (Some(v), Some(w)) => v@ == w,
                    (None, None) => true,
                    _ => false,
                },
            decreases query.accesses@.len() - i,
        {
            let id = query.accesses[i].info.id;
            match archetype.get_storage_dynamic(id) {
                Some(col) => {
                    proof {
                        let c = choose|c: int| 0 <= c < archetype.ids().len() && archetype.ids()[c] == id;
                        crate::archetype::lemma_col_of(*archetype, id, c);
                    }
                    let v = col.get_value(row).clone();
                    assert(v@ =~= col.rows()[row as int]);
                    out.push(Some(v));
                },
                None => out.push(None),
            }
            i = i + 1;
        }
        out
    }
}

impl Archetype {
    /// How, if at all, `query` accesses this archetype.
    pub fn access(&self, query: &Query) -> (r: Option<Access>)
        requires
            self.wf(),
        ensures
            r == query.spec_access(self.ids()),
    {
        query.access(self)
    }
}

/// The number of rows of the archetypes of `archs` that `q` accesses at all: what iterating
/// it yields when no row is filtered out.
pub open spec fn query_len(q: Query, archs: Seq<Archetype>) -> nat
    decreases archs.len(),
{
    if archs.len() == 0 {
        0
    } else {
        query_len(q, archs.drop_last()) + if q.spec_access(archs.last().ids()) is Some {
            archs.last().n()
        } else {
            0
        }
    }
}

/// The count of a prefix of the archetypes is at most the count of them all.
pub proof fn lemma_query_len_prefix(q: Query, archs: Seq<Archetype>, k: int)
    requires
        0 <= k <= archs.len(),
    ensures
        query_len(q, archs.subrange(0, k)) <= query_len(q, archs),
    decreases archs.len(),
{
    if k < archs.len() {
        lemma_query_len_prefix(q, archs.drop_last(), k);
        assert(archs.drop_last().subrange(0, k) =~= archs.subrange(0, k));
    } else {
        assert(archs.subrange(0, k) =~= archs);
    }
}

impl Query {
    /// The number of rows of the archetypes of `archetypes` that the query accesses at all.
    pub fn len(&self, archetypes: &Vec<Archetype>) -> (r: usize)
        requires
            forall|i: int| 0 <= i < archetypes@.len() ==> (#[trigger] archetypes@[i]).wf(),
            query_len(*self, archetypes@) <= usize::MAX,
        ensures
            r == query_len(*self, archetypes@),
    {
        let mut total: usize = 0;
        let mut i: usize = 0;
        assert(archetypes@.subrange(0, 0) =~= Seq::<Archetype>::empty());
        while i < archetypes.len()
            invariant
                forall|k: int| 0 <= k < archetypes@.len() ==> (#[trigger] archetypes@[k]).wf(),
                query_len(*self, archetypes@) <= usize::MAX,
                i <= archetypes@.len(),
                total == query_len(*self, archetypes@.subrange(0, i as int)),
            decreases archetypes@.len() - i,
        {
            let a = &archetypes[i];
            proof {
                assert(archetypes@.subrange(0, i as int + 1).drop_last() =~= archetypes@.subrange(0, i as int));
                assert(archetypes@.subrange(0, i as int + 1).last() == archetypes@[i as int]);
                lemma_query_len_prefix(*self, archetypes@, i as int + 1);
            }
            if self.access(a).is_some() {
                total = total + a.len();
            }
            i = i + 1;
        }
        assert(archetypes@.subrange(0, archetypes@.len() as int) =~= archetypes@);
        total
    }
}

/// A chunk of consecutive rows of one archetype, the unit of parallel work.
#[derive(Debug, Clone, Copy, PartialEq, Eq, Structural)]
pub struct Batch {
    pub archetype: usize,
    pub offset: usize,
    pub len: usize,
}

/// The chunks of at most `size` rows that cover rows `off..n` of the archetype at `ai`,
/// each starting where the previous one ended.
pub open spec fn batches_from(ai: usize, n: nat, size: nat, off: nat) -> Seq<Batch>
    decreases (if off < n { n - off } else { 0 }),
{
    if size == 0 || off >= n {
        Seq::empty()
    } else {
        let len = if size <= n - off { size } else { (n - off) as nat };
        seq![Batch { archetype: ai, offset: off as usize, len: len as usize }] + batches_from(ai, n, size, off + size)
    }
}

/// The chunks that batched iteration of `q` over `archs` yields: archetypes in order,
/// skipping those `q` does not match, each cut into chunks of at most `size` rows starting
/// at row 0.
pub open spec fn query_batches(q: Query, archs: Seq<Archetype>, size: nat) -> Seq<Batch>
    decreases archs.len(),
{
    if archs.len() == 0 {
        Seq::empty()
    } else {
        let prev = query_batches(q, archs.drop_last(), size);
        let a = archs.last();
        if q.spec_matches(a.ids()) {
            prev + batches_from((archs.len() - 1) as usize, a.n(), size, 0)
        } else {
            prev
        }
    }
}

impl Query {
    /// The chunks of at most `batch_size` rows that batched iteration over `archetypes` yields.
    pub fn batches(&self, archetypes: &Vec<Archetype>, batch_size: usize) -> (r: Vec<Batch>)
        requires
            forall|i: int| 0 <= i < archetypes@.len() ==> (#[trigger] archetypes@[i]).wf(),
            batch_size > 0,
        ensures
            r@ == query_batches(*self, archetypes@, batch_size as nat),
    {
        let mut out: Vec<Batch> = Vec::new();
        let mut i: usize = 0;
        assert(archetypes@.subrange(0, 0) =~= Seq::<Archetype>::empty());
        while i < archetypes.len()
            invariant
                forall|k: int| 0 <= k < archetypes@.len() ==> (#[trigger] archetypes@[k]).wf(),
                batch_size > 0,
                i <= archetypes@.len(),
                out@ == query_batches(*self, archetypes@.subrange(0, i as int), batch_size as nat),
            decreases archetypes@.len() - i,
        {
            let a = &archetypes[i];
            proof {
                assert(archetypes@.subrange(0, i as int + 1).drop_last() =~= archetypes@.subrange(0, i as int));
                assert(archetypes@.subrange(0, i as int + 1).last() == archetypes@[i as int]);
            }
            if self.matches(a) {
                let n = a.len();
                let ghost start = out@;
                let mut off: usize = 0;
                assert(start + batches_from(i, n as nat, batch_size as nat, 0) =~= out@ + batches_from(i, n as nat, batch_size as nat, 0));
                while off < n
                    invariant
                        batch_size > 0,
                        off <= n,
                        start + batches_from(i, n as nat, batch_size as nat, 0) == out@ + batches_from(i, n as nat, batch_size as nat, off as nat),
                    decreases n - off,
                {
                    let len = if batch_size <= n - off { batch_size } else { n - off };
                    let b = Batch { archetype: i, offset: off, len };
                    proof {
                        let rest = batches_from(i, n as nat, batch_size as nat, (off + batch_size) as nat);
                        assert(batches_from(i, n as nat, batch_size as nat, off as nat) == seq![b] + rest);
                        if len < batch_size {
                            assert(rest =~= Seq::<Batch>::empty());
                            assert(batches_from(i, n as nat, batch_size as nat, (off + len) as nat) =~= Seq::<Batch>::empty());
                        }
                        assert(out@.push(b) + batches_from(i, n as nat, batch_size as nat, (off + len) as nat) =~= out@ + (seq![b] + rest));
                    }
                    out.push(b);
                    off = off + len;
                }
                assert(batches_from(i, n as nat, batch_size as nat, off as nat) =~= Seq::<Batch>::empty());
                assert(out@ =~= start + batches_from(i, n as nat, batch_size as nat, 0));
            }
            i = i + 1;
        }
        assert(archetypes@.subrange(0, archetypes@.len() as int) =~= archetypes@);
        out
    }

    /// The rows of `batch` that are not filtered out.
    pub fn batch_rows(&self, archetypes: &Vec<Archetype>, batch: Batch) -> (r: Vec<(usize, usize)>)
        requires
            batch.archetype < archetypes@.len(),
            archetypes@[batch.archetype as int].wf(),
            self.spec_matches(archetypes@[batch.archetype as int].ids()),
            batch.offset + batch.len <= archetypes@[batch.archetype as int].n(),
        ensures
            r@ == rows_range(*self, archetypes@[batch.archetype as int], batch.archetype, batch.offset as nat, (batch.offset + batch.len) as nat),
    {
        let a = &archetypes[batch.archetype];
        proof {
            a.lemma_len_bounded();
        }
        self.rows_between(a, batch.archetype, batch.offset, batch.offset + batch.len)
    }
}

/// A single-use handle that runs a query over a list of archetypes.
#[derive(Debug)]
pub struct QueryBorrow {
    query: Query,
    borrowed: bool,
}

impl QueryBorrow {
    /// The query this handle runs.
    pub closed spec fn spec_query(&self) -> Query {
        self.query
    }

    /// Whether the handle has been used.
    pub closed spec fn spec_borrowed(&self) -> bool {
        self.borrowed
    }

    /// A fresh handle for `query`.
    pub fn new(query: Query) -> (r: QueryBorrow)
        ensures
            r.spec_query() == query,
            !r.spec_borrowed(),
    {
        QueryBorrow { query, borrowed: false }
    }

    /// Whether the handle has been used.
    pub fn is_borrowed(&self) -> (r: bool)
        ensures
            r == self.spec_borrowed(),
    {
        self.borrowed
    }

    /// Runs the query: every matching (archetype, row) pair, in order. A handle runs once.
    pub fn iter(&mut self, archetypes: &Vec<Archetype>) -> (r: Vec<(usize, usize)>)
        requires
            !old(self).spec_borrowed(),
            forall|i: int| 0 <= i < archetypes@.len() ==> (#[trigger] archetypes@[i]).wf(),
        ensures
            final(self).spec_borrowed(),
            final(self).spec_query() == old(self).spec_query(),
            r@ == query_rows(old(self).spec_query(), archetypes@),
    {
        self.borrowed = true;
        self.query.rows(archetypes)
    }

    /// Like `iter`, but hands out the rows as chunks of at most `batch_size`.
    pub fn iter_batched(&mut self, archetypes: &Vec<Archetype>, batch_size: usize) -> (r: Vec<Batch>)
        requires
            !old(self).spec_borrowed(),
            batch_size > 0,
            forall|i: int| 0 <= i < archetypes@.len() ==> (#[trigger] archetypes@[i]).wf(),
        ensures
            final(self).spec_borrowed(),
            final(self).spec_query() == old(self).spec_query(),
            r@ == query_batches(old(self).spec_query(), archetypes@, batch_size as nat),
    {
        self.borrowed = true;
        self.query.batches(archetypes, batch_size)
    }

    /// The same handle, further restricted to archetypes that have component `id`.
    pub fn with(self, id: ComponentId) -> (r: QueryBorrow)
        ensures
            r.spec_borrowed() == self.spec_borrowed(),
            r.spec_query().terms@ == self.spec_query().terms@.push(QueryTerm::With(FetchWith { id })),
    {
        let mut query = self.query;
        query.terms.push(QueryTerm::With(FetchWith { id }));
        QueryBorrow { query, borrowed: self.borrowed }
    }

    /// The same handle, further restricted to archetypes that lack component `id`.
    pub fn without(self, id: ComponentId) -> (r: QueryBorrow)
        ensures
            r.spec_borrowed() == self.spec_borrowed(),
            r.spec_query().terms@ == self.spec_query().terms@.push(QueryTerm::Without(FetchWithout { id })),
    {
        let mut query = self.query;
        query.terms.push(QueryTerm::Without(FetchWithout { id }));
        QueryBorrow { query, borrowed: self.borrowed }
    }
}

/// Unique access to one entity's component: reads it, and marks the row mutated when
/// written through.
#[derive(Debug, Clone, Copy)]
pub struct Mut {
    pub index: usize,
    pub id: ComponentId,
}

impl Mut {
    /// Access to component `id` of row `index` of `archetype`, or an error naming `id` when
    /// the archetype has no such component.
    pub fn new(archetype: &Archetype, index: usize, id: ComponentId) -> (r: Result<Mut, MissingComponent>)
        requires
            archetype.wf(),
        ensures
            r is Ok <==> archetype.ids().contains(id),
            r is Ok ==> r->Ok_0.index == index && r->Ok_0.id == id,
            r is Err ==> r->Err_0.id == id,
    {
        if archetype.has_type(id) {
            Ok(Mut { index, id })
        } else {
            Err(MissingComponent::new(id))
        }
    }

    /// The bytes of the component.
    pub fn get<'a>(&self, archetype: &'a Archetype) -> (r: &'a Vec<u8>)
        requires
            archetype.wf(),
            archetype.complete(),
            archetype.ids().contains(self.id),
            self.index < archetype.n(),
        ensures
            r@ == col_of(*archetype, self.id).rows()[self.index as int],
    {
        let col = match archetype.get_storage_dynamic(self.id) {
            Some(col) => col,
            None => {
                proof {
                    assert(false);
                }
                archetype.column(0)
            },
        };
        proof {
            let c = choose|c: int| 0 <= c < archetype.ids().len() && archetype.ids()[c] == self.id;
            crate::archetype::lemma_col_of(*archetype, self.id, c);
        }
        col.get_value(self.index)
    }

    /// Writes `value` over the component and marks exactly this row mutated.
    pub fn set(&self, archetype: &mut Archetype, value: Vec<u8>)
        requires
            old(archetype).wf(),
            old(archetype).complete(),
            old(archetype).ids().contains(self.id),
            self.index < old(archetype).n(),
            value@.len() == col_of(*old(archetype), self.id).info().size,
        ensures
            final(archetype).wf(),
            final(archetype).complete(),
            final(archetype).ids() == old(archetype).ids(),
            final(archetype).entity_rows() == old(archetype).entity_rows(),
            col_of(*final(archetype), self.id).rows() == col_of(*old(archetype), self.id).rows().update(self.index as int, value@),
            forall|row: int| 0 <= row < old(archetype).n() ==> mutated_at(*final(archetype), self.id, row) == (row == self.index || mutated_at(*old(archetype), self.id, row)),
            forall|row: int| 0 <= row < old(archetype).n() ==> added_at(*final(archetype), self.id, row) == added_at(*old(archetype), self.id, row),
            forall|other: ComponentId| other != self.id && old(archetype).ids().contains(other) ==> same_col(#[trigger] col_of(*final(archetype), other), col_of(*old(archetype), other)),
    {
        let ghost c = choose|c: int| 0 <= c < old(archetype).ids().len() && old(archetype).ids()[c] == self.id;
        proof {
            crate::archetype::lemma_col_of(*old(archetype), self.id, c);
            assert forall|k: int| 0 <= k < old(archetype).ids().len() && old(archetype).ids()[k] == self.id implies value@.len() == #[trigger] old(archetype).infos()[k].size by {
                assert(old(archetype).ids()[k] == old(archetype).ids()[c]);
                assert(old(archetype).col_wf(k));
            }
        }
        let r = archetype.set_value(self.index, self.id, value);
        proof {
            assert(final(archetype).ids() =~= old(archetype).ids());
            crate::archetype::lemma_col_of(*archetype, self.id, c);
            assert forall|other: ComponentId| other != self.id && old(archetype).ids().contains(other) implies same_col(#[trigger] col_of(*archetype, other), col_of(*old(archetype), other)) by {
                let k = choose|k: int| 0 <= k < old(archetype).ids().len() && old(archetype).ids()[k] == other;
                crate::archetype::lemma_col_of(*old(archetype), other, k);
                crate::archetype::lemma_col_of(*archetype, other, k);
            }
        }
    }
}

/// Every change-detection flag of `a` is false: the state right after an epoch starts.
pub open spec fn trackers_clear(a: Archetype) -> bool {
    &&& forall|c: int, r: int| 0 <= c < a.columns().len() && 0 <= r < a.n() ==> !#[trigger] a.columns()[c].meta_view().added()[r]
    &&& forall|c: int, r: int| 0 <= c < a.columns().len() && 0 <= r < a.n() ==> !#[trigger] a.columns()[c].meta_view().mutated()[r]
}

/// The access filters on the current epoch's changes.
pub open spec fn is_change_filter(f: Fetch) -> bool {
    f is Added || f is Mutated || f is Changed
}

/// Change-detection epoch: once the flags are cleared, an access that filters on changes
/// filters out every row.
pub proof fn lemma_cleared_row_skipped(f: Fetch, a: Archetype, row: int)
    requires
        a.wf(),
        trackers_clear(a),
        is_change_filter(f),
        f.spec_matches(a.ids()),
        0 <= row < a.n(),
    ensures
        f.spec_skip(a, row),
{
    let id = match f {
        Fetch::Added(g) => g.id,
        Fetch::Mutated(g) => g.id,
        Fetch::Changed(g) => g.id,
        _ => arbitrary(),
    };
    let c = choose|c: int| 0 <= c < a.ids().len() && a.ids()[c] == id;
    crate::archetype::lemma_col_of(a, id, c);
    assert(!a.columns()[c].meta_view().added()[row]);
}

/// Change-detection epoch: once every archetype's flags are cleared, a query with a term
/// that filters on changes yields no row.
pub proof fn lemma_cleared_query_yields_nothing(q: Query, archs: Seq<Archetype>, t: int)
    requires
        forall|i: int| 0 <= i < archs.len() ==> (#[trigger] archs[i]).wf() && trackers_clear(archs[i]),
        0 <= t < q.terms@.len(),
        q.terms@[t] matches QueryTerm::Fetch(f) && is_change_filter(f),
    ensures
        query_rows(q, archs).len() == 0,
    decreases archs.len(),
{
    if archs.len() > 0 {
        lemma_cleared_query_yields_nothing(q, archs.drop_last(), t);
        let a = archs.last();
        assert(a == archs[archs.len() - 1]);
        if q.spec_matches(a.ids()) {
            lemma_cleared_rows_empty(q, a, (archs.len() - 1) as usize, a.n(), t);
        }
    }
}

/// No row of a cleared archetype survives a change filter.
proof fn lemma_cleared_rows_empty(q: Query, a: Archetype, ai: usize, hi: nat, t: int)
    requires
        a.wf(),
        trackers_clear(a),
        q.spec_matches(a.ids()),
        hi <= a.n(),
        0 <= t < q.terms@.len(),
        q.terms@[t] matches QueryTerm::Fetch(f) && is_change_filter(f),
    ensures
        rows_range(q, a, ai, 0, hi).len() == 0,
    decreases hi,
{
    if hi > 0 {
        lemma_cleared_rows_empty(q, a, ai, (hi - 1) as nat, t);
        if let QueryTerm::Fetch(f) = q.terms@[t] {
            assert(q.terms@[t].spec_matches(a.ids()));
            lemma_cleared_row_skipped(f, a, hi - 1);
            assert(q.terms@[t].spec_skip(a, hi - 1));
        }
    }
}

} // verus!
