//! A columnar entity-component store: archetypes of type-erased columns, a query
//! engine with borrow tracking and change detection, and the access analysis used
//! to decide which units of work may run side by side.

mod access;
mod archetype;
mod component;
mod dynamic_query;
mod query;
mod soa;
mod storage;
mod system;
mod system_query;
mod world;

pub use access::{max_access, opt_rank, spec_max_access, Access};
pub use archetype::{
    col_allocated, col_of, col_received, col_swap_removed, distinct_ids, ids_of, infos_agree,
    lemma_col_of, same_col, swap_removed, Archetype,
};
pub use component::{
    contains_id, same_id, ComponentId, DynamicComponentInfo, Entity, Location, MissingComponent,
    TypeInfo,
};
pub use dynamic_query::{
    all_rows, dynamic_len, dynamic_rows, has_all, infos_requests, lemma_dynamic_len_prefix,
    DynamicQuery, DynamicQueryBorrow,
    DynamicQueryFetch, DynamicQueryResult,
};
pub use query::{
    added_at, batches_from, dynamic_access, fetches_requests, is_change_filter,
    lemma_cleared_query_yields_nothing, lemma_cleared_row_skipped, mutated_at, or_access,
    or_matches, or_skip, query_batches, query_len, lemma_query_len_prefix, query_rows, rows_range, terms_access, terms_requests,
    trackers_clear, value_at, Batch, DynamicComponentAccess, DynamicComponentQuery, DynamicFetch,
    EntityFetch, Fetch, FetchAdded, FetchChanged, FetchMut, FetchMutated, FetchOr, FetchRead,
    FetchWith, FetchWithout, Mut, Query, QueryBorrow, QueryTerm, TryFetch,
};
pub use soa::{array_infos, holds_row, SoaBatch};
pub use storage::{
    borrow_fold, borrow_step, lemma_borrow_aliasing, lemma_borrow_fold_prefix,
    lemma_release_undoes_borrow, read_allowed, release_fold, release_step, write_allowed,
    ComponentStorageMeta, VecComponentStorage,
};
pub use system::{
    archetypes_at, bit_len, bits_of, lemma_compatible_symmetric, lemma_conflict_rules,
    spec_compatible, ArchetypeAccess, SystemId, ThreadLocalExecution, TypeAccess,
};
pub use system_query::{may_read, valid_location, GenericQuery, QueryError, QueryOneChecked};
pub use world::{
    added_before, borrowed_from, col_spawned, comp_infos, entities_at, entities_before,
    lemma_query_rows_valid, unchanged_from,
    lemma_rows_range_valid, lemma_signatures_unique, mutated_before, rows_before, rows_kept,
    same_signature,
    World,
};
