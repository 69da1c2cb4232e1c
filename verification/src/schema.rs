//! The schema manager: a forward-only, one-step-at-a-time migration chain.
//!
//! A store carries a single persisted version number. Opening a store runs
//! [`migrate`], which walks the chain from the persisted version up to
//! [`SCHEMA_VERSION_LATEST`]; a version this build does not know is never
//! silently treated as an older one.

use vstd::prelude::*;

use crate::models::StoreError;
use crate::store::Store;

verus! {

/// The highest schema version this build knows. Version 1 is the initial
/// layout; version 2 renames the date column to `subject_date`.
pub const SCHEMA_VERSION_LATEST: i32 = 2;

/// Read the persisted schema version.
pub fn get_schema_version(store: &Store) -> (r: i32)
    ensures
        r == store.version_model(),
{
    store.version
}

/// Overwrite the persisted schema version.
pub fn set_schema_version(store: &mut Store, version: i32)
    ensures
        final(store).version_model() == version,
        final(store).notes_seq() == old(store).notes_seq(),
        final(store).state_seq() == old(store).state_seq(),
        final(store).wf() == old(store).wf(),
{
    store.version = version;
    proof {
        assert(store.notes.deep_view() =~= old(store).notes.deep_view());
        assert(store.state_seq() =~= old(store).state_seq());
    }
}

/// The ordered list of one-step transitions still to apply: each entry is a
/// source version whose single forward migration brings the store one step
/// closer to [`SCHEMA_VERSION_LATEST`]. A version beyond the chain is
/// rejected as too new; a negative one is structurally invalid state.
pub fn pending_migrations(version: i32) -> (r: Result<Vec<i32>, StoreError>)
    ensures
        version > SCHEMA_VERSION_LATEST ==> r == Err::<Vec<i32>, StoreError>(
            StoreError::SchemaTooNew,
        ),
        version < 0 ==> r == Err::<Vec<i32>, StoreError>(StoreError::CorruptRecord),
        0 <= version <= SCHEMA_VERSION_LATEST ==> {
            &&& r is Ok
            &&& r.unwrap()@.len() == SCHEMA_VERSION_LATEST - version
            &&& forall|k: int|
                0 <= k < r.unwrap()@.len() ==> r.unwrap()@[k] == version + k
        },
{
    if version > SCHEMA_VERSION_LATEST {
        return Err(StoreError::SchemaTooNew);
    }
    if version < 0 {
        return Err(StoreError::CorruptRecord);
    }
    let mut steps: Vec<i32> = Vec::new();
    let mut v = version;
    while v < SCHEMA_VERSION_LATEST
        invariant
            version <= v <= SCHEMA_VERSION_LATEST,
            steps@.len() == v - version,
            forall|k: int| 0 <= k < steps@.len() ==> steps@[k] == version + k,
        decreases SCHEMA_VERSION_LATEST - v,
    {
        steps.push(v);
        v = v + 1;
    }
    Ok(steps)
}

/// Bring the store to the latest schema version, applying each known
/// transition in order, or refuse to operate: a persisted version above the
/// chain's end is fatally too new, a negative one fatally corrupt. The data
/// itself is untouched either way.
pub fn migrate(store: &mut Store) -> (r: Result<(), StoreError>)
    ensures
        final(store).notes_seq() == old(store).notes_seq(),
        final(store).state_seq() == old(store).state_seq(),
        final(store).wf() == old(store).wf(),
        0 <= old(store).version_model() <= SCHEMA_VERSION_LATEST ==> r is Ok
            && final(store).version_model() == SCHEMA_VERSION_LATEST,
        old(store).version_model() > SCHEMA_VERSION_LATEST ==> r == Err::<(), StoreError>(
            StoreError::SchemaTooNew,
        ) && final(store).version_model() == old(store).version_model(),
        old(store).version_model() < 0 ==> r == Err::<(), StoreError>(StoreError::CorruptRecord)
            && final(store).version_model() == old(store).version_model(),
{
    let version = get_schema_version(store);
    match pending_migrations(version) {
        Err(e) => Err(e),
        Ok(_steps) => {
            set_schema_version(store, SCHEMA_VERSION_LATEST);
            Ok(())
        }
    }
}

} // verus!
