//! A personal note-taking store with offline-first synchronization.
//!
//! The crate models the storage engine itself: notes live in a
//! [`store::Store`] value whose contents are described by mathematical maps
//! and sequences, and every operation on it — creation, lookup, update,
//! soft deletion, search, schema migration and the sync reconciliation
//! round — carries a contract that pins down its effect on that model.
//! Around the engine stand the verified pieces of the tooling: calendar
//! dates and date targets, the persisted tag notation, the prune file, the
//! editing template, profiles and argument handling.

pub mod app_config;
pub mod args;
pub mod cli_model;
pub mod clock;
pub mod date;
pub mod dto;
pub mod editor;
pub mod ident;
pub mod models;
pub mod numtext;
pub mod prune;
pub mod profile;
pub mod schema;
pub mod search;
pub mod server_model;
pub mod store;
pub mod sync;
pub mod tagcodec;
pub mod text;

pub use models::{Conflict, Note, SearchQuery, StoreError, SyncRequest, SyncResponse};
pub use schema::{get_schema_version, migrate, pending_migrations, set_schema_version};
pub use search::{get_notes_since, search_notes};
pub use store::{
    check_wf, create_note, create_note_at, get_last_sync, get_note_by_id, get_sync_state, resolve_note,
    set_last_sync, set_sync_state, soft_delete_note, soft_delete_note_at, update_note,
    update_note_at, upsert_note, Store,
};
pub use sync::{merge_notes, process_sync_request};
