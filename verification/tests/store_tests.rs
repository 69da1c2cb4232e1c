use jot::models::{Note, SearchQuery, StoreError};
use jot::{
    create_note, create_note_at, get_last_sync, get_note_by_id, get_sync_state, migrate,
    resolve_note, search_notes, set_last_sync, set_sync_state, soft_delete_note,
    soft_delete_note_at, update_note_at, upsert_note, Store,
};

fn open_store() -> Store {
    let mut store = Store::new();
    migrate(&mut store).unwrap();
    store
}

fn plain_note(id: &str, content: &str, updated_at: i64) -> Note {
    Note {
        id: id.to_string(),
        content: content.to_string(),
        tags: vec![],
        subject_date: None,
        created_at: updated_at,
        updated_at,
        deleted_at: None,
    }
}

#[test]
fn test_create_and_get_note() {
    let mut store = open_store();

    let note = create_note(&mut store, "test content", vec!["tag1".to_string()], None).unwrap();

    assert_eq!(note.content, "test content");
    assert_eq!(note.tags, vec!["tag1"]);

    let retrieved = get_note_by_id(&store, &note.id).unwrap();

    assert_eq!(retrieved.id, note.id);
    assert_eq!(retrieved.content, "test content");
}

#[test]
fn test_soft_delete() {
    let mut store = open_store();

    let note = create_note(&mut store, "test", vec![], None).unwrap();

    soft_delete_note(&mut store, &note.id);

    let deleted = get_note_by_id(&store, &note.id).unwrap();

    assert!(deleted.deleted_at.is_some());
}

#[test]
fn test_search_notes() {
    let mut store = open_store();

    create_note(&mut store, "first note", vec!["work".to_string()], None).unwrap();
    create_note(&mut store, "second note", vec!["personal".to_string()], None).unwrap();

    let query = SearchQuery {
        text: Some("first".to_string()),
        ..Default::default()
    };

    let results = search_notes(&store, &query);
    assert_eq!(results.len(), 1);
    assert_eq!(results[0].content, "first note");
}

#[test]
fn test_create_sets_both_timestamps() {
    let mut store = open_store();
    let note = create_note(&mut store, "clocked", vec![], None).unwrap();
    assert_eq!(note.created_at, note.updated_at);
    assert!(note.deleted_at.is_none());
    assert_eq!(note.id.chars().count(), 26);
}

#[test]
fn test_create_then_read_matches_everything() {
    let mut store = open_store();
    let tags = vec!["b".to_string(), "a".to_string(), "a".to_string()];
    let note = create_note(
        &mut store,
        "full roundtrip",
        tags.clone(),
        Some("2025-06-01".to_string()),
    )
    .unwrap();
    let read = get_note_by_id(&store, &note.id).unwrap();
    assert_eq!(read.content, "full roundtrip");
    let mut expect = tags.clone();
    let mut got = read.tags.clone();
    expect.sort();
    got.sort();
    assert_eq!(got, expect);
    assert_eq!(read.subject_date.as_deref(), Some("2025-06-01"));
}

#[test]
fn test_update_preserves_creation() {
    let mut store = open_store();
    let note = create_note_at(&mut store, "id1", 100, "before", vec![], None).unwrap();
    update_note_at(
        &mut store,
        "id1",
        "after",
        vec!["t".to_string()],
        Some("2025-01-01".to_string()),
        200,
    );
    let read = get_note_by_id(&store, "id1").unwrap();
    assert_eq!(read.content, "after");
    assert_eq!(read.created_at, note.created_at);
    assert_eq!(read.updated_at, 200);
    assert!(read.deleted_at.is_none());
}

#[test]
fn test_update_missing_id_is_noop() {
    let mut store = open_store();
    create_note_at(&mut store, "id1", 100, "kept", vec![], None).unwrap();
    update_note_at(&mut store, "ghost", "changed", vec![], None, 200);
    assert_eq!(get_note_by_id(&store, "id1").unwrap().content, "kept");
    assert!(get_note_by_id(&store, "ghost").is_none());
}

#[test]
fn test_soft_delete_twice_one_tombstone() {
    let mut store = open_store();
    create_note_at(&mut store, "id1", 100, "gone", vec![], None).unwrap();
    soft_delete_note_at(&mut store, "id1", 150);
    soft_delete_note_at(&mut store, "id1", 160);
    let read = get_note_by_id(&store, "id1").unwrap();
    assert_eq!(read.deleted_at, Some(160));
    assert_eq!(read.updated_at, 160);
    assert_eq!(read.created_at, 100);

    let all = search_notes(
        &store,
        &SearchQuery {
            include_deleted: true,
            ..Default::default()
        },
    );
    assert_eq!(all.len(), 1);
    assert_eq!(all[0].id, "id1");
}

#[test]
fn test_duplicate_id_rejected_and_store_unchanged() {
    let mut store = open_store();
    create_note_at(&mut store, "same", 1, "first", vec![], None).unwrap();
    let err = create_note_at(&mut store, "same", 2, "second", vec![], None).unwrap_err();
    assert_eq!(err, StoreError::StorageIO);
    assert_eq!(get_note_by_id(&store, "same").unwrap().content, "first");
}

#[test]
fn test_upsert_inserts_then_lww() {
    let mut store = open_store();
    let older = plain_note("n1", "old", 100);
    let newer = plain_note("n1", "new", 200);

    upsert_note(&mut store, &older);
    upsert_note(&mut store, &newer);
    assert_eq!(get_note_by_id(&store, "n1").unwrap().content, "new");

    let mut store2 = open_store();
    upsert_note(&mut store2, &newer);
    upsert_note(&mut store2, &older);
    assert_eq!(get_note_by_id(&store2, "n1").unwrap().content, "new");

    // doing it again changes nothing
    upsert_note(&mut store2, &older);
    upsert_note(&mut store2, &newer);
    assert_eq!(get_note_by_id(&store2, "n1").unwrap().content, "new");
    assert_eq!(get_note_by_id(&store2, "n1").unwrap().updated_at, 200);
}

#[test]
fn test_upsert_tie_keeps_resident_copy() {
    let mut store = open_store();
    upsert_note(&mut store, &plain_note("n1", "resident", 100));
    upsert_note(&mut store, &plain_note("n1", "challenger", 100));
    assert_eq!(get_note_by_id(&store, "n1").unwrap().content, "resident");
}

#[test]
fn test_resolve_note_prefix() {
    let mut store = open_store();
    create_note_at(&mut store, "abcdef", 1, "one", vec![], None).unwrap();
    create_note_at(&mut store, "abcxyz", 2, "two", vec![], None).unwrap();
    create_note_at(&mut store, "zzz999", 3, "three", vec![], None).unwrap();

    // exact match wins outright
    assert_eq!(resolve_note(&store, "abcdef").unwrap().unwrap().content, "one");
    // unique prefix resolves
    assert_eq!(resolve_note(&store, "zz").unwrap().unwrap().content, "three");
    // ambiguous prefix is the distinct error
    assert_eq!(resolve_note(&store, "abc").unwrap_err(), StoreError::Ambiguous);
    // no match at all
    assert!(resolve_note(&store, "qqq").unwrap().is_none());
}

#[test]
fn test_resolve_note_skips_tombstones() {
    let mut store = open_store();
    create_note_at(&mut store, "abcdef", 1, "one", vec![], None).unwrap();
    create_note_at(&mut store, "abcxyz", 2, "two", vec![], None).unwrap();
    soft_delete_note_at(&mut store, "abcdef", 5);
    assert_eq!(resolve_note(&store, "abc").unwrap().unwrap().content, "two");
}

#[test]
fn test_sync_state_round_trip() {
    let mut store = open_store();
    assert!(get_sync_state(&store, "last_sync").is_none());
    set_sync_state(&mut store, "last_sync", "12345");
    assert_eq!(get_sync_state(&store, "last_sync").as_deref(), Some("12345"));
    set_sync_state(&mut store, "last_sync", "67890");
    assert_eq!(get_sync_state(&store, "last_sync").as_deref(), Some("67890"));
}

#[test]
fn test_last_sync_watermark() {
    let mut store = open_store();
    assert_eq!(get_last_sync(&store), 0);
    set_last_sync(&mut store, 1735689600123);
    assert_eq!(get_last_sync(&store), 1735689600123);
    set_last_sync(&mut store, -7);
    assert_eq!(get_last_sync(&store), -7);
    set_sync_state(&mut store, "last_sync", "not a number");
    assert_eq!(get_last_sync(&store), 0);
}
