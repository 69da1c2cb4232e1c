use jot::models::{Note, SyncRequest};
use jot::{
    create_note_at, get_note_by_id, get_notes_since, merge_notes, migrate, process_sync_request,
    Store,
};

fn open_store() -> Store {
    let mut store = Store::new();
    migrate(&mut store).unwrap();
    store
}

fn plain_note(id: &str, content: &str, updated_at: i64) -> Note {
    Note {
        id: id.to_string(),
        content: content.to_string(),
        tags: vec![],
        subject_date: None,
        created_at: updated_at,
        updated_at,
        deleted_at: None,
    }
}

#[test]
fn test_merge_new_note_from_client() {
    let mut store = open_store();

    let client_note = Note {
        id: "01ARZ3NDEKTSV4RRFFQ69G5FAV".to_string(),
        content: "client note".to_string(),
        tags: vec![],
        subject_date: None,
        created_at: 1000,
        updated_at: 1000,
        deleted_at: None,
    };

    let result = merge_notes(&mut store, vec![client_note.clone()], 0);

    // Should return empty since server has no newer notes
    assert_eq!(result.len(), 0);

    // Verify note was inserted
    let note = get_note_by_id(&store, &client_note.id).unwrap();

    assert_eq!(note.content, "client note");
}

#[test]
fn test_merge_conflict_last_write_wins() {
    let mut store = open_store();

    let note = create_note_at(&mut store, "conflicted", 100, "server version", vec![], None)
        .unwrap();

    let client_note = Note {
        id: note.id.clone(),
        content: "client version (newer)".to_string(),
        tags: vec![],
        subject_date: None,
        created_at: note.created_at,
        updated_at: 200,
        deleted_at: None,
    };

    let result = merge_notes(&mut store, vec![client_note.clone()], 0);

    // Server should not send anything back (client version wins)
    assert_eq!(result.len(), 0);

    // Verify client version was saved
    let updated = get_note_by_id(&store, &note.id).unwrap();

    assert_eq!(updated.content, "client version (newer)");
}

#[test]
fn test_merge_server_newer_sends_server_copy() {
    let mut store = open_store();
    create_note_at(&mut store, "a", 300, "server fresh", vec![], None).unwrap();

    let stale = plain_note("a", "client stale", 100);
    let result = merge_notes(&mut store, vec![stale], 300);

    assert_eq!(result.len(), 1);
    assert_eq!(result[0].content, "server fresh");
    assert_eq!(get_note_by_id(&store, "a").unwrap().content, "server fresh");
}

#[test]
fn test_merge_equal_timestamps_converged() {
    let mut store = open_store();
    create_note_at(&mut store, "a", 100, "server copy", vec![], None).unwrap();
    let result = merge_notes(&mut store, vec![plain_note("a", "client copy", 100)], 100);
    assert_eq!(result.len(), 0);
    assert_eq!(get_note_by_id(&store, "a").unwrap().content, "server copy");
}

#[test]
fn test_merge_unrelated_server_note_flows_back() {
    // server holds A (updated 50) and unrelated B (updated 200); the client
    // sends A at 100 with watermark 0: the response holds B only, and the
    // stored A now carries the client's timestamp.
    let mut store = open_store();
    create_note_at(&mut store, "A", 50, "server a", vec![], None).unwrap();
    create_note_at(&mut store, "B", 200, "server b", vec![], None).unwrap();

    let client_a = plain_note("A", "client a", 100);
    let result = merge_notes(&mut store, vec![client_a], 0);

    assert_eq!(result.len(), 1);
    assert_eq!(result[0].id, "B");
    assert_eq!(get_note_by_id(&store, "A").unwrap().updated_at, 100);
    assert_eq!(get_note_by_id(&store, "A").unwrap().content, "client a");
}

#[test]
fn test_merge_empty_batch_equals_since() {
    let mut store = open_store();
    create_note_at(&mut store, "n1", 10, "one", vec![], None).unwrap();
    create_note_at(&mut store, "n2", 30, "two", vec![], None).unwrap();
    create_note_at(&mut store, "n3", 20, "three", vec![], None).unwrap();

    let expected = get_notes_since(&store, 15);
    let result = merge_notes(&mut store, vec![], 15);

    assert_eq!(result, expected);
    assert_eq!(result.len(), 2);
    assert_eq!(result[0].id, "n3");
    assert_eq!(result[1].id, "n2");
}

#[test]
fn test_merge_tombstone_wins_over_stale_edit() {
    let mut store = open_store();
    create_note_at(&mut store, "t", 100, "alive", vec![], None).unwrap();

    let mut tombstone = plain_note("t", "alive", 300);
    tombstone.deleted_at = Some(300);
    let result = merge_notes(&mut store, vec![tombstone], 300);
    assert_eq!(result.len(), 0);
    assert_eq!(get_note_by_id(&store, "t").unwrap().deleted_at, Some(300));
}

#[test]
fn test_merge_replay_is_idempotent() {
    let mut store = open_store();
    create_note_at(&mut store, "x", 50, "resident", vec![], None).unwrap();
    let batch = vec![plain_note("x", "newer", 80), plain_note("y", "brand new", 60)];

    let first = merge_notes(&mut store, batch.clone(), 40);
    let snapshot_x = get_note_by_id(&store, "x").unwrap();
    let snapshot_y = get_note_by_id(&store, "y").unwrap();

    let second = merge_notes(&mut store, batch, 40);
    assert_eq!(get_note_by_id(&store, "x").unwrap(), snapshot_x);
    assert_eq!(get_note_by_id(&store, "y").unwrap(), snapshot_y);
    assert_eq!(first.len(), 0);
    assert_eq!(second.len(), 0);
}

#[test]
fn test_process_sync_request_wraps_merge() {
    let mut store = open_store();
    create_note_at(&mut store, "B", 200, "server b", vec![], None).unwrap();
    let request = SyncRequest {
        notes: vec![],
        last_sync: 0,
    };
    let response = process_sync_request(&mut store, request);
    assert_eq!(response.notes.len(), 1);
    assert_eq!(response.notes[0].id, "B");
}

#[test]
fn test_get_notes_since_strict_and_sorted() {
    let mut store = open_store();
    create_note_at(&mut store, "n1", 10, "one", vec![], None).unwrap();
    create_note_at(&mut store, "n2", 30, "two", vec![], None).unwrap();
    create_note_at(&mut store, "n3", 20, "three", vec![], None).unwrap();

    let all = get_notes_since(&store, 9);
    assert_eq!(
        all.iter().map(|n| n.id.as_str()).collect::<Vec<_>>(),
        vec!["n1", "n3", "n2"]
    );

    // the bound is strict: a note updated exactly at the watermark stays out
    let after10 = get_notes_since(&store, 10);
    assert_eq!(
        after10.iter().map(|n| n.id.as_str()).collect::<Vec<_>>(),
        vec!["n3", "n2"]
    );
}

#[test]
fn test_since_on_empty_store() {
    let store = open_store();
    assert!(get_notes_since(&store, 0).is_empty());
}

#[test]
fn test_merge_duplicate_batch_ids_deduplicated() {
    // the client repeats an id whose server copy is strictly newer: the
    // server copy comes back once, not once per occurrence
    let mut store = open_store();
    create_note_at(&mut store, "dup", 500, "server fresh", vec![], None).unwrap();

    let batch = vec![
        plain_note("dup", "stale one", 100),
        plain_note("dup", "stale two", 120),
    ];
    let result = merge_notes(&mut store, batch, 500);

    assert_eq!(result.len(), 1);
    assert_eq!(result[0].content, "server fresh");
    assert_eq!(get_note_by_id(&store, "dup").unwrap().content, "server fresh");
}
