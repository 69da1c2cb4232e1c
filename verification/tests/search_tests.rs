use jot::models::SearchQuery;
use jot::{create_note_at, migrate, search_notes, soft_delete_note_at, Store};

fn open_store() -> Store {
    let mut store = Store::new();
    migrate(&mut store).unwrap();
    store
}

fn query() -> SearchQuery {
    SearchQuery::default()
}

#[test]
fn test_tag_filter_never_matches_substring() {
    let mut store = open_store();
    create_note_at(
        &mut store,
        "n1",
        10,
        "shopping",
        vec!["cart".to_string()],
        None,
    )
    .unwrap();

    let q = SearchQuery {
        tags: vec!["art".to_string()],
        ..query()
    };
    assert!(search_notes(&store, &q).is_empty());

    let q = SearchQuery {
        tags: vec!["cart".to_string()],
        ..query()
    };
    assert_eq!(search_notes(&store, &q).len(), 1);
}

#[test]
fn test_tag_filter_requires_all_tags() {
    let mut store = open_store();
    create_note_at(
        &mut store,
        "n1",
        10,
        "both",
        vec!["work".to_string(), "urgent".to_string()],
        None,
    )
    .unwrap();
    create_note_at(&mut store, "n2", 20, "one", vec!["work".to_string()], None).unwrap();

    let q = SearchQuery {
        tags: vec!["work".to_string(), "urgent".to_string()],
        ..query()
    };
    let results = search_notes(&store, &q);
    assert_eq!(results.len(), 1);
    assert_eq!(results[0].id, "n1");
}

#[test]
fn test_date_range_includes_boundaries() {
    let mut store = open_store();
    create_note_at(&mut store, "lo", 1, "low", vec![], Some("2025-01-01".to_string())).unwrap();
    create_note_at(&mut store, "mid", 2, "mid", vec![], Some("2025-01-15".to_string())).unwrap();
    create_note_at(&mut store, "hi", 3, "high", vec![], Some("2025-01-31".to_string())).unwrap();
    create_note_at(&mut store, "out", 4, "outside", vec![], Some("2025-02-01".to_string()))
        .unwrap();
    create_note_at(&mut store, "undated", 5, "no date", vec![], None).unwrap();

    let q = SearchQuery {
        date_from: Some("2025-01-01".to_string()),
        date_to: Some("2025-01-31".to_string()),
        ..query()
    };
    let mut ids: Vec<String> = search_notes(&store, &q).into_iter().map(|n| n.id).collect();
    ids.sort();
    assert_eq!(ids, vec!["hi", "lo", "mid"]);
}

#[test]
fn test_text_filter_case_sensitive_substring() {
    let mut store = open_store();
    create_note_at(&mut store, "n1", 1, "Meeting notes", vec![], None).unwrap();
    create_note_at(&mut store, "n2", 2, "meeting today", vec![], None).unwrap();

    let q = SearchQuery {
        text: Some("Meeting".to_string()),
        ..query()
    };
    let results = search_notes(&store, &q);
    assert_eq!(results.len(), 1);
    assert_eq!(results[0].id, "n1");

    let q = SearchQuery {
        text: Some("eeting".to_string()),
        ..query()
    };
    assert_eq!(search_notes(&store, &q).len(), 2);
}

#[test]
fn test_order_is_most_recent_first_and_limit_truncates() {
    let mut store = open_store();
    create_note_at(&mut store, "n1", 10, "oldest", vec![], None).unwrap();
    create_note_at(&mut store, "n2", 30, "newest", vec![], None).unwrap();
    create_note_at(&mut store, "n3", 20, "middle", vec![], None).unwrap();

    let results = search_notes(&store, &query());
    assert_eq!(
        results.iter().map(|n| n.id.as_str()).collect::<Vec<_>>(),
        vec!["n2", "n3", "n1"]
    );

    let q = SearchQuery {
        limit: Some(2),
        ..query()
    };
    let capped = search_notes(&store, &q);
    assert_eq!(
        capped.iter().map(|n| n.id.as_str()).collect::<Vec<_>>(),
        vec!["n2", "n3"]
    );
}

#[test]
fn test_full_listing_scenario() {
    // an empty store; a tagged, dated note; an untagged note; a tag search
    // finds only the first; deleting the second hides it from the default
    // listing but an include-deleted listing shows it first.
    let mut store = open_store();
    let n1 = create_note_at(
        &mut store,
        "N1",
        100,
        "Buy milk",
        vec!["errand".to_string()],
        Some("2025-01-01".to_string()),
    )
    .unwrap();
    assert!(n1.deleted_at.is_none());
    let _n2 = create_note_at(&mut store, "N2", 200, "Write report", vec![], None).unwrap();

    let q = SearchQuery {
        tags: vec!["errand".to_string()],
        ..query()
    };
    let tagged = search_notes(&store, &q);
    assert_eq!(tagged.len(), 1);
    assert_eq!(tagged[0].id, "N1");

    soft_delete_note_at(&mut store, "N2", 300);

    let active = search_notes(&store, &query());
    assert_eq!(active.len(), 1);
    assert_eq!(active[0].id, "N1");

    let q = SearchQuery {
        include_deleted: true,
        ..query()
    };
    let everything = search_notes(&store, &q);
    assert_eq!(
        everything.iter().map(|n| n.id.as_str()).collect::<Vec<_>>(),
        vec!["N2", "N1"]
    );
}

#[test]
fn test_search_empty_store() {
    let store = open_store();
    assert!(search_notes(&store, &query()).is_empty());
    let q = SearchQuery {
        text: Some("anything".to_string()),
        include_deleted: true,
        ..query()
    };
    assert!(search_notes(&store, &q).is_empty());
}

#[test]
fn test_search_limit_zero_returns_nothing() {
    let mut store = open_store();
    create_note_at(&mut store, "n1", 10, "something", vec![], None).unwrap();
    let q = SearchQuery {
        limit: Some(0),
        ..query()
    };
    assert!(search_notes(&store, &q).is_empty());
}

#[test]
fn test_search_equal_timestamps_returns_both() {
    let mut store = open_store();
    create_note_at(&mut store, "n1", 10, "twin one", vec![], None).unwrap();
    create_note_at(&mut store, "n2", 10, "twin two", vec![], None).unwrap();
    let results = search_notes(&store, &query());
    assert_eq!(results.len(), 2);
}

#[test]
fn test_empty_text_filter_matches_everything() {
    let mut store = open_store();
    create_note_at(&mut store, "n1", 10, "anything at all", vec![], None).unwrap();
    let q = SearchQuery {
        text: Some(String::new()),
        ..query()
    };
    assert_eq!(search_notes(&store, &q).len(), 1);
}
