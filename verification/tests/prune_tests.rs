use jot::models::Note;
use jot::prune::{generate_prune_file, parse_prune_file, PruneAction};

fn create_test_note(id: &str, content: &str, tags: Vec<&str>, date: Option<&str>) -> Note {
    Note {
        id: id.to_string(),
        content: content.to_string(),
        tags: tags.into_iter().map(|t| t.to_string()).collect(),
        subject_date: date.map(|d| d.to_string()),
        created_at: 0,
        updated_at: 0,
        deleted_at: None,
    }
}

#[test]
fn test_generate_prune_file() {
    let notes = vec![
        create_test_note("abc123", "First note", vec!["work"], Some("2025-01-15")),
        create_test_note(
            "def456",
            "Second note",
            vec!["personal"],
            Some("2025-01-14"),
        ),
        create_test_note("ghi789", "Third note", vec![], None),
    ];

    let content = generate_prune_file(&notes);

    assert!(content.contains("keep abc123 [2025-01-15] #work First note"));
    assert!(content.contains("keep def456 [2025-01-14] #personal Second note"));
    assert!(content.contains("keep ghi789  Third note"));
    assert!(content.contains("# Commands:"));
}

#[test]
fn test_generate_prune_file_multiline_note() {
    let notes = vec![create_test_note(
        "abc123",
        "First line\nSecond line\nThird line",
        vec![],
        None,
    )];

    let content = generate_prune_file(&notes);

    assert!(content.contains("keep abc123  First line..."));
    assert!(!content.contains("Second line"));
}

#[test]
fn test_generate_prune_file_long_note() {
    let long_content = "a".repeat(100);
    let notes = vec![create_test_note("abc123", &long_content, vec![], None)];

    let content = generate_prune_file(&notes);

    assert!(content.contains("..."));
    let line = content.lines().find(|l| l.contains("abc123")).unwrap_or("");
    assert!(line.len() < 120);
}

#[test]
fn test_parse_prune_file_basic() {
    let content = "keep abc123 [2025-01-15] note text\ndelete def456 [2025-01-14] old note";

    let decisions = parse_prune_file(content).expect("Failed to parse");

    assert_eq!(decisions.len(), 2);
    assert_eq!(decisions[0].note_id, "abc123");
    assert_eq!(decisions[0].action, PruneAction::Keep);
    assert_eq!(decisions[1].note_id, "def456");
    assert_eq!(decisions[1].action, PruneAction::Delete);
}

#[test]
fn test_parse_prune_file_with_comments() {
    let content = "# This is a comment\nkeep abc123 note\n\n# Another comment\ndelete def456 old";

    let decisions = parse_prune_file(content).expect("Failed to parse");

    assert_eq!(decisions.len(), 2);
    assert_eq!(decisions[0].note_id, "abc123");
    assert_eq!(decisions[1].note_id, "def456");
}

#[test]
fn test_parse_prune_file_invalid_action() {
    let content = "edit abc123 note text";

    let result = parse_prune_file(content);

    assert!(result.is_err());
    if let Err(err) = result {
        assert!(err.message().contains("Invalid action 'edit'"));
    }
}

#[test]
fn test_parse_prune_file_invalid_format() {
    let content = "keep";

    let result = parse_prune_file(content);

    assert!(result.is_err());
    if let Err(err) = result {
        assert!(err.message().contains("Invalid format"));
    }
}

#[test]
fn test_parse_prune_file_empty() {
    let content = "# Just comments\n\n# Nothing else";

    let decisions = parse_prune_file(content).expect("Failed to parse");

    assert_eq!(decisions.len(), 0);
}

#[test]
fn test_generate_prune_file_multiple_tags() {
    let notes = vec![create_test_note(
        "abc123",
        "Note with tags",
        vec!["work", "important", "urgent"],
        Some("2025-01-15"),
    )];

    let content = generate_prune_file(&notes);

    assert!(content.contains("#work #important #urgent"));
}

#[test]
fn test_parse_prune_file_error_messages_exact() {
    let err = parse_prune_file("keep ok\nkeep").unwrap_err();
    assert_eq!(
        err.message(),
        "Invalid format at line 2: expected '<action> <id> ...'"
    );
    let err = parse_prune_file("\n\nedit abc note").unwrap_err();
    assert_eq!(
        err.message(),
        "Invalid action 'edit' at line 3. Expected 'keep' or 'delete'"
    );
}

#[test]
fn test_generate_prune_file_header_lines() {
    let content = generate_prune_file(&Vec::new());
    assert!(content.starts_with("# Interactive note cleanup\n"));
    assert!(content.contains("#   keep   - keep this note (default)\n"));
    assert!(content.contains("#   delete - permanently delete this note\n"));
    assert!(content.ends_with("# Edit the command word (keep/delete) on each line.\n\n"));
}
