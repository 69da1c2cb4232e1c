use jot::editor::{split_front_matter, Editor, EditorTemplate};

#[test]
fn test_format_error_header_escapes_special_chars() {
    let error = "TOML parse error at line 2, column 3\n  |\n2 |   |\n  |   ^\ninvalid key";
    let original_content = "tags = [\"work\"\ndate = \"today\"\n+++\nMy content";

    let formatted = Editor::format_error_header(error, original_content);

    let lines: Vec<&str> = formatted.lines().collect();
    assert!(lines[0].starts_with("# ====="));
    assert!(lines[1].starts_with("# "));

    assert!(formatted.contains("My content"));

    assert!(formatted.contains("# TOML parse error"));
    assert!(formatted.contains("# invalid key"));
}

#[test]
fn test_format_error_header_multiline_error() {
    let error = "Line 1 error\nLine 2 error\nLine 3 error";
    let content = "some content";

    let formatted = Editor::format_error_header(error, content);

    assert!(formatted.contains("# Line 1 error"));
    assert!(formatted.contains("# Line 2 error"));
    assert!(formatted.contains("# Line 3 error"));
    assert!(formatted.contains("some content"));
}

#[test]
fn test_split_front_matter_basic() {
    let template = "tags = [\"work\", \"important\"]\n#tags = []\ndate = \"today\"\n#date = \"YYYY-MM-DD\"\n+++\nSome content";
    let (front, content) = split_front_matter(template);
    assert_eq!(
        front,
        "tags = [\"work\", \"important\"]\n#tags = []\ndate = \"today\"\n#date = \"YYYY-MM-DD\""
    );
    assert_eq!(content, "Some content");
}

#[test]
fn test_split_front_matter_no_content() {
    let template = "tags = [\"work\"]\ndate = \"today\"\n+++";
    let (front, content) = split_front_matter(template);
    assert_eq!(front, "tags = [\"work\"]\ndate = \"today\"");
    assert_eq!(content, "");
}

#[test]
fn test_split_front_matter_plus_in_content() {
    let template = "tags = [\"programming\"]\ndate = \"today\"\n+++\nLearning C+++ today\nSome more content with +++ in the middle\nAnd even more +++ here";
    let (front, content) = split_front_matter(template);
    assert_eq!(front, "tags = [\"programming\"]\ndate = \"today\"");
    assert_eq!(
        content,
        "Learning C+++ today\nSome more content with +++ in the middle\nAnd even more +++ here"
    );
}

#[test]
fn test_split_front_matter_delimiter_with_whitespace() {
    let template = "tags = [\"work\"]\n   +++\nContent here";
    let (front, content) = split_front_matter(template);
    assert_eq!(front, "tags = [\"work\"]");
    assert_eq!(content, "Content here");
}

#[test]
fn test_split_front_matter_no_delimiter() {
    let template = "tags = [\"work\"]\ndate = \"today\"";
    let (front, content) = split_front_matter(template);
    assert_eq!(front, template);
    assert_eq!(content, "");
}

#[test]
fn test_editor_template_new() {
    let t = EditorTemplate::new();
    assert!(t.tags.is_empty());
    assert!(!t.today);
    assert_eq!(t.content, "");
}

#[test]
fn test_editor_new_keeps_template() {
    let e = Editor::new("tags = []\n+++");
    assert_eq!(e.template, "tags = []\n+++");
}

#[test]
fn test_format_error_header_empty_error() {
    let formatted = Editor::format_error_header("", "body");
    assert_eq!(
        formatted,
        "# ===== PARSING ERROR =====\n\n# ===== Fix the issue below and save again =====\n\nbody"
    );
}
