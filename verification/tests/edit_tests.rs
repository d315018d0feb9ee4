use ticket_rs::edit::{append_note, insert_open_field, replace_field};

#[test]
fn replace_field_in_front_matter() {
    let content = "---\nid: a\nstatus: open\n---\n# T\nstatus: not a field\n";
    assert_eq!(
        replace_field(content, "status", "closed").unwrap(),
        "---\nid: a\nstatus: closed\n---\n# T\nstatus: not a field\n"
    );
    assert_eq!(replace_field(content, "assignee", "x"), None);
}

#[test]
fn replace_field_drops_repeats() {
    let content = "---\ndeps: [a]\ndeps: [b]\n---\n";
    assert_eq!(replace_field(content, "deps", "[c]").unwrap(), "---\ndeps: [c]\n---\n");
}

#[test]
fn insert_open_after_status() {
    let (text, open) = insert_open_field("---\nid: a\nstatus: closed\ntype: task\n---\n# T\n").unwrap();
    assert!(!open);
    assert_eq!(text, "---\nid: a\nstatus: closed\nopen: false\ntype: task\n---\n# T\n");
}

#[test]
fn insert_open_after_id_or_first() {
    let (text, open) = insert_open_field("---\nid: a\n---\n# T").unwrap();
    assert!(open);
    assert_eq!(text, "---\nid: a\nopen: true\n---\n# T");
    let (text, _) = insert_open_field("---\ntype: bug\n---\n").unwrap();
    assert_eq!(text, "---\nopen: true\ntype: bug\n---\n");
}

#[test]
fn insert_open_refused() {
    assert_eq!(insert_open_field("---\nopen: true\n---\n"), None);
    assert_eq!(insert_open_field("no front matter"), None);
    assert_eq!(insert_open_field("---\nid: a\n"), None);
}

#[test]
fn append_note_creates_section() {
    assert_eq!(
        append_note("---\nid: a\n---\n# T\n\n", "TS", "Hello"),
        "---\nid: a\n---\n# T\n\n## Notes\n\n**TS**\n\nHello\n"
    );
    assert_eq!(
        append_note("# T\n\n## Notes\n\n**A**\n\nOne\n", "B", "Two"),
        "# T\n\n## Notes\n\n**A**\n\nOne\n\n**B**\n\nTwo\n"
    );
}

#[test]
fn update_leaves_body_alone() {
    let text = "---\nid: a\n---\nb\n---\nid: x\n";
    assert_eq!(
        ticket_rs::edit::replace_field(text, "id", "y").unwrap(),
        "---\nid: y\n---\nb\n---\nid: x\n"
    );
    assert_eq!(ticket_rs::edit::replace_field("---\nid: a\n---\nstatus: open\n", "status", "x"), None);
}
