use ticket_rs::body::parse_notes;
use ticket_rs::frontmatter::{format_yaml_array, parse_yaml_array};
use ticket_rs::storage::{ParseError, SearchQuery, Ticket};
use ticket_rs::types::{CreateOptions, Data, Metadata, Note, Priority};

#[test]
fn test_parse_yaml_array() {
    assert_eq!(parse_yaml_array("[]"), Vec::<String>::new());
    assert_eq!(parse_yaml_array("[foo]"), vec!["foo"]);
    assert_eq!(parse_yaml_array("[foo, bar]"), vec!["foo", "bar"]);
    assert_eq!(parse_yaml_array("[foo, bar, baz]"), vec!["foo", "bar", "baz"]);
}

#[test]
fn test_format_yaml_array() {
    assert_eq!(format_yaml_array(&[]), "[]");
    assert_eq!(format_yaml_array(&["foo".into()]), "[foo]");
    assert_eq!(format_yaml_array(&["foo".into(), "bar".into()]), "[foo, bar]");
}

#[test]
fn test_ticket_parse_and_serialize_roundtrip() {
    let content = "\
---
id: nw-5c46
status: open
open: true
deps: []
links: []
created: 2024-01-15T10:00:00Z
type: task
priority: 2
assignee: Alice
tags: [ui, urgent]
---

# My Ticket

This is the description.

## Design

Use a microservice architecture.

## Acceptance Criteria

Should pass all tests.

## Notes

**2024-01-15T12:00:00Z**

First note.
";

    let ticket = Ticket::parse(content, "nw-5c46").unwrap();
    assert_eq!(ticket.metadata.id, "nw-5c46");
    assert_eq!(ticket.metadata.status, "open");
    assert_eq!(ticket.metadata.metadata_type, "task");
    assert_eq!(ticket.metadata.priority, Priority::P2);
    assert_eq!(ticket.metadata.assignee.as_deref(), Some("Alice"));
    assert_eq!(ticket.metadata.tags.as_deref(), Some(&["ui".to_string(), "urgent".to_string()][..]));
    assert_eq!(ticket.data.title, "My Ticket");
    assert_eq!(ticket.data.description.as_deref(), Some("This is the description."));
    assert_eq!(ticket.data.design.as_deref(), Some("Use a microservice architecture."));
    assert_eq!(ticket.data.acceptance.as_deref(), Some("Should pass all tests."));
    assert!(ticket.data.notes.is_some());
    assert_eq!(ticket.data.notes.as_ref().unwrap().len(), 1);
    assert_eq!(ticket.data.notes.as_ref().unwrap()[0].timestamp, "2024-01-15T12:00:00Z");
    assert_eq!(ticket.data.notes.as_ref().unwrap()[0].body, "First note.");

    let serialized = ticket.to_text();
    let reparsed = Ticket::parse(&serialized, "nw-5c46").unwrap();
    assert_eq!(reparsed.metadata.id, ticket.metadata.id);
    assert_eq!(reparsed.metadata.status, ticket.metadata.status);
    assert_eq!(reparsed.data.title, ticket.data.title);
}

#[test]
fn test_ticket_parse_minimal() {
    let content = "\
---
id: test-0001
status: open
open: true
deps: []
links: []
created: 2024-01-15T10:00:00Z
type: task
priority: 2
---

# Minimal
";
    let ticket = Ticket::parse(content, "test-0001").unwrap();
    assert_eq!(ticket.metadata.id, "test-0001");
    assert_eq!(ticket.data.title, "Minimal");
    assert!(ticket.data.description.is_none());
    assert!(ticket.metadata.assignee.is_none());
}

#[test]
fn test_ticket_with_deps() {
    let content = "\
---
id: task-0001
status: open
open: true
deps: [task-0002]
links: []
created: 2024-01-15T10:00:00Z
type: task
priority: 2
---

# Main task
";
    let ticket = Ticket::parse(content, "task-0001").unwrap();
    assert_eq!(ticket.metadata.deps, vec!["task-0002"]);
}

#[test]
fn test_parse_notes() {
    let notes_text = "\
**2024-01-15T12:00:00Z**

First note body.

**2024-01-16T12:00:00Z**

Second note body.
";
    let notes = parse_notes(notes_text);
    assert_eq!(notes.len(), 2);
    assert_eq!(notes[0].timestamp, "2024-01-15T12:00:00Z");
    assert_eq!(notes[0].body, "First note body.");
    assert_eq!(notes[1].timestamp, "2024-01-16T12:00:00Z");
    assert_eq!(notes[1].body, "Second note body.");
}

#[test]
fn test_search_query_matches() {
    let ticket = Ticket::parse(
        "\
---
id: test-0001
status: open
open: true
deps: []
links: []
created: 2024-01-15T10:00:00Z
type: bug
priority: 1
assignee: Alice
tags: [ui, backend]
---

# Login fails
",
        "test-0001",
    )
    .unwrap();

    let q = SearchQuery { status: Some("open".to_string()), ..Default::default() };
    assert!(q.matches(&ticket));

    let q = SearchQuery { status: Some("closed".to_string()), ..Default::default() };
    assert!(!q.matches(&ticket));

    let q = SearchQuery { assignee: Some("Alice".into()), ..Default::default() };
    assert!(q.matches(&ticket));

    let q = SearchQuery { assignee: Some("Bob".into()), ..Default::default() };
    assert!(!q.matches(&ticket));

    let q = SearchQuery { ticket_type: Some("bug".to_string()), ..Default::default() };
    assert!(q.matches(&ticket));

    let q = SearchQuery { search: Some("login".into()), ..Default::default() };
    assert!(q.matches(&ticket));

    let q = SearchQuery { search: Some("nope".into()), ..Default::default() };
    assert!(!q.matches(&ticket));

    let q = SearchQuery { tags: Some(vec!["ui".into(), "backend".into()]), ..Default::default() };
    assert!(q.matches(&ticket));

    let q = SearchQuery { tags: Some(vec!["ui".into(), "missing".into()]), ..Default::default() };
    assert!(!q.matches(&ticket));
}

#[test]
fn parse_errors() {
    assert_eq!(Ticket::parse("# No front matter", "x").unwrap_err(), ParseError::MissingFrontmatter);
    assert_eq!(Ticket::parse("---\nid: x\n", "x").unwrap_err(), ParseError::MissingClosingDelimiter);
    assert_eq!(Ticket::parse("---\n\n---\n# T", "x").unwrap_err(), ParseError::MissingFrontmatter);
    assert_eq!(ParseError::MissingFrontmatter.message(), "Missing YAML frontmatter");
    assert_eq!(
        ParseError::MissingClosingDelimiter.message(),
        "Ticket file missing closing --- frontmatter delimiter"
    );
}

#[test]
fn parse_defaults() {
    let t = Ticket::parse_at("---\nstatus: closed\npriority: 9\n---\n## Extra\nx\n", "def-1", "NOW").unwrap();
    assert_eq!(t.metadata.id, "def-1");
    assert!(!t.metadata.open);
    assert_eq!(t.metadata.priority, Priority::P2);
    assert_eq!(t.metadata.created, "NOW");
    assert_eq!(t.data.title, "Untitled");
    assert_eq!(t.non_standard_sections, vec!["Extra"]);
    let t = Ticket::parse_at("---\nopen: false\nstatus: open\n---\n# T\n", "d", "NOW").unwrap();
    assert!(!t.metadata.open);
}

#[test]
fn serialize_exact() {
    let t = Ticket::parse_at(
        "---\nid: a-0001\nstatus: open\ndeps: [b]\nlinks: []\ncreated: C\ntype: bug\npriority: 0\nparent: p-1\ntags: []\n---\n# T\n\n## Design\n\nD\n",
        "a-0001",
        "NOW",
    )
    .unwrap();
    assert_eq!(
        t.to_text(),
        "---\nid: a-0001\nstatus: open\nopen: true\ndeps: [b]\nlinks: []\ncreated: C\ntype: bug\npriority: 0\nparent: p-1\n---\n# T\n\n\n\n## Design\n\nD\n"
    );
    assert_eq!(t.data.description.as_deref(), Some(""));
}

#[test]
fn new_ticket_from_options() {
    let opts = CreateOptions {
        title: None,
        description: Some("desc".into()),
        design: None,
        acceptance: None,
        create_type: None,
        priority: None,
        assignee: None,
        external_ref: Some("JIRA-1".into()),
        parent: None,
        tags: Some(vec!["ui".into()]),
    };
    let t = Ticket::from_options(&opts, "mp-abcd".into(), "NOW".into(), Some("  Jane Doe \n".into()));
    assert_eq!(t.metadata.id, "mp-abcd");
    assert_eq!(t.metadata.status, "open");
    assert!(t.metadata.open);
    assert_eq!(t.metadata.metadata_type, "task");
    assert_eq!(t.metadata.priority, Priority::P2);
    assert_eq!(t.metadata.assignee.as_deref(), Some("Jane Doe"));
    assert_eq!(t.data.title, "Untitled");
    let t2 = Ticket::from_options(&opts, "mp-abcd".into(), "NOW".into(), Some("   ".into()));
    assert_eq!(t2.metadata.assignee, None);
    assert_eq!(
        t.to_text(),
        "---\nid: mp-abcd\nstatus: open\nopen: true\ndeps: []\nlinks: []\ncreated: NOW\ntype: task\npriority: 2\nassignee: Jane Doe\nexternal-ref: JIRA-1\ntags: [ui]\n---\n# Untitled\n\ndesc\n"
    );
    let created = Ticket::create(&opts, "my-project", None);
    assert!(created.metadata.id.starts_with("mp-"));
    assert_eq!(created.metadata.id.len(), 7);
}

#[test]
fn search_is_case_insensitive() {
    let t = Ticket::parse_at("---\nid: a\n---\n# ÄRGER im Login\n", "a", "N").unwrap();
    let q = SearchQuery { search: Some("ärger".into()), ..Default::default() };
    assert!(q.matches(&t));
    let q = SearchQuery { open: Some(false), ..Default::default() };
    assert!(!q.matches(&t));
}

#[test]
fn written_ticket_reads_back() {
    let t = Ticket {
        metadata: Metadata {
            id: "ab-12cd".into(),
            status: "in_progress".into(),
            open: false,
            deps: vec!["x-0001".into(), "y-0002".into()],
            links: vec![],
            created: "".into(),
            metadata_type: "epic".into(),
            priority: Priority::P4,
            assignee: Some("Jane: Doe".into()),
            external_ref: None,
            parent: Some("p-0001".into()),
            tags: Some(vec![]),
        },
        data: Data { title: "A title".into(), description: None, design: None, acceptance: None, notes: None },
        non_standard_sections: vec![],
    };
    let back = Ticket::parse_at(&t.to_text(), "other", "NOW").unwrap();
    assert_eq!(back.metadata.id, "ab-12cd");
    assert_eq!(back.metadata.status, "in_progress");
    assert!(!back.metadata.open);
    assert_eq!(back.metadata.deps, vec!["x-0001", "y-0002"]);
    assert!(back.metadata.links.is_empty());
    assert_eq!(back.metadata.created, "NOW");
    assert_eq!(back.metadata.metadata_type, "epic");
    assert_eq!(back.metadata.priority, Priority::P4);
    assert_eq!(back.metadata.assignee.as_deref(), Some("Jane: Doe"));
    assert_eq!(back.metadata.external_ref, None);
    assert_eq!(back.metadata.parent.as_deref(), Some("p-0001"));
    assert_eq!(back.metadata.tags, None);
    assert_eq!(back.data.title, "A title");
}

#[test]
fn written_body_reads_back() {
    let mut t = Ticket::parse_at("---\nid: b-0001\n---\n# Body\n", "b-0001", "N").unwrap();
    t.data.description = Some("First line.\n\nSecond line.".into());
    t.data.design = Some("Use a queue.".into());
    t.data.acceptance = Some("It works.".into());
    let back = Ticket::parse_at(&t.to_text(), "b-0001", "N").unwrap();
    assert_eq!(back.data.description.as_deref(), Some("First line.\n\nSecond line."));
    assert_eq!(back.data.design.as_deref(), Some("Use a queue."));
    assert_eq!(back.data.acceptance.as_deref(), Some("It works."));
    assert!(back.data.notes.is_none());
    t.data.description = None;
    t.data.acceptance = None;
    let back = Ticket::parse_at(&t.to_text(), "b-0001", "N").unwrap();
    assert_eq!(back.data.description.as_deref(), Some(""));
    assert_eq!(back.data.design.as_deref(), Some("Use a queue."));
    assert_eq!(back.data.acceptance, None);
    t.data.notes = Some(vec![
        Note { timestamp: "2024-01-15T12:00:00Z".into(), body: "First note.".into() },
        Note { timestamp: "2024-01-16T12:00:00Z".into(), body: "Second\nnote.".into() },
    ]);
    let back = Ticket::parse_at(&t.to_text(), "b-0001", "N").unwrap();
    let notes = back.data.notes.unwrap();
    assert_eq!(notes.len(), 2);
    assert_eq!(notes[0].timestamp, "2024-01-15T12:00:00Z");
    assert_eq!(notes[0].body, "First note.");
    assert_eq!(notes[1].timestamp, "2024-01-16T12:00:00Z");
    assert_eq!(notes[1].body, "Second\nnote.");
    assert_eq!(back.data.design.as_deref(), Some("Use a queue."));
}
