use ticket_rs::display::{format_id_list, format_priority, format_status, format_ticket_blocked, format_ticket_list,
    format_ticket_show, format_ticket_type};
use ticket_rs::graph::DependencyGraph;
use ticket_rs::json::{format_tickets_jsonl, json_array, json_escape, ticket_to_json};
use ticket_rs::storage::Ticket;
use ticket_rs::types::{Status, TicketType};

fn make_ticket(id: &str, title: &str, status: Status) -> Ticket {
    Ticket::parse(
        &format!(
            "\
---
id: {}
status: {}
deps: []
links: []
created: 2024-01-15T10:00:00Z
type: task
priority: 2
---

# {}
",
            id,
            match status {
                Status::Open => "open",
                Status::InProgress => "in_progress",
                Status::Closed => "closed",
            },
            title
        ),
        id,
    )
    .unwrap()
}

#[test]
fn test_format_ticket_list() {
    let ticket = make_ticket("test-0001", "Test ticket", Status::Open);
    let output = format_ticket_list(&ticket, false);
    assert!(output.contains("test-0001"));
    assert!(output.contains("[open]"));
    assert!(output.contains("Test ticket"));
    assert!(output.contains("[P2]"));
}

#[test]
fn test_format_status() {
    assert_eq!(format_status(&Status::Open), "open");
    assert_eq!(format_status(&Status::InProgress), "in_progress");
    assert_eq!(format_status(&Status::Closed), "closed");
}

#[test]
fn test_format_tickets_jsonl() {
    let ticket = make_ticket("test-0001", "Test ticket", Status::Open);
    let jsonl = format_tickets_jsonl(&[ticket]);
    assert!(jsonl.contains("test-0001"));
    assert!(jsonl.contains("open"));
    assert!(jsonl.contains("Test ticket"));
    assert!(jsonl.contains("priority"));

    for line in jsonl.lines() {
        assert!(line.starts_with('{'));
        assert!(line.ends_with('}'));
    }
}

#[test]
fn test_json_escape() {
    assert_eq!(json_escape("hello"), "hello");
    assert_eq!(json_escape("hello\"world"), "hello\\\"world");
    assert_eq!(json_escape("hello\nworld"), "hello\\nworld");
}

#[test]
fn test_json_array() {
    assert_eq!(json_array(&[]), "[]");
    assert_eq!(json_array(&["a".into()]), "[\"a\"]");
    assert_eq!(json_array(&["a".into(), "b".into()]), "[\"a\",\"b\"]");
}

#[test]
fn json_escape_all_specials() {
    assert_eq!(json_escape("a\\b\r\tc"), "a\\\\b\\r\\tc");
}

#[test]
fn ticket_json_exact() {
    let ticket = make_ticket("test-0001", "Test \"ticket\"", Status::Open);
    assert_eq!(
        ticket_to_json(&ticket),
        "{\"id\":\"test-0001\",\"status\":\"open\",\"deps\":[],\"links\":[],\"created\":\"2024-01-15T10:00:00Z\",\"type\":\"task\",\"priority\":2,\"title\":\"Test \\\"ticket\\\"\"}"
    );
    let two = format_tickets_jsonl(&[make_ticket("a-0001", "A", Status::Open), make_ticket("b-0001", "B", Status::Closed)]);
    assert_eq!(two.lines().count(), 2);
    assert_eq!(format_tickets_jsonl(&[]), "");
}

#[test]
fn list_line_exact() {
    let mut ticket = make_ticket("ab-1", "Title", Status::InProgress);
    assert_eq!(format_ticket_list(&ticket, true), "ab-1     [P2][in_progress] - Title");
    ticket.metadata.deps = vec!["x-1".into(), "y-2".into()];
    assert_eq!(format_ticket_list(&ticket, true), "ab-1     [P2][in_progress] - Title <- [x-1, y-2]");
    assert_eq!(format_ticket_list(&ticket, false), "ab-1     [P2][in_progress] - Title");
    ticket.metadata.id = "long-identifier".into();
    assert_eq!(format_ticket_list(&ticket, false), "long-identifier [P2][in_progress] - Title");
}

#[test]
fn blocked_line_exact() {
    let ticket = make_ticket("ab-1", "Title", Status::Open);
    let statuses = vec![("x-1".to_string(), Status::Open)];
    let out = format_ticket_blocked(&ticket, &["x-1".to_string(), "y-2".to_string()], &statuses);
    assert_eq!(out, "ab-1     [P2][open] - Title <- [x-1[open], y-2[]]");
}

#[test]
fn small_formats() {
    assert_eq!(format_priority(0), "P0");
    assert_eq!(format_priority(4), "P4");
    assert_eq!(format_ticket_type(&TicketType::Feature), "feature");
    assert_eq!(format_ticket_type(&TicketType::Chore), "chore");
    let titles = vec![("a-1".to_string(), "First".to_string())];
    assert_eq!(format_id_list(&[], &titles), "[]");
    assert_eq!(format_id_list(&["a-1".into(), "b-2".into()], &titles), "[a-1 (First), b-2 ((unknown))]");
}

#[test]
fn show_exact() {
    let a = Ticket::parse(
        "---\nid: a-0001\nstatus: open\ndeps: [b-0001]\nlinks: [c-0001]\ncreated: 2024-01-15T10:00:00Z\ntype: bug\npriority: 1\nassignee: Alice\ntags: [ui]\n---\n# Alpha\n\nThe description.\n\n## Notes\n\n**2024-01-16T00:00:00Z**\n\nA note.\n",
        "a-0001",
    )
    .unwrap();
    let b = make_ticket("b-0001", "Beta", Status::Open);
    let c = make_ticket("c-0001", "Gamma", Status::Open);
    let mut d = make_ticket("d-0001", "Delta", Status::Open);
    d.metadata.deps = vec!["a-0001".into()];
    d.metadata.parent = Some("a-0001".into());
    let all = vec![a, b, c, d];
    let statuses: Vec<(String, Status)> = all.iter().map(|t| (t.metadata.id.clone(), Status::Open)).collect();
    let titles: Vec<(String, String)> = all.iter().map(|t| (t.metadata.id.clone(), t.data.title.clone())).collect();
    let graph = DependencyGraph::build(&all);
    let out = format_ticket_show(&all[0], &statuses, &titles, &graph, &all);
    let expected = "id: a-0001\nstatus: open\ndeps: [b-0001 (Beta)]\nlinks: [c-0001 (Gamma)]\ncreated: 2024-01-15T10:00:00Z\ntype: bug\npriority: 1\nassignee: Alice\ntags: [ui]\n\n# Alpha\n\nThe description.\n\n## Blockers\n- b-0001 [open] Beta\n\n## Blocking\n- d-0001 [open] Delta\n\n## Children\n- d-0001 [open] Delta\n\n## Linked\n- c-0001 [open] Gamma\n\n## Notes\n\n**2024-01-16T00:00:00Z**\n\nA note.\n";
    assert_eq!(out, expected);
}

#[test]
fn jsonl_one_line_per_ticket() {
    let mut a = make_ticket("a-0001", "A", Status::Open);
    a.data.description = Some("line one\nline two\r\n\tindented".to_string());
    let b = make_ticket("b-0001", "B", Status::Closed);
    let out = format_tickets_jsonl(&[a.clone(), b.clone()]);
    let lines: Vec<&str> = out.lines().collect();
    assert_eq!(lines.len(), 2);
    assert_eq!(lines[0], ticket_to_json(&a));
    assert_eq!(lines[1], ticket_to_json(&b));
    assert!(!lines[0].contains('\t') && !lines[0].contains('\r'));
    assert!(lines[0].contains("line one\\nline two\\r\\n\\tindented"));
}
