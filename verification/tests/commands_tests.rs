use ticket_rs::commands::{format_cycle_member, matches_jq_filter, plan_dep_add, plan_links, split_tags, DepAdd};
use ticket_rs::storage::Ticket;

#[test]
fn test_matches_jq_filter() {
    let ticket = Ticket::parse(
        "\
---
id: test-0001
status: open
open: true
deps: []
links: []
created: 2024-01-15T10:00:00Z
type: bug
priority: 1
assignee: Alice
---

# Test
",
        "test-0001",
    )
    .unwrap();

    assert!(matches_jq_filter(&ticket, r#".status == "open""#));
    assert!(!matches_jq_filter(&ticket, r#".status == "closed""#));
    assert!(matches_jq_filter(&ticket, r#".type == "bug""#));
    assert!(!matches_jq_filter(&ticket, r#".type == "task""#));
    assert!(matches_jq_filter(&ticket, r#".priority == 1"#));
    assert!(!matches_jq_filter(&ticket, r#".priority == 2"#));
    assert!(matches_jq_filter(&ticket, r#".assignee == "Alice""#));
    assert!(!matches_jq_filter(&ticket, r#".assignee == "Bob""#));

    assert!(matches_jq_filter(&ticket, r#"select(.status == "open")"#));
}

#[test]
fn jq_filter_edge_cases() {
    let ticket = Ticket::parse_at("---\nid: t-1\nstatus: open\n---\n# T\n", "t-1", "N").unwrap();
    assert!(matches_jq_filter(&ticket, r#".status != "closed""#));
    assert!(!matches_jq_filter(&ticket, r#".status != "open""#));
    assert!(matches_jq_filter(&ticket, r#".open == true"#));
    assert!(matches_jq_filter(&ticket, r#".assignee == "Bob""#));
    assert!(matches_jq_filter(&ticket, r#".unknown == "x""#));
    assert!(matches_jq_filter(&ticket, "garbage"));
}

#[test]
fn tags_split_and_trim() {
    assert_eq!(split_tags("ui, backend ,urgent"), vec!["ui", "backend", "urgent"]);
    assert_eq!(split_tags(""), vec![""]);
}

#[test]
fn dep_planning() {
    let deps = vec!["b".to_string()];
    assert!(matches!(plan_dep_add(&"a".to_string(), &"a".to_string(), &deps), DepAdd::SelfDependency));
    assert!(matches!(plan_dep_add(&"a".to_string(), &"b".to_string(), &deps), DepAdd::AlreadyPresent));
    match plan_dep_add(&"a".to_string(), &"c".to_string(), &deps) {
        DepAdd::Update(y) => assert_eq!(y, "[b, c]"),
        other => panic!("unexpected {:?}", other),
    }
}

#[test]
fn link_planning() {
    let ids = vec!["a".to_string(), "b".to_string(), "c".to_string()];
    let (links, added) = plan_links(&vec!["c".to_string()], &ids, 0);
    assert_eq!(links, vec!["c", "b"]);
    assert_eq!(added, 1);
}

#[test]
fn cycle_member_line() {
    let labels = vec![("ab-1".to_string(), "open".to_string())];
    let titles = vec![("ab-1".to_string(), "Title".to_string())];
    assert_eq!(format_cycle_member(&"ab-1".to_string(), &labels, &titles), "  ab-1     [open] Title");
    assert_eq!(format_cycle_member(&"zz".to_string(), &labels, &titles), "  zz       [unknown] (unknown)");
}
