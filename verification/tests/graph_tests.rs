use ticket_rs::graph::{render_dep_tree, DependencyGraph};
use ticket_rs::storage::Ticket;
use ticket_rs::types::{Data, Metadata, Priority, Status};

fn make_ticket(id: &str, deps: Vec<String>, status: Status, parent: Option<String>) -> Ticket {
    let label = match status {
        Status::Open => "open",
        Status::InProgress => "in_progress",
        Status::Closed => "closed",
    };
    Ticket {
        metadata: Metadata {
            id: id.to_string(),
            status: label.to_string(),
            open: status != Status::Closed,
            deps,
            links: vec![],
            created: "2024-01-15T10:00:00Z".to_string(),
            metadata_type: "task".to_string(),
            priority: Priority::P2,
            assignee: None,
            external_ref: None,
            parent,
            tags: None,
        },
        data: Data {
            title: format!("Ticket {}", id),
            description: None,
            design: None,
            acceptance: None,
            notes: None,
        },
        non_standard_sections: vec![],
    }
}

fn status_of(t: &Ticket) -> Status {
    match t.metadata.status.as_str() {
        "closed" => Status::Closed,
        "in_progress" => Status::InProgress,
        _ => Status::Open,
    }
}

fn build_statuses(tickets: &[Ticket]) -> Vec<(String, Status)> {
    tickets.iter().map(|t| (t.metadata.id.clone(), status_of(t))).collect()
}

fn build_titles(tickets: &[Ticket]) -> Vec<(String, String)> {
    tickets.iter().map(|t| (t.metadata.id.clone(), t.data.title.clone())).collect()
}

fn depth(depths: &[(String, u32)], id: &str) -> Option<u32> {
    depths.iter().rev().find(|(k, _)| k == id).map(|(_, d)| *d)
}

#[test]
fn test_graph_build() {
    let tickets = vec![
        make_ticket("A", vec!["B".into()], Status::Open, None),
        make_ticket("B", vec![], Status::Open, None),
        make_ticket("C", vec!["A".into()], Status::Closed, None),
    ];

    let graph = DependencyGraph::build(&tickets);

    assert_eq!(graph.get_deps("A"), &["B"]);
    assert_eq!(graph.get_deps("B"), &[] as &[String]);
    assert_eq!(graph.get_deps("C"), &["A"]);

    assert_eq!(graph.get_dependents("A"), &["C"]);
    assert_eq!(graph.get_dependents("B"), &["A"]);
}

#[test]
fn test_is_ready() {
    let tickets = vec![
        make_ticket("A", vec!["B".into()], Status::Open, None),
        make_ticket("B", vec![], Status::Closed, None),
        make_ticket("C", vec!["D".into()], Status::Open, None),
        make_ticket("D", vec![], Status::Open, None),
    ];

    let statuses = build_statuses(&tickets);
    let graph = DependencyGraph::build(&tickets);

    assert!(graph.is_ready("A", &statuses));
    assert!(!graph.is_ready("C", &statuses));
    assert!(graph.is_ready("B", &statuses));
}

#[test]
fn test_is_blocked() {
    let tickets = vec![
        make_ticket("A", vec!["B".into()], Status::Open, None),
        make_ticket("B", vec![], Status::Closed, None),
        make_ticket("C", vec!["D".into()], Status::Open, None),
        make_ticket("D", vec![], Status::Open, None),
        make_ticket("E", vec![], Status::Open, None),
    ];

    let statuses = build_statuses(&tickets);
    let graph = DependencyGraph::build(&tickets);

    assert!(!graph.is_blocked("A", &statuses));
    assert!(graph.is_blocked("C", &statuses));
    assert!(!graph.is_blocked("E", &statuses));
}

#[test]
fn test_blockers() {
    let tickets = vec![
        make_ticket("A", vec!["B".into(), "C".into()], Status::Open, None),
        make_ticket("B", vec![], Status::Closed, None),
        make_ticket("C", vec![], Status::Open, None),
    ];

    let statuses = build_statuses(&tickets);
    let graph = DependencyGraph::build(&tickets);

    let blockers = graph.blockers("A", &statuses);
    assert_eq!(blockers, vec!["C"]);
}

#[test]
fn test_cycle_detection_simple() {
    let tickets = vec![
        make_ticket("A", vec!["B".into()], Status::Open, None),
        make_ticket("B", vec!["A".into()], Status::Open, None),
    ];

    let graph = DependencyGraph::build(&tickets);
    let cycles = graph.find_cycles();
    assert!(!cycles.is_empty());
    assert!(cycles[0].display.contains("A"));
    assert!(cycles[0].display.contains("B"));
}

#[test]
fn test_no_cycles() {
    let tickets = vec![
        make_ticket("A", vec!["B".into()], Status::Open, None),
        make_ticket("B", vec!["C".into()], Status::Open, None),
        make_ticket("C", vec![], Status::Open, None),
    ];

    let graph = DependencyGraph::build(&tickets);
    assert!(graph.find_cycles().is_empty());
}

#[test]
fn test_cycle_detection_longer() {
    let tickets = vec![
        make_ticket("A", vec!["B".into()], Status::Open, None),
        make_ticket("B", vec!["C".into()], Status::Open, None),
        make_ticket("C", vec!["A".into()], Status::Open, None),
    ];

    let graph = DependencyGraph::build(&tickets);
    let cycles = graph.find_cycles();
    assert_eq!(cycles.len(), 1);
    assert_eq!(cycles[0].ids.len(), 3);
}

#[test]
fn test_subtree_depths() {
    let tickets = vec![
        make_ticket("A", vec!["B".into(), "C".into()], Status::Open, None),
        make_ticket("B", vec!["D".into()], Status::Open, None),
        make_ticket("C", vec![], Status::Open, None),
        make_ticket("D", vec![], Status::Open, None),
    ];

    let graph = DependencyGraph::build(&tickets);
    let depths = graph.subtree_depths("A");

    assert_eq!(depth(&depths, "A"), Some(3));
    assert_eq!(depth(&depths, "B"), Some(2));
    assert_eq!(depth(&depths, "C"), Some(1));
    assert_eq!(depth(&depths, "D"), Some(1));
}

#[test]
fn test_render_dep_tree() {
    let tickets = vec![
        make_ticket("A", vec!["B".into(), "C".into()], Status::Open, None),
        make_ticket("B", vec!["D".into()], Status::Open, None),
        make_ticket("C", vec![], Status::Closed, None),
        make_ticket("D", vec![], Status::Open, None),
    ];

    let graph = DependencyGraph::build(&tickets);
    let statuses = build_statuses(&tickets);
    let titles = build_titles(&tickets);

    let tree = render_dep_tree(&graph, "A", &statuses, &titles, false);
    assert!(tree.contains("A"));
    assert!(tree.contains("B"));
    assert!(tree.contains("C"));
    assert!(tree.contains("D"));

    assert!(tree.contains("├──") || tree.contains("└──"));
}

#[test]
fn dep_tree_exact_text() {
    let tickets = vec![
        make_ticket("A", vec!["B".into(), "C".into()], Status::Open, None),
        make_ticket("B", vec!["D".into()], Status::Open, None),
        make_ticket("C", vec![], Status::Closed, None),
        make_ticket("D", vec![], Status::Open, None),
    ];
    let graph = DependencyGraph::build(&tickets);
    let statuses = build_statuses(&tickets);
    let titles = build_titles(&tickets);
    let tree = render_dep_tree(&graph, "A", &statuses, &titles, false);
    let expected = "A [Open] Ticket A\n\
                    │   ├──  [Open] Ticket B\n\
                    │   │   └──  [Open] Ticket D\n    └──  [Closed] Ticket C\n";
    assert_eq!(tree, expected);
}

#[test]
fn ready_iff_no_blockers() {
    let tickets = vec![
        make_ticket("A", vec!["B".into(), "C".into()], Status::Open, None),
        make_ticket("B", vec![], Status::Closed, None),
        make_ticket("C", vec![], Status::Closed, None),
        make_ticket("D", vec!["A".into()], Status::Open, None),
    ];
    let statuses = build_statuses(&tickets);
    let graph = DependencyGraph::build(&tickets);
    for id in ["A", "B", "C", "D"] {
        assert_eq!(graph.is_ready(id, &statuses), graph.blockers(id, &statuses).is_empty());
        assert!(!(graph.is_ready(id, &statuses) && graph.is_blocked(id, &statuses)));
    }
}

#[test]
fn unknown_dependency_blocks() {
    let tickets = vec![make_ticket("A", vec!["ghost".into()], Status::Open, None)];
    let statuses = build_statuses(&tickets);
    let graph = DependencyGraph::build(&tickets);
    assert!(!graph.is_ready("A", &statuses));
    assert_eq!(graph.blockers("A", &statuses), vec!["ghost"]);
}

#[test]
fn cycle_display_follows_the_search() {
    let tickets = vec![
        make_ticket("B", vec!["C".into()], Status::Open, None),
        make_ticket("C", vec!["A".into()], Status::Open, None),
        make_ticket("A", vec!["B".into()], Status::Open, None),
    ];
    let graph = DependencyGraph::build(&tickets);
    let cycles = graph.find_cycles();
    assert_eq!(cycles.len(), 1);
    assert_eq!(cycles[0].display, "B -> C -> A -> B");
    assert_eq!(cycles[0].ids, vec!["B", "C", "A"]);
    assert!(graph.has_cycles());
}

#[test]
fn children_and_blocking() {
    let tickets = vec![
        make_ticket("P", vec![], Status::Open, None),
        make_ticket("K", vec!["P".into()], Status::Open, Some("P".into())),
        make_ticket("L", vec![], Status::Open, Some("P".into())),
    ];
    let graph = DependencyGraph::build(&tickets);
    let children: Vec<&str> = graph.children("P", &tickets).iter().map(|t| t.metadata.id.as_str()).collect();
    assert_eq!(children, vec!["K", "L"]);
    let blocking: Vec<&str> = graph.blocking("P", &tickets).iter().map(|t| t.metadata.id.as_str()).collect();
    assert_eq!(blocking, vec!["K"]);
}

#[test]
fn bounded_walks_for_full_tree() {
    let acyclic = vec![
        make_ticket("A", vec!["B".into()], Status::Open, None),
        make_ticket("B", vec![], Status::Open, None),
    ];
    let graph = DependencyGraph::build(&acyclic);
    assert!(graph.is_bounded_from("A"));
    assert!(graph.is_bounded_from("zzz"));
    let cyclic = vec![
        make_ticket("A", vec!["B".into()], Status::Open, None),
        make_ticket("B", vec!["C".into()], Status::Open, None),
        make_ticket("C", vec!["B".into()], Status::Open, None),
        make_ticket("D", vec![], Status::Open, None),
    ];
    let graph = DependencyGraph::build(&cyclic);
    assert!(!graph.is_bounded_from("A"));
    assert!(graph.is_bounded_from("D"));
    let statuses = build_statuses(&acyclic);
    let titles = build_titles(&acyclic);
    let g = DependencyGraph::build(&acyclic);
    assert_eq!(render_dep_tree(&g, "A", &statuses, &titles, true), "A [Open] Ticket A\n    └──  [Open] Ticket B\n");
}

#[test]
fn dependents_match_blocking() {
    let tickets = vec![
        make_ticket("A", vec!["C".to_string()], Status::Open, None),
        make_ticket("B", vec!["D".to_string(), "C".to_string()], Status::Open, None),
        make_ticket("C", vec![], Status::Open, None),
    ];
    let g = DependencyGraph::build(&tickets);
    let blocking: Vec<String> = g.blocking("C", &tickets).iter().map(|t| t.metadata.id.clone()).collect();
    assert_eq!(blocking, vec!["A".to_string(), "B".to_string()]);
    assert_eq!(g.get_dependents("C").to_vec(), blocking);
    assert_eq!(g.get_dependents("D").to_vec(), vec!["B".to_string()]);
    assert_eq!(g.get_deps("B").to_vec(), vec!["D".to_string(), "C".to_string()]);
}

#[test]
fn dep_tree_one_line_per_reachable_id() {
    let tickets = vec![
        make_ticket("A", vec!["B".into(), "C".into()], Status::Open, None),
        make_ticket("B", vec!["C".into(), "A".into()], Status::Open, None),
        make_ticket("C", vec!["B".into()], Status::Open, None),
        make_ticket("E", vec!["A".into()], Status::Open, None),
    ];
    let graph = DependencyGraph::build(&tickets);
    let statuses = build_statuses(&tickets);
    let titles = build_titles(&tickets);
    let tree = render_dep_tree(&graph, "A", &statuses, &titles, false);
    assert_eq!(tree.lines().count(), 3);
    assert!(tree.lines().skip(1).all(|l| l.contains("├── ") || l.contains("└── ")));
    assert!(!tree.contains("Ticket E"));
}

#[test]
fn dep_tree_siblings_in_dependency_order() {
    let tickets = vec![
        make_ticket("R", vec!["A".into()], Status::Open, None),
        make_ticket("A", vec!["B".into(), "C".into()], Status::Open, None),
        make_ticket("B", vec![], Status::Open, None),
        make_ticket("C", vec![], Status::Open, None),
    ];
    let graph = DependencyGraph::build(&tickets);
    let statuses = build_statuses(&tickets);
    let titles = build_titles(&tickets);
    let tree = render_dep_tree(&graph, "R", &statuses, &titles, false);
    let lines: Vec<&str> = tree.lines().collect();
    let b = lines.iter().position(|l| l.contains("Ticket B")).unwrap();
    let c = lines.iter().position(|l| l.contains("Ticket C")).unwrap();
    assert!(b < c);
    assert!(lines[b].contains("├── "));
    assert!(lines[c].contains("└── "));
    assert_eq!(tree, "R [Open] Ticket R\n    └──  [Open] Ticket A\n        ├──  [Open] Ticket B\n        └──  [Open] Ticket C\n");
}

#[test]
fn every_circular_group_gets_a_cycle() {
    let tickets = vec![
        make_ticket("A", vec!["B".into()], Status::Open, None),
        make_ticket("B", vec!["A".into()], Status::Open, None),
        make_ticket("C", vec!["D".into()], Status::Open, None),
        make_ticket("D", vec!["C".into()], Status::Open, None),
        make_ticket("E", vec!["E".into()], Status::Open, None),
        make_ticket("F", vec!["A".into()], Status::Open, None),
    ];
    let graph = DependencyGraph::build(&tickets);
    let cycles = graph.find_cycles();
    let mut displays: Vec<String> = cycles.iter().map(|c| c.display.clone()).collect();
    displays.sort();
    assert_eq!(displays, vec!["A -> B -> A".to_string(), "C -> D -> C".to_string(), "E -> E".to_string()]);
}
