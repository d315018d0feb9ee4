use ticket_rs::commands::{
    active_tickets, filter_tickets, plan_dep_add, plan_dep_remove, plan_links, plan_unlink, select_tickets,
    status_map, title_map, DepAdd, Listing,
};
use ticket_rs::display::{format_ticket_blocked, format_ticket_list, format_ticket_show};
use ticket_rs::graph::DependencyGraph;
use ticket_rs::json::format_tickets_jsonl;
use ticket_rs::storage::{SearchQuery, Ticket};
use ticket_rs::store::{Storage, StorageError};
use ticket_rs::types::{parse_status_label, CreateOptions, Priority, Status};

fn opts(title: &str) -> CreateOptions {
    CreateOptions {
        title: Some(title.to_string()),
        description: None,
        design: None,
        acceptance: None,
        create_type: None,
        priority: None,
        assignee: None,
        external_ref: None,
        parent: None,
        tags: None,
    }
}

struct Tk {
    store: Storage,
}

impl Tk {
    fn new() -> Self {
        Tk { store: Storage::from_listing(".tickets".to_string(), vec![]) }
    }

    fn create(&mut self, title: &str) -> String {
        let (id, _) = self.store.create(&opts(title), "my-project", None);
        id
    }

    fn file(&self, id: &str) -> String {
        self.store.file_text(&format!("{}.md", id)).expect("ticket file")
    }

    fn status(&mut self, id: &str, s: &str) -> Result<(), StorageError> {
        let id = self.store.resolve_id(id)?;
        self.store.read(&id)?;
        self.store.update_field(&id, "status", s).map(|_| ())
    }

    fn lifecycle(&mut self, id: &str, open: bool, status: &str) {
        let id = self.store.resolve_id(id).unwrap();
        self.store.update_field(&id, "open", if open { "true" } else { "false" }).unwrap();
        self.store.update_field(&id, "status", status).unwrap();
    }

    fn dep(&mut self, id: &str, dep: &str) -> String {
        let id = self.store.resolve_id(id).unwrap();
        let dep = self.store.resolve_id(dep).unwrap();
        let t = self.store.read(&id).unwrap();
        match plan_dep_add(&id, &dep, &t.metadata.deps) {
            DepAdd::SelfDependency => "cannot depend on itself".to_string(),
            DepAdd::AlreadyPresent => "Dependency already exists".to_string(),
            DepAdd::Update(y) => {
                self.store.update_field(&id, "deps", &y).unwrap();
                format!("Added dependency: {} -> {}", id, dep)
            }
        }
    }

    fn undep(&mut self, id: &str, dep: &str) -> Result<String, String> {
        let t = self.store.read(id).unwrap();
        match plan_dep_remove(&dep.to_string(), &t.metadata.deps) {
            Some(y) => {
                self.store.update_field(id, "deps", &y).unwrap();
                Ok(format!("Removed dependency: {} -/-> {}", id, dep))
            }
            None => Err("Dependency not found".to_string()),
        }
    }

    fn link(&mut self, ids: &[String]) -> usize {
        let mut total = 0;
        for i in 0..ids.len() {
            let t = self.store.read(&ids[i]).unwrap();
            let (links, added) = plan_links(&t.metadata.links, ids, i);
            total += added;
            if links != t.metadata.links {
                self.store.update_field(&ids[i], "links", &ticket_rs::frontmatter::format_yaml_array(&links)).unwrap();
            }
        }
        total
    }

    fn unlink(&mut self, a: &str, b: &str) {
        for rid in [a.to_string(), b.to_string()] {
            let t = self.store.read(&rid).unwrap();
            if let Some(y) = plan_unlink(&t.metadata.links, &a.to_string(), &b.to_string()) {
                self.store.update_field(&rid, "links", &y).unwrap();
            }
        }
    }

    fn listing(&self, l: Listing) -> String {
        let tickets = self.store.all().unwrap();
        let statuses = status_map(&tickets);
        let graph = DependencyGraph::build(&tickets);
        let blocked = matches!(l, Listing::Blocked);
        let shown = select_tickets(l, &tickets, &graph, &statuses, &None, &None);
        let mut out = String::new();
        for t in shown {
            if blocked {
                out.push_str(&format_ticket_blocked(t, &graph.blockers(&t.metadata.id, &statuses), &statuses));
            } else {
                out.push_str(&format_ticket_list(t, false));
            }
            out.push('\n');
        }
        out
    }

    fn query(&self, filter: Option<&str>) -> String {
        let tickets = self.store.all().unwrap();
        match filter {
            Some(f) => {
                let kept: Vec<Ticket> = filter_tickets(&tickets, f).into_iter().cloned().collect();
                format_tickets_jsonl(&kept)
            }
            None => format_tickets_jsonl(&tickets),
        }
    }

    fn show(&self, partial: &str) -> Result<String, StorageError> {
        let id = self.store.resolve_id(partial)?;
        let ticket = self.store.read(&id)?;
        let all = self.store.all()?;
        let statuses = status_map(&all);
        let titles = title_map(&all);
        let graph = DependencyGraph::build(&all);
        Ok(format_ticket_show(&ticket, &statuses, &titles, &graph, &all))
    }
}

#[test]
fn test_create_basic_ticket() {
    let mut t = Tk::new();
    let id = t.create("My first ticket");
    let content = t.file(&id);
    assert!(content.contains(&id), "Content should contain the ID");
    assert!(content.contains("# My first ticket"), "Content should contain title");
    assert!(content.contains("status: open"), "Default status should be open");
    assert!(content.contains("type: task"), "Default type should be task");
    assert!(content.contains("priority: 2"), "Default priority should be 2");
    assert!(content.contains("deps: []"), "Default deps should be empty");
    assert!(content.contains("links: []"), "Default links should be empty");
    assert!(content.contains("created: "), "Should have a created timestamp");
}

#[test]
fn test_create_with_title() {
    let mut t = Tk::new();
    let id = t.create("Test ticket");
    assert!(t.file(&id).contains("# Test ticket"));
}

#[test]
fn test_status_in_progress() {
    let mut t = Tk::new();
    let id = t.create("Test");
    t.status(&id, "in_progress").unwrap();
    assert!(t.file(&id).contains("status: in_progress"));
}

#[test]
fn test_status_closed() {
    let mut t = Tk::new();
    let id = t.create("Test");
    t.status(&id, "closed").unwrap();
    assert!(t.file(&id).contains("status: closed"));
}

#[test]
fn test_status_reopen() {
    let mut t = Tk::new();
    let id = t.create("Test");
    t.status(&id, "closed").unwrap();
    t.status(&id, "open").unwrap();
    assert!(t.file(&id).contains("status: open"));
}

#[test]
fn test_start_command() {
    let mut t = Tk::new();
    let id = t.create("Test");
    t.lifecycle(&id, true, "in_progress");
    assert!(t.file(&id).contains("status: in_progress"));
}

#[test]
fn test_close_command() {
    let mut t = Tk::new();
    let id = t.create("Test");
    t.lifecycle(&id, false, "closed");
    assert!(t.file(&id).contains("status: closed"));
}

#[test]
fn test_reopen_command() {
    let mut t = Tk::new();
    let id = t.create("Test");
    t.lifecycle(&id, false, "closed");
    t.lifecycle(&id, true, "open");
    assert!(t.file(&id).contains("status: open"));
}

#[test]
fn test_invalid_status() {
    let mut t = Tk::new();
    let id = t.create("Test");
    let err = parse_status_label("invalid").unwrap_err();
    assert!(err.contains("invalid status") || err.contains("invalid"));
    assert!(t.file(&id).contains("status: open"));
}

#[test]
fn status_labels_accepted() {
    assert_eq!(parse_status_label("open"), Ok(Status::Open));
    assert_eq!(parse_status_label("in_progress"), Ok(Status::InProgress));
    assert_eq!(parse_status_label("closed"), Ok(Status::Closed));
    assert_eq!(parse_status_label("Open"), Err("invalid status: Open".to_string()));
    assert_eq!(parse_status_label(""), Err("invalid status: ".to_string()));
}

#[test]
fn test_status_non_existent() {
    let mut t = Tk::new();
    let err = t.status("nonexistent", "open").unwrap_err();
    assert!(err.message().contains("not found") || err.message().contains("Error"));
}

#[test]
fn test_show_ticket() {
    let mut t = Tk::new();
    let id = t.create("Test ticket");
    let out = t.show(&id).unwrap();
    assert!(out.contains(&id));
    assert!(out.contains("Test ticket"));
    assert!(out.contains("status: open"));
}

#[test]
fn test_show_non_existent() {
    let t = Tk::new();
    let err = t.show("nonexistent").unwrap_err();
    assert!(err.message().contains("not found") || err.message().contains("Error"));
}

#[test]
fn test_show_with_partial_id() {
    let mut t = Tk::new();
    let id = t.create("Test ticket");
    let suffix = id.split('-').nth(1).unwrap();
    let out = t.show(suffix).unwrap();
    assert!(out.contains(&id));
}

#[test]
fn test_list_all() {
    let mut t = Tk::new();
    let id1 = t.create("First ticket");
    let id2 = t.create("Second ticket");
    let out: Vec<String> = t.store.search(&SearchQuery::default()).unwrap().iter().map(|x| format_ticket_list(x, true)).collect();
    let out = out.join("\n");
    assert!(out.contains(&id1));
    assert!(out.contains(&id2));
}

#[test]
fn test_list_empty() {
    let mut t = Tk::new();
    t.create("temp");
    let out = t.store.search(&SearchQuery::default()).unwrap();
    assert!(!out.is_empty(), "Expected at least one ticket");
}

#[test]
fn test_list_with_status_filter() {
    let mut t = Tk::new();
    let id1 = t.create("Open ticket");
    let id2 = t.create("Closed ticket");
    t.lifecycle(&id2, false, "closed");
    let q = SearchQuery { status: Some("open".to_string()), ..Default::default() };
    let out: Vec<String> = t.store.search(&q).unwrap().iter().map(|x| format_ticket_list(x, true)).collect();
    let out = out.join("\n");
    assert!(out.contains(&id1), "Open ticket should appear: {}", out);
    assert!(!out.contains(&id2), "Closed ticket should not appear: {}", out);
}

#[test]
fn test_add_dependency() {
    let mut t = Tk::new();
    let id1 = t.create("Main ticket");
    let id2 = t.create("Dependency ticket");
    let out = t.dep(&id1, &id2);
    assert!(out.contains("Added dependency") || out.contains("->"));
    assert!(t.file(&id1).contains(&id2), "Deps should contain the dependency ID");
}

#[test]
fn test_add_dependency_idempotent() {
    let mut t = Tk::new();
    let id1 = t.create("Main ticket");
    let id2 = t.create("Dependency ticket");
    t.dep(&id1, &id2);
    let out = t.dep(&id1, &id2);
    assert!(out.contains("already exists"), "Expected 'already exists', got: {}", out);
}

#[test]
fn test_remove_dependency() {
    let mut t = Tk::new();
    let id1 = t.create("Main ticket");
    let id2 = t.create("Dependency ticket");
    t.dep(&id1, &id2);
    let out = t.undep(&id1, &id2).unwrap();
    assert!(out.contains("Removed dependency") || out.contains("-/->"));
    assert!(!t.file(&id1).contains(&format!("[{}]", id2)), "Deps should not contain the removed dependency");
}

#[test]
fn test_remove_non_existent_dependency() {
    let mut t = Tk::new();
    let id1 = t.create("Main ticket");
    let id2 = t.create("Dependency ticket");
    let err = t.undep(&id1, &id2).unwrap_err();
    assert!(err.contains("not found"));
}

#[test]
fn test_link_two_tickets() {
    let mut t = Tk::new();
    let id1 = t.create("First");
    let id2 = t.create("Second");
    let added = t.link(&[id1.clone(), id2.clone()]);
    assert_eq!(added, 2);
    assert!(t.file(&id1).contains(&id2), "First should link to second");
    assert!(t.file(&id2).contains(&id1), "Second should link to first");
    assert_eq!(t.link(&[id1.clone(), id2.clone()]), 0);
}

#[test]
fn test_unlink() {
    let mut t = Tk::new();
    let id1 = t.create("First");
    let id2 = t.create("Second");
    t.link(&[id1.clone(), id2.clone()]);
    t.unlink(&id1, &id2);
    let content1 = t.file(&id1);
    assert!(!content1.contains(&id2) || content1.contains("links: []"),
        "First should have no links after unlink: {}", content1);
}

#[test]
fn test_ready_shows_ticket_without_deps() {
    let mut t = Tk::new();
    let id = t.create("Ready ticket");
    assert!(t.listing(Listing::Ready).contains(&id));
}

#[test]
fn test_ready_excludes_blocked_ticket() {
    let mut t = Tk::new();
    let id1 = t.create("Blocked ticket");
    let id2 = t.create("Blocker");
    t.dep(&id1, &id2);
    let out = t.listing(Listing::Ready);
    assert!(!out.contains(&id1), "Blocked ticket should not show in ready: {}", out);
    assert!(out.contains(&id2), "Blocker should show in ready: {}", out);
}

#[test]
fn test_ready_includes_ticket_with_closed_deps() {
    let mut t = Tk::new();
    let id1 = t.create("Main");
    let id2 = t.create("Done blocker");
    t.dep(&id1, &id2);
    t.lifecycle(&id2, false, "closed");
    let out = t.listing(Listing::Ready);
    assert!(out.contains(&id1), "Ticket with closed deps should be ready: {}", out);
}

#[test]
fn test_ready_excludes_closed() {
    let mut t = Tk::new();
    let id = t.create("Closed ticket");
    t.lifecycle(&id, false, "closed");
    let out = t.listing(Listing::Ready);
    assert!(!out.contains(&id), "Closed ticket should not be ready: {}", out);
}

#[test]
fn test_blocked_shows_ticket_with_open_deps() {
    let mut t = Tk::new();
    let id1 = t.create("Blocked ticket");
    let id2 = t.create("Blocker");
    t.dep(&id1, &id2);
    let out = t.listing(Listing::Blocked);
    assert!(out.contains(&id1), "Blocked ticket should appear: {}", out);
    assert!(out.contains(&id2) || out.contains("<-"), "Should show blocker: {}", out);
}

#[test]
fn test_closed_shows_recently_closed() {
    let mut t = Tk::new();
    let id = t.create("Done ticket");
    t.lifecycle(&id, false, "closed");
    let out = t.listing(Listing::Closed);
    assert!(out.contains(&id), "Closed ticket should appear: {}", out);
    assert!(out.contains("closed"), "Should show closed status");
}

#[test]
fn test_add_note() {
    let mut t = Tk::new();
    let id = t.create("Test");
    t.store.add_note(&id, "This is my note").unwrap();
    let content = t.file(&id);
    assert!(content.contains("## Notes"), "Should have Notes section");
    assert!(content.contains("This is my note"), "Should contain note text");
    assert!(content.contains("**"), "Should have timestamp markers");
}

#[test]
fn test_add_multiple_notes() {
    let mut t = Tk::new();
    let id = t.create("Test");
    t.store.add_note(&id, "First note").unwrap();
    t.store.add_note(&id, "Second note").unwrap();
    let content = t.file(&id);
    assert!(content.contains("First note"));
    assert!(content.contains("Second note"));
    assert_eq!(content.matches("## Notes").count(), 1);
}

#[test]
fn test_add_note_non_existent() {
    let mut t = Tk::new();
    let err = t.store.resolve_id("nonexistent").map(|id| t.store.add_note(&id, "My note"));
    assert!(err.unwrap_err().message().contains("not found"));
}

#[test]
fn test_query_all() {
    let mut t = Tk::new();
    let id1 = t.create("First");
    let id2 = t.create("Second");
    let out = t.query(None);
    assert!(out.contains(&id1));
    assert!(out.contains(&id2));
    for line in out.lines() {
        assert!(line.starts_with('{'), "Each line should be JSON: {}", line);
    }
}

#[test]
fn test_query_with_filter() {
    let mut t = Tk::new();
    let id1 = t.create("Open ticket");
    let id2 = t.create("Closed ticket");
    t.lifecycle(&id2, false, "closed");
    let out = t.query(Some(r#".status == "open""#));
    assert!(out.contains(&id1));
    assert!(!out.contains(&id2), "Closed ticket should not appear in open query");
}

#[test]
fn test_edit_shows_path() {
    let mut t = Tk::new();
    let id = t.create("Test");
    let path = t.store.ticket_path(&id);
    assert!(path.contains(".tickets"));
    assert!(path.contains(&format!("{}.md", id)));
}

#[test]
fn test_ambiguous_id() {
    let mut t = Tk::new();
    let id1 = t.create("First");
    let _id2 = t.create("Second");
    let prefix = id1.split('-').next().unwrap();
    let err = t.show(prefix).unwrap_err().message();
    assert!(err.contains("ambiguous") || err.contains("matches multiple"),
        "Expected ambiguous error, got: {}", err);
}

#[test]
fn test_dep_cycle_none() {
    let mut t = Tk::new();
    let id1 = t.create("A");
    let id2 = t.create("B");
    t.dep(&id1, &id2);
    let open = active_tickets(t.store.all().unwrap());
    let graph = DependencyGraph::build(&open);
    assert!(graph.find_cycles().is_empty());
}

#[test]
fn store_index_is_sorted_and_filtered() {
    let files = vec![
        ("b-0001.md".to_string(), "---\nid: b-0001\n---\n# B\n".to_string()),
        ("notes.txt".to_string(), "x".to_string()),
        ("a-0001.md".to_string(), "---\nid: a-0001\npriority: 3\n---\n# A\n".to_string()),
    ];
    let store = Storage::from_listing("/tmp/.tickets/".to_string(), files);
    assert_eq!(store.all_ids(), vec!["a-0001", "b-0001"]);
    assert_eq!(store.ticket_path("a-0001"), "/tmp/.tickets/a-0001.md");
    assert_eq!(store.dir(), "/tmp/.tickets/");
    let found: Vec<String> = store.search(&SearchQuery::default()).unwrap().into_iter().map(|t| t.metadata.id).collect();
    assert_eq!(found, vec!["b-0001", "a-0001"]);
    assert_eq!(store.read_partial("a-").unwrap().data.title, "A");
    match store.read("zzz") {
        Err(StorageError::Unreadable { path }) => assert_eq!(path, "/tmp/.tickets/zzz.md"),
        other => panic!("unexpected {:?}", other.map(|t| t.metadata.id)),
    }
}

#[test]
fn store_update_errors_and_migrate() {
    let files = vec![
        ("a-0001.md".to_string(), "---\nid: a-0001\nstatus: closed\n---\n# A\n".to_string()),
        ("b-0001.md".to_string(), "---\nid: b-0001\nopen: true\n---\n# B\n".to_string()),
        ("bad.md".to_string(), "# no front matter\n".to_string()),
    ];
    let mut store = Storage::from_listing(".tickets".to_string(), files);
    let err = store.update_field("b-0001", "assignee", "x").unwrap_err();
    assert_eq!(err.message(), "Field 'assignee' not found in ticket 'b-0001'");
    assert_eq!(store.read("bad").unwrap_err().message(), "Missing YAML frontmatter");
    assert!(store.all().is_err());
    let (modified, skipped) = store.migrate();
    assert_eq!(modified, vec![("a-0001".to_string(), false)]);
    assert_eq!(skipped, 1);
    assert_eq!(store.file_text("a-0001.md").unwrap(), "---\nid: a-0001\nstatus: closed\nopen: false\n---\n# A\n");
    let (again, skipped_again) = store.migrate();
    assert!(again.is_empty());
    assert_eq!(skipped_again, 2);
}

#[test]
fn field_updates_read_back() {
    let mut store = Storage::from_listing(".tickets".to_string(), vec![]);
    let mut o = opts("Keep me");
    o.priority = Priority::from_u8(1);
    o.assignee = Some("alice".to_string());
    o.tags = Some(vec!["ui".to_string(), "ux".to_string()]);
    o.description = Some("Body text".to_string());
    let (id, _) = store.create(&o, "proj", None);
    store.update_field(&id, "open", "false").unwrap();
    store.update_field(&id, "status", "closed").unwrap();
    store.update_field(&id, "deps", "[proj-x1, proj-x2]").unwrap();
    store.update_field(&id, "links", "[proj-y1]").unwrap();
    let t = store.read(&id).unwrap();
    assert_eq!(t.metadata.status, "closed");
    assert!(!t.metadata.open);
    assert_eq!(t.metadata.deps, vec!["proj-x1".to_string(), "proj-x2".to_string()]);
    assert_eq!(t.metadata.links, vec!["proj-y1".to_string()]);
    assert_eq!(t.metadata.id, id);
    assert_eq!(t.metadata.priority.to_u8(), 1);
    assert_eq!(t.metadata.assignee, Some("alice".to_string()));
    assert_eq!(t.metadata.tags, Some(vec!["ui".to_string(), "ux".to_string()]));
    assert_eq!(t.data.title, "Keep me");
}

#[test]
fn added_notes_read_back() {
    let mut store = Storage::from_listing(".tickets".to_string(), vec![]);
    let mut o = opts("Notes here");
    o.design = Some("Plan.".to_string());
    let (id, _) = store.create(&o, "proj", None);
    store.add_note_at(&id, "Found it.", "2024-01-15T12:00:00Z").unwrap();
    store.add_note_at(&id, "Fixed it.", "2024-01-16T12:00:00Z").unwrap();
    let t = store.read(&id).unwrap();
    let notes = t.data.notes.unwrap();
    assert_eq!(notes.len(), 2);
    assert_eq!(notes[0].timestamp, "2024-01-15T12:00:00Z");
    assert_eq!(notes[0].body, "Found it.");
    assert_eq!(notes[1].timestamp, "2024-01-16T12:00:00Z");
    assert_eq!(notes[1].body, "Fixed it.");
    assert_eq!(t.data.design.as_deref(), Some("Plan."));
    assert_eq!(t.data.description.as_deref(), Some(""));
    assert_eq!(t.data.title, "Notes here");
}

fn created_file(o: &CreateOptions) -> String {
    let mut store = Storage::from_listing(".tickets".to_string(), vec![]);
    let (id, content) = store.create(o, "my-project", None);
    assert_eq!(store.file_text(&format!("{}.md", id)).unwrap(), content);
    content
}

#[test]
fn test_create_default_title() {
    let mut o = opts("x");
    o.title = None;
    assert!(created_file(&o).contains("# Untitled"));
}

#[test]
fn test_create_with_description() {
    let mut o = opts("Test ticket");
    o.description = Some("This is the description".to_string());
    assert!(created_file(&o).contains("This is the description"));
}

#[test]
fn test_create_with_type() {
    let mut o = opts("Bug ticket");
    o.create_type = Some("bug".to_string());
    assert!(created_file(&o).contains("type: bug"));
}

#[test]
fn test_create_with_priority() {
    let mut o = opts("High priority");
    o.priority = Priority::from_u8(0);
    assert!(created_file(&o).contains("priority: 0"));
}

#[test]
fn test_create_with_assignee() {
    let mut o = opts("Assigned ticket");
    o.assignee = Some("John Doe".to_string());
    assert!(created_file(&o).contains("assignee: John Doe"));
}

#[test]
fn test_create_with_external_ref() {
    let mut o = opts("External");
    o.external_ref = Some("JIRA-123".to_string());
    assert!(created_file(&o).contains("external-ref: JIRA-123"));
}

#[test]
fn test_create_with_design() {
    let mut o = opts("Design ticket");
    o.design = Some("Use microservices".to_string());
    let content = created_file(&o);
    assert!(content.contains("## Design"));
    assert!(content.contains("Use microservices"));
}

#[test]
fn test_create_with_acceptance() {
    let mut o = opts("Story");
    o.acceptance = Some("Should pass all tests".to_string());
    let content = created_file(&o);
    assert!(content.contains("## Acceptance Criteria"));
    assert!(content.contains("Should pass all tests"));
}

#[test]
fn test_create_with_tags() {
    let mut o = opts("Tagged");
    o.tags = Some(ticket_rs::commands::split_tags("ui,backend,urgent"));
    let content = created_file(&o);
    assert!(content.contains("ui, backend, urgent") || content.contains("ui") && content.contains("urgent"));
}

#[test]
fn created_ticket_resolves_at_once() {
    let mut t = Tk::new();
    let first = t.create("One");
    assert_eq!(t.store.resolve_id(&first).ok(), Some(first.clone()));
    let second = t.create("Two");
    assert_eq!(t.store.resolve_id(&second).ok(), Some(second.clone()));
    assert!(t.store.all_ids().contains(&second));
    assert_eq!(t.store.resolve_id(&first).ok(), Some(first));
}
