use ticket_rs::id::{generate_id, id_with_draws, is_valid_id, make_id_prefix, resolve_id, ticket_filename, ticket_id_from_filename};

#[test]
fn test_generate_id_produces_valid_format() {
    let id = generate_id("my-project");
    assert!(id.contains('-'));
    let parts: Vec<&str> = id.splitn(2, '-').collect();
    assert_eq!(parts.len(), 2);
    assert_eq!(parts[1].len(), 4);
    assert!(parts[1].chars().all(|c| c.is_ascii_lowercase() || c.is_ascii_digit()));
}

#[test]
fn test_generate_id_multi_segment_prefix() {
    let id = generate_id("my-awesome-project");
    let prefix = id.split('-').next().unwrap();
    assert_eq!(prefix, "map");
}

#[test]
fn test_generate_id_underscore_prefix() {
    let id = generate_id("my_awesome_project");
    let prefix = id.split('-').next().unwrap();
    assert_eq!(prefix, "map");
}

#[test]
fn test_generate_id_single_segment_fallback() {
    let id = generate_id("ab");
    let prefix = id.split('-').next().unwrap();
    assert_eq!(prefix, "ab");
}

#[test]
fn test_resolve_id_exact() {
    let ids: Vec<String> = vec!["abc-1234".into(), "def-5678".into()];
    let result = resolve_id(&ids, "abc-1234").unwrap();
    assert_eq!(result, "abc-1234");
}

#[test]
fn test_resolve_id_suffix() {
    let ids: Vec<String> = vec!["abc-1234".into(), "def-5678".into()];
    let result = resolve_id(&ids, "1234").unwrap();
    assert_eq!(result, "abc-1234");
}

#[test]
fn test_resolve_id_prefix() {
    let ids: Vec<String> = vec!["abc-1234".into(), "def-5678".into()];
    let result = resolve_id(&ids, "abc").unwrap();
    assert_eq!(result, "abc-1234");
}

#[test]
fn test_resolve_id_substring() {
    let ids: Vec<String> = vec!["abc-1234".into(), "def-5678".into()];
    let result = resolve_id(&ids, "c-1").unwrap();
    assert_eq!(result, "abc-1234");
}

#[test]
fn test_resolve_id_ambiguous() {
    let ids: Vec<String> = vec!["abc-1234".into(), "abc-5678".into()];
    let result = resolve_id(&ids, "abc");
    assert!(result.is_err());
    assert!(result.unwrap_err().message().contains("ambiguous"));
}

#[test]
fn test_resolve_id_not_found() {
    let ids: Vec<String> = vec!["abc-1234".into()];
    let result = resolve_id(&ids, "nonexistent");
    assert!(result.is_err());
    assert!(result.unwrap_err().message().contains("not found"));
}

#[test]
fn test_resolve_id_exact_takes_precedence() {
    let ids: Vec<String> = vec!["abc".into(), "abc-1234".into()];
    let result = resolve_id(&ids, "abc").unwrap();
    assert_eq!(result, "abc");
}

#[test]
fn test_ticket_filename_roundtrip() {
    let id = "nw-5c46";
    let filename = ticket_filename(id);
    assert_eq!(filename, "nw-5c46.md");
    assert_eq!(ticket_id_from_filename(&filename).unwrap(), id);
}

#[test]
fn test_is_valid_id() {
    assert!(is_valid_id("nw-5c46"));
    assert!(is_valid_id("tk-ab12"));
    assert!(!is_valid_id(""));
    assert!(!is_valid_id("short"));
    assert!(!is_valid_id("too-long-suffix-12345"));
}

#[test]
fn resolve_messages_exact() {
    let ids: Vec<String> = vec!["abc-1234".into(), "abc-5678".into()];
    assert_eq!(
        resolve_id(&ids, "abc").unwrap_err().message(),
        "ambiguous ID 'abc' matches multiple tickets: abc-1234, abc-5678"
    );
    assert_eq!(resolve_id(&ids, " zz ").unwrap_err().message(), "ticket 'zz' not found");
    assert_eq!(resolve_id(&ids, " abc-5678 ").unwrap(), "abc-5678");
}

#[test]
fn id_with_fixed_draws() {
    assert_eq!(id_with_draws("my-project", &vec![0, 1, 26, 35]), "mp-ab09");
    assert_eq!(make_id_prefix("ab"), "ab");
    assert_eq!(make_id_prefix("my_awesome-project"), "map");
}

#[test]
fn filename_without_extension_is_no_ticket() {
    assert_eq!(ticket_id_from_filename("notes.txt"), None);
    assert_eq!(ticket_id_from_filename(".md"), Some(String::new()));
}

#[test]
fn generated_ids_are_valid() {
    for dir in ["my-project", "ticket_rs", "x", "tool"] {
        assert!(is_valid_id(&generate_id(dir)), "{}", dir);
    }
    let id = id_with_draws("my-awesome-project", &vec![0, 25, 26, 35]);
    assert_eq!(id, "map-az09");
    assert!(is_valid_id(&id));
    assert!(!is_valid_id(&id_with_draws("a-", &vec![0, 0, 0, 0])));
}

#[test]
fn resolve_id_tiers_in_order() {
    let ids: Vec<String> = vec!["abc-1234".into(), "xyz-abc1".into()];
    assert_eq!(resolve_id(&ids, "abc").unwrap(), "abc-1234");
    let ids: Vec<String> = vec!["ab-0012".into(), "12-abcd".into()];
    assert_eq!(resolve_id(&ids, "12").unwrap(), "ab-0012");
    let ids: Vec<String> = vec!["x-a9b1".into(), "y-a9b2".into(), "z-c3d4".into()];
    assert!(resolve_id(&ids, "a9").is_err());
    assert_eq!(resolve_id(&ids, "c3").unwrap(), "z-c3d4");
}
