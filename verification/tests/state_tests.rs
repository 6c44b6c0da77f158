use guck::state::StateManager;

#[test]
fn mark_then_query_same_key_is_true_other_branch_false() {
    let mut s = StateManager::new();
    s.mark_file_viewed("/repo", "main", "c2", "src/a.txt");
    assert!(s.is_file_viewed("/repo", "main", "c2", "src/a.txt"));
    assert!(!s.is_file_viewed("/repo", "feature", "c2", "src/a.txt"));
}

#[test]
fn different_commit_is_isolated() {
    let mut s = StateManager::new();
    s.mark_file_viewed("repoA", "main", "abc123", "x.txt");
    assert!(s.is_file_viewed("repoA", "main", "abc123", "x.txt"));
    assert!(!s.is_file_viewed("repoA", "main", "def456", "x.txt"));
    assert!(!s.is_file_viewed("repoB", "main", "abc123", "x.txt"));
    assert!(!s.is_file_viewed("repoA", "main", "abc123", "y.txt"));
}

#[test]
fn marking_twice_leaves_the_persisted_state_identical() {
    let mut s = StateManager::new();
    s.mark_file_viewed("/r", "main", "c1", "a.txt");
    let once = s.to_json();
    s.mark_file_viewed("/r", "main", "c1", "a.txt");
    let twice = s.to_json();
    assert_eq!(once, twice);
    assert!(s.is_file_viewed("/r", "main", "c1", "a.txt"));
}

#[test]
fn fresh_store_reports_nothing_viewed() {
    let s = StateManager::new();
    assert!(!s.is_file_viewed("/r", "main", "c1", "a.txt"));
    assert_eq!(s.to_json(), "{\"repos\":{}}");
}

#[test]
fn one_entry_encodes_to_the_exact_document() {
    let mut s = StateManager::new();
    s.mark_file_viewed("/r", "main", "c1", "a.txt");
    assert_eq!(s.to_json(), "{\"repos\":{\"/r\":{\"main\":{\"c1\":[\"a.txt\"]}}}}");
    s.mark_file_viewed("/r", "main", "c1", "b.txt");
    assert_eq!(s.to_json(), "{\"repos\":{\"/r\":{\"main\":{\"c1\":[\"a.txt\",\"b.txt\"]}}}}");
}

#[test]
fn restart_from_persisted_text_reports_the_same_facts() {
    let mut s = StateManager::new();
    s.mark_file_viewed("/repo", "main", "c2", "src/a.txt");
    s.mark_file_viewed("/repo", "main", "c2", "src/b.txt");
    s.mark_file_viewed("/repo", "dev", "c3", "src/c.txt");
    s.mark_file_viewed("/other", "main", "c2", "src/a.txt");
    let text = s.to_json();
    let rebuilt = StateManager::from_json(&text);
    assert!(rebuilt.is_file_viewed("/repo", "main", "c2", "src/a.txt"));
    assert!(rebuilt.is_file_viewed("/repo", "main", "c2", "src/b.txt"));
    assert!(rebuilt.is_file_viewed("/repo", "dev", "c3", "src/c.txt"));
    assert!(rebuilt.is_file_viewed("/other", "main", "c2", "src/a.txt"));
    assert!(!rebuilt.is_file_viewed("/repo", "dev", "c2", "src/a.txt"));
    assert_eq!(rebuilt.to_json(), text);
}

#[test]
fn corrupt_state_file_falls_back_to_empty() {
    let s = StateManager::from_json("this is { not json");
    assert!(!s.is_file_viewed("/r", "main", "c1", "a.txt"));
    assert_eq!(s.to_json(), "{\"repos\":{}}");
}

#[test]
fn wrong_shape_falls_back_to_empty() {
    assert_eq!(StateManager::from_json("{}").to_json(), "{\"repos\":{}}");
    assert_eq!(StateManager::from_json("{\"repo\":{}}").to_json(), "{\"repos\":{}}");
    assert_eq!(StateManager::from_json("[]").to_json(), "{\"repos\":{}}");
    assert_eq!(StateManager::from_json("").to_json(), "{\"repos\":{}}");
    assert_eq!(
        StateManager::from_json("{\"repos\":{\"r\":{\"b\":{\"c\":[1]}}}}").to_json(),
        "{\"repos\":{}}"
    );
}

#[test]
fn trailing_garbage_is_refused() {
    let s = StateManager::from_json("{\"repos\":{}} extra");
    assert_eq!(s.to_json(), "{\"repos\":{}}");
    let ok = StateManager::from_json("{\"repos\":{}}   \n\t ");
    assert_eq!(ok.to_json(), "{\"repos\":{}}");
}

#[test]
fn duplicate_keys_or_entries_are_refused() {
    let dup_commit = "{\"repos\":{\"r\":{\"b\":{\"c\":[\"a\"],\"c\":[\"b\"]}}}}";
    let s = StateManager::from_json(dup_commit);
    assert!(!s.is_file_viewed("r", "b", "c", "a"));
    let dup_file = "{\"repos\":{\"r\":{\"b\":{\"c\":[\"a\",\"a\"]}}}}";
    let s2 = StateManager::from_json(dup_file);
    assert!(!s2.is_file_viewed("r", "b", "c", "a"));
}

#[test]
fn whitespace_and_pretty_documents_parse() {
    let pretty = "{\n  \"repos\": {\n    \"/repo\": {\n      \"main\": {\n        \"c2\": [\n          \"src/a.txt\"\n        ]\n      }\n    }\n  }\n}";
    let s = StateManager::from_json(pretty);
    assert!(s.is_file_viewed("/repo", "main", "c2", "src/a.txt"));
    assert!(!s.is_file_viewed("/repo", "main", "c2", "src/b.txt"));
}

#[test]
fn escaped_characters_survive_a_round_trip() {
    let mut s = StateManager::new();
    let odd_file = "wei\"rd\\path\nwith\ttabs";
    s.mark_file_viewed("/r\"epo", "ma\\in", "c1", odd_file);
    let text = s.to_json();
    let rebuilt = StateManager::from_json(&text);
    assert!(rebuilt.is_file_viewed("/r\"epo", "ma\\in", "c1", odd_file));
}

#[test]
fn control_characters_are_hex_escaped() {
    let mut s = StateManager::new();
    s.mark_file_viewed("/r", "main", "c1", "a\u{1}b");
    let text = s.to_json();
    assert!(text.contains("a\\u0001b"));
    let rebuilt = StateManager::from_json(&text);
    assert!(rebuilt.is_file_viewed("/r", "main", "c1", "a\u{1}b"));
}

#[test]
fn standard_escapes_are_decoded() {
    let doc = "{\"repos\":{\"r\":{\"b\":{\"c\":[\"\\u0041.txt\",\"x\\ny\",\"s\\/l\",\"q\\u0009t\"]}}}}";
    let s = StateManager::from_json(doc);
    assert!(s.is_file_viewed("r", "b", "c", "A.txt"));
    assert!(s.is_file_viewed("r", "b", "c", "x\ny"));
    assert!(s.is_file_viewed("r", "b", "c", "s/l"));
    assert!(s.is_file_viewed("r", "b", "c", "q\tt"));
}

#[test]
fn non_ascii_paths_round_trip() {
    let mut s = StateManager::new();
    s.mark_file_viewed("/répo", "mäin", "c1", "Grüße.txt");
    let text = s.to_json();
    let rebuilt = StateManager::from_json(&text);
    assert!(rebuilt.is_file_viewed("/répo", "mäin", "c1", "Grüße.txt"));
}
