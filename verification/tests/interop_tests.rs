use guck::state::StateManager;
use std::collections::BTreeMap;

#[test]
fn persisted_document_is_valid_json_for_other_parsers() {
    let mut s = StateManager::new();
    let odd = "a\"b\\c\nd\u{1}e";
    s.mark_file_viewed("/r", "main", "c1", odd);
    s.mark_file_viewed("/r", "main", "c1", "plain.txt");
    let text = s.to_json();
    let v: serde_json::Value = serde_json::from_str(&text).expect("document must be valid JSON");
    assert_eq!(
        v["repos"]["/r"]["main"]["c1"][0],
        serde_json::Value::String(odd.to_string())
    );
    assert_eq!(
        v["repos"]["/r"]["main"]["c1"][1],
        serde_json::Value::String("plain.txt".to_string())
    );
}

#[test]
fn documents_written_by_other_serializers_parse() {
    let mut commits: BTreeMap<String, Vec<String>> = BTreeMap::new();
    commits.insert("c2".to_string(), vec!["src/a.txt".to_string(), "we\"ird\\p".to_string()]);
    let mut branches: BTreeMap<String, BTreeMap<String, Vec<String>>> = BTreeMap::new();
    branches.insert("main".to_string(), commits);
    let mut repos: BTreeMap<String, BTreeMap<String, BTreeMap<String, Vec<String>>>> =
        BTreeMap::new();
    repos.insert("/repo".to_string(), branches);

    let mut top = serde_json::Map::new();
    top.insert("repos".to_string(), serde_json::to_value(&repos).unwrap());
    let doc = serde_json::Value::Object(top);

    let compact = serde_json::to_string(&doc).unwrap();
    let s = StateManager::from_json(&compact);
    assert!(s.is_file_viewed("/repo", "main", "c2", "src/a.txt"));
    assert!(s.is_file_viewed("/repo", "main", "c2", "we\"ird\\p"));
    assert!(!s.is_file_viewed("/repo", "main", "c1", "src/a.txt"));

    let pretty = serde_json::to_string_pretty(&doc).unwrap();
    let s2 = StateManager::from_json(&pretty);
    assert!(s2.is_file_viewed("/repo", "main", "c2", "src/a.txt"));
    assert!(s2.is_file_viewed("/repo", "main", "c2", "we\"ird\\p"));
}
