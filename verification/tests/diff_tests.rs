use guck::diff::{
    build_file_change, build_file_changes, build_patch, count_origin, resolve_path, status_name,
    DeltaKind, RawFileDelta, RawLine,
};

fn line(origin: char, content: &str) -> RawLine {
    RawLine { origin, content: content.to_string() }
}

fn modified_delta() -> RawFileDelta {
    RawFileDelta {
        old_path: Some("src/a.txt".to_string()),
        new_path: Some("src/a.txt".to_string()),
        kind: DeltaKind::Modified,
        lines: vec![
            line(' ', "fn main() {\n"),
            line('+', "    one();\n"),
            line(' ', "    keep();\n"),
            line('+', "    two();\n"),
            line('-', "    gone();\n"),
            line('+', "    three();\n"),
            line(' ', "}\n"),
        ],
    }
}

#[test]
fn one_modified_file_with_three_additions_one_deletion() {
    let deltas = vec![modified_delta()];
    let changes = build_file_changes(&deltas);
    assert_eq!(changes.len(), 1);
    let fc = &changes[0];
    assert_eq!(fc.path, "src/a.txt");
    assert_eq!(fc.status, "modified");
    assert_eq!(fc.additions, 3);
    assert_eq!(fc.deletions, 1);
    assert_eq!(
        fc.patch,
        " fn main() {\n+    one();\n     keep();\n+    two();\n-    gone();\n+    three();\n }\n"
    );
}

#[test]
fn patch_drops_headers_and_keeps_only_marked_lines() {
    let lines = vec![
        line('F', "diff --git a/x.txt b/x.txt\n"),
        line('H', "@@ -1,2 +1,2 @@\n"),
        line(' ', "ctx\n"),
        line('-', "old\n"),
        line('+', "new\n"),
        line('=', "\\ No newline at end of file\n"),
    ];
    let patch = build_patch(&lines);
    assert_eq!(patch, " ctx\n-old\n+new\n");
    for l in patch.lines() {
        let first = l.chars().next().unwrap();
        assert!(first == '+' || first == '-' || first == ' ');
        assert!(!l.starts_with("@@"));
        assert!(!l.starts_with("diff --git"));
    }
}

#[test]
fn sums_of_per_file_counts_match_the_aggregate() {
    let deltas = vec![
        modified_delta(),
        RawFileDelta {
            old_path: None,
            new_path: Some("b.txt".to_string()),
            kind: DeltaKind::Added,
            lines: vec![line('+', "a\n"), line('+', "b\n")],
        },
    ];
    let changes = build_file_changes(&deltas);
    let total_adds: usize = changes.iter().map(|c| c.additions).sum();
    let total_dels: usize = changes.iter().map(|c| c.deletions).sum();
    let mut raw_adds = 0;
    let mut raw_dels = 0;
    for d in &deltas {
        raw_adds += count_origin(&d.lines, '+');
        raw_dels += count_origin(&d.lines, '-');
    }
    assert_eq!(total_adds, raw_adds);
    assert_eq!(total_adds, 5);
    assert_eq!(total_dels, raw_dels);
    assert_eq!(total_dels, 1);
}

#[test]
fn status_words_cover_every_kind() {
    assert_eq!(status_name(DeltaKind::Added), "added");
    assert_eq!(status_name(DeltaKind::Deleted), "deleted");
    assert_eq!(status_name(DeltaKind::Modified), "modified");
    assert_eq!(status_name(DeltaKind::Renamed), "renamed");
    assert_eq!(status_name(DeltaKind::Copied), "copied");
    assert_eq!(status_name(DeltaKind::Unmodified), "unknown");
    assert_eq!(status_name(DeltaKind::Ignored), "unknown");
    assert_eq!(status_name(DeltaKind::Untracked), "unknown");
    assert_eq!(status_name(DeltaKind::Typechange), "unknown");
    assert_eq!(status_name(DeltaKind::Unreadable), "unknown");
    assert_eq!(status_name(DeltaKind::Conflicted), "unknown");
}

#[test]
fn path_falls_back_from_new_to_old_to_empty() {
    let with_new = RawFileDelta {
        old_path: Some("old.txt".to_string()),
        new_path: Some("new.txt".to_string()),
        kind: DeltaKind::Renamed,
        lines: vec![],
    };
    assert_eq!(resolve_path(&with_new), "new.txt");

    let deleted = RawFileDelta {
        old_path: Some("old.txt".to_string()),
        new_path: None,
        kind: DeltaKind::Deleted,
        lines: vec![],
    };
    assert_eq!(resolve_path(&deleted), "old.txt");

    let neither = RawFileDelta {
        old_path: None,
        new_path: None,
        kind: DeltaKind::Deleted,
        lines: vec![],
    };
    assert_eq!(resolve_path(&neither), "");
}

#[test]
fn empty_delta_yields_empty_record() {
    let d = RawFileDelta {
        old_path: None,
        new_path: Some("e.txt".to_string()),
        kind: DeltaKind::Added,
        lines: vec![],
    };
    let fc = build_file_change(&d);
    assert_eq!(fc.path, "e.txt");
    assert_eq!(fc.additions, 0);
    assert_eq!(fc.deletions, 0);
    assert_eq!(fc.patch, "");
}
