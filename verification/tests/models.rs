use shitview::models::{
    number_array, option_number, quote, write_control_escape, NodeKind, ScanIssue, ScanStats, Snapshot, SnapshotNode,
};

#[test]
fn node_kinds_have_lower_case_names() {
    assert_eq!(NodeKind::Directory.as_str(), "directory");
    assert_eq!(NodeKind::File.as_str(), "file");
    assert_eq!(NodeKind::Symlink.as_str(), "symlink");
    assert_eq!(NodeKind::Other.as_str(), "other");
}

#[test]
fn quoting_escapes_json_specials() {
    assert_eq!(quote("plain"), "\"plain\"");
    assert_eq!(quote("a\"b\\c"), "\"a\\\"b\\\\c\"");
    assert_eq!(quote("line\nfeed\r\ttab"), "\"line\\nfeed\\r\\ttab\"");
    assert_eq!(quote("bell\u{7}"), "\"bell\\u0007\"");
    assert_eq!(quote("del\u{7f}"), "\"del\\u007f\"");
    assert_eq!(quote("é"), "\"é\"");
}

#[test]
fn control_escapes_are_four_hex_digits() {
    let mut s = String::from("x");
    write_control_escape(&mut s, 0x1b);
    assert_eq!(s, "x\\u001b");
}

#[test]
fn numbers_and_arrays_render_like_json() {
    assert_eq!(option_number(None), "null");
    assert_eq!(option_number(Some(1_700_000_000_123)), "1700000000123");
    assert_eq!(number_array(&vec![]), "[]");
    assert_eq!(number_array(&vec![1, 22, 333]), "[1, 22, 333]");
}

#[test]
fn stats_default_to_zero() {
    let s = ScanStats::default();
    assert_eq!(s.scanned_nodes, 0);
    assert_eq!(s.omitted_nodes, 0);
    assert!(!s.is_truncated);
}

#[test]
fn snapshot_json_is_exact() {
    let snapshot = Snapshot {
        root: "H:/p".to_owned(),
        generated_at_unix_ms: 7,
        nodes: vec![
            SnapshotNode {
                path: "H:/p".to_owned(),
                name: "p".to_owned(),
                kind: NodeKind::Directory,
                depth: 0,
                size: 3,
                modified_unix_ms: None,
                children: vec![1],
                child_count: 1,
                truncated: false,
            },
            SnapshotNode {
                path: "H:/p/a.txt".to_owned(),
                name: "a.txt".to_owned(),
                kind: NodeKind::File,
                depth: 1,
                size: 3,
                modified_unix_ms: Some(9),
                children: vec![],
                child_count: 0,
                truncated: false,
            },
        ],
        issues: vec![ScanIssue {
            path: "H:/p/x".to_owned(),
            operation: "metadata".to_owned(),
            message: "denied".to_owned(),
        }],
        stats: ScanStats {
            scanned_nodes: 2,
            directory_count: 1,
            file_count: 1,
            symlink_count: 0,
            other_count: 0,
            omitted_nodes: 0,
            issue_count: 1,
            is_truncated: false,
        },
    };
    let expected = "{\n  \"root\": \"H:/p\",\n  \"generated_at_unix_ms\": 7,\n  \"nodes\": [\n    {\"path\": \"H:/p\", \"name\": \"p\", \"kind\": \"directory\", \"depth\": 0, \"size\": 3, \"modified_unix_ms\": null, \"children\": [1], \"child_count\": 1, \"truncated\": false},\n    {\"path\": \"H:/p/a.txt\", \"name\": \"a.txt\", \"kind\": \"file\", \"depth\": 1, \"size\": 3, \"modified_unix_ms\": 9, \"children\": [], \"child_count\": 0, \"truncated\": false}\n  ],\n  \"issues\": [\n    {\"path\": \"H:/p/x\", \"operation\": \"metadata\", \"message\": \"denied\"}\n  ],\n  \"stats\": {\n    \"scanned_nodes\": 2,\n    \"directory_count\": 1,\n    \"file_count\": 1,\n    \"symlink_count\": 0,\n    \"other_count\": 0,\n    \"omitted_nodes\": 0,\n    \"issue_count\": 1,\n    \"is_truncated\": false\n  }\n}\n";
    assert_eq!(snapshot.to_json_pretty(), expected);
}

#[test]
fn empty_snapshot_json() {
    let snapshot = Snapshot {
        root: "r".to_owned(),
        generated_at_unix_ms: 0,
        nodes: vec![],
        issues: vec![],
        stats: ScanStats { omitted_nodes: 1, is_truncated: true, ..ScanStats::default() },
    };
    let json = snapshot.to_json_pretty();
    assert!(json.starts_with("{\n  \"root\": \"r\",\n  \"generated_at_unix_ms\": 0,\n  \"nodes\": [\n  ],\n  \"issues\": [\n  ],\n"));
    assert!(json.contains("\"omitted_nodes\": 1,"));
    assert!(json.contains("\"is_truncated\": true\n"));
}

#[test]
fn snapshot_json_parses_back_to_its_fields() {
    let tricky = "a \"quoted\" \\ back\tslash\n\u{1}\u{7f}\u{9f} é 文件".to_owned();
    let snapshot = Snapshot {
        root: tricky.clone(),
        generated_at_unix_ms: 1_700_000_000_123,
        nodes: vec![SnapshotNode {
            path: tricky.clone(),
            name: "n\r".to_owned(),
            kind: NodeKind::Symlink,
            depth: 0,
            size: u64::MAX,
            modified_unix_ms: Some(12),
            children: vec![],
            child_count: 0,
            truncated: false,
        }],
        issues: vec![ScanIssue { path: "p".to_owned(), operation: "read_dir".to_owned(), message: tricky.clone() }],
        stats: ScanStats { scanned_nodes: 1, symlink_count: 1, issue_count: 1, ..ScanStats::default() },
    };
    let value: serde_json::Value = serde_json::from_str(&snapshot.to_json_pretty()).unwrap();
    assert_eq!(value["root"].as_str(), Some(tricky.as_str()));
    assert_eq!(value["generated_at_unix_ms"].as_u64(), Some(1_700_000_000_123));
    let node = &value["nodes"][0];
    assert_eq!(node["path"].as_str(), Some(tricky.as_str()));
    assert_eq!(node["name"].as_str(), Some("n\r"));
    assert_eq!(node["kind"].as_str(), Some("symlink"));
    assert_eq!(node["size"].as_u64(), Some(u64::MAX));
    assert_eq!(node["modified_unix_ms"].as_u64(), Some(12));
    assert_eq!(node["children"].as_array().map(|a| a.len()), Some(0));
    assert_eq!(node["truncated"].as_bool(), Some(false));
    assert_eq!(value["issues"][0]["message"].as_str(), Some(tricky.as_str()));
    assert_eq!(value["stats"]["symlink_count"].as_u64(), Some(1));
    assert_eq!(value["stats"]["is_truncated"].as_bool(), Some(false));
}
