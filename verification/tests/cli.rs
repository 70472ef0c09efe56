use shitview::cli::{benchmark_rows, option_value, parse_count, snapshot_request, SnapshotRequest};

fn args(list: &[&str]) -> Vec<String> {
    list.iter().map(|s| s.to_string()).collect()
}

#[test]
fn counts_parse_like_usize() {
    assert_eq!(parse_count("42"), Some(42));
    assert_eq!(parse_count("+7"), Some(7));
    assert_eq!(parse_count("007"), Some(7));
    assert_eq!(parse_count(""), None);
    assert_eq!(parse_count("+"), None);
    assert_eq!(parse_count("-1"), None);
    assert_eq!(parse_count("1x"), None);
    assert_eq!(parse_count(" 1"), None);
    assert_eq!(parse_count(&usize::MAX.to_string()), Some(usize::MAX));
    assert_eq!(parse_count("99999999999999999999999999"), None);
}

#[test]
fn option_values_follow_their_names() {
    let a = args(&["root", "--output", "out.json", "--output", "second"]);
    assert_eq!(option_value(&a, "--output"), Some("out.json".to_owned()));
    assert_eq!(option_value(&a, "--missing"), None);
    assert_eq!(option_value(&args(&["--output"]), "--output"), None);
}

#[test]
fn snapshot_arguments() {
    assert!(matches!(snapshot_request(&args(&[])), SnapshotRequest::Help(2)));
    assert!(matches!(snapshot_request(&args(&["x", "-h"])), SnapshotRequest::Help(0)));
    assert!(matches!(snapshot_request(&args(&["--help"])), SnapshotRequest::Help(0)));
    match snapshot_request(&args(&["H:/p", "--max-nodes", "10", "--max-children", "bad", "--output", "s.json"])) {
        SnapshotRequest::Scan { root, max_nodes, max_children, output } => {
            assert_eq!(root, "H:/p");
            assert_eq!(max_nodes, 10);
            assert_eq!(max_children, 180);
            assert_eq!(output.as_deref(), Some("s.json"));
        }
        SnapshotRequest::Help(_) => panic!("expected a scan"),
    }
    match snapshot_request(&args(&["H:/p"])) {
        SnapshotRequest::Scan { max_nodes, max_children, output, .. } => {
            assert_eq!((max_nodes, max_children, output), (1600, 180, None));
        }
        SnapshotRequest::Help(_) => panic!("expected a scan"),
    }
}

#[test]
fn benchmark_rows_take_the_first_count() {
    assert_eq!(benchmark_rows(&args(&[])), 100_000);
    assert_eq!(benchmark_rows(&args(&["fast", "250", "9"])), 250);
}
