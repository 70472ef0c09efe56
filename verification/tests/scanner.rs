use shitview::models::{NodeKind, Snapshot};
use shitview::scanner::{
    prepare_children, EntryMetadata, FsEntry, IgnoreRules, ScanConfig, ScanRequest, ScanResponse, Scanner,
};

/// An in-memory folder tree: entry 0 is the root.
struct FakeTree {
    entries: Vec<FakeEntry>,
}

struct FakeEntry {
    path: String,
    name: String,
    dir: bool,
    len: u64,
    children: Vec<usize>,
    unreadable: bool,
    link: bool,
}

impl FakeTree {
    fn new(root: &str) -> Self {
        FakeTree {
            entries: vec![FakeEntry {
                path: root.to_owned(),
                name: root.rsplit('/').next().unwrap().to_owned(),
                dir: true,
                len: 0,
                children: Vec::new(),
                unreadable: false,
                link: false,
            }],
        }
    }

    fn add(&mut self, parent: usize, name: &str, dir: bool, len: u64) -> usize {
        let path = format!("{}/{}", self.entries[parent].path, name);
        self.entries.push(FakeEntry { path, name: name.to_owned(), dir, len, children: Vec::new(), unreadable: false, link: false });
        let index = self.entries.len() - 1;
        self.entries[parent].children.push(index);
        index
    }

    fn entry(&self, handle: usize) -> FsEntry {
        let e = &self.entries[handle];
        FsEntry { handle, path: e.path.clone(), name: Some(e.name.clone()), sort_name: e.name.clone() }
    }

    fn scan(&self, config: ScanConfig) -> Snapshot {
        let scanner = Scanner::new(config);
        let mut session = scanner.scan(self.entry(0));
        loop {
            match session.request() {
                ScanRequest::Metadata(handle) => {
                    let e = &self.entries[handle];
                    session.respond(ScanResponse::Metadata(Ok(EntryMetadata {
                        is_symlink: e.link,
                        is_dir: e.dir,
                        is_file: !e.dir,
                        len: e.len,
                        modified_unix_ms: Some(1_000),
                    })));
                }
                ScanRequest::ReadDir(handle) => {
                    let e = &self.entries[handle];
                    assert!(!e.link, "a link was listed");
                    if e.unreadable {
                        session.respond(ScanResponse::ReadDir(Err("permission denied".to_owned())));
                    } else {
                        let listing = e.children.iter().map(|c| Ok(self.entry(*c))).collect();
                        session.respond(ScanResponse::ReadDir(Ok(listing)));
                    }
                }
                ScanRequest::Finished => break,
            }
        }
        session.finish(42)
    }
}

#[test]
fn applies_a_global_node_limit() {
    let mut tree = FakeTree::new("/tmp/project");
    let a = tree.add(0, "a", true, 0);
    let b = tree.add(0, "b", true, 0);
    tree.add(a, "file.txt", false, 1);
    tree.add(b, "file.txt", false, 1);
    let snapshot = tree.scan(ScanConfig { max_nodes: 3, ..ScanConfig::default() });
    assert!(snapshot.nodes.len() <= 3);
    assert!(snapshot.stats.is_truncated);
    assert!(snapshot.stats.omitted_nodes > 0);
}

#[test]
fn ignores_generated_directories_and_suffixes() {
    let mut tree = FakeTree::new("/tmp/project");
    tree.add(0, ".git", true, 0);
    tree.add(0, "package.egg-info", true, 0);
    tree.add(0, "visible.txt", false, 3);
    let snapshot = tree.scan(ScanConfig { rules: IgnoreRules::default(), ..ScanConfig::default() });
    assert_eq!(snapshot.nodes.len(), 2);
    assert!(snapshot.nodes.iter().all(|node| !node.path.contains(".git") && !node.path.contains("egg-info")));
}

#[test]
fn normalizes_windows_extended_paths() {
    assert_eq!(shitview::text::normalize_path(r"\\?\H:\shitview"), "H:/shitview");
    assert_eq!(shitview::text::normalize_path(r"\\?\UNC\server\share"), "//server/share");
    assert_eq!(shitview::text::normalize_path("plain/path"), "plain/path");
}

#[test]
fn a_node_limit_of_zero_visits_nothing() {
    let tree = FakeTree::new("/tmp/project");
    let snapshot = tree.scan(ScanConfig { max_nodes: 0, ..ScanConfig::default() });
    assert!(snapshot.nodes.is_empty());
    assert_eq!(snapshot.stats.omitted_nodes, 1);
    assert!(snapshot.stats.is_truncated);
}

#[test]
fn children_are_visited_in_case_insensitive_name_order_and_sizes_add_up() {
    let mut tree = FakeTree::new("/tmp/project");
    tree.add(0, "b.txt", false, 5);
    tree.add(0, "A.txt", false, 7);
    let sub = tree.add(0, "c", true, 0);
    tree.add(sub, "inner.rs", false, 11);
    let snapshot = tree.scan(ScanConfig::default());
    let names: Vec<&str> = snapshot.nodes.iter().map(|n| n.name.as_str()).collect();
    assert_eq!(names, vec!["project", "A.txt", "b.txt", "c", "inner.rs"]);
    assert_eq!(snapshot.nodes[0].children, vec![1, 2, 3]);
    assert_eq!(snapshot.nodes[0].size, 23);
    assert_eq!(snapshot.nodes[3].size, 11);
    assert_eq!(snapshot.nodes[3].kind, NodeKind::Directory);
    assert_eq!(snapshot.stats.directory_count, 2);
    assert_eq!(snapshot.stats.file_count, 3);
    assert_eq!(snapshot.stats.scanned_nodes, 5);
    assert!(!snapshot.stats.is_truncated);
}

#[test]
fn per_directory_limit_truncates_the_directory() {
    let mut tree = FakeTree::new("/tmp/project");
    for name in ["d.txt", "c.txt", "b.txt", "a.txt"] {
        tree.add(0, name, false, 1);
    }
    let snapshot = tree.scan(ScanConfig { max_children_per_directory: 2, ..ScanConfig::default() });
    assert_eq!(snapshot.nodes.len(), 3);
    assert_eq!(snapshot.nodes[0].child_count, 4);
    assert!(snapshot.nodes[0].truncated);
    assert_eq!(snapshot.stats.omitted_nodes, 2);
    assert!(snapshot.stats.is_truncated);
    assert_eq!(snapshot.nodes[1].name, "a.txt");
    assert_eq!(snapshot.nodes[2].name, "b.txt");
}

#[test]
fn unreadable_directories_become_issues() {
    let mut tree = FakeTree::new("/tmp/project");
    let locked = tree.add(0, "locked", true, 0);
    tree.entries[locked].unreadable = true;
    let snapshot = tree.scan(ScanConfig::default());
    assert_eq!(snapshot.issues.len(), 1);
    assert_eq!(snapshot.issues[0].path, "/tmp/project/locked");
    assert_eq!(snapshot.issues[0].operation, "read_dir");
    assert_eq!(snapshot.issues[0].message, "permission denied");
    assert_eq!(snapshot.stats.issue_count, 1);
}

#[test]
fn prepared_children_skip_ignored_and_failed_entries() {
    let entry = |handle: usize, name: &str| FsEntry {
        handle,
        path: format!("/p/{name}"),
        name: Some(name.to_owned()),
        sort_name: name.to_owned(),
    };
    let listing = vec![
        Ok(entry(1, "Zeta")),
        Err("gone".to_owned()),
        Ok(entry(2, "node_modules")),
        Ok(entry(3, "alpha")),
        Ok(entry(4, "x.egg-info")),
    ];
    let prepared = prepare_children(&IgnoreRules::default(), &listing);
    let handles: Vec<usize> = prepared.iter().map(|e| e.handle).collect();
    assert_eq!(handles, vec![3, 1]);
}

#[test]
fn links_to_directories_are_not_followed() {
    let mut tree = FakeTree::new("/tmp/project");
    let link = tree.add(0, "link", true, 0);
    tree.entries[link].link = true;
    tree.add(link, "inside.txt", false, 1);
    let snapshot = tree.scan(ScanConfig::default());
    assert_eq!(snapshot.nodes.len(), 2);
    assert_eq!(snapshot.nodes[1].kind, NodeKind::Symlink);
    assert!(snapshot.nodes[1].children.is_empty());
    assert_eq!(snapshot.stats.symlink_count, 1);
}

#[test]
fn the_walk_stops_at_the_node_limit_and_counts_the_entries_it_left() {
    let mut tree = FakeTree::new("/tmp/project");
    let a = tree.add(0, "a", true, 0);
    let b = tree.add(0, "b", true, 0);
    tree.add(a, "file.txt", false, 1);
    tree.add(b, "file.txt", false, 1);
    let snapshot = tree.scan(ScanConfig { max_nodes: 3, ..ScanConfig::default() });
    let names: Vec<&str> = snapshot.nodes.iter().map(|n| n.name.as_str()).collect();
    assert_eq!(names, vec!["project", "a", "file.txt"]);
    assert_eq!(snapshot.stats.omitted_nodes, 1);
    assert!(snapshot.stats.is_truncated);
}

#[test]
fn every_node_but_the_root_has_exactly_one_parent() {
    let mut tree = FakeTree::new("/tmp/project");
    let a = tree.add(0, "a", true, 0);
    let b = tree.add(a, "b", true, 0);
    tree.add(b, "deep.txt", false, 2);
    tree.add(a, "mid.txt", false, 3);
    let c = tree.add(0, "c", true, 0);
    tree.add(c, "x.txt", false, 4);
    tree.add(0, "top.txt", false, 5);
    let snapshot = tree.scan(ScanConfig::default());
    let n = snapshot.nodes.len();
    assert_eq!(n, 8);
    for i in 1..n {
        let parents: Vec<usize> = (0..n).filter(|p| snapshot.nodes[*p].children.contains(&i)).collect();
        assert_eq!(parents.len(), 1, "node {i}");
        let p = parents[0];
        assert_eq!(snapshot.nodes[p].children.iter().filter(|c| **c == i).count(), 1);
        assert_eq!(snapshot.nodes[i].depth, snapshot.nodes[p].depth + 1);
    }
    assert!((0..n).all(|p| !snapshot.nodes[p].children.contains(&0)));
}

#[test]
fn a_root_whose_metadata_fails_gives_an_empty_snapshot() {
    let scanner = Scanner::new(ScanConfig::default());
    let root = FsEntry { handle: 0, path: "/gone".to_owned(), name: Some("gone".to_owned()), sort_name: "gone".to_owned() };
    let mut session = scanner.scan(root);
    assert_eq!(session.request(), ScanRequest::Metadata(0));
    session.respond(ScanResponse::Metadata(Err("not found".to_owned())));
    assert_eq!(session.request(), ScanRequest::Finished);
    let snapshot = session.finish(7);
    assert!(snapshot.nodes.is_empty());
    assert_eq!(snapshot.issues.len(), 1);
    assert_eq!(snapshot.issues[0].operation, "metadata");
    assert_eq!(snapshot.issues[0].path, "/gone");
    assert!(!snapshot.stats.is_truncated);
}

#[test]
fn omitted_entries_are_counted_once_each() {
    let mut tree = FakeTree::new("/tmp/project");
    for name in ["d.txt", "c.txt", "b.txt", "a.txt"] {
        tree.add(0, name, false, 1);
    }
    let snapshot = tree.scan(ScanConfig { max_nodes: 2, max_children_per_directory: 2, ..ScanConfig::default() });
    let names: Vec<&str> = snapshot.nodes.iter().map(|n| n.name.as_str()).collect();
    assert_eq!(names, vec!["project", "a.txt"]);
    assert_eq!(snapshot.stats.omitted_nodes, 3);
    assert!(snapshot.stats.is_truncated);
}
