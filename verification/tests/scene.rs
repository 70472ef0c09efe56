use shitview::layout::LayoutStore;
use shitview::models::NodeKind;
use shitview::scene::{
    build_topology, format_number, framed_groups, group_label, is_dense, kind_text, normalize_display_path,
    parent_display_path, route_children, scene_levels, scene_order, short_label, shows_label, synthetic_nodes,
};
use shitview::storage::StoredNode;

fn directory(path: &str, depth: usize) -> StoredNode {
    StoredNode {
        stable_id: None,
        display_path: path.to_owned(),
        display_name: path.rsplit('/').next().unwrap().to_owned(),
        kind: NodeKind::Directory,
        depth,
        size_bytes: 0,
    }
}

fn file(path: &str, depth: usize) -> StoredNode {
    StoredNode { kind: NodeKind::File, size_bytes: 32, ..directory(path, depth) }
}

fn paths_in_order(nodes: &[StoredNode], order: &[usize]) -> Vec<String> {
    order.iter().map(|i| nodes[*i].display_path.clone()).collect()
}

#[derive(Debug, Clone, Copy, PartialEq)]
struct Entry {
    x: f32,
    y: f32,
    pinned: bool,
}

#[test]
fn indexed_layout_is_stable_when_scan_order_changes() {
    let root = StoredNode {
        stable_id: Some(vec![1]),
        display_path: "H:/project".to_owned(),
        display_name: "project".to_owned(),
        kind: NodeKind::Directory,
        depth: 0,
        size_bytes: 0,
    };
    let file = StoredNode {
        stable_id: Some(vec![2]),
        display_path: "H:/project/src/main.rs".to_owned(),
        display_name: "main.rs".to_owned(),
        kind: NodeKind::File,
        depth: 2,
        size_bytes: 12,
    };
    let mut layout = LayoutStore::default();
    layout.set(file.stable_id.as_deref(), &file.display_path, Entry { x: 777.0, y: 333.0, pinned: true });
    for nodes in [vec![root.clone(), file.clone()], vec![file.clone(), root.clone()]] {
        let topology = build_topology(&nodes);
        let position = topology.order.iter().position(|i| nodes[*i].display_path == file.display_path).unwrap();
        let target = &nodes[topology.order[position]];
        let saved = layout.entry_for(target.stable_id.as_deref(), &target.display_path).unwrap();
        assert_eq!((saved.x, saved.y), (777.0, 333.0));
        assert!(saved.pinned);
        assert_eq!(paths_in_order(&nodes, &topology.order), vec!["H:/project", "H:/project/src/main.rs"]);
        assert_eq!(topology.parents[1], Some(0));
    }
}

#[test]
fn indexed_tree_uses_rightward_layers_and_leaf_only_frames() {
    let nodes = vec![
        directory("H:/project", 0),
        directory("H:/project/src", 1),
        directory("H:/project/src/core", 2),
        directory("H:/project/src/services", 2),
        file("H:/project/src/core/layout.rs", 3),
        file("H:/project/src/core/model.rs", 3),
        file("H:/project/src/services/index.rs", 3),
        file("H:/project/src/services/watch.rs", 3),
    ];
    let topology = build_topology(&nodes);
    let levels = scene_levels(&nodes, &topology);
    let depth_of = |path: &str| {
        let p = topology.order.iter().position(|i| nodes[*i].display_path == path).unwrap();
        nodes[topology.order[p]].depth
    };
    assert!(depth_of("H:/project") < depth_of("H:/project/src"));
    assert!(depth_of("H:/project/src") < depth_of("H:/project/src/core"));
    assert_eq!(levels.max_depth, 3);
    assert_eq!(levels.depth_counts, vec![1, 1, 2, 4]);
    assert_eq!(levels.edge_counts, vec![0, 1, 2, 0]);
    let groups = framed_groups(&nodes, &topology, is_dense(nodes.len()));
    assert_eq!(groups.len(), 2);
    let labels: Vec<String> = groups
        .iter()
        .map(|g| group_label(&nodes[topology.order[g.position]].display_name, g.subtree.len()))
        .collect();
    assert!(labels.iter().any(|label| label == "core / 3"));
    assert!(labels.iter().any(|label| label == "services / 3"));
}

#[test]
fn dense_index_scene_limits_labels_without_dropping_nodes() {
    let mut nodes = vec![directory("H:/project", 0)];
    for index in 0..1_000 {
        nodes.push(StoredNode {
            stable_id: None,
            display_path: format!("H:/project/src/file-{index:04}.rs"),
            display_name: format!("file-{index:04}.rs"),
            kind: NodeKind::File,
            depth: 2,
            size_bytes: index as u64,
        });
    }
    let topology = build_topology(&nodes);
    assert_eq!(topology.order.len(), 1_001);
    let dense = is_dense(nodes.len());
    assert!(dense);
    let groups = framed_groups(&nodes, &topology, dense);
    let node_labels = topology.order.iter().filter(|i| shows_label(nodes.len(), nodes[**i].kind)).count();
    assert!(groups.len() + node_labels < 20);
    let levels = scene_levels(&nodes, &topology);
    assert_eq!(levels.ranks[1000], 999);
    assert_eq!(topology.parents[500], Some(0));
}

#[test]
fn the_layout_order_is_by_depth_then_path() {
    let nodes = vec![file("b/z", 1), directory("b", 0), file("b/a", 1), directory("a", 0)];
    assert_eq!(scene_order(&nodes), vec![3, 1, 2, 0]);
}

#[test]
fn parents_are_the_nearest_listed_directory_above() {
    let nodes = vec![
        directory("r", 0),
        file("r/x/y/deep.rs", 3),
        directory("r/x", 1),
        file("r\\x\\back.rs", 2),
        file("other/loose.rs", 1),
    ];
    let t = build_topology(&nodes);
    let order = paths_in_order(&nodes, &t.order);
    assert_eq!(order, vec!["r", "other/loose.rs", "r/x", "r\\x\\back.rs", "r/x/y/deep.rs"]);
    assert_eq!(t.parents, vec![None, None, Some(0), Some(2), Some(2)]);
    assert_eq!(t.children[2], vec![3, 4]);
    assert_eq!(t.children[0], vec![2]);
}

#[test]
fn dense_scenes_route_only_directories_below_the_first_level() {
    let nodes = vec![directory("r", 0), directory("r/d", 1), file("r/d/f", 2), file("r/g", 1)];
    let t = build_topology(&nodes);
    let sparse = route_children(&nodes, &t, false);
    let dense = route_children(&nodes, &t, true);
    assert_eq!(sparse[0], vec![1, 2]);
    assert_eq!(sparse[1], vec![3]);
    assert_eq!(dense[0], vec![1, 2]);
    assert!(dense[1].is_empty());
}

#[test]
fn display_paths_and_parents() {
    assert_eq!(normalize_display_path("H:\\a\\b\\"), "H:/a/b");
    assert_eq!(normalize_display_path("a//"), "a");
    assert_eq!(parent_display_path("H:/a/b.rs"), Some("H:/a".to_owned()));
    assert_eq!(parent_display_path("H:\\a\\"), Some("H:".to_owned()));
    assert_eq!(parent_display_path("plain"), None);
    assert_eq!(parent_display_path("/top"), Some("".to_owned()));
}

#[test]
fn labels_and_numbers() {
    assert_eq!(short_label("short.rs", 15), "short.rs");
    assert_eq!(short_label("a-very-long-file-name.rs", 15), "a-very-long-fil...");
    assert_eq!(short_label("exactly-15-char", 15), "exactly-15-char");
    assert_eq!(format_number(0), "0");
    assert_eq!(format_number(999), "999");
    assert_eq!(format_number(1000), "1,000");
    assert_eq!(format_number(1234567), "1,234,567");
    assert_eq!(format_number(100000), "100,000");
    assert_eq!(group_label("core", 3), "core / 3");
    assert_eq!(kind_text(NodeKind::Directory), "Directory");
    assert_eq!(kind_text(NodeKind::Symlink), "File");
    assert!(shows_label(800, NodeKind::File));
    assert!(!shows_label(801, NodeKind::File));
    assert!(shows_label(801, NodeKind::Directory));
    assert!(!is_dense(360));
    assert!(is_dense(361));
}

#[test]
fn synthetic_scenes_spread_files_over_modules() {
    assert!(synthetic_nodes(0).is_empty());
    let one = synthetic_nodes(1);
    assert_eq!(one.len(), 1);
    assert_eq!(one[0].display_path, "synthetic:/project");
    let nodes = synthetic_nodes(37);
    assert_eq!(nodes.len(), 37);
    assert_eq!(nodes[1].display_path, "synthetic:/project/module-00");
    assert_eq!(nodes[12].display_name, "module-11");
    assert_eq!(nodes[13].display_path, "synthetic:/project/module-00/node-00013.rs");
    assert_eq!(nodes[13].size_bytes, 13 * 128);
    assert_eq!(nodes[25].display_path, "synthetic:/project/module-00/node-00025.rs");
    let t = build_topology(&nodes);
    let module = t.order.iter().position(|i| nodes[*i].display_path == "synthetic:/project/module-00").unwrap();
    let groups = framed_groups(&nodes, &t, false);
    let g = groups.iter().find(|g| g.position == module).unwrap();
    assert_eq!(g.subtree.len(), 3);
}
