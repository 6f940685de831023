use rdu::scanner::{Entry, Metadata, ScanRoot, WalkItem};
use rdu::{build_tree, Tree};

fn components(parts: &[&str]) -> Vec<String> {
    parts.iter().map(|p| p.to_string()).collect()
}

fn found(parts: &[&str], len: u64, is_file: bool, is_dir: bool, time: Option<i64>) -> WalkItem {
    WalkItem::Found(Entry {
        path: components(parts),
        volume: Some(1),
        metadata: Some(Metadata { len, is_file, is_dir, modified_time: time }),
    })
}

fn file(parts: &[&str], len: u64) -> WalkItem {
    found(parts, len, true, false, Some(1_000))
}

fn dir(parts: &[&str]) -> WalkItem {
    found(parts, 4096, false, true, Some(2_000))
}

fn root_of(parts: &[&str]) -> ScanRoot {
    ScanRoot {
        path: components(parts),
        name: parts.last().unwrap_or(&"").to_string(),
        modified_time: Some(5),
        volume: Some(1),
    }
}

fn find(tree: &Tree, parts: &[&str]) -> usize {
    let want = components(parts);
    tree.nodes.iter().position(|n| n.path == want).expect("node for path")
}

fn sample_items() -> Vec<WalkItem> {
    vec![
        file(&["/", "data", "a"], 10),
        dir(&["/", "data", "sub"]),
        file(&["/", "data", "b"], 20),
        file(&["/", "data", "sub", "big"], 100),
        file(&["/", "data", "c"], 30),
    ]
}

#[test]
fn scenario_sizes_aggregate_bottom_up() {
    let tree = build_tree(&root_of(&["/", "data"]), &sample_items(), false);
    let sub = find(&tree, &["/", "data", "sub"]);
    assert_eq!(tree.nodes[sub].size, 100);
    assert_eq!(tree.nodes[0].size, 160);
    assert_eq!(tree.nodes[0].children.len(), 4);
    assert_eq!(tree.nodes[0].name, "data");
    assert!(tree.nodes[0].is_dir);
    assert_eq!(tree.nodes[0].modified_time, Some(5));
}

#[test]
fn directory_size_is_sum_of_children() {
    let tree = build_tree(&root_of(&["/", "data"]), &sample_items(), false);
    for node in &tree.nodes {
        if node.is_dir {
            let total: u64 = node.children.iter().map(|&c| tree.nodes[c].size).sum();
            assert_eq!(node.size, total);
        }
    }
}

#[test]
fn directory_own_length_is_not_counted() {
    let items = vec![dir(&["/", "r", "empty"])];
    let tree = build_tree(&root_of(&["/", "r"]), &items, false);
    let empty = find(&tree, &["/", "r", "empty"]);
    assert_eq!(tree.nodes[empty].size, 0);
    assert_eq!(tree.nodes[0].size, 0);
}

#[test]
fn order_of_walk_does_not_change_sizes_or_errors() {
    let mut items = sample_items();
    items.push(WalkItem::Failed);
    let first = build_tree(&root_of(&["/", "data"]), &items, false);
    items.reverse();
    items.swap(1, 3);
    let second = build_tree(&root_of(&["/", "data"]), &items, false);
    assert_eq!(first.nodes.len(), second.nodes.len());
    for node in &first.nodes {
        let other = &second.nodes[find(&second, &node.path.iter().map(|s| s.as_str()).collect::<Vec<_>>())];
        assert_eq!(node.size, other.size);
        assert_eq!(node.error_count, other.error_count);
    }
    assert_eq!(first.nodes[0].error_count, 1);
    assert_eq!(second.nodes[0].error_count, 1);
}

#[test]
fn unreadable_entries_are_counted_on_the_root() {
    let items = vec![
        WalkItem::Failed,
        WalkItem::Found(Entry { path: components(&["/", "r", "locked"]), volume: None, metadata: None }),
        file(&["/", "r", "ok"], 7),
        WalkItem::Failed,
    ];
    let tree = build_tree(&root_of(&["/", "r"]), &items, false);
    assert_eq!(tree.nodes[0].error_count, 3);
    assert_eq!(tree.nodes.len(), 2);
    assert_eq!(tree.nodes[0].size, 7);
    assert_eq!(tree.nodes[1].error_count, 0);
}

#[test]
fn root_yielded_again_is_skipped() {
    let items = vec![dir(&["/", "r"]), file(&["/", "r", "x"], 3)];
    let tree = build_tree(&root_of(&["/", "r"]), &items, false);
    assert_eq!(tree.nodes.len(), 2);
    assert_eq!(tree.nodes[0].children.len(), 1);
    assert_eq!(tree.nodes[0].size, 3);
}

#[test]
fn other_volume_is_skipped_only_when_asked() {
    let other = WalkItem::Found(Entry {
        path: components(&["/", "r", "mnt"]),
        volume: Some(9),
        metadata: Some(Metadata { len: 50, is_file: true, is_dir: false, modified_time: None }),
    });
    let unknown = WalkItem::Found(Entry {
        path: components(&["/", "r", "odd"]),
        volume: None,
        metadata: Some(Metadata { len: 5, is_file: true, is_dir: false, modified_time: None }),
    });
    let items = vec![other, unknown, file(&["/", "r", "same"], 1)];
    let kept = build_tree(&root_of(&["/", "r"]), &items, true);
    assert_eq!(kept.nodes[0].size, 6);
    assert_eq!(kept.nodes.len(), 3);
    let all = build_tree(&root_of(&["/", "r"]), &items, false);
    assert_eq!(all.nodes[0].size, 56);
    assert_eq!(all.nodes.len(), 4);
}

#[test]
fn entry_without_parent_directory_is_left_out() {
    let items = vec![file(&["/", "r", "gone", "x"], 8), file(&["/", "r", "y"], 2)];
    let tree = build_tree(&root_of(&["/", "r"]), &items, false);
    assert_eq!(tree.nodes.len(), 2);
    assert_eq!(tree.nodes[0].size, 2);
}

#[test]
fn link_that_is_neither_file_nor_directory_has_no_size() {
    let items = vec![found(&["/", "r", "link"], 30, false, false, None)];
    let tree = build_tree(&root_of(&["/", "r"]), &items, false);
    let link = find(&tree, &["/", "r", "link"]);
    assert_eq!(tree.nodes[link].size, 0);
    assert!(!tree.nodes[link].is_dir);
    assert_eq!(tree.nodes[link].modified_time, None);
}

#[test]
fn same_names_in_different_directories() {
    let items = vec![
        file(&["/", "r", "x", "a", "f"], 1),
        dir(&["/", "r", "y", "a"]),
        dir(&["/", "r", "x"]),
        file(&["/", "r", "y", "a", "f"], 2),
        dir(&["/", "r", "y"]),
        dir(&["/", "r", "x", "a"]),
    ];
    let tree = build_tree(&root_of(&["/", "r"]), &items, false);
    assert_eq!(tree.nodes.len(), 7);
    assert_eq!(tree.nodes[find(&tree, &["/", "r", "x"])].size, 1);
    assert_eq!(tree.nodes[find(&tree, &["/", "r", "y"])].size, 2);
    assert_eq!(tree.nodes[find(&tree, &["/", "r", "y", "a"])].size, 2);
    assert_eq!(tree.nodes[0].size, 3);
    let fx = find(&tree, &["/", "r", "x", "a", "f"]);
    assert_eq!(tree.nodes[fx].name, "f");
}

#[test]
fn deep_chain_and_many_siblings() {
    let mut items = Vec::new();
    let mut path: Vec<String> = vec!["/".to_string(), "r".to_string()];
    for d in 0..30 {
        path.push(format!("d{}", d));
        let parts: Vec<&str> = path.iter().map(|s| s.as_str()).collect();
        items.push(dir(&parts));
    }
    for f in 0..200u64 {
        let mut p = path.clone();
        p.push(format!("f{}", f));
        let parts: Vec<&str> = p.iter().map(|s| s.as_str()).collect();
        items.push(file(&parts, f));
    }
    items.reverse();
    let tree = build_tree(&root_of(&["/", "r"]), &items, false);
    assert_eq!(tree.nodes.len(), 231);
    assert_eq!(tree.nodes[0].size, (0..200u64).sum::<u64>());
}

#[test]
fn empty_walk_gives_a_lone_root() {
    let tree = build_tree(&root_of(&["/", "r"]), &Vec::new(), false);
    assert_eq!(tree.nodes.len(), 1);
    assert_eq!(tree.nodes[0].size, 0);
    assert_eq!(tree.nodes[0].error_count, 0);
    assert!(tree.nodes[0].children.is_empty());
}

#[test]
fn sizes_that_overflow_are_clamped() {
    let items = vec![file(&["/", "r", "a"], u64::MAX), file(&["/", "r", "b"], 5)];
    let tree = build_tree(&root_of(&["/", "r"]), &items, false);
    assert_eq!(tree.nodes[0].size, u64::MAX);
}

#[test]
fn repeated_path_keeps_the_first_item() {
    let items = vec![file(&["/", "r", "x"], 5), file(&["/", "r", "x"], 7)];
    let tree = build_tree(&root_of(&["/", "r"]), &items, false);
    assert_eq!(tree.nodes.len(), 2);
    assert_eq!(tree.nodes[0].size, 5);
}
