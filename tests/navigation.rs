use rdu::scanner::{Entry, Metadata, ScanRoot, WalkItem};
use rdu::{build_tree, App, Args, SortMode, Tree};

fn components(parts: &[&str]) -> Vec<String> {
    parts.iter().map(|p| p.to_string()).collect()
}

fn found(parts: &[&str], len: u64, is_file: bool, is_dir: bool, time: Option<i64>) -> WalkItem {
    WalkItem::Found(Entry {
        path: components(parts),
        volume: None,
        metadata: Some(Metadata { len, is_file, is_dir, modified_time: time }),
    })
}

fn root_of(parts: &[&str]) -> ScanRoot {
    ScanRoot {
        path: components(parts),
        name: parts.last().unwrap_or(&"").to_string(),
        modified_time: None,
        volume: None,
    }
}

fn args() -> Args {
    Args { path: "/r".to_string(), one_file_system: false, follow_links: false }
}

fn sample_tree() -> Tree {
    let items = vec![
        found(&["/", "r", "a"], 10, true, false, Some(300)),
        found(&["/", "r", "b"], 20, true, false, None),
        found(&["/", "r", "c"], 30, true, false, Some(100)),
        found(&["/", "r", "sub"], 0, false, true, Some(200)),
        found(&["/", "r", "sub", "big"], 100, true, false, Some(50)),
    ];
    build_tree(&root_of(&["/", "r"]), &items, false)
}

fn shown_names(app: &App) -> Vec<String> {
    app.current_children().iter().map(|&c| app.tree.nodes[c].name.clone()).collect()
}

fn shown_sizes(app: &App) -> Vec<u64> {
    app.current_children().iter().map(|&c| app.tree.nodes[c].size).collect()
}

fn flat_tree(n: usize) -> Tree {
    let items: Vec<WalkItem> = (0..n)
        .map(|i| found(&["/", "r", &format!("f{:03}", i)], i as u64, true, false, None))
        .collect();
    build_tree(&root_of(&["/", "r"]), &items, false)
}

fn status(app: &App) -> String {
    app.status_message.clone().unwrap_or_default()
}

#[test]
fn scenario_sort_by_size_descending() {
    let app = App::new(sample_tree(), args());
    assert_eq!(shown_sizes(&app), vec![100, 30, 20, 10]);
    assert_eq!(shown_names(&app)[0], "sub");
    assert!(app.tree.nodes[app.current_children()[0]].is_dir);
    assert_eq!(app.selection, Some(0));
    assert_eq!(app.sort_mode, SortMode::Size);
    assert!(!app.sort_ascending);
    assert_eq!(app.current_total_size(), 160);
    assert_eq!(app.current_path(), components(&["/", "r"]));
}

#[test]
fn toggling_same_sort_twice_restores_order() {
    let mut app = App::new(sample_tree(), args());
    let before = shown_names(&app);
    app.toggle_sort_by_size();
    assert!(app.sort_ascending);
    assert_eq!(shown_sizes(&app), vec![10, 20, 30, 100]);
    assert_eq!(status(&app), "Sort: size asc");
    app.toggle_sort_by_size();
    assert!(!app.sort_ascending);
    assert_eq!(shown_names(&app), before);
    assert_eq!(status(&app), "Sort: size desc");
}

#[test]
fn switching_sort_starts_descending() {
    let mut app = App::new(sample_tree(), args());
    app.toggle_sort_by_size();
    assert!(app.sort_ascending);
    app.toggle_sort_by_mtime();
    assert_eq!(app.sort_mode, SortMode::ModifiedTime);
    assert!(!app.sort_ascending);
    assert_eq!(shown_names(&app), vec!["a", "sub", "c", "b"]);
    assert_eq!(status(&app), "Sort: mtime desc");
    app.toggle_sort_by_mtime();
    assert_eq!(shown_names(&app), vec!["b", "c", "sub", "a"]);
    app.toggle_sort_by_count();
    assert_eq!(app.sort_mode, SortMode::ItemCount);
    assert!(!app.sort_ascending);
    assert_eq!(shown_names(&app)[0], "sub");
    assert_eq!(status(&app), "Sort: count desc");
}

#[test]
fn equal_keys_keep_arena_order() {
    let mut app = App::new(sample_tree(), args());
    app.toggle_sort_by_count();
    let names = shown_names(&app);
    assert_eq!(names[0], "sub");
    let rest: Vec<usize> = app.current_children()[1..].to_vec();
    let mut sorted = rest.clone();
    sorted.sort();
    assert_eq!(rest, sorted);
}

#[test]
fn next_and_previous_wrap_around() {
    let mut app = App::new(sample_tree(), args());
    app.previous();
    assert_eq!(app.selection, Some(3));
    app.next();
    assert_eq!(app.selection, Some(0));
    app.next();
    app.next();
    assert_eq!(app.selection, Some(2));
    app.previous();
    assert_eq!(app.selection, Some(1));
}

#[test]
fn page_moves_are_clamped() {
    let mut app = App::new(flat_tree(25), args());
    app.page_down();
    assert_eq!(app.selection, Some(10));
    app.page_down();
    assert_eq!(app.selection, Some(20));
    app.page_down();
    assert_eq!(app.selection, Some(24));
    app.page_up();
    assert_eq!(app.selection, Some(14));
    app.page_up();
    app.page_up();
    assert_eq!(app.selection, Some(0));
    let mut small = App::new(flat_tree(3), args());
    small.page_down();
    assert_eq!(small.selection, Some(2));
}

#[test]
fn jumps_go_to_the_ends() {
    let mut app = App::new(flat_tree(7), args());
    app.go_to_last();
    assert_eq!(app.selection, Some(6));
    app.go_to_first();
    assert_eq!(app.selection, Some(0));
}

#[test]
fn empty_listing_keeps_no_selection() {
    let mut app = App::new(flat_tree(0), args());
    assert_eq!(app.selection, None);
    app.next();
    app.previous();
    app.page_down();
    app.page_up();
    app.go_to_first();
    app.go_to_last();
    app.enter_dir();
    app.go_up();
    assert_eq!(app.selection, None);
    assert_eq!(app.current_node, 0);
    assert_eq!(app.current_total_size(), 0);
}

#[test]
fn enter_then_go_up_returns_with_first_selected() {
    let mut app = App::new(sample_tree(), args());
    let start = app.current_node;
    app.go_to_first();
    app.enter_dir();
    assert_ne!(app.current_node, start);
    assert_eq!(app.path_history, vec![start]);
    assert_eq!(shown_names(&app), vec!["big"]);
    assert_eq!(app.selection, Some(0));
    app.go_up();
    assert_eq!(app.current_node, start);
    assert!(app.path_history.is_empty());
    assert_eq!(app.selection, Some(0));
    assert_eq!(shown_sizes(&app), vec![100, 30, 20, 10]);
}

#[test]
fn go_up_does_not_restore_old_selection() {
    let mut app = App::new(sample_tree(), args());
    app.toggle_sort_by_size();
    app.go_to_last();
    assert_eq!(shown_names(&app)[3], "sub");
    app.enter_dir();
    app.go_up();
    assert_eq!(app.selection, Some(0));
}

#[test]
fn enter_on_a_file_does_nothing() {
    let mut app = App::new(sample_tree(), args());
    app.next();
    let node = app.current_node;
    app.enter_dir();
    assert_eq!(app.current_node, node);
    assert_eq!(app.selection, Some(1));
    assert!(app.path_history.is_empty());
}

#[test]
fn go_up_at_root_does_nothing() {
    let mut app = App::new(sample_tree(), args());
    app.next();
    app.go_up();
    assert_eq!(app.current_node, 0);
    assert_eq!(app.selection, Some(1));
}

#[test]
fn scenario_refresh_replaces_shrunk_directory() {
    let items = vec![
        found(&["/", "r", "top"], 10, true, false, None),
        found(&["/", "r", "sub"], 0, false, true, None),
        found(&["/", "r", "sub", "x"], 1, true, false, None),
        found(&["/", "r", "sub", "y"], 2, true, false, None),
        found(&["/", "r", "sub", "z"], 3, true, false, None),
    ];
    let tree = build_tree(&root_of(&["/", "r"]), &items, false);
    let mut app = App::new(tree, args());
    assert_eq!(app.tree.nodes[0].size, 16);
    app.go_to_first();
    assert_eq!(shown_names(&app)[0], "top");
    app.next();
    app.enter_dir();
    assert_eq!(app.current_children().len(), 3);
    app.go_to_last();
    let fresh = build_tree(
        &root_of(&["/", "r", "sub"]),
        &vec![found(&["/", "r", "sub", "y"], 2, true, false, None), WalkItem::Failed],
        false,
    );
    app.refresh(fresh);
    let cur = app.current_node;
    assert_eq!(app.tree.nodes[cur].children.len(), 1);
    assert_eq!(app.tree.nodes[cur].size, 2);
    assert_eq!(app.tree.nodes[cur].error_count, 1);
    assert_eq!(app.tree.nodes[cur].name, "sub");
    assert_eq!(shown_names(&app), vec!["y"]);
    assert_eq!(app.selection, Some(0));
    assert_eq!(app.tree.nodes[0].size, 16);
    assert_eq!(status(&app), "Refresh complete!");
    app.go_up();
    assert_eq!(app.current_node, 0);
    assert_eq!(app.current_total_size(), 12);
}

#[test]
fn refresh_to_empty_directory_clears_selection() {
    let mut app = App::new(sample_tree(), args());
    let fresh = build_tree(&root_of(&["/", "r"]), &Vec::new(), false);
    app.refresh(fresh);
    assert_eq!(app.selection, None);
    assert_eq!(app.tree.nodes[0].size, 0);
    assert!(app.current_children().is_empty());
}
