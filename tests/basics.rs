use rdu::utils::get_drive_letter;
use rdu::{FileNode, SortMode};

#[test]
fn sort_modes_cycle() {
    assert_eq!(SortMode::Size.next(), SortMode::ModifiedTime);
    assert_eq!(SortMode::ModifiedTime.next(), SortMode::ItemCount);
    assert_eq!(SortMode::ItemCount.next(), SortMode::Size);
}

#[test]
fn sort_mode_names() {
    assert_eq!(SortMode::Size.name(), "size");
    assert_eq!(SortMode::ModifiedTime.name(), "mtime");
    assert_eq!(SortMode::ItemCount.name(), "count");
}

#[test]
fn new_node_has_no_children() {
    let n = FileNode::new(vec!["/".to_string(), "x".to_string()], "x".to_string(), 42, true, Some(7));
    assert_eq!(n.child_count(), 0);
    assert_eq!(n.size, 42);
    assert_eq!(n.error_count, 0);
    assert_eq!(n.modified_time, Some(7));
    assert!(n.is_dir);
    assert_eq!(n.name, "x");
}

#[test]
fn drive_letter_is_first_character_of_prefix() {
    assert_eq!(get_drive_letter(Some("C:")), Some('C'));
    assert_eq!(get_drive_letter(Some(r"\\?\D:")), Some('\\'));
    assert_eq!(get_drive_letter(Some("")), None);
    assert_eq!(get_drive_letter(None), None);
}
