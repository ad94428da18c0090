use wims::{insert_event, EventType, FsItemInfo, PathCache};

fn file_at(size: u64) -> FsItemInfo {
    FsItemInfo { event_type: EventType::File, ino: 0, mtime: 0, size }
}

fn dir_at() -> FsItemInfo {
    FsItemInfo { event_type: EventType::DirEnter, ino: 0, mtime: 0, size: 0 }
}

fn small_tree() -> Vec<PathCache> {
    let mut pc: Vec<PathCache> = Vec::new();
    insert_event(&mut pc, &String::from("r"), &dir_at());
    insert_event(&mut pc, &String::from("r/a"), &file_at(10));
    insert_event(&mut pc, &String::from("r/b"), &dir_at());
    insert_event(&mut pc, &String::from("r/b/c"), &file_at(1536));
    assert!(PathCache::calculate_all_sizes(&mut pc));
    pc
}

#[test]
fn tree_lines_show_sizes_per_node() {
    let pc = small_tree();
    let mut lines: Vec<String> = Vec::new();
    PathCache::print(&pc, 0, 0, false, false, &mut lines);
    let want = vec![
        String::from("r (10 / 1536 / 1546)"),
        String::from("  a (10)"),
        String::from("  b (1536 / 0 / 1536)"),
        String::from("    c (1536)"),
    ];
    assert_eq!(lines, want);
}

#[test]
fn tree_lines_can_suppress_files() {
    let pc = small_tree();
    let mut lines: Vec<String> = Vec::new();
    PathCache::print(&pc, 0, 0, true, false, &mut lines);
    let want = vec![
        String::from("r (10 / 1536 / 1546)"),
        String::from("  b (1536 / 0 / 1536)"),
    ];
    assert_eq!(lines, want);
}

#[test]
fn tree_lines_respect_the_depth_cutoff() {
    let pc = small_tree();
    let mut lines: Vec<String> = Vec::new();
    PathCache::print(&pc, 0, 1, false, false, &mut lines);
    let want = vec![
        String::from("r (10 / 1536 / 1546)"),
        String::from("  a (10)"),
        String::from("  b (1536 / 0 / 1536)"),
    ];
    assert_eq!(lines, want);
}

#[test]
fn tree_lines_can_scale_sizes() {
    let pc = small_tree();
    let mut lines: Vec<String> = Vec::new();
    PathCache::print(&pc, 0, 0, true, true, &mut lines);
    let want = vec![
        String::from("r (10B / 1.50KB / 1.51KB)"),
        String::from("  b (1.50KB / 0B / 1.50KB)"),
    ];
    assert_eq!(lines, want);
}

#[test]
fn bare_nodes_show_their_segment_only() {
    let mut pc: Vec<PathCache> = Vec::new();
    insert_event(&mut pc, &String::from("p/q"), &file_at(2));
    let mut lines: Vec<String> = Vec::new();
    PathCache::print(&pc, 0, 0, false, false, &mut lines);
    let want = vec![String::from("p"), String::from("  q (2)")];
    assert_eq!(lines, want);
}
