use wims::{insert_event, EventType, FsItemInfo, PathCache};

fn file_entry(size: u64) -> FsItemInfo {
    FsItemInfo { event_type: EventType::File, ino: 0, mtime: 0, size }
}

fn dir_entry() -> FsItemInfo {
    FsItemInfo { event_type: EventType::DirEnter, ino: 0, mtime: 0, size: 0 }
}

fn same_trie(a: &Vec<PathCache>, b: &Vec<PathCache>) -> bool {
    if a.len() != b.len() {
        return false;
    }
    for i in 0..a.len() {
        let x = &a[i];
        let y = &b[i];
        if x.path != y.path || x.data != y.data || x.dirs_size != y.dirs_size
            || x.files_size != y.files_size || x.total_size != y.total_size
            || !same_trie(&x.childs, &y.childs)
        {
            return false;
        }
    }
    true
}

fn duplicate_forest(a: &Vec<PathCache>) -> Vec<PathCache> {
    let mut out = Vec::new();
    for n in a.iter() {
        out.push(n.duplicate());
    }
    out
}

#[test]
fn insert_builds_segment_chain() {
    let mut pc: Vec<PathCache> = Vec::new();
    insert_event(&mut pc, &String::from("/r/a"), &file_entry(10));
    assert_eq!(pc.len(), 1);
    assert_eq!(pc[0].path, "");
    assert!(pc[0].data.is_none());
    assert_eq!(pc[0].childs.len(), 1);
    let r = &pc[0].childs[0];
    assert_eq!(r.path, "r");
    assert!(r.data.is_none());
    assert_eq!(r.childs.len(), 1);
    let a = &r.childs[0];
    assert_eq!(a.path, "a");
    assert_eq!(a.data, Some(file_entry(10)));
    assert_eq!(a.childs.len(), 0);
}

#[test]
fn ancestors_exist_for_every_inserted_path() {
    let mut pc: Vec<PathCache> = Vec::new();
    insert_event(&mut pc, &String::from("/r/b/c"), &file_entry(5));
    let root = &pc[0];
    assert_eq!(root.path, "");
    let r = &root.childs[0];
    assert_eq!(r.path, "r");
    let b = &r.childs[0];
    assert_eq!(b.path, "b");
    let c = &b.childs[0];
    assert_eq!(c.path, "c");
    assert_eq!(c.data, Some(file_entry(5)));
}

#[test]
fn prefix_insert_keeps_deeper_subtree() {
    let mut pc: Vec<PathCache> = Vec::new();
    insert_event(&mut pc, &String::from("/a/b"), &file_entry(3));
    insert_event(&mut pc, &String::from("/a"), &dir_entry());
    let a = &pc[0].childs[0];
    assert_eq!(a.path, "a");
    assert_eq!(a.data, Some(dir_entry()));
    assert_eq!(a.childs.len(), 1);
    assert_eq!(a.childs[0].path, "b");
    assert_eq!(a.childs[0].data, Some(file_entry(3)));
}

#[test]
fn first_insert_stays_authoritative() {
    let mut pc: Vec<PathCache> = Vec::new();
    insert_event(&mut pc, &String::from("x"), &file_entry(1));
    insert_event(&mut pc, &String::from("x"), &file_entry(2));
    assert_eq!(pc.len(), 1);
    assert_eq!(pc[0].data, Some(file_entry(1)));
}

#[test]
fn siblings_stay_in_segment_order() {
    let mut pc: Vec<PathCache> = Vec::new();
    insert_event(&mut pc, &String::from("b"), &file_entry(1));
    insert_event(&mut pc, &String::from("c"), &file_entry(2));
    insert_event(&mut pc, &String::from("a"), &file_entry(3));
    assert_eq!(pc.len(), 3);
    assert_eq!(pc[0].path, "a");
    assert_eq!(pc[1].path, "b");
    assert_eq!(pc[2].path, "c");
}

#[test]
fn merge_unions_children_under_same_key() {
    let mut left: Vec<PathCache> = Vec::new();
    insert_event(&mut left, &String::from("a/x"), &file_entry(1));
    let mut right: Vec<PathCache> = Vec::new();
    insert_event(&mut right, &String::from("a/y"), &file_entry(2));
    PathCache::merge(&mut left, &right);
    assert_eq!(left.len(), 1);
    assert_eq!(left[0].path, "a");
    assert_eq!(left[0].childs.len(), 2);
    assert_eq!(left[0].childs[0].path, "x");
    assert_eq!(left[0].childs[0].data, Some(file_entry(1)));
    assert_eq!(left[0].childs[1].path, "y");
    assert_eq!(left[0].childs[1].data, Some(file_entry(2)));
}

#[test]
fn merge_twice_equals_merge_once() {
    let mut left: Vec<PathCache> = Vec::new();
    insert_event(&mut left, &String::from("a/x"), &file_entry(1));
    insert_event(&mut left, &String::from("b"), &file_entry(4));
    let mut right: Vec<PathCache> = Vec::new();
    insert_event(&mut right, &String::from("a/y"), &file_entry(2));
    insert_event(&mut right, &String::from("c/z"), &file_entry(3));

    let mut once = duplicate_forest(&left);
    PathCache::merge(&mut once, &right);
    let mut twice = duplicate_forest(&once);
    PathCache::merge(&mut twice, &right);
    assert!(same_trie(&once, &twice));
}

#[test]
fn merge_order_does_not_matter_for_disjoint_keys() {
    let mut a: Vec<PathCache> = Vec::new();
    insert_event(&mut a, &String::from("m/x"), &file_entry(1));
    let mut b: Vec<PathCache> = Vec::new();
    insert_event(&mut b, &String::from("p/q"), &file_entry(2));
    let mut c: Vec<PathCache> = Vec::new();
    insert_event(&mut c, &String::from("t"), &file_entry(3));

    let mut ab = duplicate_forest(&a);
    PathCache::merge(&mut ab, &b);
    PathCache::merge(&mut ab, &c);

    let mut ac = duplicate_forest(&a);
    PathCache::merge(&mut ac, &c);
    PathCache::merge(&mut ac, &b);

    assert!(same_trie(&ab, &ac));
}

#[test]
fn merge_keeps_left_stored_sizes() {
    let mut left: Vec<PathCache> = Vec::new();
    insert_event(&mut left, &String::from("r"), &dir_entry());
    insert_event(&mut left, &String::from("r/a"), &file_entry(10));
    assert!(PathCache::calculate_all_sizes(&mut left));
    assert_eq!(left[0].total_size, 10);
    let mut right: Vec<PathCache> = Vec::new();
    insert_event(&mut right, &String::from("r/b"), &file_entry(7));
    PathCache::merge(&mut left, &right);
    // The kept node's stored sizes are untouched by the merge: they are
    // derived values, stale until the next rollup.
    assert_eq!(left[0].total_size, 10);
    assert_eq!(left[0].files_size, 10);
    assert_eq!(left[0].dirs_size, 0);
    assert_eq!(left[0].childs.len(), 2);
    // Freshly built nodes carry zero sizes until a rollup runs.
    assert_eq!(left[0].childs[1].path, "b");
    assert_eq!(left[0].childs[1].total_size, 0);
    assert!(PathCache::calculate_all_sizes(&mut left));
    assert_eq!(left[0].total_size, 17);
}

#[test]
fn merge_keeps_left_payload() {
    let mut left: Vec<PathCache> = Vec::new();
    insert_event(&mut left, &String::from("a"), &file_entry(1));
    let mut right: Vec<PathCache> = Vec::new();
    insert_event(&mut right, &String::from("a"), &file_entry(9));
    PathCache::merge(&mut left, &right);
    assert_eq!(left[0].data, Some(file_entry(1)));
}

#[test]
fn merge_into_empty_adopts_wholesale() {
    let mut left: Vec<PathCache> = Vec::new();
    let mut right: Vec<PathCache> = Vec::new();
    insert_event(&mut right, &String::from("a/x"), &file_entry(1));
    PathCache::merge(&mut left, &right);
    assert!(same_trie(&left, &right));
}

#[test]
fn merge_of_empty_changes_nothing() {
    let mut left: Vec<PathCache> = Vec::new();
    insert_event(&mut left, &String::from("a/x"), &file_entry(1));
    let before = duplicate_forest(&left);
    let right: Vec<PathCache> = Vec::new();
    PathCache::merge(&mut left, &right);
    assert!(same_trie(&before, &left));
}

#[test]
fn rollup_of_an_empty_forest_reports_done() {
    let mut pc: Vec<PathCache> = Vec::new();
    assert!(PathCache::calculate_all_sizes(&mut pc));
    assert_eq!(pc.len(), 0);
}

#[test]
fn rollup_sums_files_and_directories() {
    let mut pc: Vec<PathCache> = Vec::new();
    insert_event(&mut pc, &String::from("r"), &dir_entry());
    insert_event(&mut pc, &String::from("r/a"), &file_entry(10));
    insert_event(&mut pc, &String::from("r/b"), &dir_entry());
    insert_event(&mut pc, &String::from("r/b/c"), &file_entry(5));
    let done = PathCache::calculate_all_sizes(&mut pc);
    assert!(done);
    let r = &pc[0];
    assert_eq!(r.path, "r");
    assert_eq!(r.files_size, 10);
    assert_eq!(r.dirs_size, 5);
    assert_eq!(r.total_size, 15);
    let b = &r.childs[1];
    assert_eq!(b.path, "b");
    assert_eq!(b.files_size, 5);
    assert_eq!(b.dirs_size, 0);
    assert_eq!(b.total_size, 5);
}

#[test]
fn rollup_twice_gives_identical_sizes() {
    let mut pc: Vec<PathCache> = Vec::new();
    insert_event(&mut pc, &String::from("r"), &dir_entry());
    insert_event(&mut pc, &String::from("r/a"), &file_entry(7));
    insert_event(&mut pc, &String::from("r/d"), &dir_entry());
    insert_event(&mut pc, &String::from("r/d/e"), &file_entry(11));
    assert!(PathCache::calculate_all_sizes(&mut pc));
    let first = duplicate_forest(&pc);
    assert!(PathCache::calculate_all_sizes(&mut pc));
    assert!(same_trie(&first, &pc));
}

#[test]
fn rollup_ignores_insertion_order() {
    let paths: [&str; 4] = ["r", "r/a", "r/b", "r/b/c"];
    let datas: [FsItemInfo; 4] = [dir_entry(), file_entry(10), dir_entry(), file_entry(5)];
    let orders: [[usize; 4]; 3] = [[0, 1, 2, 3], [3, 2, 1, 0], [1, 3, 0, 2]];
    let mut totals: Vec<u64> = Vec::new();
    for order in orders.iter() {
        let mut pc: Vec<PathCache> = Vec::new();
        for &k in order.iter() {
            insert_event(&mut pc, &String::from(paths[k]), &datas[k]);
        }
        assert!(PathCache::calculate_all_sizes(&mut pc));
        assert_eq!(pc[0].path, "r");
        totals.push(pc[0].total_size);
    }
    assert_eq!(totals, vec![15, 15, 15]);
}

#[test]
fn rollup_ignores_directory_stat_sizes() {
    let mut pc: Vec<PathCache> = Vec::new();
    let fat_dir = FsItemInfo { event_type: EventType::DirEnter, ino: 0, mtime: 0, size: 4096 };
    insert_event(&mut pc, &String::from("r"), &fat_dir);
    insert_event(&mut pc, &String::from("r/a"), &file_entry(10));
    assert!(PathCache::calculate_all_sizes(&mut pc));
    assert_eq!(pc[0].total_size, 10);
}
