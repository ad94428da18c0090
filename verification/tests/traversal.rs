use wims::{
    handle_fs_item, process, visit_dir, EventType, FsDirInfo, FsEvent, FsItemInfo, FsNodeKind,
    FsTreeNode, Options, OptionsCache, OptionsHuman, OptionsProgress, OptionsStats, OptionsTree,
    OverallInfo, PathCache, ProgressFormat,
};

fn leaf(path: &str, kind: FsNodeKind, size: u64) -> FsTreeNode {
    FsTreeNode {
        path: String::from(path),
        kind,
        ino: 1,
        mtime: 2,
        size,
        entries: Vec::new(),
    }
}

fn dir_node(path: &str, entries: Vec<FsTreeNode>) -> FsTreeNode {
    FsTreeNode { path: String::from(path), kind: FsNodeKind::Dir, ino: 1, mtime: 2, size: 0, entries }
}

fn quiet_options() -> Options {
    Options {
        cache: OptionsCache { enabled: false },
        human: OptionsHuman { enabled: false },
        progress: OptionsProgress { enabled: false, count: 10000, format: ProgressFormat::Path },
        stats: OptionsStats { enabled: false },
        tree: OptionsTree { enabled: false, max_depth: 0, only_dirs: false },
    }
}

fn kinds_and_paths(events: &Vec<FsEvent>) -> Vec<(EventType, String)> {
    let mut out = Vec::new();
    for e in events.iter() {
        out.push((e.info.event_type, e.path.clone()));
    }
    out
}

#[test]
fn walk_emits_depth_first_events_in_order() {
    let tree = dir_node(
        "/r",
        vec![leaf("/r/a", FsNodeKind::File, 10), dir_node("/r/b", vec![leaf("/r/b/c", FsNodeKind::File, 5)])],
    );
    let mut events: Vec<FsEvent> = Vec::new();
    process(&mut events, &vec![tree]);
    let got = kinds_and_paths(&events);
    let want = vec![
        (EventType::DirEnter, String::from("/r")),
        (EventType::File, String::from("/r/a")),
        (EventType::DirEnter, String::from("/r/b")),
        (EventType::File, String::from("/r/b/c")),
        (EventType::DirLeave, String::from("/r/b")),
        (EventType::DirLeave, String::from("/r")),
    ];
    assert_eq!(got, want);
}

#[test]
fn symlink_root_emits_nothing() {
    let mut events: Vec<FsEvent> = Vec::new();
    visit_dir(&mut events, &leaf("/s", FsNodeKind::Symlink, 0));
    assert_eq!(events.len(), 0);
}

#[test]
fn symlink_inside_a_directory_emits_nothing() {
    let tree = dir_node(
        "/r",
        vec![
            FsTreeNode {
                path: String::from("/r/link"),
                kind: FsNodeKind::Symlink,
                ino: 9,
                mtime: 0,
                size: 0,
                entries: vec![leaf("/r/link/inside", FsNodeKind::File, 99)],
            },
            leaf("/r/a", FsNodeKind::File, 1),
        ],
    );
    let mut events: Vec<FsEvent> = Vec::new();
    visit_dir(&mut events, &tree);
    let got = kinds_and_paths(&events);
    let want = vec![
        (EventType::DirEnter, String::from("/r")),
        (EventType::File, String::from("/r/a")),
        (EventType::DirLeave, String::from("/r")),
    ];
    assert_eq!(got, want);
}

#[test]
fn file_root_emits_nothing() {
    let mut events: Vec<FsEvent> = Vec::new();
    visit_dir(&mut events, &leaf("/f", FsNodeKind::File, 10));
    assert_eq!(events.len(), 0);
}

#[test]
fn special_file_inside_a_directory_is_skipped() {
    let tree = dir_node("/r", vec![leaf("/r/sock", FsNodeKind::Other, 3)]);
    let mut events: Vec<FsEvent> = Vec::new();
    visit_dir(&mut events, &tree);
    let got = kinds_and_paths(&events);
    let want = vec![
        (EventType::DirEnter, String::from("/r")),
        (EventType::DirLeave, String::from("/r")),
    ];
    assert_eq!(got, want);
}

#[test]
fn scan_and_rollup_of_a_small_tree() {
    let tree = dir_node(
        "/r",
        vec![leaf("/r/a", FsNodeKind::File, 10), dir_node("/r/b", vec![leaf("/r/b/c", FsNodeKind::File, 5)])],
    );
    let mut events: Vec<FsEvent> = Vec::new();
    process(&mut events, &vec![tree]);

    let opts = quiet_options();
    let mut stack: Vec<FsDirInfo> = Vec::new();
    let mut pc: Vec<PathCache> = Vec::new();
    let mut overall = OverallInfo { dirs: 0, files: 0 };
    let mut dir_files: Vec<Vec<FsItemInfo>> = Vec::new();
    for e in events.iter() {
        handle_fs_item(&mut stack, &mut pc, &mut overall, &mut dir_files, &e.path, e.info, &opts);
    }
    assert_eq!(overall.dirs, 2);
    assert_eq!(overall.files, 2);
    assert_eq!(overall.all(), 4);
    assert_eq!(stack.len(), 0);
    assert_eq!(dir_files.len(), 0);

    assert!(PathCache::calculate_all_sizes(&mut pc));
    let root = &pc[0];
    assert_eq!(root.path, "");
    let r = &root.childs[0];
    assert_eq!(r.path, "r");
    assert_eq!(r.total_size, 15);
    let b = &r.childs[1];
    assert_eq!(b.path, "b");
    assert_eq!(b.total_size, 5);
    assert_eq!(root.total_size, 15);
}
