use wims::{
    handle_dir_enter, handle_dir_leave, handle_file, print_progress_if_needed, EventType,
    FsDirInfo, FsItemInfo, Options, OptionsCache, OptionsHuman, OptionsProgress, OptionsStats,
    OptionsTree, OverallInfo, PathCache, ProgressFormat,
};

fn options_with_progress(enabled: bool, count: u64) -> Options {
    Options {
        cache: OptionsCache { enabled: false },
        human: OptionsHuman { enabled: false },
        progress: OptionsProgress { enabled, count, format: ProgressFormat::Dot },
        stats: OptionsStats { enabled: false },
        tree: OptionsTree { enabled: false, max_depth: 0, only_dirs: false },
    }
}

fn some_dir() -> FsItemInfo {
    FsItemInfo { event_type: EventType::DirEnter, ino: 3, mtime: 4, size: 0 }
}

fn some_file(size: u64) -> FsItemInfo {
    FsItemInfo { event_type: EventType::File, ino: 5, mtime: 6, size }
}

#[test]
fn dir_enter_counts_and_opens_scopes() {
    let opts = options_with_progress(false, 10);
    let mut stack: Vec<FsDirInfo> = Vec::new();
    let mut pc: Vec<PathCache> = Vec::new();
    let mut overall = OverallInfo { dirs: 0, files: 0 };
    let mut dir_files: Vec<Vec<FsItemInfo>> = Vec::new();
    let emitted = handle_dir_enter(
        &mut stack,
        &mut pc,
        &mut overall,
        &mut dir_files,
        &String::from("/top"),
        &some_dir(),
        &opts,
    );
    assert!(!emitted);
    assert_eq!(overall.dirs, 1);
    assert_eq!(overall.files, 0);
    assert_eq!(stack.len(), 1);
    assert_eq!(stack[0].path, "/top");
    assert_eq!(stack[0].files_size, 0);
    assert_eq!(dir_files.len(), 1);
    assert_eq!(dir_files[0].len(), 0);
    assert_eq!(pc.len(), 1);
    assert_eq!(pc[0].path, "");
    assert_eq!(pc[0].childs[0].path, "top");
}

#[test]
fn file_counts_and_records() {
    let opts = options_with_progress(false, 10);
    let mut pc: Vec<PathCache> = Vec::new();
    let mut overall = OverallInfo { dirs: 1, files: 0 };
    let mut files_here: Vec<FsItemInfo> = Vec::new();
    let emitted = handle_file(
        &mut pc,
        &mut overall,
        &mut files_here,
        &String::from("/top/a"),
        some_file(42),
        &opts,
    );
    assert!(!emitted);
    assert_eq!(overall.files, 1);
    assert_eq!(files_here.len(), 1);
    assert_eq!(files_here[0].size, 42);
}

#[test]
fn dir_leave_closes_the_scope() {
    let mut stack: Vec<FsDirInfo> = vec![FsDirInfo {
        path: String::from("/top"),
        files: vec![some_file(3), some_file(4)],
        files_size: 0,
    }];
    let mut dir_files: Vec<Vec<FsItemInfo>> = vec![Vec::new()];
    handle_dir_leave(&mut stack, &mut dir_files, &String::from("/top"), &some_dir());
    assert_eq!(stack.len(), 0);
    assert_eq!(dir_files.len(), 0);
}

#[test]
fn progress_fires_on_the_configured_multiples() {
    let on = options_with_progress(true, 3);
    assert!(print_progress_if_needed(&OverallInfo { dirs: 1, files: 2 }, &on));
    assert!(!print_progress_if_needed(&OverallInfo { dirs: 1, files: 3 }, &on));
    assert!(print_progress_if_needed(&OverallInfo { dirs: 0, files: 0 }, &on));
    let off = options_with_progress(false, 3);
    assert!(!print_progress_if_needed(&OverallInfo { dirs: 1, files: 2 }, &off));
}

#[test]
fn overall_counts_add_up() {
    let overall = OverallInfo { dirs: 7, files: 35 };
    assert_eq!(overall.all(), 42);
}

#[test]
fn files_size_accumulates_recorded_files() {
    let mut d = FsDirInfo {
        path: String::from("/top"),
        files: vec![some_file(3), some_file(4), some_file(5)],
        files_size: 1,
    };
    d.calculate_files_size();
    assert_eq!(d.files_size, 13);
}
