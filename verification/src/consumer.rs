use vstd::prelude::*;

use crate::dir_info::FsDirInfo;
use crate::dir_info::sum_sizes;
use crate::item_info::FsItemInfo;
use crate::options::Options;
use crate::overall_info::OverallInfo;
use crate::path_cache::PathCache;
use crate::path_cache::insert_v;
use crate::path_cache::nodes_view;
use crate::path_cache::rev_segs;
use crate::path_cache::wf_vs;
use crate::segments::split_on;
use crate::segments::split_path;

verus! {

/// A stack whose members are segment strings, read bottom to top, names
/// the same segments as `segs` read front to back when the two stand in
/// reverse order of one another.
proof fn lemma_rev_segs_of_reversed(t: Seq<String>, u: Seq<Seq<char>>)
    requires
        t.len() == u.len(),
        forall|k: int| 0 <= k < t.len() ==> (#[trigger] t[k])@ == u[t.len() - 1 - k],
    ensures
        rev_segs(t) == u,
    decreases t.len(),
{
    if t.len() == 0 {
        assert(rev_segs(t) =~= u);
    } else {
        assert(t.last()@ == u[0]);
        assert forall|k: int| 0 <= k < t.drop_last().len() implies (#[trigger] t.drop_last()[k])@
            == u.drop_first()[t.drop_last().len() - 1 - k] by {
            assert(t.drop_last()[k] == t[k]);
            assert(u.drop_first()[t.drop_last().len() - 1 - k] == u[t.len() - 1 - k]);
        }
        lemma_rev_segs_of_reversed(t.drop_last(), u.drop_first());
        assert(rev_segs(t) =~= u) by {
            assert(rev_segs(t) == seq![t.last()@] + rev_segs(t.drop_last()));
        }
    }
}

/// Splits the path into segments and inserts it into the trie with the
/// given payload attached at the terminal segment.
pub fn insert_event(pc: &mut Vec<PathCache>, path: &String, info: &FsItemInfo)
    ensures
        nodes_view(final(pc)@) == insert_v(nodes_view(old(pc)@), split_on(path@), *info),
        wf_vs(nodes_view(old(pc)@)) ==> wf_vs(nodes_view(final(pc)@)),
{
    let parts = split_path(path);
    let ghost segs = split_on(path@);
    let n = parts.len();
    let mut rev_parts: Vec<String> = Vec::new();
    let mut i: usize = n;
    while i > 0
        invariant
            i <= n,
            n == parts@.len(),
            rev_parts@.len() == n - i,
            parts@.map_values(|t: String| t@) == segs,
            forall|k: int| 0 <= k < n - i ==> (#[trigger] rev_parts@[k])@ == segs[n - 1 - k],
        decreases i,
    {
        i = i - 1;
        let ghost rp0 = rev_parts@;
        let piece = parts[i].clone();
        rev_parts.push(piece);
        proof {
            assert forall|k: int| 0 <= k < n - i implies (#[trigger] rev_parts@[k])@ == segs[n - 1
                - k] by {
                if k < n - i - 1 {
                    assert(rev_parts@[k] == rp0[k]);
                } else {
                    assert(rev_parts@[k] == piece);
                    assert(piece@ == parts@[i as int]@);
                    assert(segs[i as int] == parts@.map_values(|t: String| t@)[i as int]);
                }
            }
        }
    }
    proof {
        lemma_rev_segs_of_reversed(rev_parts@, segs);
        assert(segs.len() >= 1);
    }
    PathCache::construct(pc, &mut rev_parts, info);
}

/// Whether a progress line is due now: progress is enabled and the number
/// of items processed so far has reached a multiple of the configured
/// count.
pub fn print_progress_if_needed(overall: &OverallInfo, opts: &Options) -> (emit: bool)
    requires
        overall.dirs + overall.files <= u64::MAX,
        opts.progress.enabled ==> opts.progress.count > 0,
    ensures
        emit == (opts.progress.enabled && (overall.dirs + overall.files) as u64
            % opts.progress.count == 0),
{
    if opts.progress.enabled {
        overall.all() % opts.progress.count == 0
    } else {
        false
    }
}

/// Consumes one `DirEnter` event: counts the directory, inserts its path
/// into the trie, opens a fresh per-directory file list, pushes the
/// directory onto the traversal stack, and reports whether a progress
/// line is due.
pub fn handle_dir_enter(
    stack: &mut Vec<FsDirInfo>,
    pc: &mut Vec<PathCache>,
    overall: &mut OverallInfo,
    dir_files: &mut Vec<Vec<FsItemInfo>>,
    path: &String,
    info: &FsItemInfo,
    opts: &Options,
) -> (emit: bool)
    requires
        old(overall).dirs + 1 + old(overall).files <= u64::MAX,
        opts.progress.enabled ==> opts.progress.count > 0,
    ensures
        final(overall).dirs == old(overall).dirs + 1,
        final(overall).files == old(overall).files,
        nodes_view(final(pc)@) == insert_v(nodes_view(old(pc)@), split_on(path@), *info),
        wf_vs(nodes_view(old(pc)@)) ==> wf_vs(nodes_view(final(pc)@)),
        final(stack)@.len() == old(stack)@.len() + 1,
        final(stack)@.drop_last() == old(stack)@,
        final(stack)@.last().path@ == path@,
        final(stack)@.last().files@.len() == 0,
        final(stack)@.last().files_size == 0,
        final(dir_files)@.len() == old(dir_files)@.len() + 1,
        final(dir_files)@.drop_last() == old(dir_files)@,
        final(dir_files)@.last()@.len() == 0,
        emit == (opts.progress.enabled && (old(overall).dirs + 1 + old(overall).files) as u64
            % opts.progress.count == 0),
{
    overall.dirs = overall.dirs + 1;
    insert_event(pc, path, info);
    let res = print_progress_if_needed(overall, opts);
    dir_files.push(Vec::new());
    stack.push(FsDirInfo { path: path.clone(), files: Vec::new(), files_size: 0 });
    proof {
        assert(stack@.drop_last() =~= old(stack)@);
        assert(dir_files@.drop_last() =~= old(dir_files)@);
    }
    res
}

/// Consumes one `DirLeave` event: closes the per-directory file list,
/// adds up the sizes of the files recorded for the directory being left,
/// and pops it off the traversal stack.
pub fn handle_dir_leave(
    stack: &mut Vec<FsDirInfo>,
    dir_files: &mut Vec<Vec<FsItemInfo>>,
    path: &String,
    info: &FsItemInfo,
)
    requires
        old(stack)@.len() > 0,
        old(dir_files)@.len() > 0,
        old(stack)@.last().files_size + sum_sizes(old(stack)@.last().files@) <= u64::MAX,
    ensures
        final(stack)@ == old(stack)@.drop_last(),
        final(dir_files)@ == old(dir_files)@.drop_last(),
{
    let _files = dir_files.pop();
    let mut top = match stack.pop() {
        Some(t) => t,
        None => {
            proof {
                assert(false);
            }
            return ;
        },
    };
    top.calculate_files_size();
}

/// Consumes one `File` event: counts the file, inserts its path into the
/// trie, records it in the enclosing directory's file list, and reports
/// whether a progress line is due.
pub fn handle_file(
    pc: &mut Vec<PathCache>,
    overall: &mut OverallInfo,
    dir_files: &mut Vec<FsItemInfo>,
    path: &String,
    info: FsItemInfo,
    opts: &Options,
) -> (emit: bool)
    requires
        old(overall).dirs + 1 + old(overall).files <= u64::MAX,
        opts.progress.enabled ==> opts.progress.count > 0,
    ensures
        final(overall).files == old(overall).files + 1,
        final(overall).dirs == old(overall).dirs,
        nodes_view(final(pc)@) == insert_v(nodes_view(old(pc)@), split_on(path@), info),
        wf_vs(nodes_view(old(pc)@)) ==> wf_vs(nodes_view(final(pc)@)),
        final(dir_files)@ == old(dir_files)@.push(info),
        emit == (opts.progress.enabled && (old(overall).dirs + old(overall).files + 1) as u64
            % opts.progress.count == 0),
{
    overall.files = overall.files + 1;
    insert_event(pc, path, &info);
    let res = print_progress_if_needed(overall, opts);
    dir_files.push(info);
    res
}

/// Consumes one filesystem event, dispatching on its kind, and reports
/// whether a progress line is due (`DirLeave` never reports one).
pub fn handle_fs_item(
    stack: &mut Vec<FsDirInfo>,
    pc: &mut Vec<PathCache>,
    overall: &mut OverallInfo,
    dir_files: &mut Vec<Vec<FsItemInfo>>,
    path: &String,
    info: FsItemInfo,
    opts: &Options,
) -> (emit: bool)
    requires
        old(overall).dirs + 1 + old(overall).files <= u64::MAX,
        opts.progress.enabled ==> opts.progress.count > 0,
        info.event_type is File ==> old(dir_files)@.len() > 0,
        info.event_type is DirLeave ==> old(stack)@.len() > 0 && old(dir_files)@.len() > 0 && old(
            stack,
        )@.last().files_size + sum_sizes(old(stack)@.last().files@) <= u64::MAX,
    ensures
        info.event_type is DirEnter ==> {
            &&& final(overall).dirs == old(overall).dirs + 1
            &&& final(overall).files == old(overall).files
            &&& nodes_view(final(pc)@) == insert_v(nodes_view(old(pc)@), split_on(path@), info)
            &&& final(stack)@.len() == old(stack)@.len() + 1
            &&& final(stack)@.drop_last() == old(stack)@
            &&& final(stack)@.last().path@ == path@
            &&& final(stack)@.last().files@.len() == 0
            &&& final(stack)@.last().files_size == 0
            &&& final(dir_files)@.len() == old(dir_files)@.len() + 1
            &&& final(dir_files)@.drop_last() == old(dir_files)@
            &&& final(dir_files)@.last()@.len() == 0
            &&& emit == (opts.progress.enabled && (old(overall).dirs + 1 + old(overall).files)
                as u64 % opts.progress.count == 0)
        },
        info.event_type is File ==> {
            &&& final(overall).files == old(overall).files + 1
            &&& final(overall).dirs == old(overall).dirs
            &&& nodes_view(final(pc)@) == insert_v(nodes_view(old(pc)@), split_on(path@), info)
            &&& final(stack)@ == old(stack)@
            &&& final(dir_files)@.len() == old(dir_files)@.len()
            &&& final(dir_files)@.drop_last() == old(dir_files)@.drop_last()
            &&& final(dir_files)@.last()@ == old(dir_files)@.last()@.push(info)
            &&& emit == (opts.progress.enabled && (old(overall).dirs + old(overall).files + 1)
                as u64 % opts.progress.count == 0)
        },
        info.event_type is DirLeave ==> {
            &&& *final(overall) == *old(overall)
            &&& final(pc)@ == old(pc)@
            &&& final(stack)@ == old(stack)@.drop_last()
            &&& final(dir_files)@ == old(dir_files)@.drop_last()
            &&& emit == false
        },
        wf_vs(nodes_view(old(pc)@)) ==> wf_vs(nodes_view(final(pc)@)),
{
    match info.event_type {
        crate::event_type::EventType::DirEnter => {
            handle_dir_enter(stack, pc, overall, dir_files, path, &info, opts)
        },
        crate::event_type::EventType::DirLeave => {
            handle_dir_leave(stack, dir_files, path, &info);
            false
        },
        crate::event_type::EventType::File => {
            let mut last = match dir_files.pop() {
                Some(l) => l,
                None => {
                    proof {
                        assert(false);
                    }
                    return false;
                },
            };
            let res = handle_file(pc, overall, &mut last, path, info, opts);
            let ghost mid = dir_files@;
            dir_files.push(last);
            proof {
                assert(dir_files@.drop_last() =~= mid);
                assert(mid =~= old(dir_files)@.drop_last());
            }
            res
        },
    }
}

} // verus!
