use vstd::prelude::*;

pub mod consumer;
pub mod dir_info;
pub mod event_type;
pub mod formatter;
pub mod item_info;
pub mod laws;
pub mod message_type;
pub mod options;
pub mod overall_info;
pub mod path_cache;
pub mod progress_format;
pub mod segments;

pub use consumer::handle_dir_enter;
pub use consumer::handle_dir_leave;
pub use consumer::handle_file;
pub use consumer::handle_fs_item;
pub use consumer::insert_event;
pub use consumer::print_progress_if_needed;
pub use dir_info::FsDirInfo;
pub use event_type::EventType;
pub use item_info::FsItemInfo;
pub use item_info::ItemSize;
pub use message_type::MessageType;
pub use options::Options;
pub use options::OptionsCache;
pub use options::OptionsHuman;
pub use options::OptionsProgress;
pub use options::OptionsStats;
pub use options::OptionsTree;
pub use overall_info::OverallInfo;
pub use path_cache::PathCache;
pub use progress_format::ProgressFormat;

verus! {

/// The consumer's stack of directories currently open during a scan.
pub type FsStack = Vec<FsDirInfo>;

/// What kind of node one entry of a filesystem snapshot records, as the
/// probe saw it without following symbolic links.
#[derive(Debug, Clone, Copy, PartialEq, Eq, Structural)]
pub enum FsNodeKind {
    Dir,
    File,
    Symlink,
    Other,
}

/// One node of a filesystem snapshot: the full slash-delimited path, the
/// node's kind and metadata, and, for a directory, its entries in the
/// order the filesystem enumerated them. A directory that could not be
/// read is recorded with no entries: its subtree is pruned, never failed.
#[derive(Debug)]
pub struct FsTreeNode {
    pub path: String,
    pub kind: FsNodeKind,
    pub ino: u64,
    pub mtime: i64,
    pub size: u64,
    pub entries: Vec<FsTreeNode>,
}

/// One traversal event: the visited path and its metadata record.
#[derive(Debug)]
pub struct FsEvent {
    pub path: String,
    pub info: FsItemInfo,
}

/// The mathematical reading of a list of events: each as its path's
/// characters and its metadata record.
pub open spec fn events_view(s: Seq<FsEvent>) -> Seq<(Seq<char>, FsItemInfo)> {
    s.map_values(|e: FsEvent| (e.path@, e.info))
}

/// The number of snapshot nodes in a subtree, counting the node itself.
pub open spec fn tree_size(n: FsTreeNode) -> nat
    decreases n,
{
    1 + trees_size(n.entries@)
}

/// The number of snapshot nodes in a list of subtrees.
pub open spec fn trees_size(s: Seq<FsTreeNode>) -> nat
    decreases s,
{
    if s.len() == 0 {
        0
    } else {
        tree_size(s[0]) + trees_size(s.drop_first())
    }
}

/// A member's subtree is no larger than the whole list.
proof fn lemma_trees_size_elem(s: Seq<FsTreeNode>, k: int)
    requires
        0 <= k < s.len(),
    ensures
        tree_size(s[k]) <= trees_size(s),
    decreases s.len(),
{
    if k > 0 {
        lemma_trees_size_elem(s.drop_first(), k - 1);
        assert(s.drop_first()[k - 1] == s[k]);
    }
}

/// A list's node count splits over its last member.
proof fn lemma_trees_size_drop_last(s: Seq<FsTreeNode>)
    requires
        s.len() > 0,
    ensures
        trees_size(s) == trees_size(s.drop_last()) + tree_size(s.last()),
    decreases s.len(),
{
    if s.len() == 1 {
        assert(s.drop_last() =~= Seq::empty());
        assert(s.drop_first() =~= Seq::empty());
    } else {
        lemma_trees_size_drop_last(s.drop_first());
        assert(s.drop_first().drop_last() =~= s.drop_last().drop_first());
        assert(s.drop_first().last() == s.last());
        assert(s.drop_last()[0] == s[0]);
    }
}

/// Appending one event appends its reading to the list's reading.
proof fn lemma_events_view_push(s: Seq<FsEvent>, e: FsEvent)
    ensures
        events_view(s.push(e)) =~= events_view(s).push((e.path@, e.info)),
{
    assert forall|k: int| 0 <= k < s.len() + 1 implies events_view(s.push(e))[k] == events_view(
        s,
    ).push((e.path@, e.info))[k] by {
        if k < s.len() {
            assert(s.push(e)[k] == s[k]);
        } else {
            assert(s.push(e)[k] == e);
        }
    }
}

/// The metadata record a traversal event carries for a snapshot node.
pub open spec fn record_of(n: FsTreeNode, kind: EventType) -> FsItemInfo {
    FsItemInfo { event_type: kind, ino: n.ino, mtime: n.mtime, size: n.size }
}

/// The ordered events a depth-first walk emits for one root: nothing
/// unless the root is a directory that is no symbolic link; for a
/// directory, its own entry event, then its entries' events in order,
/// then its leave event.
pub open spec fn visit_v(n: FsTreeNode) -> Seq<(Seq<char>, FsItemInfo)>
    decreases tree_size(n), 0nat,
    via visit_v_dec
{
    if !(n.kind is Dir) {
        Seq::empty()
    } else {
        seq![(n.path@, record_of(n, EventType::DirEnter))] + entries_v(n.entries@) + seq![
            (n.path@, record_of(n, EventType::DirLeave)),
        ]
    }
}

/// The ordered events for a directory's entries: a directory entry yields
/// its whole walk, a file entry yields one file event, and a symbolic
/// link or special file yields nothing.
pub open spec fn entries_v(s: Seq<FsTreeNode>) -> Seq<(Seq<char>, FsItemInfo)>
    decreases trees_size(s), 2nat,
    via entries_v_dec
{
    if s.len() == 0 {
        Seq::empty()
    } else {
        entries_v(s.drop_last()) + entry_ev(s.last())
    }
}

/// The events one directory entry contributes.
pub open spec fn entry_ev(e: FsTreeNode) -> Seq<(Seq<char>, FsItemInfo)>
    decreases tree_size(e), 1nat,
{
    if e.kind is Dir {
        visit_v(e)
    } else if e.kind is File {
        seq![(e.path@, record_of(e, EventType::File))]
    } else {
        Seq::empty()
    }
}

#[via_fn]
proof fn visit_v_dec(n: FsTreeNode) {
    assert(tree_size(n) == 1 + trees_size(n.entries@));
}

#[via_fn]
proof fn entries_v_dec(s: Seq<FsTreeNode>) {
    if s.len() > 0 {
        lemma_trees_size_elem(s, s.len() - 1);
        lemma_trees_size_drop_last(s);
        assert(tree_size(s.last()) >= 1);
    }
}

/// The ordered events of a whole scan: each root's walk, in root order.
pub open spec fn roots_v(s: Seq<FsTreeNode>) -> Seq<(Seq<char>, FsItemInfo)>
    decreases s.len(),
{
    if s.len() == 0 {
        Seq::empty()
    } else {
        roots_v(s.drop_last()) + visit_v(s.last())
    }
}

/// The traversal skip policy: a symbolic link, wherever it is met, emits
/// nothing at all, neither for itself nor for anything behind it; and so
/// does any root that is not a directory.
pub proof fn lemma_symlink_emits_nothing(n: FsTreeNode)
    requires
        !(n.kind is Dir),
    ensures
        visit_v(n) == Seq::<(Seq<char>, FsItemInfo)>::empty(),
        n.kind is Symlink || n.kind is Other ==> entry_ev(n) == Seq::<(
            Seq<char>,
            FsItemInfo,
        )>::empty(),
{
}

/// Walks one snapshot subtree depth-first and appends its events: the
/// directory's entry event, every reachable entry's events in
/// enumeration order, directories before their contents, and the
/// directory's leave event last. A root that is not a directory, and any
/// symbolic link met on the way, contributes nothing.
pub fn visit_dir(out: &mut Vec<FsEvent>, dir: &FsTreeNode)
    ensures
        events_view(final(out)@) == events_view(old(out)@) + visit_v(*dir),
    decreases tree_size(*dir),
{
    let is_dir = match dir.kind {
        FsNodeKind::Dir => true,
        _ => false,
    };
    if !is_dir {
        proof {
            assert(events_view(out@) =~= events_view(out@) + visit_v(*dir));
        }
        return ;
    }
    let ghost base = events_view(out@);
    let ghost enter = (dir.path@, record_of(*dir, EventType::DirEnter));
    let ghost leave = (dir.path@, record_of(*dir, EventType::DirLeave));
    out.push(
        FsEvent {
            path: dir.path.clone(),
            info: FsItemInfo {
                event_type: EventType::DirEnter,
                ino: dir.ino,
                mtime: dir.mtime,
                size: dir.size,
            },
        },
    );
    proof {
        assert(events_view(out@) =~= base + seq![enter] + entries_v(dir.entries@.take(0)));
    }
    let n = dir.entries.len();
    let mut i: usize = 0;
    while i < n
        invariant
            i <= n,
            n == dir.entries@.len(),
            events_view(out@) == base + seq![enter] + entries_v(dir.entries@.take(i as int)),
        decreases n - i,
    {
        proof {
            lemma_trees_size_elem(dir.entries@, i as int);
            assert(tree_size(*dir) == 1 + trees_size(dir.entries@));
            assert(dir.entries@.take(i + 1).drop_last() =~= dir.entries@.take(i as int));
            assert(dir.entries@.take(i + 1).last() == dir.entries@[i as int]);
        }
        let entry = &dir.entries[i];
        match entry.kind {
            FsNodeKind::Dir => {
                let ghost before = events_view(out@);
                visit_dir(out, entry);
                proof {
                    assert(*entry == dir.entries@[i as int]);
                    assert(entry.kind is Dir);
                    assert(entry_ev(dir.entries@[i as int]) == visit_v(dir.entries@[i as int]));
                    assert(entries_v(dir.entries@.take(i + 1)) == entries_v(
                        dir.entries@.take(i as int),
                    ) + entry_ev(dir.entries@[i as int]));
                    assert(events_view(out@) == before + visit_v(dir.entries@[i as int]));
                    assert(before + visit_v(dir.entries@[i as int]) =~= base + seq![enter]
                        + entries_v(dir.entries@.take(i + 1)));
                }
            },
            FsNodeKind::File => {
                let ghost out0 = out@;
                out.push(
                    FsEvent {
                        path: entry.path.clone(),
                        info: FsItemInfo {
                            event_type: EventType::File,
                            ino: entry.ino,
                            mtime: entry.mtime,
                            size: entry.size,
                        },
                    },
                );
                proof {
                    let ev = out@.last();
                    assert(out@ == out0.push(ev));
                    lemma_events_view_push(out0, ev);
                    assert(*entry == dir.entries@[i as int]);
                    assert((ev.path@, ev.info) == (entry.path@, record_of(
                        *entry,
                        EventType::File,
                    )));
                    assert(entry_ev(dir.entries@[i as int]) == seq![
                        (entry.path@, record_of(*entry, EventType::File)),
                    ]);
                    assert(events_view(out0).push((ev.path@, ev.info)) =~= base + seq![enter]
                        + entries_v(dir.entries@.take(i + 1)));
                    assert(events_view(out@) == events_view(out0).push((ev.path@, ev.info)));
                }
            },
            FsNodeKind::Symlink | FsNodeKind::Other => {
                proof {
                    assert(*entry == dir.entries@[i as int]);
                    assert(!(entry.kind is Dir) && !(entry.kind is File));
                    assert(entry_ev(dir.entries@[i as int]) == Seq::<(
                        Seq<char>,
                        FsItemInfo,
                    )>::empty());
                    assert(entries_v(dir.entries@.take(i + 1)) =~= entries_v(
                        dir.entries@.take(i as int),
                    ));
                }
            },
        }
        i = i + 1;
    }
    let ghost out1 = out@;
    out.push(
        FsEvent {
            path: dir.path.clone(),
            info: FsItemInfo {
                event_type: EventType::DirLeave,
                ino: dir.ino,
                mtime: dir.mtime,
                size: dir.size,
            },
        },
    );
    proof {
        let ev = out@.last();
        assert(out@ == out1.push(ev));
        lemma_events_view_push(out1, ev);
        assert((ev.path@, ev.info) == leave);
        assert(dir.entries@.take(n as int) =~= dir.entries@);
        assert(events_view(out1).push(leave) =~= events_view(old(out)@) + visit_v(*dir));
        assert(events_view(out@) == events_view(out1).push(leave));
    }
}

/// Walks every root in argument order and appends all their events.
pub fn process(out: &mut Vec<FsEvent>, dirs: &Vec<FsTreeNode>)
    ensures
        events_view(final(out)@) == events_view(old(out)@) + roots_v(dirs@),
{
    let ghost base = events_view(out@);
    proof {
        assert(events_view(out@) =~= base + roots_v(dirs@.take(0)));
    }
    let n = dirs.len();
    let mut i: usize = 0;
    while i < n
        invariant
            i <= n,
            n == dirs@.len(),
            events_view(out@) == base + roots_v(dirs@.take(i as int)),
        decreases n - i,
    {
        proof {
            assert(dirs@.take(i + 1).drop_last() =~= dirs@.take(i as int));
            assert(dirs@.take(i + 1).last() == dirs@[i as int]);
        }
        visit_dir(out, &dirs[i]);
        proof {
            assert(events_view(out@) =~= base + roots_v(dirs@.take(i + 1)));
        }
        i = i + 1;
    }
    proof {
        assert(dirs@.take(n as int) =~= dirs@);
    }
}

} // verus!
