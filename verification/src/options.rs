use vstd::prelude::*;

use crate::progress_format::ProgressFormat;

verus! {

/// Whether the finished trie is serialized to an on-disk cache.
#[derive(Debug, Clone, Copy)]
pub struct OptionsCache {
    pub enabled: bool,
}

/// Whether sizes are rendered in human-readable units.
#[derive(Debug, Clone, Copy)]
pub struct OptionsHuman {
    pub enabled: bool,
}

/// How progress is reported while the scan runs: whether at all, after
/// every how many processed items, and in which format.
#[derive(Debug, Clone, Copy)]
pub struct OptionsProgress {
    pub enabled: bool,
    pub count: u64,
    pub format: ProgressFormat,
}

/// Whether overall statistics are printed at exit.
#[derive(Debug, Clone, Copy)]
pub struct OptionsStats {
    pub enabled: bool,
}

/// Whether and how the finished trie is printed as a tree: up to which
/// depth, and whether file leaves are suppressed.
#[derive(Debug, Clone, Copy)]
pub struct OptionsTree {
    pub enabled: bool,
    pub max_depth: u16,
    pub only_dirs: bool,
}

/// All options of one scan, gathered by the caller before the scan starts.
#[derive(Debug, Clone, Copy)]
pub struct Options {
    pub cache: OptionsCache,
    pub human: OptionsHuman,
    pub progress: OptionsProgress,
    pub stats: OptionsStats,
    pub tree: OptionsTree,
}

} // verus!
