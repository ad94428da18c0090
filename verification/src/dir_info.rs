use vstd::prelude::*;

use crate::item_info::FsItemInfo;

verus! {

/// The sum of the byte sizes of the items of `s`.
pub open spec fn sum_sizes(s: Seq<FsItemInfo>) -> int
    decreases s.len(),
{
    if s.len() == 0 {
        0
    } else {
        sum_sizes(s.drop_last()) + s.last().size
    }
}

/// Per-directory bookkeeping kept on the consumer's stack while the
/// directory is open: its path, the files seen directly in it, and the sum
/// of their sizes.
#[derive(Debug)]
pub struct FsDirInfo {
    pub path: String,
    pub files: Vec<FsItemInfo>,
    pub files_size: u64,
}

impl FsDirInfo {
    /// Adds the sizes of all files recorded in this directory onto
    /// `files_size`.
    pub fn calculate_files_size(&mut self)
        requires
            old(self).files_size + sum_sizes(old(self).files@) <= u64::MAX,
        ensures
            final(self).path == old(self).path,
            final(self).files == old(self).files,
            final(self).files_size == old(self).files_size + sum_sizes(old(self).files@),
    {
        let n = self.files.len();
        let mut i: usize = 0;
        while i < n
            invariant
                i <= n,
                n == self.files.len(),
                self.path == old(self).path,
                self.files == old(self).files,
                old(self).files_size + sum_sizes(old(self).files@) <= u64::MAX,
                self.files_size == old(self).files_size + sum_sizes(old(self).files@.take(
                    i as int,
                )),
            decreases n - i,
        {
            proof {
                lemma_sum_sizes_take_step(self.files@, i as int);
                lemma_sum_sizes_take_bound(self.files@, i + 1);
            }
            self.files_size = self.files_size + self.files[i].size;
            i = i + 1;
        }
        proof {
            assert(self.files@.take(n as int) =~= self.files@);
        }
    }
}

/// Extending a prefix by one item adds that item's size to the prefix sum.
proof fn lemma_sum_sizes_take_step(s: Seq<FsItemInfo>, i: int)
    requires
        0 <= i < s.len(),
    ensures
        sum_sizes(s.take(i + 1)) == sum_sizes(s.take(i)) + s[i].size,
{
    assert(s.take(i + 1).drop_last() =~= s.take(i));
    assert(s.take(i + 1).last() == s[i]);
}

/// Every prefix sum is at most the sum over the whole sequence.
proof fn lemma_sum_sizes_take_bound(s: Seq<FsItemInfo>, i: int)
    requires
        0 <= i <= s.len(),
    ensures
        sum_sizes(s.take(i)) <= sum_sizes(s),
    decreases s.len() - i,
{
    if i == s.len() {
        assert(s.take(i) =~= s);
    } else {
        lemma_sum_sizes_take_step(s, i);
        lemma_sum_sizes_take_bound(s, i + 1);
    }
}

} // verus!
