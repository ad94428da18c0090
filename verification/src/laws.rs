use vstd::prelude::*;

use crate::path_cache::NodeV;
use crate::path_cache::PathCache;
use crate::path_cache::dirs_sum;
use crate::path_cache::entry_size;
use crate::path_cache::files_sum;
use crate::path_cache::is_dir_entry;
use crate::path_cache::is_file_entry;
use crate::path_cache::node_view;
use crate::path_cache::nodes_view;
use crate::path_cache::sizes_ok;
use crate::path_cache::total_v;
use crate::item_info::FsItemInfo;
use crate::path_cache::chain_of;
use crate::path_cache::insert_v;
use crate::path_cache::lemma_insert_v_wf;
use crate::path_cache::lemma_wf_vs_drop_first;
use crate::path_cache::sorted_v;
use crate::path_cache::wf_v;
use crate::path_cache::wf_vs;
use crate::path_cache::has_key_v;
use crate::path_cache::lookup_v;
use crate::path_cache::merge_v;
use crate::path_cache::size_v;
use crate::path_cache::size_vs;
use crate::path_cache::lemma_size_vs_elem;
use crate::segments::lemma_lex_asym;
use crate::segments::lemma_lex_connected;
use crate::segments::lemma_lex_irrefl;
use crate::segments::lex_lt;

verus! {

/// Merging a forest into itself changes nothing.
pub proof fn lemma_merge_v_self(x: Seq<NodeV>)
    ensures
        merge_v(x, x) == x,
    decreases size_vs(x),
{
    if x.len() > 0 {
        lemma_lex_irrefl(x[0].seg);
        lemma_size_vs_elem(x, 0);
        assert(size_vs(x) == size_v(x[0]) + size_vs(x.drop_first()));
        assert(size_v(x[0]) == 1 + size_vs(x[0].childs));
        lemma_merge_v_self(x[0].childs);
        lemma_merge_v_self(x.drop_first());
        assert(NodeV { seg: x[0].seg, data: x[0].data, childs: merge_v(x[0].childs, x[0].childs) }
            =~= x[0]);
        assert(merge_v(x, x) =~= x);
    }
}

/// Merging the same right side a second time changes nothing: one merge of
/// a subtree already carries everything that the subtree has to give.
pub proof fn lemma_merge_v_idempotent(l: Seq<NodeV>, r: Seq<NodeV>)
    ensures
        merge_v(merge_v(l, r), r) == merge_v(l, r),
    decreases size_vs(l) + size_vs(r),
{
    if r.len() == 0 {
    } else if l.len() == 0 {
        lemma_merge_v_self(r);
    } else {
        proof_sizes(l);
        proof_sizes(r);
        let l0 = l[0];
        let r0 = r[0];
        let m = merge_v(l, r);
        if lex_lt(l0.seg, r0.seg) {
            assert(m == seq![l0] + merge_v(l.drop_first(), r));
            lemma_merge_v_idempotent(l.drop_first(), r);
            assert(m[0] == l0);
            assert(m.drop_first() =~= merge_v(l.drop_first(), r));
            assert(merge_v(m, r) == seq![l0] + merge_v(merge_v(l.drop_first(), r), r));
            assert(merge_v(m, r) =~= m);
        } else if lex_lt(r0.seg, l0.seg) {
            assert(m == seq![r0] + merge_v(l, r.drop_first()));
            lemma_lex_irrefl(r0.seg);
            lemma_merge_v_self(r0.childs);
            lemma_merge_v_idempotent(l, r.drop_first());
            assert(m[0] == r0);
            assert(m.drop_first() =~= merge_v(l, r.drop_first()));
            assert(merge_v(m, r) == seq![
                NodeV { seg: r0.seg, data: r0.data, childs: merge_v(r0.childs, r0.childs) },
            ] + merge_v(merge_v(l, r.drop_first()), r.drop_first()));
            assert(NodeV { seg: r0.seg, data: r0.data, childs: merge_v(r0.childs, r0.childs) }
                =~= r0);
            assert(merge_v(m, r) =~= m);
        } else {
            let nd = NodeV { seg: l0.seg, data: l0.data, childs: merge_v(l0.childs, r0.childs) };
            assert(m == seq![nd] + merge_v(l.drop_first(), r.drop_first()));
            lemma_merge_v_idempotent(l0.childs, r0.childs);
            lemma_merge_v_idempotent(l.drop_first(), r.drop_first());
            assert(m[0] == nd);
            assert(m.drop_first() =~= merge_v(l.drop_first(), r.drop_first()));
            assert(merge_v(m, r) == seq![
                NodeV { seg: nd.seg, data: nd.data, childs: merge_v(nd.childs, r0.childs) },
            ] + merge_v(merge_v(l.drop_first(), r.drop_first()), r.drop_first()));
            assert(NodeV { seg: nd.seg, data: nd.data, childs: merge_v(nd.childs, r0.childs) }
                =~= nd);
            assert(merge_v(m, r) =~= m);
        }
    }
}

/// Shorthand used by the induction steps: a forest's node count splits
/// over its first member, which counts at least itself.
proof fn proof_sizes(s: Seq<NodeV>)
    requires
        s.len() > 0,
    ensures
        size_vs(s) == size_v(s[0]) + size_vs(s.drop_first()),
        size_v(s[0]) == 1 + size_vs(s[0].childs),
{
}

/// No key is shared between the two forests.
pub open spec fn disjoint_keys_v(b: Seq<NodeV>, c: Seq<NodeV>) -> bool {
    forall|k: Seq<char>| !(has_key_v(b, k) && has_key_v(c, k))
}

/// A key found past the first member is a key of the whole forest.
proof fn lemma_has_key_tail(s: Seq<NodeV>, k: Seq<char>)
    requires
        s.len() > 0,
        has_key_v(s.drop_first(), k),
    ensures
        has_key_v(s, k),
{
}

/// Merging two forests with no key in common is the same in either order.
pub proof fn lemma_merge_v_comm_disjoint(b: Seq<NodeV>, c: Seq<NodeV>)
    requires
        disjoint_keys_v(b, c),
    ensures
        merge_v(b, c) == merge_v(c, b),
    decreases size_vs(b) + size_vs(c),
{
    if b.len() == 0 || c.len() == 0 {
    } else {
        proof_sizes(b);
        proof_sizes(c);
        let b0 = b[0];
        let c0 = c[0];
        assert(has_key_v(b, b0.seg));
        assert(has_key_v(c, c0.seg));
        assert(b0.seg != c0.seg);
        if !lex_lt(b0.seg, c0.seg) && !lex_lt(c0.seg, b0.seg) {
            lemma_lex_connected(b0.seg, c0.seg);
        }
        assert forall|k: Seq<char>| !(has_key_v(b.drop_first(), k) && has_key_v(c, k)) by {
            if has_key_v(b.drop_first(), k) {
                lemma_has_key_tail(b, k);
            }
        }
        assert forall|k: Seq<char>| !(has_key_v(b, k) && has_key_v(c.drop_first(), k)) by {
            if has_key_v(c.drop_first(), k) {
                lemma_has_key_tail(c, k);
            }
        }
        if lex_lt(b0.seg, c0.seg) {
            lemma_lex_asym(b0.seg, c0.seg);
            lemma_merge_v_comm_disjoint(b.drop_first(), c);
            assert(merge_v(b, c) == seq![b0] + merge_v(b.drop_first(), c));
            assert(merge_v(c, b) == seq![b0] + merge_v(c, b.drop_first()));
        } else {
            lemma_lex_asym(c0.seg, b0.seg);
            lemma_merge_v_comm_disjoint(b, c.drop_first());
            assert(merge_v(b, c) == seq![c0] + merge_v(b, c.drop_first()));
            assert(merge_v(c, b) == seq![c0] + merge_v(c.drop_first(), b));
        }
    }
}

/// The head and tail of a forest written as one node before a rest.
proof fn lemma_cons_parts(h: NodeV, t: Seq<NodeV>)
    ensures
        (seq![h] + t).len() == t.len() + 1,
        (seq![h] + t)[0] == h,
        (seq![h] + t).drop_first() == t,
{
    assert((seq![h] + t).drop_first() =~= t);
}

/// Merging is associative: folding several sibling forests together gives
/// the same trie however the folds are grouped.
pub proof fn lemma_merge_v_assoc(a: Seq<NodeV>, b: Seq<NodeV>, c: Seq<NodeV>)
    ensures
        merge_v(merge_v(a, b), c) == merge_v(a, merge_v(b, c)),
    decreases size_vs(a) + size_vs(b) + size_vs(c),
{
    if a.len() == 0 || b.len() == 0 || c.len() == 0 {
    } else {
        proof_sizes(a);
        proof_sizes(b);
        proof_sizes(c);
        let a0 = a[0];
        let b0 = b[0];
        let c0 = c[0];
        let ka = a0.seg;
        let kb = b0.seg;
        let kc = c0.seg;
        if !lex_lt(ka, kb) && !lex_lt(kb, ka) {
            lemma_lex_connected(ka, kb);
        }
        if !lex_lt(kb, kc) && !lex_lt(kc, kb) {
            lemma_lex_connected(kb, kc);
        }
        if !lex_lt(ka, kc) && !lex_lt(kc, ka) {
            lemma_lex_connected(ka, kc);
        }
        if lex_lt(ka, kb) {
            lemma_lex_asym(ka, kb);
            if lex_lt(ka, kc) {
                // `ka` is strictly smallest: both sides start with `a0`.
                lemma_lex_asym(ka, kc);
                lemma_merge_v_assoc(a.drop_first(), b, c);
                lemma_cons_parts(a0, merge_v(a.drop_first(), b));
                assert(merge_v(a, b) == seq![a0] + merge_v(a.drop_first(), b));
                assert(merge_v(merge_v(a, b), c) == seq![a0] + merge_v(
                    merge_v(a.drop_first(), b),
                    c,
                ));
                if lex_lt(kb, kc) {
                    lemma_cons_parts(b0, merge_v(b.drop_first(), c));
                    assert(merge_v(a, merge_v(b, c)) == seq![a0] + merge_v(
                        a.drop_first(),
                        merge_v(b, c),
                    ));
                } else if lex_lt(kc, kb) {
                    lemma_cons_parts(c0, merge_v(b, c.drop_first()));
                    assert(merge_v(a, merge_v(b, c)) == seq![a0] + merge_v(
                        a.drop_first(),
                        merge_v(b, c),
                    ));
                } else {
                    lemma_cons_parts(
                        NodeV { seg: kb, data: b0.data, childs: merge_v(b0.childs, c0.childs) },
                        merge_v(b.drop_first(), c.drop_first()),
                    );
                    assert(merge_v(a, merge_v(b, c)) == seq![a0] + merge_v(
                        a.drop_first(),
                        merge_v(b, c),
                    ));
                }
            } else if lex_lt(kc, ka) {
                // `kc` is strictly smallest: both sides start with `c0`.
                lemma_lex_asym(kc, ka);
                crate::segments::lemma_lex_trans(kc, ka, kb);
                lemma_lex_asym(kc, kb);
                lemma_merge_v_assoc(a, b, c.drop_first());
                lemma_cons_parts(a0, merge_v(a.drop_first(), b));
                lemma_cons_parts(c0, merge_v(b, c.drop_first()));
                assert(merge_v(a, b) == seq![a0] + merge_v(a.drop_first(), b));
                assert(merge_v(b, c) == seq![c0] + merge_v(b, c.drop_first()));
                assert(merge_v(a, merge_v(b, c)) == seq![c0] + merge_v(a, merge_v(
                    b,
                    c.drop_first(),
                )));
                assert(merge_v(merge_v(a, b), c) == seq![c0] + merge_v(
                    merge_v(a, b),
                    c.drop_first(),
                ));
            } else {
                // `ka == kc`, both below `kb`: the outer nodes merge.
                lemma_lex_asym(ka, kb);
                lemma_merge_v_assoc(a.drop_first(), b, c.drop_first());
                lemma_cons_parts(a0, merge_v(a.drop_first(), b));
                lemma_cons_parts(c0, merge_v(b, c.drop_first()));
                assert(merge_v(a, b) == seq![a0] + merge_v(a.drop_first(), b));
                assert(merge_v(merge_v(a, b), c) == seq![
                    NodeV { seg: ka, data: a0.data, childs: merge_v(a0.childs, c0.childs) },
                ] + merge_v(merge_v(a.drop_first(), b), c.drop_first()));
                assert(merge_v(b, c) == seq![c0] + merge_v(b, c.drop_first()));
                assert(merge_v(a, merge_v(b, c)) == seq![
                    NodeV { seg: ka, data: a0.data, childs: merge_v(a0.childs, c0.childs) },
                ] + merge_v(a.drop_first(), merge_v(b, c.drop_first())));
            }
        } else if lex_lt(kb, ka) {
            lemma_lex_asym(kb, ka);
            if lex_lt(kb, kc) {
                // `kb` is strictly smallest: both sides start with `b0`.
                lemma_lex_asym(kb, kc);
                lemma_merge_v_assoc(a, b.drop_first(), c);
                lemma_cons_parts(b0, merge_v(a, b.drop_first()));
                lemma_cons_parts(b0, merge_v(b.drop_first(), c));
                assert(merge_v(a, b) == seq![b0] + merge_v(a, b.drop_first()));
                assert(merge_v(merge_v(a, b), c) == seq![b0] + merge_v(
                    merge_v(a, b.drop_first()),
                    c,
                ));
                assert(merge_v(b, c) == seq![b0] + merge_v(b.drop_first(), c));
                assert(merge_v(a, merge_v(b, c)) == seq![b0] + merge_v(a, merge_v(
                    b.drop_first(),
                    c,
                )));
            } else if lex_lt(kc, kb) {
                // `kc` is strictly smallest: both sides start with `c0`.
                crate::segments::lemma_lex_trans(kc, kb, ka);
                lemma_lex_asym(kc, ka);
                lemma_lex_asym(kc, kb);
                lemma_merge_v_assoc(a, b, c.drop_first());
                lemma_cons_parts(b0, merge_v(a, b.drop_first()));
                lemma_cons_parts(c0, merge_v(b, c.drop_first()));
                assert(merge_v(a, b) == seq![b0] + merge_v(a, b.drop_first()));
                assert(merge_v(b, c) == seq![c0] + merge_v(b, c.drop_first()));
                assert(merge_v(a, merge_v(b, c)) == seq![c0] + merge_v(a, merge_v(
                    b,
                    c.drop_first(),
                )));
                assert(merge_v(merge_v(a, b), c) == seq![c0] + merge_v(
                    merge_v(a, b),
                    c.drop_first(),
                ));
            } else {
                // `kb == kc`, both below `ka`: the outer nodes merge.
                lemma_merge_v_assoc(a, b.drop_first(), c.drop_first());
                lemma_cons_parts(b0, merge_v(a, b.drop_first()));
                lemma_cons_parts(
                    NodeV { seg: kb, data: b0.data, childs: merge_v(b0.childs, c0.childs) },
                    merge_v(b.drop_first(), c.drop_first()),
                );
                assert(merge_v(a, b) == seq![b0] + merge_v(a, b.drop_first()));
                assert(merge_v(merge_v(a, b), c) == seq![
                    NodeV { seg: kb, data: b0.data, childs: merge_v(b0.childs, c0.childs) },
                ] + merge_v(merge_v(a, b.drop_first()), c.drop_first()));
                assert(merge_v(b, c) == seq![
                    NodeV { seg: kb, data: b0.data, childs: merge_v(b0.childs, c0.childs) },
                ] + merge_v(b.drop_first(), c.drop_first()));
                assert(merge_v(a, merge_v(b, c)) == seq![
                    NodeV { seg: kb, data: b0.data, childs: merge_v(b0.childs, c0.childs) },
                ] + merge_v(a, merge_v(b.drop_first(), c.drop_first())));
            }
        } else {
            // `ka == kb`.
            if lex_lt(ka, kc) {
                // The first two nodes merge; `c0` waits.
                lemma_lex_asym(ka, kc);
                lemma_merge_v_assoc(a.drop_first(), b.drop_first(), c);
                let nd = NodeV { seg: ka, data: a0.data, childs: merge_v(a0.childs, b0.childs) };
                lemma_cons_parts(nd, merge_v(a.drop_first(), b.drop_first()));
                lemma_cons_parts(b0, merge_v(b.drop_first(), c));
                assert(merge_v(a, b) == seq![nd] + merge_v(a.drop_first(), b.drop_first()));
                assert(merge_v(merge_v(a, b), c) == seq![nd] + merge_v(
                    merge_v(a.drop_first(), b.drop_first()),
                    c,
                ));
                assert(merge_v(b, c) == seq![b0] + merge_v(b.drop_first(), c));
                assert(merge_v(a, merge_v(b, c)) == seq![nd] + merge_v(a.drop_first(), merge_v(
                    b.drop_first(),
                    c,
                )));
            } else if lex_lt(kc, ka) {
                // `kc` is strictly smallest: both sides start with `c0`.
                lemma_lex_asym(kc, ka);
                lemma_lex_asym(kc, kb);
                lemma_merge_v_assoc(a, b, c.drop_first());
                lemma_cons_parts(c0, merge_v(b, c.drop_first()));
                lemma_cons_parts(
                    NodeV { seg: ka, data: a0.data, childs: merge_v(a0.childs, b0.childs) },
                    merge_v(a.drop_first(), b.drop_first()),
                );
                assert(merge_v(b, c) == seq![c0] + merge_v(b, c.drop_first()));
                assert(merge_v(a, merge_v(b, c)) == seq![c0] + merge_v(a, merge_v(
                    b,
                    c.drop_first(),
                )));
                assert(merge_v(a, b) == seq![
                    NodeV { seg: ka, data: a0.data, childs: merge_v(a0.childs, b0.childs) },
                ] + merge_v(a.drop_first(), b.drop_first()));
                assert(merge_v(merge_v(a, b), c) == seq![c0] + merge_v(
                    merge_v(a, b),
                    c.drop_first(),
                ));
            } else {
                // All three keys are equal: everything merges nodewise.
                lemma_merge_v_assoc(a0.childs, b0.childs, c0.childs);
                lemma_merge_v_assoc(a.drop_first(), b.drop_first(), c.drop_first());
                let nab = NodeV { seg: ka, data: a0.data, childs: merge_v(a0.childs, b0.childs) };
                let nbc = NodeV { seg: kb, data: b0.data, childs: merge_v(b0.childs, c0.childs) };
                lemma_cons_parts(nab, merge_v(a.drop_first(), b.drop_first()));
                lemma_cons_parts(nbc, merge_v(b.drop_first(), c.drop_first()));
                assert(merge_v(a, b) == seq![nab] + merge_v(a.drop_first(), b.drop_first()));
                assert(merge_v(merge_v(a, b), c) == seq![
                    NodeV { seg: ka, data: a0.data, childs: merge_v(nab.childs, c0.childs) },
                ] + merge_v(merge_v(a.drop_first(), b.drop_first()), c.drop_first()));
                assert(merge_v(b, c) == seq![nbc] + merge_v(b.drop_first(), c.drop_first()));
                assert(merge_v(a, merge_v(b, c)) == seq![
                    NodeV { seg: ka, data: a0.data, childs: merge_v(a0.childs, nbc.childs) },
                ] + merge_v(a.drop_first(), merge_v(b.drop_first(), c.drop_first())));
            }
        }
    }
}

/// The rollup is a stable fixed point: any two rolled-up tries of the same
/// shape carry the same derived sizes, so running the rollup a second time
/// reproduces the first run's `dirs_size`, `files_size` and `total_size`.
pub proof fn lemma_rollup_deterministic(a: PathCache, b: PathCache)
    requires
        a@ == b@,
        sizes_ok(a),
        sizes_ok(b),
    ensures
        a.dirs_size == b.dirs_size,
        a.files_size == b.files_size,
        a.total_size == b.total_size,
{
    assert(node_view(a).childs == nodes_view(a.childs@));
    assert(node_view(b).childs == nodes_view(b.childs@));
}

/// The sum of the payload sizes of all file nodes in a subtree, the node
/// itself included.
pub open spec fn file_weight_v(n: NodeV) -> int
    decreases crate::path_cache::size_v(n), 0nat,
    via file_weight_v_dec
{
    (if is_file_entry(n) {
        entry_size(n)
    } else {
        0
    }) + file_weights_vs(n.childs)
}

/// The sum of the payload sizes of all file nodes in a forest.
pub open spec fn file_weights_vs(s: Seq<NodeV>) -> int
    decreases size_vs(s), 1nat,
    via file_weights_vs_dec
{
    if s.len() == 0 {
        0
    } else {
        file_weights_vs(s.drop_last()) + file_weight_v(s.last())
    }
}

#[via_fn]
proof fn file_weight_v_dec(n: NodeV) {
    assert(size_v(n) == 1 + size_vs(n.childs));
}

#[via_fn]
proof fn file_weights_vs_dec(s: Seq<NodeV>) {
    if s.len() > 0 {
        lemma_size_vs_elem(s, s.len() - 1);
        crate::path_cache::lemma_size_vs_drop_last(s);
        assert(size_v(s.last()) >= 1);
    }
}

/// The discipline a trie built from a traversal obeys: every node below
/// the root is either an entered directory, or a file without children.
pub open spec fn dirs_marked_v(n: NodeV) -> bool
    decreases size_v(n), 0nat,
    via dirs_marked_v_dec
{
    marked_vs(n.childs)
}

/// The forest-level half of the traversal discipline.
pub open spec fn marked_vs(s: Seq<NodeV>) -> bool
    decreases size_vs(s), 1nat,
    via marked_vs_dec
{
    if s.len() == 0 {
        true
    } else {
        marked_vs(s.drop_last()) && ((is_dir_entry(s.last()) && dirs_marked_v(s.last())) || (
        is_file_entry(s.last()) && s.last().childs.len() == 0))
    }
}

#[via_fn]
proof fn dirs_marked_v_dec(n: NodeV) {
    assert(size_v(n) == 1 + size_vs(n.childs));
}

#[via_fn]
proof fn marked_vs_dec(s: Seq<NodeV>) {
    if s.len() > 0 {
        lemma_size_vs_elem(s, s.len() - 1);
        crate::path_cache::lemma_size_vs_drop_last(s);
        assert(size_v(s.last()) >= 1);
    }
}

/// Under the traversal discipline, a subtree's rollup value is exactly the
/// sum of the file sizes in it.
pub proof fn lemma_total_v_is_file_weight(n: NodeV)
    requires
        dirs_marked_v(n),
    ensures
        total_v(n) == file_weight_v(n),
        total_v(n) == (if is_file_entry(n) {
            entry_size(n)
        } else {
            0
        }) + file_weights_vs(n.childs),
    decreases size_v(n), 0nat,
{
    lemma_sums_are_file_weights(n.childs);
}

/// Under the traversal discipline, the two child sums of a forest add up
/// to the file weight of the forest.
pub proof fn lemma_sums_are_file_weights(s: Seq<NodeV>)
    requires
        marked_vs(s),
    ensures
        dirs_sum(s) + files_sum(s) == file_weights_vs(s),
    decreases size_vs(s), 1nat,
{
    if s.len() > 0 {
        lemma_size_vs_elem(s, s.len() - 1);
        crate::path_cache::lemma_size_vs_drop_last(s);
        assert(size_v(s.last()) >= 1);
        lemma_sums_are_file_weights(s.drop_last());
        let c = s.last();
        if is_dir_entry(c) {
            lemma_total_v_is_file_weight(c);
            assert(dirs_sum(s) == dirs_sum(s.drop_last()) + total_v(c));
            assert(files_sum(s) == files_sum(s.drop_last()));
            assert(file_weights_vs(s) == file_weights_vs(s.drop_last()) + file_weight_v(c));
        } else {
            assert(is_file_entry(c) && c.childs.len() == 0);
            assert(file_weights_vs(c.childs) == 0);
            assert(file_weight_v(c) == entry_size(c));
            assert(dirs_sum(s) == dirs_sum(s.drop_last()));
            assert(files_sum(s) == files_sum(s.drop_last()) + entry_size(c));
            assert(file_weights_vs(s) == file_weights_vs(s.drop_last()) + entry_size(c));
        }
    }
}

/// Bottom-up correctness of the rollup: on a rolled-up trie that keeps the
/// traversal discipline, the stored total of a directory root is the sum
/// of all file sizes beneath it, however the trie was built.
pub proof fn lemma_total_is_file_sum(a: PathCache)
    requires
        sizes_ok(a),
        dirs_marked_v(a@),
        !is_file_entry(a@),
    ensures
        a.total_size == file_weights_vs(a@.childs),
{
    lemma_total_v_is_file_weight(a@);
}

/// Merging two forests with disjoint key sets into the same parent gives
/// the same trie in either order.
pub proof fn lemma_merge_v_order_independent(a: Seq<NodeV>, b: Seq<NodeV>, c: Seq<NodeV>)
    requires
        disjoint_keys_v(b, c),
    ensures
        merge_v(merge_v(a, b), c) == merge_v(merge_v(a, c), b),
{
    lemma_merge_v_assoc(a, b, c);
    lemma_merge_v_comm_disjoint(b, c);
    lemma_merge_v_assoc(a, c, b);
}

/// Whether the forest holds every segment of the path `p`, one node below
/// the other: the first segment as a sibling, the next inside its
/// children, and so on. An empty path is always present.
pub open spec fn contains_path_v(s: Seq<NodeV>, p: Seq<Seq<char>>) -> bool
    decreases p.len(),
{
    if p.len() == 0 {
        true
    } else {
        match lookup_v(s, p[0]) {
            Some(n) => contains_path_v(n.childs, p.drop_first()),
            None => false,
        }
    }
}

/// In a sorted forest whose keys all lie strictly above `k`, the key `k`
/// is absent.
proof fn lemma_lookup_none_below(s: Seq<NodeV>, k: Seq<char>)
    requires
        forall|i: int| 0 <= i < s.len() ==> lex_lt(k, #[trigger] s[i].seg),
    ensures
        lookup_v(s, k) is None,
    decreases s.len(),
{
    if s.len() > 0 {
        lemma_lex_asym(k, s[0].seg);
        assert forall|i: int| 0 <= i < s.drop_first().len() implies lex_lt(
            k,
            #[trigger] s.drop_first()[i].seg,
        ) by {
            assert(s.drop_first()[i] == s[i + 1]);
        }
        lemma_lookup_none_below(s.drop_first(), k);
    }
}

/// A member found by key in a well-formed forest is well-formed.
proof fn lemma_lookup_wf(s: Seq<NodeV>, k: Seq<char>)
    requires
        wf_vs(s),
        lookup_v(s, k) is Some,
    ensures
        wf_v(lookup_v(s, k)->0),
    decreases s.len(),
{
    if s.len() > 0 && s[0].seg != k {
        lemma_wf_vs_drop_first(s);
        lemma_lookup_wf(s.drop_first(), k);
    }
}

/// What insertion does to each key of a well-formed forest: the inserted
/// key gains the chain, or has its node extended; every other key keeps
/// its node unchanged.
proof fn lemma_insert_v_lookup(s: Seq<NodeV>, segs: Seq<Seq<char>>, d: FsItemInfo)
    requires
        wf_vs(s),
        segs.len() >= 1,
    ensures
        forall|k: Seq<char>|
            k != segs[0] ==> lookup_v(insert_v(s, segs, d), k) == lookup_v(s, k),
        lookup_v(s, segs[0]) is None ==> lookup_v(insert_v(s, segs, d), segs[0]) == Some(
            chain_of(segs, d),
        ),
        lookup_v(s, segs[0]) is Some ==> lookup_v(insert_v(s, segs, d), segs[0]) == Some(
            {
                let n = lookup_v(s, segs[0])->0;
                if segs.len() <= 1 {
                    NodeV {
                        seg: n.seg,
                        data: if n.data is Some {
                            n.data
                        } else {
                            Some(d)
                        },
                        childs: n.childs,
                    }
                } else {
                    NodeV {
                        seg: n.seg,
                        data: n.data,
                        childs: insert_v(n.childs, segs.drop_first(), d),
                    }
                }
            },
        ),
    decreases s.len(),
{
    let t = insert_v(s, segs, d);
    if s.len() == 0 {
        assert(t == seq![chain_of(segs, d)]);
        assert(t[0].seg == segs[0]);
        assert forall|k: Seq<char>| k != segs[0] implies lookup_v(t, k) == lookup_v(s, k) by {
            assert(t.drop_first() =~= Seq::<NodeV>::empty());
            assert(t.len() == 1);
            assert(lookup_v(t, k) == lookup_v(t.drop_first(), k));
            assert(lookup_v(t.drop_first(), k) is None);
            assert(lookup_v(s, k) is None);
        }
    } else if lex_lt(segs[0], s[0].seg) {
        assert(t == seq![chain_of(segs, d)] + s);
        assert(t[0] == chain_of(segs, d));
        assert(t[0].seg == segs[0]);
        assert(t.drop_first() =~= s);
        assert forall|i: int| 0 <= i < s.len() implies lex_lt(segs[0], #[trigger] s[i].seg) by {
            if i > 0 {
                crate::segments::lemma_lex_trans(segs[0], s[0].seg, s[i].seg);
            }
        }
        lemma_lookup_none_below(s, segs[0]);
        assert forall|k: Seq<char>| k != segs[0] implies lookup_v(insert_v(s, segs, d), k)
            == lookup_v(s, k) by {
            assert(lookup_v(t, k) == lookup_v(t.drop_first(), k));
        }
        assert(lookup_v(insert_v(s, segs, d), segs[0]) == Some(chain_of(segs, d)));
    } else if lex_lt(s[0].seg, segs[0]) {
        lemma_lex_asym(s[0].seg, segs[0]);
        lemma_wf_vs_drop_first(s);
        lemma_insert_v_lookup(s.drop_first(), segs, d);
        let u = insert_v(s.drop_first(), segs, d);
        assert(t == seq![s[0]] + u);
        assert(t[0] == s[0]);
        assert(t.drop_first() =~= u);
        assert forall|k: Seq<char>| k != segs[0] implies lookup_v(insert_v(s, segs, d), k)
            == lookup_v(s, k) by {
            if k == s[0].seg {
                assert(lookup_v(t, k) == Some(s[0]));
                assert(lookup_v(s, k) == Some(s[0]));
            } else {
                assert(lookup_v(t, k) == lookup_v(u, k));
                assert(lookup_v(u, k) == lookup_v(s.drop_first(), k));
                assert(lookup_v(s, k) == lookup_v(s.drop_first(), k));
            }
        }
        assert(lookup_v(t, segs[0]) == lookup_v(u, segs[0]));
        assert(lookup_v(s, segs[0]) == lookup_v(s.drop_first(), segs[0]));
    } else {
        lemma_lex_connected(s[0].seg, segs[0]);
        let n0 = s[0];
        let n1 = if segs.len() <= 1 {
            NodeV {
                seg: n0.seg,
                data: if n0.data is Some {
                    n0.data
                } else {
                    Some(d)
                },
                childs: n0.childs,
            }
        } else {
            NodeV { seg: n0.seg, data: n0.data, childs: insert_v(n0.childs, segs.drop_first(), d) }
        };
        assert(t == seq![n1] + s.drop_first());
        assert(t[0] == n1);
        assert(t.drop_first() =~= s.drop_first());
        assert forall|k: Seq<char>| k != segs[0] implies lookup_v(insert_v(s, segs, d), k)
            == lookup_v(s, k) by {
            assert(lookup_v(t, k) == lookup_v(s.drop_first(), k));
            assert(lookup_v(s, k) == lookup_v(s.drop_first(), k));
        }
        assert(lookup_v(s, segs[0]) == Some(s[0]));
        assert(lookup_v(insert_v(s, segs, d), segs[0]) == Some(n1));
    }
}

/// In a sorted forest, a key that is present is never strictly below the
/// first member's key.
proof fn lemma_lookup_key_not_below_head(s: Seq<NodeV>, k: Seq<char>)
    requires
        sorted_v(s),
        lookup_v(s, k) is Some,
    ensures
        s.len() > 0,
        !lex_lt(k, s[0].seg),
    decreases s.len(),
{
    if s[0].seg == k {
        lemma_lex_irrefl(k);
    } else {
        assert(lookup_v(s.drop_first(), k) is Some);
        assert forall|i: int, j: int| 0 <= i < j < s.drop_first().len() implies lex_lt(
            s.drop_first()[i].seg,
            s.drop_first()[j].seg,
        ) by {
            assert(s.drop_first()[i] == s[i + 1]);
            assert(s.drop_first()[j] == s[j + 1]);
        }
        lemma_lookup_key_not_below_head(s.drop_first(), k);
        assert(s.drop_first()[0] == s[1]);
        if lex_lt(k, s[0].seg) {
            crate::segments::lemma_lex_trans(k, s[0].seg, s[1].seg);
        }
    }
}

/// Two sorted forests that agree on the node found for every key are the
/// same forest: the sorted sibling order is a canonical form.
proof fn lemma_sorted_forests_eq(s: Seq<NodeV>, t: Seq<NodeV>)
    requires
        sorted_v(s),
        sorted_v(t),
        forall|k: Seq<char>| #[trigger] lookup_v(s, k) == lookup_v(t, k),
    ensures
        s == t,
    decreases s.len() + t.len(),
{
    if s.len() == 0 && t.len() == 0 {
        assert(s =~= t);
    } else if s.len() == 0 {
        assert(lookup_v(t, t[0].seg) == Some(t[0]));
        assert(lookup_v(s, t[0].seg) is None);
    } else if t.len() == 0 {
        assert(lookup_v(s, s[0].seg) == Some(s[0]));
        assert(lookup_v(t, s[0].seg) is None);
    } else {
        assert(lookup_v(s, s[0].seg) == Some(s[0]));
        assert(lookup_v(t, t[0].seg) == Some(t[0]));
        if s[0].seg != t[0].seg {
            lemma_lookup_key_not_below_head(t, s[0].seg);
            lemma_lookup_key_not_below_head(s, t[0].seg);
            lemma_lex_connected(s[0].seg, t[0].seg);
        }
        assert(s[0] == t[0]);
        assert forall|i: int| 0 <= i < s.drop_first().len() implies lex_lt(
            s[0].seg,
            #[trigger] s.drop_first()[i].seg,
        ) by {
            assert(s.drop_first()[i] == s[i + 1]);
        }
        assert forall|i: int| 0 <= i < t.drop_first().len() implies lex_lt(
            t[0].seg,
            #[trigger] t.drop_first()[i].seg,
        ) by {
            assert(t.drop_first()[i] == t[i + 1]);
        }
        assert forall|i: int, j: int| 0 <= i < j < s.drop_first().len() implies lex_lt(
            s.drop_first()[i].seg,
            s.drop_first()[j].seg,
        ) by {
            assert(s.drop_first()[i] == s[i + 1]);
            assert(s.drop_first()[j] == s[j + 1]);
        }
        assert forall|i: int, j: int| 0 <= i < j < t.drop_first().len() implies lex_lt(
            t.drop_first()[i].seg,
            t.drop_first()[j].seg,
        ) by {
            assert(t.drop_first()[i] == t[i + 1]);
            assert(t.drop_first()[j] == t[j + 1]);
        }
        assert forall|k: Seq<char>| #[trigger] lookup_v(s.drop_first(), k) == lookup_v(
            t.drop_first(),
            k,
        ) by {
            if k == s[0].seg {
                lemma_lookup_none_below(s.drop_first(), k);
                lemma_lookup_none_below(t.drop_first(), k);
            } else {
                assert(lookup_v(s, k) == lookup_v(s.drop_first(), k));
                assert(lookup_v(t, k) == lookup_v(t.drop_first(), k));
            }
        }
        lemma_sorted_forests_eq(s.drop_first(), t.drop_first());
        assert(s =~= t) by {
            assert(s.len() == t.len());
            assert(forall|i: int|
                1 <= i < s.len() ==> s[i] == s.drop_first()[i - 1] && t[i] == t.drop_first()[i
                    - 1]);
        }
    }
}

/// A fresh chain holds every prefix of the path it was built for.
proof fn lemma_chain_contains(segs: Seq<Seq<char>>, d: FsItemInfo, i: int)
    requires
        segs.len() >= 1,
        0 <= i <= segs.len() - 1,
    ensures
        contains_path_v(chain_of(segs, d).childs, segs.drop_first().take(i)),
    decreases i,
{
    if i > 0 {
        assert(segs.len() > 1);
        let c = chain_of(segs.drop_first(), d);
        assert(chain_of(segs, d).childs == seq![c]);
        assert(lookup_v(seq![c], segs.drop_first()[0]) == Some(c));
        lemma_chain_contains(segs.drop_first(), d, i - 1);
        assert(segs.drop_first().take(i).drop_first() =~= segs.drop_first().drop_first().take(
            i - 1,
        ));
        assert(segs.drop_first().take(i)[0] == segs.drop_first()[0]);
    }
}

/// The nesting invariant, creation half: after a path is inserted, every
/// ancestor prefix of that path exists as a node of the trie, whether or
/// not any event ever named the ancestor itself.
pub proof fn lemma_insert_creates_prefixes(
    s: Seq<NodeV>,
    segs: Seq<Seq<char>>,
    d: FsItemInfo,
    i: int,
)
    requires
        wf_vs(s),
        segs.len() >= 1,
        0 <= i <= segs.len(),
    ensures
        contains_path_v(insert_v(s, segs, d), segs.take(i)),
    decreases segs.len(),
{
    if i == 0 {
        assert(segs.take(0) =~= Seq::<Seq<char>>::empty());
    } else {
        lemma_insert_v_lookup(s, segs, d);
        let t = insert_v(s, segs, d);
        assert(segs.take(i)[0] == segs[0]);
        assert(segs.take(i).drop_first() =~= segs.drop_first().take(i - 1));
        assert(segs.take(i).len() == i);
        if lookup_v(s, segs[0]) is None {
            let c = chain_of(segs, d);
            assert(lookup_v(t, segs[0]) == Some(c));
            lemma_chain_contains(segs, d, i - 1);
            assert(contains_path_v(c.childs, segs.drop_first().take(i - 1)));
            assert(contains_path_v(t, segs.take(i)) == contains_path_v(
                c.childs,
                segs.take(i).drop_first(),
            ));
        } else {
            let n = lookup_v(s, segs[0])->0;
            if segs.len() <= 1 {
                assert(i == 1);
                assert(segs.drop_first().take(0) =~= Seq::<Seq<char>>::empty());
                let n1 = lookup_v(t, segs[0])->0;
                assert(n1.childs == n.childs);
                assert(contains_path_v(n1.childs, segs.take(i).drop_first()));
                assert(contains_path_v(t, segs.take(i)) == contains_path_v(
                    n1.childs,
                    segs.take(i).drop_first(),
                ));
            } else {
                lemma_lookup_wf(s, segs[0]);
                lemma_insert_creates_prefixes(n.childs, segs.drop_first(), d, i - 1);
                let n1 = lookup_v(t, segs[0])->0;
                assert(n1.childs == insert_v(n.childs, segs.drop_first(), d));
                assert(contains_path_v(n1.childs, segs.drop_first().take(i - 1)));
                assert(contains_path_v(t, segs.take(i)) == contains_path_v(
                    n1.childs,
                    segs.take(i).drop_first(),
                ));
            }
        }
        assert(contains_path_v(insert_v(s, segs, d), segs.take(i)));
    }
}

/// Insertions for two different paths land in either order with the same
/// trie: together with the payload rule that the first writer wins per
/// path, this is what makes incremental construction from out-of-order
/// events deterministic.
pub proof fn lemma_insert_v_comm(
    s: Seq<NodeV>,
    segs1: Seq<Seq<char>>,
    d1: FsItemInfo,
    segs2: Seq<Seq<char>>,
    d2: FsItemInfo,
)
    requires
        wf_vs(s),
        segs1.len() >= 1,
        segs2.len() >= 1,
        segs1 != segs2,
    ensures
        insert_v(insert_v(s, segs1, d1), segs2, d2) == insert_v(insert_v(s, segs2, d2), segs1, d1),
    decreases segs1.len() + segs2.len(),
{
    let t1 = insert_v(s, segs1, d1);
    let a = insert_v(t1, segs2, d2);
    let t2 = insert_v(s, segs2, d2);
    let b = insert_v(t2, segs1, d1);
    let k1 = segs1[0];
    let k2 = segs2[0];
    lemma_insert_v_wf(s, segs1, d1);
    lemma_insert_v_wf(t1, segs2, d2);
    lemma_insert_v_wf(s, segs2, d2);
    lemma_insert_v_wf(t2, segs1, d1);
    lemma_insert_v_lookup(s, segs1, d1);
    lemma_insert_v_lookup(t1, segs2, d2);
    lemma_insert_v_lookup(s, segs2, d2);
    lemma_insert_v_lookup(t2, segs1, d1);
    assert forall|k: Seq<char>| #[trigger] lookup_v(a, k) == lookup_v(b, k) by {
        if k1 == k2 && k == k1 {
            if segs1.len() <= 1 && segs2.len() <= 1 {
                assert(segs1 =~= segs2);
            } else {
                match lookup_v(s, k) {
                    None => {
                        let c1 = chain_of(segs1, d1);
                        let c2 = chain_of(segs2, d2);
                        assert(lookup_v(t1, k) == Some(c1));
                        assert(lookup_v(t2, k) == Some(c2));
                        if segs1.len() <= 1 {
                            assert(lookup_v(a, k)->0 =~= lookup_v(b, k)->0) by {
                                assert(c2.childs =~= seq![chain_of(segs2.drop_first(), d2)]);
                                assert(insert_v(c1.childs, segs2.drop_first(), d2) =~= seq![
                                    chain_of(segs2.drop_first(), d2),
                                ]);
                            }
                        } else if segs2.len() <= 1 {
                            assert(lookup_v(a, k)->0 =~= lookup_v(b, k)->0) by {
                                assert(c1.childs =~= seq![chain_of(segs1.drop_first(), d1)]);
                                assert(insert_v(c2.childs, segs1.drop_first(), d1) =~= seq![
                                    chain_of(segs1.drop_first(), d1),
                                ]);
                            }
                        } else {
                            assert(segs1.drop_first() != segs2.drop_first()) by {
                                if segs1.drop_first() == segs2.drop_first() {
                                    assert(segs1 =~= segs2) by {
                                        assert forall|i: int| 0 <= i < segs1.len() implies segs1[i]
                                            == segs2[i] by {
                                            if i >= 1 {
                                                assert(segs1[i] == segs1.drop_first()[i - 1]);
                                                assert(segs2[i] == segs2.drop_first()[i - 1]);
                                            }
                                        }
                                    }
                                }
                            }
                            lemma_insert_v_comm(
                                Seq::<NodeV>::empty(),
                                segs1.drop_first(),
                                d1,
                                segs2.drop_first(),
                                d2,
                            );
                            assert(lookup_v(a, k)->0 =~= lookup_v(b, k)->0) by {
                                assert(c1.childs =~= insert_v(
                                    Seq::<NodeV>::empty(),
                                    segs1.drop_first(),
                                    d1,
                                ));
                                assert(c2.childs =~= insert_v(
                                    Seq::<NodeV>::empty(),
                                    segs2.drop_first(),
                                    d2,
                                ));
                            }
                        }
                    },
                    Some(n) => {
                        if segs1.len() <= 1 {
                            assert(lookup_v(a, k)->0 =~= lookup_v(b, k)->0);
                        } else if segs2.len() <= 1 {
                            assert(lookup_v(a, k)->0 =~= lookup_v(b, k)->0);
                        } else {
                            assert(segs1.drop_first() != segs2.drop_first()) by {
                                if segs1.drop_first() == segs2.drop_first() {
                                    assert(segs1 =~= segs2) by {
                                        assert forall|i: int| 0 <= i < segs1.len() implies segs1[i]
                                            == segs2[i] by {
                                            if i >= 1 {
                                                assert(segs1[i] == segs1.drop_first()[i - 1]);
                                                assert(segs2[i] == segs2.drop_first()[i - 1]);
                                            }
                                        }
                                    }
                                }
                            }
                            lemma_lookup_wf(s, k);
                            lemma_insert_v_comm(
                                n.childs,
                                segs1.drop_first(),
                                d1,
                                segs2.drop_first(),
                                d2,
                            );
                            assert(lookup_v(a, k)->0 =~= lookup_v(b, k)->0);
                        }
                    },
                }
            }
        } else if k == k1 {
            assert(lookup_v(a, k) == lookup_v(t1, k));
            assert(lookup_v(t2, k) == lookup_v(s, k));
        } else if k == k2 {
            assert(lookup_v(b, k) == lookup_v(t2, k));
            assert(lookup_v(t1, k) == lookup_v(s, k));
        } else {
            assert(lookup_v(a, k) == lookup_v(t1, k));
            assert(lookup_v(t1, k) == lookup_v(s, k));
            assert(lookup_v(b, k) == lookup_v(t2, k));
            assert(lookup_v(t2, k) == lookup_v(s, k));
        }
    }
    lemma_sorted_forests_eq(a, b);
}

/// The nesting invariant, preservation half: inserting one path never
/// removes a path that the trie already held.
pub proof fn lemma_insert_preserves_paths(
    s: Seq<NodeV>,
    segs: Seq<Seq<char>>,
    d: FsItemInfo,
    p: Seq<Seq<char>>,
)
    requires
        wf_vs(s),
        segs.len() >= 1,
        contains_path_v(s, p),
    ensures
        contains_path_v(insert_v(s, segs, d), p),
    decreases p.len(),
{
    if p.len() > 0 {
        lemma_insert_v_lookup(s, segs, d);
        let t = insert_v(s, segs, d);
        let n = lookup_v(s, p[0])->0;
        if p[0] != segs[0] {
            assert(lookup_v(t, p[0]) == lookup_v(s, p[0]));
        } else {
            if segs.len() <= 1 {
                assert(lookup_v(t, p[0])->0.childs == n.childs);
            } else {
                lemma_lookup_wf(s, p[0]);
                lemma_insert_preserves_paths(n.childs, segs.drop_first(), d, p.drop_first());
            }
        }
    }
}

/// The trie grown from a starting forest by inserting a list of events,
/// each a path already split into segments (root first) with its payload.
pub open spec fn build_v(m: Seq<NodeV>, evs: Seq<(Seq<Seq<char>>, FsItemInfo)>) -> Seq<NodeV>
    decreases evs.len(),
{
    if evs.len() == 0 {
        m
    } else {
        build_v(insert_v(m, evs[0].0, evs[0].1), evs.drop_first())
    }
}

/// A list of insertable events: every path has at least one segment, and
/// no path occurs twice — a traversal emits one insertable event per path.
pub open spec fn wf_events(evs: Seq<(Seq<Seq<char>>, FsItemInfo)>) -> bool {
    &&& (forall|i: int| 0 <= i < evs.len() ==> (#[trigger] evs[i].0).len() >= 1)
    &&& (forall|i: int, j: int|
        0 <= i < j < evs.len() ==> (#[trigger] evs[i].0) != (#[trigger] evs[j].0))
}

/// The event at position `j` may be pulled to the front: the trie built
/// from the list equals the trie built from the rest after inserting that
/// event first.
proof fn lemma_build_v_pull(m: Seq<NodeV>, evs: Seq<(Seq<Seq<char>>, FsItemInfo)>, j: int)
    requires
        wf_vs(m),
        wf_events(evs),
        0 <= j < evs.len(),
    ensures
        build_v(m, evs) == build_v(insert_v(m, evs[j].0, evs[j].1), evs.remove(j)),
    decreases j,
{
    if j == 0 {
        assert(evs.remove(0) =~= evs.drop_first());
    } else {
        let e0 = evs[0];
        let ej = evs[j];
        assert forall|i: int| 0 <= i < evs.drop_first().len() implies (#[trigger] evs.drop_first()[i].0).len()
            >= 1 by {
            assert(evs.drop_first()[i] == evs[i + 1]);
        }
        assert forall|i: int, k: int| 0 <= i < k < evs.drop_first().len() implies (
        #[trigger] evs.drop_first()[i].0) != (#[trigger] evs.drop_first()[k].0) by {
            assert(evs.drop_first()[i] == evs[i + 1]);
            assert(evs.drop_first()[k] == evs[k + 1]);
        }
        assert(evs.drop_first()[j - 1] == ej);
        lemma_insert_v_wf(m, e0.0, e0.1);
        lemma_build_v_pull(insert_v(m, e0.0, e0.1), evs.drop_first(), j - 1);
        assert(e0.0 != ej.0);
        lemma_insert_v_comm(m, e0.0, e0.1, ej.0, ej.1);
        let rest = evs.drop_first().remove(j - 1);
        assert((seq![e0] + rest)[0] == e0);
        assert((seq![e0] + rest).drop_first() =~= rest);
        assert(build_v(insert_v(m, ej.0, ej.1), seq![e0] + rest) == build_v(
            insert_v(insert_v(m, ej.0, ej.1), e0.0, e0.1),
            rest,
        ));
        assert(evs.remove(j) =~= seq![e0] + rest) by {
            evs.remove_ensures(j);
            evs.drop_first().remove_ensures(j - 1);
            assert forall|i: int| 0 <= i < evs.len() - 1 implies evs.remove(j)[i] == (seq![e0]
                + rest)[i] by {
                if i == 0 {
                    assert(evs.remove(j)[0] == evs[0]);
                } else if i < j {
                    assert(evs.remove(j)[i] == evs[i]);
                    assert(rest[i - 1] == evs.drop_first()[i - 1]);
                } else {
                    assert(evs.remove(j)[i] == evs[i + 1]);
                    assert(rest[i - 1] == evs.drop_first()[i]);
                }
            }
        }
    }
}

/// Build-order independence: two event lists that hold the same events,
/// one per path, in whatever order, grow the same trie. Together with the
/// rollup depending only on the trie, the totals of a scan do not depend
/// on the order in which the events arrived.
pub proof fn lemma_build_v_order_independent(
    m: Seq<NodeV>,
    evs1: Seq<(Seq<Seq<char>>, FsItemInfo)>,
    evs2: Seq<(Seq<Seq<char>>, FsItemInfo)>,
)
    requires
        wf_vs(m),
        wf_events(evs1),
        wf_events(evs2),
        evs1.to_multiset() == evs2.to_multiset(),
    ensures
        build_v(m, evs1) == build_v(m, evs2),
    decreases evs1.len(),
{
    broadcast use vstd::seq_lib::group_to_multiset_ensures;

    if evs1.len() == 0 {
        assert(evs1.to_multiset().len() == 0);
        assert(evs2.to_multiset().len() == evs2.len());
    } else {
        let e = evs1[0];
        assert(evs1.contains(e));
        assert(evs1.to_multiset().count(e) > 0);
        assert(evs2.to_multiset().count(e) > 0);
        assert(evs2.contains(e));
        let j = choose|j: int| 0 <= j < evs2.len() && evs2[j] == e;
        lemma_build_v_pull(m, evs2, j);
        lemma_insert_v_wf(m, e.0, e.1);
        assert(evs1.remove(0) =~= evs1.drop_first());
        assert(evs1.drop_first().to_multiset() == evs2.remove(j).to_multiset()) by {
            assert(evs1.remove(0).to_multiset() =~= evs1.to_multiset().remove(e));
            assert(evs2.remove(j).to_multiset() =~= evs2.to_multiset().remove(e));
        }
        assert forall|i: int| 0 <= i < evs1.drop_first().len() implies (
        #[trigger] evs1.drop_first()[i].0).len() >= 1 by {
            assert(evs1.drop_first()[i] == evs1[i + 1]);
        }
        assert forall|i: int, k: int| 0 <= i < k < evs1.drop_first().len() implies (
        #[trigger] evs1.drop_first()[i].0) != (#[trigger] evs1.drop_first()[k].0) by {
            assert(evs1.drop_first()[i] == evs1[i + 1]);
            assert(evs1.drop_first()[k] == evs1[k + 1]);
        }
        assert forall|i: int| 0 <= i < evs2.remove(j).len() implies (#[trigger] evs2.remove(j)[i].0).len()
            >= 1 by {
            evs2.remove_ensures(j);
            if i < j {
                assert(evs2.remove(j)[i] == evs2[i]);
            } else {
                assert(evs2.remove(j)[i] == evs2[i + 1]);
            }
        }
        assert forall|i: int, k: int| 0 <= i < k < evs2.remove(j).len() implies (
        #[trigger] evs2.remove(j)[i].0) != (#[trigger] evs2.remove(j)[k].0) by {
            evs2.remove_ensures(j);
            if i < j {
                assert(evs2.remove(j)[i] == evs2[i]);
            } else {
                assert(evs2.remove(j)[i] == evs2[i + 1]);
            }
            if k < j {
                assert(evs2.remove(j)[k] == evs2[k]);
            } else {
                assert(evs2.remove(j)[k] == evs2[k + 1]);
            }
        }
        lemma_build_v_order_independent(
            insert_v(m, e.0, e.1),
            evs1.drop_first(),
            evs2.remove(j),
        );
    }
}

/// Whether `q` is a prefix of `p`, the whole of `p` included.
pub open spec fn is_prefix_of(q: Seq<Seq<char>>, p: Seq<Seq<char>>) -> bool {
    q.len() <= p.len() && p.take(q.len() as int) == q
}

/// The node that the path `q` leads to in the forest, if the whole path
/// exists, one segment per level.
pub open spec fn path_node(m: Seq<NodeV>, q: Seq<Seq<char>>) -> Option<NodeV>
    recommends
        q.len() >= 1,
    decreases q.len(),
{
    if q.len() <= 1 {
        lookup_v(m, q[0])
    } else {
        match lookup_v(m, q[0]) {
            Some(n) => path_node(n.childs, q.drop_first()),
            None => None,
        }
    }
}

/// With equal first segments, being a prefix is decided by the tails.
proof fn lemma_prefix_uncons(q: Seq<Seq<char>>, p: Seq<Seq<char>>)
    requires
        q.len() >= 1,
        p.len() >= 1,
        q[0] == p[0],
    ensures
        is_prefix_of(q, p) <==> is_prefix_of(q.drop_first(), p.drop_first()),
{
    if is_prefix_of(q, p) {
        assert(p.drop_first().take(q.drop_first().len() as int) =~= q.drop_first()) by {
            assert forall|i: int|
                0 <= i < q.len() - 1 implies p.drop_first().take(q.len() - 1)[i]
                == q.drop_first()[i] by {
                assert(p.drop_first().take(q.len() - 1)[i] == p[i + 1]);
                assert(p.take(q.len() as int)[i + 1] == p[i + 1]);
                assert(q.drop_first()[i] == q[i + 1]);
            }
        }
    }
    if is_prefix_of(q.drop_first(), p.drop_first()) {
        assert(q.drop_first().len() == q.len() - 1);
        assert(p.drop_first().len() == p.len() - 1);
        assert(q.len() <= p.len());
        assert(p.take(q.len() as int) =~= q) by {
            assert forall|i: int| 0 <= i < q.len() implies p.take(q.len() as int)[i] == q[i] by {
                if i >= 1 {
                    assert(p.take(q.len() as int)[i] == p[i]);
                    assert(p[i] == p.drop_first()[i - 1]);
                    assert(p.drop_first().take(q.len() - 1)[i - 1] == p.drop_first()[i - 1]);
                    assert(p.drop_first().take(q.len() - 1)[i - 1] == q.drop_first()[i - 1]);
                    assert(q.drop_first()[i - 1] == q[i]);
                }
            }
        }
    }
}

/// With equal first segments, equality is decided by the tails.
proof fn lemma_eq_uncons(q: Seq<Seq<char>>, p: Seq<Seq<char>>)
    requires
        q.len() >= 1,
        p.len() >= 1,
        q[0] == p[0],
    ensures
        (q == p) <==> (q.drop_first() == p.drop_first()),
{
    if q.drop_first() == p.drop_first() {
        assert(q.drop_first().len() == q.len() - 1);
        assert(p.drop_first().len() == p.len() - 1);
        assert(q.len() == p.len());
        assert(q =~= p) by {
            assert forall|i: int| 0 <= i < q.len() implies q[i] == p[i] by {
                if i >= 1 {
                    assert(q[i] == q.drop_first()[i - 1]);
                    assert(p[i] == p.drop_first()[i - 1]);
                }
            }
        }
    }
}

/// Following a path and then one more segment is following the longer
/// path: looking the segment up among the found node's children.
proof fn lemma_path_node_extend(m: Seq<NodeV>, q: Seq<Seq<char>>, k: Seq<char>)
    requires
        q.len() >= 1,
        path_node(m, q) is Some,
    ensures
        path_node(m, q.push(k)) == lookup_v(path_node(m, q)->0.childs, k),
    decreases q.len(),
{
    assert(q.push(k)[0] == q[0]);
    if q.len() == 1 {
        assert(q.push(k).drop_first() =~= seq![k]);
        assert(q.push(k).len() == 2);
        assert(path_node(m, q.push(k)) == path_node(path_node(m, q)->0.childs, seq![k]));
    } else {
        let n = lookup_v(m, q[0])->0;
        assert(q.push(k).drop_first() =~= q.drop_first().push(k));
        lemma_path_node_extend(n.childs, q.drop_first(), k);
    }
}

/// What one insertion does to the node found along any path: on the
/// inserted path and its prefixes the node exists afterwards, with the
/// payload attached at the very end only where none was attached before;
/// along every other path nothing changes.
proof fn lemma_insert_v_path(m: Seq<NodeV>, p: Seq<Seq<char>>, d: FsItemInfo, q: Seq<Seq<char>>)
    requires
        wf_vs(m),
        p.len() >= 1,
        q.len() >= 1,
    ensures
        is_prefix_of(q, p) ==> path_node(insert_v(m, p, d), q) is Some,
        is_prefix_of(q, p) && q.len() < p.len() ==> path_node(insert_v(m, p, d), q)->0.data == (
        match path_node(m, q) {
            Some(n) => n.data,
            None => None,
        }),
        q == p ==> path_node(insert_v(m, p, d), q)->0.data == (match path_node(m, q) {
            Some(n) => if n.data is Some {
                n.data
            } else {
                Some(d)
            },
            None => Some(d),
        }),
        !is_prefix_of(q, p) ==> path_node(insert_v(m, p, d), q) == path_node(m, q),
        path_node(insert_v(m, p, d), q) is Some ==> (path_node(m, q) is Some || is_prefix_of(
            q,
            p,
        )),
    decreases q.len(),
{
    lemma_insert_v_lookup(m, p, d);
    let t = insert_v(m, p, d);
    if q[0] != p[0] {
        assert(lookup_v(t, q[0]) == lookup_v(m, q[0]));
        assert(!is_prefix_of(q, p)) by {
            if is_prefix_of(q, p) {
                assert(p.take(q.len() as int)[0] == p[0]);
            }
        }
        if q.len() > 1 && lookup_v(m, q[0]) is Some {
            assert(path_node(t, q) == path_node(lookup_v(m, q[0])->0.childs, q.drop_first()));
            assert(path_node(m, q) == path_node(lookup_v(m, q[0])->0.childs, q.drop_first()));
        }
        if q.len() > 1 && lookup_v(m, q[0]) is None {
            assert(path_node(t, q) is None);
            assert(path_node(m, q) is None);
        }
        assert(!is_prefix_of(q, p) ==> path_node(t, q) == path_node(m, q));
    } else {
        // The paths share their first segment.
        match lookup_v(m, q[0]) {
            None => {
                // The inserted chain is all there is below this key.
                let c = chain_of(p, d);
                assert(lookup_v(t, q[0]) == Some(c));
                lemma_chain_path(p, d, q);
                assert(lookup_v(seq![c], q[0]) == Some(c)) by {
                    assert(seq![c].len() == 1);
                    assert(seq![c][0] == c);
                }
                assert(path_node(t, q) == path_node(seq![c], q)) by {
                    if q.len() > 1 {
                        assert(path_node(t, q) == path_node(c.childs, q.drop_first()));
                        assert(path_node(seq![c], q) == path_node(c.childs, q.drop_first()));
                    }
                }
                assert(path_node(m, q) is None) by {
                    if q.len() > 1 {
                        assert(lookup_v(m, q[0]) is None);
                    }
                }
                assert(!is_prefix_of(q, p) ==> path_node(t, q) == path_node(m, q));
            },
            Some(n) => {
                lemma_lookup_wf(m, q[0]);
                let n1 = lookup_v(t, q[0])->0;
                if p.len() == 1 {
                    assert(n1.childs == n.childs);
                    if q.len() == 1 {
                        assert(q =~= p);
                        assert(is_prefix_of(q, p)) by {
                            assert(p.take(1) =~= q);
                        }
                    } else {
                        assert(!is_prefix_of(q, p));
                        assert(path_node(t, q) == path_node(n1.childs, q.drop_first()));
                        assert(path_node(m, q) == path_node(n.childs, q.drop_first()));
                        assert(path_node(t, q) == path_node(m, q));
                    }
                } else {
                    assert(n1.childs == insert_v(n.childs, p.drop_first(), d));
                    assert(n1.data == n.data);
                    if q.len() == 1 {
                        assert(is_prefix_of(q, p)) by {
                            assert(p.take(1) =~= q);
                        }
                    } else {
                        lemma_insert_v_path(n.childs, p.drop_first(), d, q.drop_first());
                        assert(path_node(t, q) == path_node(n1.childs, q.drop_first()));
                        assert(path_node(m, q) == path_node(n.childs, q.drop_first()));
                        lemma_prefix_uncons(q, p);
                        lemma_eq_uncons(q, p);
                        assert(!is_prefix_of(q, p) ==> path_node(t, q) == path_node(m, q));
                    }
                }
            },
        }
    }
}

/// The nodes along a fresh chain: the chain holds exactly the prefixes of
/// the path it was built for, with the payload at the very end.
proof fn lemma_chain_path(p: Seq<Seq<char>>, d: FsItemInfo, q: Seq<Seq<char>>)
    requires
        p.len() >= 1,
        q.len() >= 1,
        q[0] == p[0],
    ensures
        is_prefix_of(q, p) ==> path_node(seq![chain_of(p, d)], q) is Some,
        is_prefix_of(q, p) && q.len() < p.len() ==> path_node(seq![chain_of(p, d)], q)->0.data
            is None,
        q == p ==> path_node(seq![chain_of(p, d)], q)->0.data == Some(d),
        !is_prefix_of(q, p) ==> path_node(seq![chain_of(p, d)], q) is None,
    decreases q.len(),
{
    let c = chain_of(p, d);
    assert(lookup_v(seq![c], q[0]) == Some(c)) by {
        assert(seq![c].len() == 1);
        assert(seq![c][0] == c);
    }
    if q.len() == 1 {
        if p.len() == 1 {
            assert(q =~= p);
        } else {
            assert(is_prefix_of(q, p)) by {
                assert(p.take(1) =~= q);
            }
        }
    } else {
        assert(path_node(seq![c], q) == path_node(c.childs, q.drop_first()));
        if p.len() == 1 {
            assert(c.childs =~= Seq::<NodeV>::empty());
            assert(lookup_v(c.childs, q.drop_first()[0]) is None);
            assert(!is_prefix_of(q, p));
            if q.drop_first().len() > 1 {
                assert(path_node(c.childs, q.drop_first()) is None);
            }
        } else {
            assert(c.childs == seq![chain_of(p.drop_first(), d)]);
            if q.drop_first()[0] == p.drop_first()[0] {
                lemma_chain_path(p.drop_first(), d, q.drop_first());
                lemma_prefix_uncons(q, p);
                lemma_eq_uncons(q, p);
            } else {
                let c2 = chain_of(p.drop_first(), d);
                assert(lookup_v(c.childs, q.drop_first()[0]) is None) by {
                    assert(c.childs.len() == 1);
                    assert(c.childs[0] == c2);
                    assert(c2.seg == p.drop_first()[0]);
                    assert(c.childs.drop_first() =~= Seq::<NodeV>::empty());
                    assert(lookup_v(c.childs, q.drop_first()[0]) == lookup_v(
                        c.childs.drop_first(),
                        q.drop_first()[0],
                    ));
                }
                assert(path_node(c.childs, q.drop_first()) is None);
                assert(!is_prefix_of(q, p)) by {
                    if is_prefix_of(q, p) {
                        assert(p.take(q.len() as int)[1] == q[1]);
                        assert(p[1] == q[1]);
                        assert(q.drop_first()[0] == q[1]);
                        assert(p.drop_first()[0] == p[1]);
                    }
                }
            }
        }
    }
}

/// Every path is a prefix of itself.
proof fn lemma_prefix_refl(p: Seq<Seq<char>>)
    ensures
        is_prefix_of(p, p),
{
    assert(p.take(p.len() as int) =~= p);
}

/// Being a prefix carries over along longer paths.
proof fn lemma_prefix_trans(a: Seq<Seq<char>>, b: Seq<Seq<char>>, c: Seq<Seq<char>>)
    requires
        is_prefix_of(a, b),
        is_prefix_of(b, c),
    ensures
        is_prefix_of(a, c),
{
    assert(c.take(a.len() as int) =~= a) by {
        assert forall|i: int| 0 <= i < a.len() implies c.take(a.len() as int)[i] == a[i] by {
            assert(c.take(b.len() as int)[i] == c[i]);
            assert(b.take(a.len() as int)[i] == b[i]);
        }
    }
}

/// A prefix of the same length is the path itself.
proof fn lemma_prefix_same_len(a: Seq<Seq<char>>, b: Seq<Seq<char>>)
    requires
        is_prefix_of(a, b),
        a.len() == b.len(),
    ensures
        a == b,
{
    assert(b.take(b.len() as int) =~= b);
}

/// A path is a prefix of itself extended by one segment.
proof fn lemma_prefix_push(q: Seq<Seq<char>>, k: Seq<char>)
    ensures
        is_prefix_of(q, q.push(k)),
{
    assert(q.push(k).take(q.len() as int) =~= q);
}

/// Inserting a list of events into a well-formed forest keeps it
/// well-formed.
proof fn lemma_build_v_wf(m: Seq<NodeV>, evs: Seq<(Seq<Seq<char>>, FsItemInfo)>)
    requires
        wf_vs(m),
        forall|i: int| 0 <= i < evs.len() ==> (#[trigger] evs[i].0).len() >= 1,
    ensures
        wf_vs(build_v(m, evs)),
    decreases evs.len(),
{
    if evs.len() > 0 {
        lemma_insert_v_wf(m, evs[0].0, evs[0].1);
        assert forall|i: int| 0 <= i < evs.drop_first().len() implies (#[trigger] evs.drop_first()[i].0).len()
            >= 1 by {
            assert(evs.drop_first()[i] == evs[i + 1]);
        }
        lemma_build_v_wf(insert_v(m, evs[0].0, evs[0].1), evs.drop_first());
    }
}

/// Building with one more event at the end is inserting that event into
/// the trie built from the others.
proof fn lemma_build_v_snoc(
    m: Seq<NodeV>,
    evs: Seq<(Seq<Seq<char>>, FsItemInfo)>,
    e: (Seq<Seq<char>>, FsItemInfo),
)
    ensures
        build_v(m, evs.push(e)) == insert_v(build_v(m, evs), e.0, e.1),
    decreases evs.len(),
{
    let w = evs.push(e);
    if evs.len() == 0 {
        assert(w[0] == e);
        assert(w.drop_first() =~= Seq::<(Seq<Seq<char>>, FsItemInfo)>::empty());
        assert(build_v(m, w) == build_v(insert_v(m, w[0].0, w[0].1), w.drop_first()));
        assert(build_v(insert_v(m, e.0, e.1), w.drop_first()) == insert_v(m, e.0, e.1));
        assert(build_v(m, evs) == m);
    } else {
        assert(w[0] == evs[0]);
        assert(w.drop_first() =~= evs.drop_first().push(e));
        let m1 = insert_v(m, evs[0].0, evs[0].1);
        lemma_build_v_snoc(m1, evs.drop_first(), e);
        assert(build_v(m, w) == build_v(m1, w.drop_first()));
        assert(build_v(m1, w.drop_first()) == build_v(m1, evs.drop_first().push(e)));
        assert(build_v(m1, evs.drop_first().push(e)) == insert_v(
            build_v(m1, evs.drop_first()),
            e.0,
            e.1,
        ));
        assert(build_v(m, evs) == build_v(m1, evs.drop_first()));
    }
}

/// What a finished build holds along any path: a node exists exactly for
/// the prefixes of the event paths; the node for an event path carries
/// that event's payload, and a node no event named carries none.
proof fn lemma_build_v_path(evs: Seq<(Seq<Seq<char>>, FsItemInfo)>, q: Seq<Seq<char>>)
    requires
        wf_events(evs),
        q.len() >= 1,
    ensures
        (path_node(build_v(Seq::empty(), evs), q) is Some) <==> (exists|i: int|
            0 <= i < evs.len() && is_prefix_of(q, (#[trigger] evs[i].0))),
        forall|i: int|
            0 <= i < evs.len() && (#[trigger] evs[i].0) == q ==> path_node(
                build_v(Seq::empty(), evs),
                q,
            ) is Some && path_node(build_v(Seq::empty(), evs), q)->0.data == Some(evs[i].1),
        (path_node(build_v(Seq::empty(), evs), q) is Some && (forall|i: int|
            0 <= i < evs.len() ==> (#[trigger] evs[i].0) != q)) ==> path_node(
            build_v(Seq::empty(), evs),
            q,
        )->0.data is None,
    decreases evs.len(),
{
    let empty_m = Seq::<NodeV>::empty();
    if evs.len() == 0 {
        assert(build_v(empty_m, evs) == empty_m);
        assert(path_node(empty_m, q) is None) by {
            assert(lookup_v(empty_m, q[0]) is None);
        }
    } else {
        let evs0 = evs.drop_last();
        let e = evs.last();
        assert(evs0.push(e) =~= evs);
        lemma_build_v_snoc(empty_m, evs0, e);
        let built0 = build_v(empty_m, evs0);
        let built = build_v(empty_m, evs);
        assert(built == insert_v(built0, e.0, e.1));
        assert forall|i: int| 0 <= i < evs0.len() implies (#[trigger] evs0[i].0).len() >= 1 by {
            assert(evs0[i] == evs[i]);
        }
        assert forall|i: int, j: int| 0 <= i < j < evs0.len() implies (#[trigger] evs0[i].0) != (
        #[trigger] evs0[j].0) by {
            assert(evs0[i] == evs[i]);
            assert(evs0[j] == evs[j]);
        }
        lemma_build_v_path(evs0, q);
        lemma_build_v_wf(empty_m, evs0);
        assert(e.0.len() >= 1);
        lemma_insert_v_path(built0, e.0, e.1, q);
        assert forall|i: int| 0 <= i < evs0.len() implies evs0[i] == evs[i] by {}
        assert(e == evs[evs.len() - 1]);
        // A node exists exactly for the prefixes of the event paths.
        if path_node(built, q) is Some {
            if path_node(built0, q) is Some {
                let i0 = choose|i: int|
                    0 <= i < evs0.len() && is_prefix_of(q, (#[trigger] evs0[i].0));
                assert(is_prefix_of(q, evs[i0].0));
            } else {
                assert(is_prefix_of(q, e.0));
                assert(is_prefix_of(q, evs[evs.len() - 1].0));
            }
        }
        if exists|i: int| 0 <= i < evs.len() && is_prefix_of(q, (#[trigger] evs[i].0)) {
            let i0 = choose|i: int| 0 <= i < evs.len() && is_prefix_of(q, (#[trigger] evs[i].0));
            if i0 < evs.len() - 1 {
                assert(is_prefix_of(q, evs0[i0].0));
                assert(path_node(built0, q) is Some);
                if !is_prefix_of(q, e.0) {
                    assert(path_node(built, q) == path_node(built0, q));
                }
            } else {
                assert(is_prefix_of(q, e.0));
            }
            assert(path_node(built, q) is Some);
        }
        // The payload stored for an event path is that event's payload.
        assert forall|i: int|
            0 <= i < evs.len() && (#[trigger] evs[i].0) == q implies path_node(built, q) is Some
            && path_node(built, q)->0.data == Some(evs[i].1) by {
            if i == evs.len() - 1 {
                // The last event itself names `q`.
                lemma_prefix_refl(e.0);
                assert(q == e.0);
                match path_node(built0, q) {
                    Some(n0) => {
                        assert forall|j: int| 0 <= j < evs0.len() implies (#[trigger] evs0[j].0)
                            != q by {
                            assert(evs0[j] == evs[j]);
                        }
                        assert(n0.data is None);
                    },
                    None => {},
                }
            } else {
                // An earlier event names `q`; the last insert leaves its payload.
                assert(evs0[i].0 == q);
                assert(path_node(built0, q) is Some);
                assert(path_node(built0, q)->0.data == Some(evs[i].1));
                assert(e.0 != q);
                if is_prefix_of(q, e.0) {
                    assert(q.len() < e.0.len()) by {
                        if q.len() == e.0.len() {
                            lemma_prefix_same_len(q, e.0);
                        }
                    }
                } else {
                    assert(path_node(built, q) == path_node(built0, q));
                }
            }
        }
        // A node no event named carries no payload.
        if path_node(built, q) is Some && (forall|i: int|
            0 <= i < evs.len() ==> (#[trigger] evs[i].0) != q) {
            assert(e.0 != q);
            assert forall|j: int| 0 <= j < evs0.len() implies (#[trigger] evs0[j].0) != q by {
                assert(evs0[j] == evs[j]);
            }
            if is_prefix_of(q, e.0) {
                assert(q.len() < e.0.len()) by {
                    if q.len() == e.0.len() {
                        lemma_prefix_same_len(q, e.0);
                    }
                }
                match path_node(built0, q) {
                    Some(n0) => {
                        assert(n0.data is None);
                    },
                    None => {},
                }
            } else {
                assert(path_node(built, q) == path_node(built0, q));
            }
        }
    }
}

/// The discipline of a traversal's insertable events: every payload marks
/// an entered directory or a file; no event path extends a file's path;
/// and every proper prefix, two segments or longer, of an event path is
/// itself the path of a directory event — a directory's entry always
/// precedes its contents in the set, whatever order they arrive in.
pub open spec fn marked_events(evs: Seq<(Seq<Seq<char>>, FsItemInfo)>) -> bool {
    &&& (forall|i: int|
        0 <= i < evs.len() ==> ((#[trigger] evs[i].1).event_type is DirEnter
            || evs[i].1.event_type is File))
    &&& (forall|i: int, j: int|
        0 <= i < evs.len() && 0 <= j < evs.len() && evs[i].1.event_type is File && evs[i].0
            != evs[j].0 ==> !is_prefix_of(#[trigger] evs[i].0, #[trigger] evs[j].0))
    &&& (forall|i: int, q: Seq<Seq<char>>|
        0 <= i < evs.len() && 2 <= q.len() < evs[i].0.len() && #[trigger] is_prefix_of(
            q,
            evs[i].0,
        ) ==> exists|j: int|
            0 <= j < evs.len() && (#[trigger] evs[j].0) == q && evs[j].1.event_type is DirEnter)
}

/// In a well-formed forest every member is found under its own key.
proof fn lemma_lookup_self(s: Seq<NodeV>, i: int)
    requires
        wf_vs(s),
        0 <= i < s.len(),
    ensures
        lookup_v(s, s[i].seg) == Some(s[i]),
    decreases i,
{
    if i > 0 {
        assert(lex_lt(s[0].seg, s[i].seg));
        lemma_lex_asym(s[0].seg, s[i].seg);
        lemma_wf_vs_drop_first(s);
        lemma_lookup_self(s.drop_first(), i - 1);
        assert(s.drop_first()[i - 1] == s[i]);
    }
}

/// The traversal discipline of a forest follows from its members.
proof fn lemma_marked_vs_from_members(s: Seq<NodeV>)
    requires
        forall|i: int|
            0 <= i < s.len() ==> ((is_dir_entry(#[trigger] s[i]) && dirs_marked_v(s[i])) || (
            is_file_entry(s[i]) && s[i].childs.len() == 0)),
    ensures
        marked_vs(s),
    decreases s.len(),
{
    if s.len() > 0 {
        assert forall|i: int| 0 <= i < s.drop_last().len() implies ((is_dir_entry(
            #[trigger] s.drop_last()[i],
        ) && dirs_marked_v(s.drop_last()[i])) || (is_file_entry(s.drop_last()[i])
            && s.drop_last()[i].childs.len() == 0)) by {
            assert(s.drop_last()[i] == s[i]);
        }
        lemma_marked_vs_from_members(s.drop_last());
        assert(s.last() == s[s.len() - 1]);
    }
}

/// The recursive core: any node of a trie built from disciplined events
/// obeys the discipline of shapes that the rollup law asks for.
proof fn lemma_node_marked(
    evs: Seq<(Seq<Seq<char>>, FsItemInfo)>,
    q: Seq<Seq<char>>,
    n: NodeV,
)
    requires
        wf_events(evs),
        marked_events(evs),
        q.len() >= 1,
        path_node(build_v(Seq::empty(), evs), q) == Some(n),
    ensures
        dirs_marked_v(n),
    decreases size_v(n),
{
    let built = build_v(Seq::<NodeV>::empty(), evs);
    lemma_build_v_wf(Seq::empty(), evs);
    assert(wf_v(n)) by {
        lemma_path_node_wf(built, q);
    }
    assert forall|i: int| 0 <= i < n.childs.len() implies ((is_dir_entry(#[trigger] n.childs[i])
        && dirs_marked_v(n.childs[i])) || (is_file_entry(n.childs[i]) && n.childs[i].childs.len()
        == 0)) by {
        let c = n.childs[i];
        let q1 = q.push(c.seg);
        lemma_lookup_self(n.childs, i);
        lemma_path_node_extend(built, q, c.seg);
        assert(path_node(built, q1) == Some(c));
        lemma_build_v_path(evs, q1);
        assert(q1.len() == q.len() + 1);
        assert(q1.len() >= 2);
        if exists|j: int| 0 <= j < evs.len() && (#[trigger] evs[j].0) == q1 {
            let j = choose|j: int| 0 <= j < evs.len() && (#[trigger] evs[j].0) == q1;
            assert(c.data == Some(evs[j].1));
            if evs[j].1.event_type is DirEnter {
                assert(is_dir_entry(c));
                proof_sizes_member(n, i);
                lemma_node_marked(evs, q1, c);
            } else {
                assert(evs[j].1.event_type is File);
                assert(is_file_entry(c));
                assert(c.childs.len() == 0) by {
                    if c.childs.len() > 0 {
                        let cc = c.childs[0];
                        lemma_path_node_wf(built, q1);
                        lemma_lookup_self(c.childs, 0);
                        lemma_path_node_extend(built, q1, cc.seg);
                        assert(path_node(built, q1.push(cc.seg)) == Some(cc));
                        lemma_build_v_path(evs, q1.push(cc.seg));
                        let j2 = choose|i2: int|
                            0 <= i2 < evs.len() && is_prefix_of(
                                q1.push(cc.seg),
                                (#[trigger] evs[i2].0),
                            );
                        lemma_prefix_push(q1, cc.seg);
                        lemma_prefix_trans(q1, q1.push(cc.seg), evs[j2].0);
                        assert(evs[j2].0.len() > q1.len());
                        assert(evs[j].0 != evs[j2].0);
                        assert(!is_prefix_of(evs[j].0, evs[j2].0));
                    }
                }
            }
        } else {
            // No event names this node's path; since the node exists, some
            // event path strictly extends it, so the discipline demands a
            // directory event exactly here — a contradiction.
            let j = choose|i2: int|
                0 <= i2 < evs.len() && is_prefix_of(q1, (#[trigger] evs[i2].0));
            assert(q1.len() < evs[j].0.len()) by {
                if q1.len() == evs[j].0.len() {
                    lemma_prefix_same_len(q1, evs[j].0);
                }
            }
            assert(exists|j2: int|
                0 <= j2 < evs.len() && (#[trigger] evs[j2].0) == q1 && evs[j2].1.event_type
                    is DirEnter);
        }
    }
    lemma_marked_vs_from_members(n.childs);
}

/// The node found along a path of a well-formed forest is well-formed.
proof fn lemma_path_node_wf(m: Seq<NodeV>, q: Seq<Seq<char>>)
    requires
        wf_vs(m),
        q.len() >= 1,
        path_node(m, q) is Some,
    ensures
        wf_v(path_node(m, q)->0),
    decreases q.len(),
{
    lemma_lookup_wf(m, q[0]);
    if q.len() > 1 {
        lemma_path_node_wf(lookup_v(m, q[0])->0.childs, q.drop_first());
    }
}

/// A child's subtree is smaller than its parent's.
proof fn proof_sizes_member(n: NodeV, i: int)
    requires
        0 <= i < n.childs.len(),
    ensures
        size_v(n.childs[i]) < size_v(n),
{
    lemma_size_vs_elem(n.childs, i);
    assert(size_v(n) == 1 + size_vs(n.childs));
}

/// The rollup discipline holds of every root of a trie built from a
/// traversal's events, in whatever order they were consumed: together
/// with the rollup law, the stored total of each root is then the sum of
/// the file sizes beneath it.
pub proof fn lemma_build_v_marked(evs: Seq<(Seq<Seq<char>>, FsItemInfo)>, i: int)
    requires
        wf_events(evs),
        marked_events(evs),
        0 <= i < build_v(Seq::empty(), evs).len(),
    ensures
        dirs_marked_v(build_v(Seq::empty(), evs)[i]),
{
    let built = build_v(Seq::<NodeV>::empty(), evs);
    lemma_build_v_wf(Seq::empty(), evs);
    let r = built[i];
    lemma_lookup_self(built, i);
    assert(path_node(built, seq![r.seg]) == Some(r)) by {
        assert(seq![r.seg].len() == 1);
        assert(seq![r.seg][0] == r.seg);
    }
    lemma_node_marked(evs, seq![r.seg], r);
}

} // verus!
