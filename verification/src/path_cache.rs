use vstd::prelude::*;

use crate::event_type::EventType;
use crate::item_info::FsItemInfo;
use crate::segments::lex_lt;
use crate::segments::str_lt;

verus! {

/// One node of the aggregation trie. `path` holds a single path segment,
/// not the full path; `data` is the payload attached when this node is the
/// terminal segment of an inserted path; the three sizes are derived values,
/// valid only after `calculate_size` ran over the finished trie.
///
/// `childs` is kept sorted strictly by segment, in lexicographic order: it
/// plays the role of an ordered map from segment to child node, and having
/// no children is represented by an empty vector.
#[derive(Debug)]
pub struct PathCache {
    pub path: String,
    pub data: Option<FsItemInfo>,
    pub dirs_size: u64,
    pub files_size: u64,
    pub total_size: u64,
    pub childs: Vec<PathCache>,
}

/// The mathematical shape of a trie node: its segment, its payload and its
/// children, with the derived sizes left out.
#[verifier::ext_equal]
pub struct NodeV {
    pub seg: Seq<char>,
    pub data: Option<FsItemInfo>,
    pub childs: Seq<NodeV>,
}

/// The shape of one concrete node.
pub open spec fn node_view(n: PathCache) -> NodeV
    decreases n,
{
    NodeV { seg: n.path@, data: n.data, childs: nodes_view(n.childs@) }
}

/// The shapes of a vector of sibling nodes, in order.
pub open spec fn nodes_view(s: Seq<PathCache>) -> Seq<NodeV>
    decreases s,
{
    if s.len() == 0 {
        Seq::empty()
    } else {
        seq![node_view(s[0])] + nodes_view(s.drop_first())
    }
}

/// A vector of siblings and its shape have the same length.
pub broadcast proof fn lemma_nodes_view_len(s: Seq<PathCache>)
    ensures
        (#[trigger] nodes_view(s)).len() == s.len(),
    decreases s.len(),
{
    if s.len() > 0 {
        lemma_nodes_view_len(s.drop_first());
    }
}

/// The shape of a vector of siblings holds the members' shapes in order.
pub broadcast proof fn lemma_nodes_view_index(s: Seq<PathCache>, i: int)
    requires
        0 <= i < s.len(),
    ensures
        #[trigger] nodes_view(s)[i] == node_view(s[i]),
    decreases s.len(),
{
    lemma_nodes_view_len(s);
    if i > 0 {
        lemma_nodes_view_index(s.drop_first(), i - 1);
        assert(s.drop_first()[i - 1] == s[i]);
    }
}

impl View for PathCache {
    type V = NodeV;

    open spec fn view(&self) -> NodeV {
        node_view(*self)
    }
}

/// The number of nodes in a subtree, counting the node itself.
pub open spec fn size_v(n: NodeV) -> nat
    decreases n,
{
    1 + size_vs(n.childs)
}

/// The number of nodes in a forest of sibling subtrees.
pub open spec fn size_vs(s: Seq<NodeV>) -> nat
    decreases s,
{
    if s.len() == 0 {
        0
    } else {
        size_v(s[0]) + size_vs(s.drop_first())
    }
}

/// Sibling nodes stand in strictly increasing segment order.
pub open spec fn sorted_v(s: Seq<NodeV>) -> bool {
    forall|i: int, j: int| 0 <= i < j < s.len() ==> lex_lt(s[i].seg, s[j].seg)
}

/// A well-formed forest: siblings sorted strictly by segment at every level.
pub open spec fn wf_vs(s: Seq<NodeV>) -> bool
    decreases s,
{
    sorted_v(s) && (forall|i: int| 0 <= i < s.len() ==> wf_v(#[trigger] s[i]))
}

/// A well-formed subtree.
pub open spec fn wf_v(n: NodeV) -> bool
    decreases n,
{
    wf_vs(n.childs)
}

/// The node of the forest `s` whose segment is `k`, if one exists.
pub open spec fn lookup_v(s: Seq<NodeV>, k: Seq<char>) -> Option<NodeV>
    decreases s.len(),
{
    if s.len() == 0 {
        None
    } else if s[0].seg == k {
        Some(s[0])
    } else {
        lookup_v(s.drop_first(), k)
    }
}

/// Whether the forest `s` holds a node for the segment `k`.
pub open spec fn has_key_v(s: Seq<NodeV>, k: Seq<char>) -> bool {
    lookup_v(s, k) is Some
}

/// A fresh chain of nodes for the segments `segs` (root first), with the
/// payload `d` attached at the last one.
pub open spec fn chain_of(segs: Seq<Seq<char>>, d: FsItemInfo) -> NodeV
    recommends
        segs.len() >= 1,
    decreases segs.len(),
{
    if segs.len() <= 1 {
        NodeV { seg: segs[0], data: Some(d), childs: Seq::empty() }
    } else {
        NodeV { seg: segs[0], data: None, childs: seq![chain_of(segs.drop_first(), d)] }
    }
}

/// Insertion of a path into a forest: `segs` is the path split into
/// segments, root first. Missing nodes are created along the way; at the
/// terminal segment the payload is attached only if the node carries none
/// yet, so the first insertion for a path stays authoritative. An existing
/// deeper subtree is never replaced.
pub open spec fn insert_v(s: Seq<NodeV>, segs: Seq<Seq<char>>, d: FsItemInfo) -> Seq<NodeV>
    recommends
        segs.len() >= 1,
    decreases segs.len(), s.len(),
{
    if s.len() == 0 {
        seq![chain_of(segs, d)]
    } else if lex_lt(segs[0], s[0].seg) {
        seq![chain_of(segs, d)] + s
    } else if lex_lt(s[0].seg, segs[0]) {
        seq![s[0]] + insert_v(s.drop_first(), segs, d)
    } else {
        let n0 = s[0];
        let n1 = if segs.len() <= 1 {
            NodeV {
                seg: n0.seg,
                data: if n0.data is Some {
                    n0.data
                } else {
                    Some(d)
                },
                childs: n0.childs,
            }
        } else {
            NodeV { seg: n0.seg, data: n0.data, childs: insert_v(n0.childs, segs.drop_first(), d) }
        };
        seq![n1] + s.drop_first()
    }
}

/// The segments named by a stack of segment strings, read from the top of
/// the stack down: the last string first, as a recursive pop would see them.
pub open spec fn rev_segs(s: Seq<String>) -> Seq<Seq<char>>
    decreases s.len(),
{
    if s.len() == 0 {
        Seq::empty()
    } else {
        seq![s.last()@] + rev_segs(s.drop_last())
    }
}

/// Insertion into a forest leaves a prefix of strictly smaller keys alone.
pub proof fn lemma_insert_v_skip(s: Seq<NodeV>, segs: Seq<Seq<char>>, d: FsItemInfo, i: int)
    requires
        segs.len() >= 1,
        0 <= i <= s.len(),
        forall|j: int| 0 <= j < i ==> lex_lt(#[trigger] s[j].seg, segs[0]),
    ensures
        insert_v(s, segs, d) == s.take(i) + insert_v(s.skip(i), segs, d),
    decreases i,
{
    if i == 0 {
        assert(s.take(0) =~= Seq::empty());
        assert(s.skip(0) =~= s);
        assert(s.take(0) + insert_v(s.skip(0), segs, d) =~= insert_v(s, segs, d));
    } else {
        crate::segments::lemma_lex_asym(s[0].seg, segs[0]);
        assert(insert_v(s, segs, d) == seq![s[0]] + insert_v(s.drop_first(), segs, d));
        assert forall|j: int| 0 <= j < i - 1 implies lex_lt(
            #[trigger] s.drop_first()[j].seg,
            segs[0],
        ) by {
            assert(s.drop_first()[j] == s[j + 1]);
        }
        lemma_insert_v_skip(s.drop_first(), segs, d, i - 1);
        assert(s.drop_first().take(i - 1) =~= s.take(i).drop_first());
        assert(s.drop_first().skip(i - 1) =~= s.skip(i));
        assert(seq![s[0]] + (s.take(i).drop_first() + insert_v(s.skip(i), segs, d)) =~= s.take(i)
            + insert_v(s.skip(i), segs, d));
    }
}

/// The union of two forests destined for the same parent. Keys only on one
/// side are adopted wholesale; for a key on both sides the left node's
/// payload wins and the children are merged recursively.
pub open spec fn merge_v(l: Seq<NodeV>, r: Seq<NodeV>) -> Seq<NodeV>
    decreases size_vs(l) + size_vs(r),
    via merge_v_dec
{
    if r.len() == 0 {
        l
    } else if l.len() == 0 {
        r
    } else if lex_lt(l[0].seg, r[0].seg) {
        seq![l[0]] + merge_v(l.drop_first(), r)
    } else if lex_lt(r[0].seg, l[0].seg) {
        seq![r[0]] + merge_v(l, r.drop_first())
    } else {
        seq![
            NodeV { seg: l[0].seg, data: l[0].data, childs: merge_v(l[0].childs, r[0].childs) },
        ] + merge_v(l.drop_first(), r.drop_first())
    }
}

/// A member's subtree is no larger than the whole forest.
pub proof fn lemma_size_vs_elem(s: Seq<NodeV>, k: int)
    requires
        0 <= k < s.len(),
    ensures
        size_v(s[k]) <= size_vs(s),
    decreases s.len(),
{
    if k > 0 {
        lemma_size_vs_elem(s.drop_first(), k - 1);
        assert(s.drop_first()[k - 1] == s[k]);
    }
}

/// Appending one node appends its shape to the forest's shape.
pub proof fn lemma_nodes_view_push(s: Seq<PathCache>, x: PathCache)
    ensures
        nodes_view(s.push(x)) =~= nodes_view(s).push(node_view(x)),
{
    lemma_nodes_view_len(s.push(x));
    lemma_nodes_view_len(s);
    assert forall|i: int| 0 <= i < s.len() + 1 implies nodes_view(s.push(x))[i] == nodes_view(
        s,
    ).push(node_view(x))[i] by {
        lemma_nodes_view_index(s.push(x), i);
        if i < s.len() {
            lemma_nodes_view_index(s, i);
            assert(s.push(x)[i] == s[i]);
        } else {
            assert(s.push(x)[i] == x);
        }
    }
}

/// The shape map distributes over concatenation.
pub proof fn lemma_nodes_view_concat(a: Seq<PathCache>, b: Seq<PathCache>)
    ensures
        nodes_view(a + b) =~= nodes_view(a) + nodes_view(b),
{
    lemma_nodes_view_len(a + b);
    lemma_nodes_view_len(a);
    lemma_nodes_view_len(b);
    assert forall|i: int| 0 <= i < a.len() + b.len() implies nodes_view(a + b)[i] == (nodes_view(a)
        + nodes_view(b))[i] by {
        lemma_nodes_view_index(a + b, i);
        if i < a.len() {
            lemma_nodes_view_index(a, i);
            assert((a + b)[i] == a[i]);
        } else {
            lemma_nodes_view_index(b, i - a.len());
            assert((a + b)[i] == b[i - a.len()]);
        }
    }
}

/// The shape map commutes with taking a prefix.
pub proof fn lemma_nodes_view_take(s: Seq<PathCache>, i: int)
    requires
        0 <= i <= s.len(),
    ensures
        nodes_view(s.take(i)) =~= nodes_view(s).take(i),
{
    lemma_nodes_view_len(s.take(i));
    lemma_nodes_view_len(s);
    assert forall|k: int| 0 <= k < i implies nodes_view(s.take(i))[k] == nodes_view(s).take(
        i,
    )[k] by {
        lemma_nodes_view_index(s.take(i), k);
        lemma_nodes_view_index(s, k);
        assert(s.take(i)[k] == s[k]);
    }
}

/// The shape map commutes with dropping a prefix.
pub proof fn lemma_nodes_view_skip(s: Seq<PathCache>, i: int)
    requires
        0 <= i <= s.len(),
    ensures
        nodes_view(s.skip(i)) =~= nodes_view(s).skip(i),
{
    lemma_nodes_view_len(s.skip(i));
    lemma_nodes_view_len(s);
    assert forall|k: int| 0 <= k < s.len() - i implies nodes_view(s.skip(i))[k] == nodes_view(
        s,
    ).skip(i)[k] by {
        lemma_nodes_view_index(s.skip(i), k);
        lemma_nodes_view_index(s, k + i);
        assert(s.skip(i)[k] == s[k + i]);
    }
}

/// Replacing the member at `i` replaces its shape and leaves the rest.
pub proof fn lemma_nodes_view_concat_parts(s: Seq<PathCache>, x: PathCache, i: int)
    requires
        0 <= i < s.len(),
    ensures
        nodes_view(s.take(i).push(x) + s.skip(i + 1)) =~= nodes_view(s).take(i) + (seq![
            node_view(x),
        ] + nodes_view(s).skip(i + 1)),
{
    lemma_nodes_view_concat(s.take(i).push(x), s.skip(i + 1));
    lemma_nodes_view_push(s.take(i), x);
    lemma_nodes_view_take(s, i);
    lemma_nodes_view_skip(s, i + 1);
    assert(nodes_view(s).take(i).push(node_view(x)) + nodes_view(s).skip(i + 1) =~= nodes_view(
        s,
    ).take(i) + (seq![node_view(x)] + nodes_view(s).skip(i + 1)));
}

/// Inserting a member at `i` inserts its shape and leaves the rest.
pub proof fn lemma_nodes_view_insert_parts(s: Seq<PathCache>, x: PathCache, i: int)
    requires
        0 <= i <= s.len(),
    ensures
        nodes_view(s.take(i).push(x) + s.skip(i)) =~= nodes_view(s).take(i) + (seq![node_view(x)]
            + nodes_view(s).skip(i)),
{
    lemma_nodes_view_concat(s.take(i).push(x), s.skip(i));
    lemma_nodes_view_push(s.take(i), x);
    lemma_nodes_view_take(s, i);
    lemma_nodes_view_skip(s, i);
    assert(nodes_view(s).take(i).push(node_view(x)) + nodes_view(s).skip(i) =~= nodes_view(s).take(
        i,
    ) + (seq![node_view(x)] + nodes_view(s).skip(i)));
}

#[via_fn]
proof fn merge_v_dec(l: Seq<NodeV>, r: Seq<NodeV>) {
    if l.len() != 0 {
        assert(size_vs(l) == size_v(l[0]) + size_vs(l.drop_first()));
        assert(size_v(l[0]) == 1 + size_vs(l[0].childs));
    }
    if r.len() != 0 {
        assert(size_vs(r) == size_v(r[0]) + size_vs(r.drop_first()));
        assert(size_v(r[0]) == 1 + size_vs(r[0].childs));
    }
}

/// The full reading of a trie node: its shape together with the three
/// stored sizes, at every depth. Where the shape `NodeV` is what the laws
/// and the rollup speak of, this reading pins what insertion, merging and
/// copying do to the derived size fields as well.
#[verifier::ext_equal]
pub struct NodeF {
    pub seg: Seq<char>,
    pub data: Option<FsItemInfo>,
    pub dirs_size: u64,
    pub files_size: u64,
    pub total_size: u64,
    pub childs: Seq<NodeF>,
}

/// The full reading of one concrete node.
pub open spec fn node_full(n: PathCache) -> NodeF
    decreases n,
{
    NodeF {
        seg: n.path@,
        data: n.data,
        dirs_size: n.dirs_size,
        files_size: n.files_size,
        total_size: n.total_size,
        childs: nodes_full(n.childs@),
    }
}

/// The full readings of a vector of sibling nodes, in order.
pub open spec fn nodes_full(s: Seq<PathCache>) -> Seq<NodeF>
    decreases s,
{
    if s.len() == 0 {
        Seq::empty()
    } else {
        seq![node_full(s[0])] + nodes_full(s.drop_first())
    }
}

/// A vector of siblings and its full reading have the same length.
pub proof fn lemma_nodes_full_len(s: Seq<PathCache>)
    ensures
        nodes_full(s).len() == s.len(),
    decreases s.len(),
{
    if s.len() > 0 {
        lemma_nodes_full_len(s.drop_first());
    }
}

/// The full reading of a vector of siblings holds the members' readings
/// in order.
pub proof fn lemma_nodes_full_index(s: Seq<PathCache>, i: int)
    requires
        0 <= i < s.len(),
    ensures
        nodes_full(s)[i] == node_full(s[i]),
    decreases s.len(),
{
    lemma_nodes_full_len(s);
    if i > 0 {
        lemma_nodes_full_index(s.drop_first(), i - 1);
        assert(s.drop_first()[i - 1] == s[i]);
    }
}

/// Appending one node appends its full reading.
pub proof fn lemma_nodes_full_push(s: Seq<PathCache>, x: PathCache)
    ensures
        nodes_full(s.push(x)) =~= nodes_full(s).push(node_full(x)),
{
    lemma_nodes_full_len(s.push(x));
    lemma_nodes_full_len(s);
    assert forall|i: int| 0 <= i < s.len() + 1 implies nodes_full(s.push(x))[i] == nodes_full(
        s,
    ).push(node_full(x))[i] by {
        lemma_nodes_full_index(s.push(x), i);
        if i < s.len() {
            lemma_nodes_full_index(s, i);
            assert(s.push(x)[i] == s[i]);
        } else {
            assert(s.push(x)[i] == x);
        }
    }
}

/// The full reading distributes over concatenation.
pub proof fn lemma_nodes_full_concat(a: Seq<PathCache>, b: Seq<PathCache>)
    ensures
        nodes_full(a + b) =~= nodes_full(a) + nodes_full(b),
{
    lemma_nodes_full_len(a + b);
    lemma_nodes_full_len(a);
    lemma_nodes_full_len(b);
    assert forall|i: int| 0 <= i < a.len() + b.len() implies nodes_full(a + b)[i] == (nodes_full(a)
        + nodes_full(b))[i] by {
        lemma_nodes_full_index(a + b, i);
        if i < a.len() {
            lemma_nodes_full_index(a, i);
            assert((a + b)[i] == a[i]);
        } else {
            lemma_nodes_full_index(b, i - a.len());
            assert((a + b)[i] == b[i - a.len()]);
        }
    }
}

/// The full reading commutes with taking a prefix.
pub proof fn lemma_nodes_full_take(s: Seq<PathCache>, i: int)
    requires
        0 <= i <= s.len(),
    ensures
        nodes_full(s.take(i)) =~= nodes_full(s).take(i),
{
    lemma_nodes_full_len(s.take(i));
    lemma_nodes_full_len(s);
    assert forall|k: int| 0 <= k < i implies nodes_full(s.take(i))[k] == nodes_full(s).take(
        i,
    )[k] by {
        lemma_nodes_full_index(s.take(i), k);
        lemma_nodes_full_index(s, k);
        assert(s.take(i)[k] == s[k]);
    }
}

/// The full reading commutes with dropping a prefix.
pub proof fn lemma_nodes_full_skip(s: Seq<PathCache>, i: int)
    requires
        0 <= i <= s.len(),
    ensures
        nodes_full(s.skip(i)) =~= nodes_full(s).skip(i),
{
    lemma_nodes_full_len(s.skip(i));
    lemma_nodes_full_len(s);
    assert forall|k: int| 0 <= k < s.len() - i implies nodes_full(s.skip(i))[k] == nodes_full(
        s,
    ).skip(i)[k] by {
        lemma_nodes_full_index(s.skip(i), k);
        lemma_nodes_full_index(s, k + i);
        assert(s.skip(i)[k] == s[k + i]);
    }
}

/// Replacing the member at `i` replaces its full reading and leaves the
/// rest.
pub proof fn lemma_nodes_full_concat_parts(s: Seq<PathCache>, x: PathCache, i: int)
    requires
        0 <= i < s.len(),
    ensures
        nodes_full(s.take(i).push(x) + s.skip(i + 1)) =~= nodes_full(s).take(i) + (seq![
            node_full(x),
        ] + nodes_full(s).skip(i + 1)),
{
    lemma_nodes_full_concat(s.take(i).push(x), s.skip(i + 1));
    lemma_nodes_full_push(s.take(i), x);
    lemma_nodes_full_take(s, i);
    lemma_nodes_full_skip(s, i + 1);
    assert(nodes_full(s).take(i).push(node_full(x)) + nodes_full(s).skip(i + 1) =~= nodes_full(
        s,
    ).take(i) + (seq![node_full(x)] + nodes_full(s).skip(i + 1)));
}

/// Inserting a member at `i` inserts its full reading and leaves the rest.
pub proof fn lemma_nodes_full_insert_parts(s: Seq<PathCache>, x: PathCache, i: int)
    requires
        0 <= i <= s.len(),
    ensures
        nodes_full(s.take(i).push(x) + s.skip(i)) =~= nodes_full(s).take(i) + (seq![node_full(x)]
            + nodes_full(s).skip(i)),
{
    lemma_nodes_full_concat(s.take(i).push(x), s.skip(i));
    lemma_nodes_full_push(s.take(i), x);
    lemma_nodes_full_take(s, i);
    lemma_nodes_full_skip(s, i);
    assert(nodes_full(s).take(i).push(node_full(x)) + nodes_full(s).skip(i) =~= nodes_full(s).take(
        i,
    ) + (seq![node_full(x)] + nodes_full(s).skip(i)));
}

/// The number of nodes in a fully-read subtree.
pub open spec fn size_f(n: NodeF) -> nat
    decreases n,
{
    1 + size_fs(n.childs)
}

/// The number of nodes in a fully-read forest.
pub open spec fn size_fs(s: Seq<NodeF>) -> nat
    decreases s,
{
    if s.len() == 0 {
        0
    } else {
        size_f(s[0]) + size_fs(s.drop_first())
    }
}

/// A fresh chain in the full reading: one node per segment, the payload
/// at the last one, and all three derived sizes zero on every node.
pub open spec fn chain_f(segs: Seq<Seq<char>>, d: FsItemInfo) -> NodeF
    recommends
        segs.len() >= 1,
    decreases segs.len(),
{
    if segs.len() <= 1 {
        NodeF {
            seg: segs[0],
            data: Some(d),
            dirs_size: 0,
            files_size: 0,
            total_size: 0,
            childs: Seq::empty(),
        }
    } else {
        NodeF {
            seg: segs[0],
            data: None,
            dirs_size: 0,
            files_size: 0,
            total_size: 0,
            childs: seq![chain_f(segs.drop_first(), d)],
        }
    }
}

/// Insertion in the full reading: the same placement as `insert_v`, and
/// in addition every node already present keeps its stored sizes while
/// every freshly created node carries zeros.
pub open spec fn insert_f(s: Seq<NodeF>, segs: Seq<Seq<char>>, d: FsItemInfo) -> Seq<NodeF>
    recommends
        segs.len() >= 1,
    decreases segs.len(), s.len(),
{
    if s.len() == 0 {
        seq![chain_f(segs, d)]
    } else if lex_lt(segs[0], s[0].seg) {
        seq![chain_f(segs, d)] + s
    } else if lex_lt(s[0].seg, segs[0]) {
        seq![s[0]] + insert_f(s.drop_first(), segs, d)
    } else {
        let n0 = s[0];
        let n1 = if segs.len() <= 1 {
            NodeF {
                seg: n0.seg,
                data: if n0.data is Some {
                    n0.data
                } else {
                    Some(d)
                },
                dirs_size: n0.dirs_size,
                files_size: n0.files_size,
                total_size: n0.total_size,
                childs: n0.childs,
            }
        } else {
            NodeF {
                seg: n0.seg,
                data: n0.data,
                dirs_size: n0.dirs_size,
                files_size: n0.files_size,
                total_size: n0.total_size,
                childs: insert_f(n0.childs, segs.drop_first(), d),
            }
        };
        seq![n1] + s.drop_first()
    }
}

/// Insertion in the full reading leaves a prefix of strictly smaller
/// keys alone.
pub proof fn lemma_insert_f_skip(s: Seq<NodeF>, segs: Seq<Seq<char>>, d: FsItemInfo, i: int)
    requires
        segs.len() >= 1,
        0 <= i <= s.len(),
        forall|j: int| 0 <= j < i ==> lex_lt(#[trigger] s[j].seg, segs[0]),
    ensures
        insert_f(s, segs, d) == s.take(i) + insert_f(s.skip(i), segs, d),
    decreases i,
{
    if i == 0 {
        assert(s.take(0) =~= Seq::empty());
        assert(s.skip(0) =~= s);
        assert(s.take(0) + insert_f(s.skip(0), segs, d) =~= insert_f(s, segs, d));
    } else {
        crate::segments::lemma_lex_asym(s[0].seg, segs[0]);
        assert(insert_f(s, segs, d) == seq![s[0]] + insert_f(s.drop_first(), segs, d));
        assert forall|j: int| 0 <= j < i - 1 implies lex_lt(
            #[trigger] s.drop_first()[j].seg,
            segs[0],
        ) by {
            assert(s.drop_first()[j] == s[j + 1]);
        }
        lemma_insert_f_skip(s.drop_first(), segs, d, i - 1);
        assert(s.drop_first().take(i - 1) =~= s.take(i).drop_first());
        assert(s.drop_first().skip(i - 1) =~= s.skip(i));
        assert(seq![s[0]] + (s.take(i).drop_first() + insert_f(s.skip(i), segs, d)) =~= s.take(i)
            + insert_f(s.skip(i), segs, d));
    }
}

/// Merging in the full reading: the same placement as `merge_v`, and in
/// addition a node kept from the left keeps its stored sizes while a node
/// adopted from the right is carried over wholesale.
pub open spec fn merge_f(l: Seq<NodeF>, r: Seq<NodeF>) -> Seq<NodeF>
    decreases size_fs(l) + size_fs(r),
    via merge_f_dec
{
    if r.len() == 0 {
        l
    } else if l.len() == 0 {
        r
    } else if lex_lt(l[0].seg, r[0].seg) {
        seq![l[0]] + merge_f(l.drop_first(), r)
    } else if lex_lt(r[0].seg, l[0].seg) {
        seq![r[0]] + merge_f(l, r.drop_first())
    } else {
        seq![
            NodeF {
                seg: l[0].seg,
                data: l[0].data,
                dirs_size: l[0].dirs_size,
                files_size: l[0].files_size,
                total_size: l[0].total_size,
                childs: merge_f(l[0].childs, r[0].childs),
            },
        ] + merge_f(l.drop_first(), r.drop_first())
    }
}

#[via_fn]
proof fn merge_f_dec(l: Seq<NodeF>, r: Seq<NodeF>) {
    if l.len() != 0 {
        assert(size_fs(l) == size_f(l[0]) + size_fs(l.drop_first()));
        assert(size_f(l[0]) == 1 + size_fs(l[0].childs));
    }
    if r.len() != 0 {
        assert(size_fs(r) == size_f(r[0]) + size_fs(r.drop_first()));
        assert(size_f(r[0]) == 1 + size_fs(r[0].childs));
    }
}

/// Dropping the first member keeps a forest well-formed, and the first
/// member of a well-formed forest is itself well-formed.
pub proof fn lemma_wf_vs_drop_first(s: Seq<NodeV>)
    requires
        wf_vs(s),
        s.len() > 0,
    ensures
        wf_vs(s.drop_first()),
        wf_v(s[0]),
{
    assert forall|i: int, j: int| 0 <= i < j < s.drop_first().len() implies lex_lt(
        s.drop_first()[i].seg,
        s.drop_first()[j].seg,
    ) by {
        assert(s.drop_first()[i] == s[i + 1]);
        assert(s.drop_first()[j] == s[j + 1]);
    }
    assert forall|i: int| 0 <= i < s.drop_first().len() implies wf_v(
        #[trigger] s.drop_first()[i],
    ) by {
        assert(s.drop_first()[i] == s[i + 1]);
    }
}

/// A fresh chain is well-formed: every level has at most one child.
pub proof fn lemma_chain_wf(segs: Seq<Seq<char>>, d: FsItemInfo)
    requires
        segs.len() >= 1,
    ensures
        wf_v(chain_of(segs, d)),
    decreases segs.len(),
{
    if segs.len() > 1 {
        lemma_chain_wf(segs.drop_first(), d);
    }
}

/// Every key of an inserted-into forest either is the inserted key or was
/// a key already; stated as a strict lower bound that insertion keeps.
pub proof fn lemma_insert_v_above(s: Seq<NodeV>, segs: Seq<Seq<char>>, d: FsItemInfo, lb: Seq<
    char,
>)
    requires
        segs.len() >= 1,
        lex_lt(lb, segs[0]),
        forall|i: int| 0 <= i < s.len() ==> lex_lt(lb, #[trigger] s[i].seg),
    ensures
        forall|j: int|
            0 <= j < insert_v(s, segs, d).len() ==> lex_lt(
                lb,
                #[trigger] insert_v(s, segs, d)[j].seg,
            ),
    decreases s.len(),
{
    let t = insert_v(s, segs, d);
    if s.len() == 0 {
        assert(t == seq![chain_of(segs, d)]);
        assert(t[0].seg == segs[0]);
    } else if lex_lt(segs[0], s[0].seg) {
        assert(t == seq![chain_of(segs, d)] + s);
        assert forall|j: int| 0 <= j < t.len() implies lex_lt(lb, #[trigger] t[j].seg) by {
            if j == 0 {
                assert(t[0].seg == segs[0]);
            } else {
                assert(t[j] == s[j - 1]);
            }
        }
    } else if lex_lt(s[0].seg, segs[0]) {
        assert forall|i: int| 0 <= i < s.drop_first().len() implies lex_lt(
            lb,
            #[trigger] s.drop_first()[i].seg,
        ) by {
            assert(s.drop_first()[i] == s[i + 1]);
        }
        lemma_insert_v_above(s.drop_first(), segs, d, lb);
        assert(t == seq![s[0]] + insert_v(s.drop_first(), segs, d));
        assert forall|j: int| 0 <= j < t.len() implies lex_lt(lb, #[trigger] t[j].seg) by {
            if j > 0 {
                assert(t[j] == insert_v(s.drop_first(), segs, d)[j - 1]);
            }
        }
    } else {
        assert(t.len() == 1 + s.drop_first().len());
        assert forall|j: int| 0 <= j < t.len() implies lex_lt(lb, #[trigger] t[j].seg) by {
            if j == 0 {
                assert(t[j].seg == s[0].seg);
            } else {
                assert(t[j] == s.drop_first()[j - 1]);
                assert(s.drop_first()[j - 1] == s[j]);
            }
        }
    }
}

/// Insertion keeps a forest well-formed: siblings stay strictly sorted at
/// every level.
pub proof fn lemma_insert_v_wf(s: Seq<NodeV>, segs: Seq<Seq<char>>, d: FsItemInfo)
    requires
        wf_vs(s),
        segs.len() >= 1,
    ensures
        wf_vs(insert_v(s, segs, d)),
    decreases segs.len(), s.len(),
{
    let t = insert_v(s, segs, d);
    if s.len() == 0 {
        lemma_chain_wf(segs, d);
        assert(t == seq![chain_of(segs, d)]);
        assert(wf_vs(t));
    } else if lex_lt(segs[0], s[0].seg) {
        lemma_chain_wf(segs, d);
        assert(t == seq![chain_of(segs, d)] + s);
        assert forall|i: int, j: int| 0 <= i < j < t.len() implies lex_lt(
            t[i].seg,
            t[j].seg,
        ) by {
            if i == 0 {
                assert(t[0].seg == segs[0]);
                assert(t[j] == s[j - 1]);
                if j == 1 {
                    assert(lex_lt(segs[0], s[0].seg));
                } else {
                    assert(lex_lt(s[0].seg, s[j - 1].seg));
                    crate::segments::lemma_lex_trans(segs[0], s[0].seg, s[j - 1].seg);
                }
            } else {
                assert(t[i] == s[i - 1]);
                assert(t[j] == s[j - 1]);
                assert(lex_lt(s[i - 1].seg, s[j - 1].seg));
            }
        }
        assert forall|i: int| 0 <= i < t.len() implies wf_v(#[trigger] t[i]) by {
            if i == 0 {
                assert(t[0] == chain_of(segs, d));
            } else {
                assert(t[i] == s[i - 1]);
            }
        }
        assert(wf_vs(t));
    } else if lex_lt(s[0].seg, segs[0]) {
        lemma_wf_vs_drop_first(s);
        lemma_insert_v_wf(s.drop_first(), segs, d);
        assert forall|i: int| 0 <= i < s.drop_first().len() implies lex_lt(
            s[0].seg,
            #[trigger] s.drop_first()[i].seg,
        ) by {
            assert(s.drop_first()[i] == s[i + 1]);
        }
        lemma_insert_v_above(s.drop_first(), segs, d, s[0].seg);
        let u = insert_v(s.drop_first(), segs, d);
        assert(t == seq![s[0]] + u);
        assert forall|i: int, j: int| 0 <= i < j < t.len() implies lex_lt(
            t[i].seg,
            t[j].seg,
        ) by {
            if i == 0 {
                assert(t[j] == u[j - 1]);
            } else {
                assert(t[i] == u[i - 1]);
                assert(t[j] == u[j - 1]);
            }
        }
        assert forall|i: int| 0 <= i < t.len() implies wf_v(#[trigger] t[i]) by {
            if i > 0 {
                assert(t[i] == u[i - 1]);
            }
        }
        assert(wf_vs(t));
    } else {
        lemma_wf_vs_drop_first(s);
        let n0 = s[0];
        let n1 = if segs.len() <= 1 {
            NodeV {
                seg: n0.seg,
                data: if n0.data is Some {
                    n0.data
                } else {
                    Some(d)
                },
                childs: n0.childs,
            }
        } else {
            NodeV { seg: n0.seg, data: n0.data, childs: insert_v(n0.childs, segs.drop_first(), d) }
        };
        if segs.len() > 1 {
            lemma_insert_v_wf(n0.childs, segs.drop_first(), d);
        }
        assert(wf_v(n1));
        assert(t == seq![n1] + s.drop_first());
        assert forall|i: int, j: int| 0 <= i < j < t.len() implies lex_lt(
            t[i].seg,
            t[j].seg,
        ) by {
            if i == 0 {
                assert(t[j] == s.drop_first()[j - 1]);
                assert(s.drop_first()[j - 1] == s[j]);
                assert(t[0].seg == s[0].seg);
            } else {
                assert(t[i] == s.drop_first()[i - 1]);
                assert(t[j] == s.drop_first()[j - 1]);
                assert(s.drop_first()[i - 1] == s[i]);
                assert(s.drop_first()[j - 1] == s[j]);
            }
        }
        assert forall|i: int| 0 <= i < t.len() implies wf_v(#[trigger] t[i]) by {
            if i > 0 {
                assert(t[i] == s.drop_first()[i - 1]);
                assert(s.drop_first()[i - 1] == s[i]);
            }
        }
        assert(wf_vs(t));
    }
}

/// The merge of two forests keeps any strict lower bound both sides obey.
pub proof fn lemma_merge_v_above(l: Seq<NodeV>, r: Seq<NodeV>, lb: Seq<char>)
    requires
        forall|i: int| 0 <= i < l.len() ==> lex_lt(lb, #[trigger] l[i].seg),
        forall|i: int| 0 <= i < r.len() ==> lex_lt(lb, #[trigger] r[i].seg),
    ensures
        forall|j: int|
            0 <= j < merge_v(l, r).len() ==> lex_lt(lb, #[trigger] merge_v(l, r)[j].seg),
    decreases size_vs(l) + size_vs(r),
{
    if r.len() == 0 || l.len() == 0 {
    } else {
        assert(size_vs(l) == size_v(l[0]) + size_vs(l.drop_first()));
        assert(size_vs(r) == size_v(r[0]) + size_vs(r.drop_first()));
        assert(size_v(l[0]) == 1 + size_vs(l[0].childs));
        assert(size_v(r[0]) == 1 + size_vs(r[0].childs));
        let t = merge_v(l, r);
        assert forall|i: int| 0 <= i < l.drop_first().len() implies lex_lt(
            lb,
            #[trigger] l.drop_first()[i].seg,
        ) by {
            assert(l.drop_first()[i] == l[i + 1]);
        }
        assert forall|i: int| 0 <= i < r.drop_first().len() implies lex_lt(
            lb,
            #[trigger] r.drop_first()[i].seg,
        ) by {
            assert(r.drop_first()[i] == r[i + 1]);
        }
        if lex_lt(l[0].seg, r[0].seg) {
            lemma_merge_v_above(l.drop_first(), r, lb);
            assert forall|j: int| 0 <= j < t.len() implies lex_lt(lb, #[trigger] t[j].seg) by {
                if j > 0 {
                    assert(t[j] == merge_v(l.drop_first(), r)[j - 1]);
                }
            }
        } else if lex_lt(r[0].seg, l[0].seg) {
            lemma_merge_v_above(l, r.drop_first(), lb);
            assert forall|j: int| 0 <= j < t.len() implies lex_lt(lb, #[trigger] t[j].seg) by {
                if j > 0 {
                    assert(t[j] == merge_v(l, r.drop_first())[j - 1]);
                }
            }
        } else {
            lemma_merge_v_above(l.drop_first(), r.drop_first(), lb);
            assert forall|j: int| 0 <= j < t.len() implies lex_lt(lb, #[trigger] t[j].seg) by {
                if j == 0 {
                    assert(t[0].seg == l[0].seg);
                } else {
                    assert(t[j] == merge_v(l.drop_first(), r.drop_first())[j - 1]);
                }
            }
        }
    }
}

/// The merge of two well-formed forests is well-formed.
pub proof fn lemma_merge_v_wf(l: Seq<NodeV>, r: Seq<NodeV>)
    requires
        wf_vs(l),
        wf_vs(r),
    ensures
        wf_vs(merge_v(l, r)),
    decreases size_vs(l) + size_vs(r),
{
    if r.len() == 0 || l.len() == 0 {
    } else {
        assert(size_vs(l) == size_v(l[0]) + size_vs(l.drop_first()));
        assert(size_vs(r) == size_v(r[0]) + size_vs(r.drop_first()));
        assert(size_v(l[0]) == 1 + size_vs(l[0].childs));
        assert(size_v(r[0]) == 1 + size_vs(r[0].childs));
        lemma_wf_vs_drop_first(l);
        lemma_wf_vs_drop_first(r);
        let t = merge_v(l, r);
        assert forall|i: int| 0 <= i < l.drop_first().len() implies lex_lt(
            l[0].seg,
            #[trigger] l.drop_first()[i].seg,
        ) by {
            assert(l.drop_first()[i] == l[i + 1]);
        }
        assert forall|i: int| 0 <= i < r.drop_first().len() implies lex_lt(
            r[0].seg,
            #[trigger] r.drop_first()[i].seg,
        ) by {
            assert(r.drop_first()[i] == r[i + 1]);
        }
        if lex_lt(l[0].seg, r[0].seg) {
            lemma_merge_v_wf(l.drop_first(), r);
            assert forall|i: int| 0 <= i < r.len() implies lex_lt(
                l[0].seg,
                #[trigger] r[i].seg,
            ) by {
                if i > 0 {
                    crate::segments::lemma_lex_trans(l[0].seg, r[0].seg, r[i].seg);
                }
            }
            lemma_merge_v_above(l.drop_first(), r, l[0].seg);
            let u = merge_v(l.drop_first(), r);
            assert(t == seq![l[0]] + u);
            assert forall|i: int, j: int| 0 <= i < j < t.len() implies lex_lt(
                t[i].seg,
                t[j].seg,
            ) by {
                if i == 0 {
                    assert(t[j] == u[j - 1]);
                } else {
                    assert(t[i] == u[i - 1]);
                    assert(t[j] == u[j - 1]);
                }
            }
            assert forall|i: int| 0 <= i < t.len() implies wf_v(#[trigger] t[i]) by {
                if i > 0 {
                    assert(t[i] == u[i - 1]);
                }
            }
            assert(wf_vs(t));
        } else if lex_lt(r[0].seg, l[0].seg) {
            lemma_merge_v_wf(l, r.drop_first());
            assert forall|i: int| 0 <= i < l.len() implies lex_lt(
                r[0].seg,
                #[trigger] l[i].seg,
            ) by {
                if i > 0 {
                    crate::segments::lemma_lex_trans(r[0].seg, l[0].seg, l[i].seg);
                }
            }
            lemma_merge_v_above(l, r.drop_first(), r[0].seg);
            let u = merge_v(l, r.drop_first());
            assert(t == seq![r[0]] + u);
            assert forall|i: int, j: int| 0 <= i < j < t.len() implies lex_lt(
                t[i].seg,
                t[j].seg,
            ) by {
                if i == 0 {
                    assert(t[j] == u[j - 1]);
                } else {
                    assert(t[i] == u[i - 1]);
                    assert(t[j] == u[j - 1]);
                }
            }
            assert forall|i: int| 0 <= i < t.len() implies wf_v(#[trigger] t[i]) by {
                if i > 0 {
                    assert(t[i] == u[i - 1]);
                }
            }
            assert(wf_vs(t));
        } else {
            crate::segments::lemma_lex_connected(l[0].seg, r[0].seg);
            lemma_merge_v_wf(l[0].childs, r[0].childs);
            lemma_merge_v_wf(l.drop_first(), r.drop_first());
            lemma_merge_v_above(l.drop_first(), r.drop_first(), l[0].seg);
            let nd = NodeV { seg: l[0].seg, data: l[0].data, childs: merge_v(
                l[0].childs,
                r[0].childs,
            ) };
            let u = merge_v(l.drop_first(), r.drop_first());
            assert(t == seq![nd] + u);
            assert forall|i: int, j: int| 0 <= i < j < t.len() implies lex_lt(
                t[i].seg,
                t[j].seg,
            ) by {
                if i == 0 {
                    assert(t[j] == u[j - 1]);
                } else {
                    assert(t[i] == u[i - 1]);
                    assert(t[j] == u[j - 1]);
                }
            }
            assert forall|i: int| 0 <= i < t.len() implies wf_v(#[trigger] t[i]) by {
                if i > 0 {
                    assert(t[i] == u[i - 1]);
                }
            }
            assert(wf_vs(t));
        }
    }
}

/// Whether a node's payload marks it as an entered directory.
pub open spec fn is_dir_entry(n: NodeV) -> bool {
    match n.data {
        Some(d) => d.event_type is DirEnter,
        None => false,
    }
}

/// Whether a node's payload marks it as a file.
pub open spec fn is_file_entry(n: NodeV) -> bool {
    match n.data {
        Some(d) => d.event_type is File,
        None => false,
    }
}

/// The byte size recorded in a node's payload, zero without one.
pub open spec fn entry_size(n: NodeV) -> int {
    match n.data {
        Some(d) => d.size as int,
        None => 0,
    }
}

/// The rollup value of a whole subtree: the rolled-up totals of its child
/// directories, plus the sizes of its child files, plus the node's own
/// payload size when the node itself is a file. A directory's own recorded
/// size never contributes: a directory's size is its descendants' sum, not
/// an independent figure.
pub open spec fn total_v(n: NodeV) -> int
    decreases size_v(n), 0nat,
    via total_v_dec
{
    dirs_sum(n.childs) + files_sum(n.childs) + (if is_file_entry(n) {
        entry_size(n)
    } else {
        0
    })
}

/// The sum, over the members that mark entered directories, of their
/// rolled-up totals.
pub open spec fn dirs_sum(s: Seq<NodeV>) -> int
    decreases size_vs(s), 1nat,
    via dirs_sum_dec
{
    if s.len() == 0 {
        0
    } else {
        dirs_sum(s.drop_last()) + (if is_dir_entry(s.last()) {
            total_v(s.last())
        } else {
            0
        })
    }
}

/// The sum, over the members that mark files, of their payload sizes.
pub open spec fn files_sum(s: Seq<NodeV>) -> int
    decreases size_vs(s), 1nat,
    via files_sum_dec
{
    if s.len() == 0 {
        0
    } else {
        files_sum(s.drop_last()) + (if is_file_entry(s.last()) {
            entry_size(s.last())
        } else {
            0
        })
    }
}

#[via_fn]
proof fn total_v_dec(n: NodeV) {
    assert(size_v(n) == 1 + size_vs(n.childs));
}

#[via_fn]
proof fn dirs_sum_dec(s: Seq<NodeV>) {
    if s.len() > 0 {
        lemma_size_vs_elem(s, s.len() - 1);
        lemma_size_vs_drop_last(s);
        assert(size_v(s.last()) >= 1);
    }
}

#[via_fn]
proof fn files_sum_dec(s: Seq<NodeV>) {
    if s.len() > 0 {
        lemma_size_vs_elem(s, s.len() - 1);
        lemma_size_vs_drop_last(s);
        assert(size_v(s.last()) >= 1);
    }
}

/// A forest's node count splits over its last member.
pub proof fn lemma_size_vs_drop_last(s: Seq<NodeV>)
    requires
        s.len() > 0,
    ensures
        size_vs(s) == size_vs(s.drop_last()) + size_v(s.last()),
    decreases s.len(),
{
    if s.len() == 1 {
        assert(s.drop_last() =~= Seq::empty());
        assert(s.drop_first() =~= Seq::empty());
    } else {
        lemma_size_vs_drop_last(s.drop_first());
        assert(s.drop_first().drop_last() =~= s.drop_last().drop_first());
        assert(s.drop_first().last() == s.last());
        assert(s.drop_last()[0] == s[0]);
    }
}

/// The upper bound used against overflow: the sum of every payload size in
/// a subtree.
pub open spec fn weight_v(n: NodeV) -> int
    decreases size_v(n), 0nat,
    via weight_v_dec
{
    entry_size(n) + weight_vs(n.childs)
}

/// The sum of every payload size in a forest.
pub open spec fn weight_vs(s: Seq<NodeV>) -> int
    decreases size_vs(s), 1nat,
    via weight_vs_dec
{
    if s.len() == 0 {
        0
    } else {
        weight_vs(s.drop_last()) + weight_v(s.last())
    }
}

#[via_fn]
proof fn weight_v_dec(n: NodeV) {
    assert(size_v(n) == 1 + size_vs(n.childs));
}

#[via_fn]
proof fn weight_vs_dec(s: Seq<NodeV>) {
    if s.len() > 0 {
        lemma_size_vs_elem(s, s.len() - 1);
        lemma_size_vs_drop_last(s);
        assert(size_v(s.last()) >= 1);
    }
}

/// Every rollup value and every weight is nonnegative, and the rollup of a
/// subtree never exceeds its weight.
pub proof fn lemma_rollup_bounds(n: NodeV)
    ensures
        0 <= total_v(n),
        total_v(n) <= weight_v(n),
        entry_size(n) <= weight_v(n),
    decreases size_v(n), 0nat,
{
    lemma_rollup_bounds_seq(n.childs);
    assert(size_v(n) == 1 + size_vs(n.childs));
}

/// The forest-level half of the rollup bounds: both partial sums are
/// nonnegative and together stay within the forest's weight.
pub proof fn lemma_rollup_bounds_seq(s: Seq<NodeV>)
    ensures
        0 <= dirs_sum(s),
        0 <= files_sum(s),
        0 <= weight_vs(s),
        dirs_sum(s) + files_sum(s) <= weight_vs(s),
    decreases size_vs(s), 1nat,
{
    if s.len() > 0 {
        lemma_size_vs_elem(s, s.len() - 1);
        lemma_size_vs_drop_last(s);
        assert(size_v(s.last()) >= 1);
        lemma_rollup_bounds_seq(s.drop_last());
        lemma_rollup_bounds(s.last());
        assert(weight_v(s.last()) >= entry_size(s.last()));
    }
}

/// A member's weight is at most the forest's weight.
pub proof fn lemma_weight_vs_elem(s: Seq<NodeV>, i: int)
    requires
        0 <= i < s.len(),
    ensures
        weight_v(s[i]) <= weight_vs(s),
    decreases s.len(),
{
    if i == s.len() - 1 {
        lemma_rollup_bounds_seq(s.drop_last());
    } else {
        lemma_weight_vs_elem(s.drop_last(), i);
        assert(s.drop_last()[i] == s[i]);
        lemma_rollup_bounds(s.last());
    }
}

/// A prefix weighs at most the whole forest.
pub proof fn lemma_weight_vs_take(s: Seq<NodeV>, i: int)
    requires
        0 <= i <= s.len(),
    ensures
        weight_vs(s.take(i)) <= weight_vs(s),
    decreases s.len() - i,
{
    if i == s.len() {
        assert(s.take(i) =~= s);
    } else {
        assert(s.take(i + 1).drop_last() =~= s.take(i));
        assert(s.take(i + 1).last() == s[i]);
        lemma_rollup_bounds(s[i]);
        lemma_weight_vs_take(s, i + 1);
    }
}

/// Whether every stored size in a subtree agrees with the rollup of its
/// shape: at every node, `dirs_size` and `files_size` are the two child
/// sums and `total_size` is the subtree's rollup value.
pub open spec fn sizes_ok(n: PathCache) -> bool
    decreases n,
{
    &&& n.dirs_size == dirs_sum(nodes_view(n.childs@))
    &&& n.files_size == files_sum(nodes_view(n.childs@))
    &&& n.total_size == total_v(node_view(n))
    &&& (forall|i: int| 0 <= i < n.childs@.len() ==> sizes_ok(#[trigger] n.childs@[i]))
}

/// The number of concrete nodes in a subtree, counting the node itself.
pub open spec fn pc_size(n: PathCache) -> nat
    decreases n,
{
    1 + pcs_size(n.childs@)
}

/// The number of concrete nodes in a forest.
pub open spec fn pcs_size(s: Seq<PathCache>) -> nat
    decreases s,
{
    if s.len() == 0 {
        0
    } else {
        pc_size(s[0]) + pcs_size(s.drop_first())
    }
}

/// A member's subtree is no larger than the whole forest.
proof fn lemma_pcs_size_elem(s: Seq<PathCache>, k: int)
    requires
        0 <= k < s.len(),
    ensures
        pc_size(s[k]) <= pcs_size(s),
    decreases s.len(),
{
    if k > 0 {
        lemma_pcs_size_elem(s.drop_first(), k - 1);
        assert(s.drop_first()[k - 1] == s[k]);
    }
}

/// The indentation of one tree level: two spaces for each level.
pub open spec fn indent_v(depth: int) -> Seq<char>
    decreases depth,
{
    if depth <= 0 {
        Seq::empty()
    } else {
        indent_v(depth - 1) + seq![' ', ' ']
    }
}

/// The mathematical reading of a list of rendered lines.
pub open spec fn lines_view(s: Seq<String>) -> Seq<Seq<char>> {
    s.map_values(|t: String| t@)
}

/// The depth passed on to a node's children, held at the top of the
/// counter's range rather than wrapping.
pub open spec fn next_depth(depth: u16) -> u16 {
    if depth < 65535 {
        (depth + 1) as u16
    } else {
        depth
    }
}

/// The line a single node contributes, if any: a node without a payload
/// shows its bare segment; an entered directory shows its segment,
/// indented, with its three rolled-up sizes; a file shows its segment,
/// indented, with its size, unless files are suppressed; any other
/// payload contributes nothing.
pub open spec fn node_line(n: PathCache, depth: u16, only_dirs: bool, human_readable: bool) -> Seq<
    Seq<char>,
> {
    match n.data {
        None => seq![n.path@],
        Some(d) => {
            if d.event_type is DirEnter {
                seq![
                    indent_v(depth as int) + n.path@ + seq![' ', '('] + crate::formatter::size_display(n.files_size, human_readable) + seq![' ', '/', ' '] + crate::formatter::size_display(n.dirs_size, human_readable) + seq![' ', '/', ' '] + crate::formatter::size_display(n.total_size, human_readable) + seq![')'],
                ]
            } else if d.event_type is File {
                if only_dirs {
                    Seq::empty()
                } else {
                    seq![
                        indent_v(depth as int) + n.path@ + seq![' ', '('] + crate::formatter::size_display(d.size, human_readable) + seq![')'],
                    ]
                }
            } else {
                Seq::empty()
            }
        },
    }
}

/// The rendering of a forest, node by node in order: each node's own
/// line, then, while the depth cutoff allows, the rendering of its
/// children one level deeper. A cutoff of zero means no cutoff.
pub open spec fn render_v(
    s: Seq<PathCache>,
    depth: u16,
    max_depth: u16,
    only_dirs: bool,
    human_readable: bool,
) -> Seq<Seq<char>>
    decreases pcs_size(s), 1nat,
    via render_v_dec
{
    if s.len() == 0 {
        Seq::empty()
    } else {
        node_render(s[0], depth, max_depth, only_dirs, human_readable) + render_v(
            s.drop_first(),
            depth,
            max_depth,
            only_dirs,
            human_readable,
        )
    }
}

/// The rendering of one node and, depth allowing, its subtree.
pub open spec fn node_render(
    n: PathCache,
    depth: u16,
    max_depth: u16,
    only_dirs: bool,
    human_readable: bool,
) -> Seq<Seq<char>>
    decreases pc_size(n), 0nat,
    via node_render_dec
{
    node_line(n, depth, only_dirs, human_readable) + (if max_depth == 0 || depth < max_depth {
        render_v(n.childs@, next_depth(depth), max_depth, only_dirs, human_readable)
    } else {
        Seq::empty()
    })
}

#[via_fn]
proof fn render_v_dec(
    s: Seq<PathCache>,
    depth: u16,
    max_depth: u16,
    only_dirs: bool,
    human_readable: bool,
) {
    if s.len() > 0 {
        assert(pcs_size(s) == pc_size(s[0]) + pcs_size(s.drop_first()));
        assert(pc_size(s[0]) == 1 + pcs_size(s[0].childs@));
    }
}

#[via_fn]
proof fn node_render_dec(
    n: PathCache,
    depth: u16,
    max_depth: u16,
    only_dirs: bool,
    human_readable: bool,
) {
    assert(pc_size(n) == 1 + pcs_size(n.childs@));
}

/// Rendering one more sibling appends that sibling's rendering.
proof fn lemma_render_v_take_step(
    s: Seq<PathCache>,
    i: int,
    depth: u16,
    max_depth: u16,
    only_dirs: bool,
    human_readable: bool,
)
    requires
        0 <= i < s.len(),
    ensures
        render_v(s.take(i + 1), depth, max_depth, only_dirs, human_readable) == render_v(
            s.take(i),
            depth,
            max_depth,
            only_dirs,
            human_readable,
        ) + node_render(s[i], depth, max_depth, only_dirs, human_readable),
    decreases i,
{
    if i == 0 {
        assert(s.take(1)[0] == s[0]);
        assert(s.take(1).drop_first() =~= Seq::<PathCache>::empty());
        assert(s.take(0) =~= Seq::<PathCache>::empty());
        assert(render_v(s.take(1), depth, max_depth, only_dirs, human_readable) =~= render_v(
            s.take(0),
            depth,
            max_depth,
            only_dirs,
            human_readable,
        ) + node_render(s[0], depth, max_depth, only_dirs, human_readable));
    } else {
        lemma_render_v_take_step(s.drop_first(), i - 1, depth, max_depth, only_dirs,
            human_readable);
        assert(s.take(i + 1)[0] == s[0]);
        assert(s.take(i)[0] == s[0]);
        assert(s.take(i + 1).drop_first() =~= s.drop_first().take(i));
        assert(s.take(i).drop_first() =~= s.drop_first().take(i - 1));
        assert(s.drop_first()[i - 1] == s[i]);
        assert(render_v(s.take(i + 1), depth, max_depth, only_dirs, human_readable)
            == node_render(s[0], depth, max_depth, only_dirs, human_readable) + render_v(
            s.drop_first().take(i),
            depth,
            max_depth,
            only_dirs,
            human_readable,
        ));
        assert(render_v(s.take(i), depth, max_depth, only_dirs, human_readable) == node_render(
            s[0],
            depth,
            max_depth,
            only_dirs,
            human_readable,
        ) + render_v(s.drop_first().take(i - 1), depth, max_depth, only_dirs, human_readable));
        assert(node_render(s[0], depth, max_depth, only_dirs, human_readable) + (render_v(
            s.drop_first().take(i - 1),
            depth,
            max_depth,
            only_dirs,
            human_readable,
        ) + node_render(s[i], depth, max_depth, only_dirs, human_readable)) =~= (node_render(
            s[0],
            depth,
            max_depth,
            only_dirs,
            human_readable,
        ) + render_v(s.drop_first().take(i - 1), depth, max_depth, only_dirs, human_readable))
            + node_render(s[i], depth, max_depth, only_dirs, human_readable));
    }
}

/// Appending one line appends its reading.
proof fn lemma_lines_view_push(s: Seq<String>, x: String)
    ensures
        lines_view(s.push(x)) =~= lines_view(s).push(x@),
{
    assert forall|k: int| 0 <= k < s.len() + 1 implies lines_view(s.push(x))[k] == lines_view(
        s,
    ).push(x@)[k] by {
        if k < s.len() {
            assert(s.push(x)[k] == s[k]);
        } else {
            assert(s.push(x)[k] == x);
        }
    }
}

/// Renders the indentation of one tree level.
fn indent_of(depth: u16) -> (r: String)
    ensures
        r@ == indent_v(depth as int),
{
    let mut s = String::new();
    let mut i: u16 = 0;
    proof {
        assert(s@ =~= indent_v(0));
    }
    while i < depth
        invariant
            i <= depth,
            s@ == indent_v(i as int),
        decreases depth - i,
    {
        proof {
            reveal_strlit("  ");
            assert(("  ")@ =~= seq![' ', ' ']);
        }
        s.append("  ");
        i = i + 1;
    }
    s
}

impl PathCache {
    /// The rolled-up total of the immediate child directories.
    pub fn dirs_size(&self) -> (r: u64)
        ensures
            r == self.dirs_size,
    {
        self.dirs_size
    }

    /// The rolled-up sizes of the immediate child files.
    pub fn files_size(&self) -> (r: u64)
        ensures
            r == self.files_size,
    {
        self.files_size
    }

    /// The rolled-up size of the whole subtree.
    pub fn total_size(&self) -> (r: u64)
        ensures
            r == self.total_size,
    {
        self.total_size
    }

    /// Recomputes the three derived sizes over a whole subtree, post-order:
    /// every child first, then this node's `dirs_size` (rolled-up totals of
    /// child directories), `files_size` (sizes of child files) and
    /// `total_size` (their sum, plus the node's own size when the node
    /// itself is a file). The result depends only on the subtree's shape,
    /// never on the order in which the trie was built.
    pub fn calculate_size(&mut self)
        requires
            weight_v(old(self)@) <= u64::MAX,
        ensures
            final(self)@ == old(self)@,
            sizes_ok(*final(self)),
    {
        let mut tmp = PathCache {
            path: String::new(),
            data: None,
            dirs_size: 0,
            files_size: 0,
            total_size: 0,
            childs: Vec::new(),
        };
        core::mem::swap(self, &mut tmp);
        let ghost m = size_v(tmp@);
        let done = Self::rollup(tmp, Ghost(m));
        *self = done;
    }

    /// The post-order rollup behind `calculate_size`, written over an owned
    /// subtree so that the recursion consumes and rebuilds the children;
    /// the ghost argument carries the subtree's node count as the measure.
    fn rollup(node: PathCache, Ghost(m): Ghost<nat>) -> (r: PathCache)
        requires
            m == size_v(node@),
            weight_v(node@) <= u64::MAX,
        ensures
            r@ == node@,
            sizes_ok(r),
        decreases m,
    {
        let ghost n0 = node;
        let PathCache { path, data, dirs_size: _, files_size: _, total_size: _, childs } = node;
        let mut cs = childs;
        let ghost cs0 = cs@;
        let ghost cv = nodes_view(cs0);
        proof {
            lemma_nodes_view_len(cs0);
            assert(node_view(n0).childs == cv);
            assert(cs0.skip(0) =~= cs0);
            assert(cv.take(0) =~= Seq::<NodeV>::empty());
        }
        let mut out_cs: Vec<PathCache> = Vec::new();
        let mut dirs: u64 = 0;
        let mut files: u64 = 0;
        let n = cs.len();
        let mut i: usize = 0;
        while i < n
            invariant
                i <= n,
                n == cs0.len(),
                cs@ == cs0.skip(i as int),
                cv == nodes_view(cs0),
                cv.len() == n,
                n0.childs@ == cs0,
                weight_v(node_view(n0)) <= u64::MAX,
                m == size_v(node_view(n0)),
                out_cs@.len() == i,
                forall|k: int|
                    0 <= k < i ==> node_view(#[trigger] out_cs@[k]) == cv[k] && sizes_ok(
                        out_cs@[k],
                    ),
                dirs == dirs_sum(cv.take(i as int)),
                files == files_sum(cv.take(i as int)),
            decreases n - i,
        {
            proof {
                assert(cs0.skip(i as int)[0] == cs0[i as int]);
                assert(cs0.skip(i as int).remove(0) =~= cs0.skip(i + 1));
            }
            let c = cs.remove(0);
            proof {
                assert(c == cs0[i as int]);
                lemma_nodes_view_index(cs0, i as int);
                assert(node_view(c) == cv[i as int]);
                lemma_weight_vs_elem(cv, i as int);
                lemma_rollup_bounds_seq(cv);
                assert(weight_v(node_view(c)) <= u64::MAX);
                lemma_size_vs_elem(cv, i as int);
                assert(size_v(node_view(n0)) == 1 + size_vs(cv));
                assert(size_v(node_view(c)) < size_v(node_view(n0)));
            }
            let c2 = Self::rollup(c, Ghost(size_v(node_view(c))));
            proof {
                assert(cv.take(i + 1).drop_last() =~= cv.take(i as int));
                assert(cv.take(i + 1).last() == cv[i as int]);
                lemma_rollup_bounds_seq(cv.take(i + 1));
                lemma_weight_vs_take(cv, i + 1);
                assert(dirs_sum(cv.take(i + 1)) + files_sum(cv.take(i + 1)) <= weight_vs(cv));
                assert(weight_vs(cv) <= weight_v(node_view(n0)));
            }
            if let Some(d) = c2.data {
                match d.event_type {
                    EventType::File => {
                        proof {
                            assert(is_file_entry(cv[i as int]));
                            assert(d.size == entry_size(cv[i as int]));
                            assert(files + d.size == files_sum(cv.take(i + 1)));
                        }
                        files = files + d.size;
                    },
                    EventType::DirEnter => {
                        proof {
                            assert(is_dir_entry(cv[i as int]));
                            assert(c2.total_size == total_v(cv[i as int]));
                            assert(dirs + c2.total_size == dirs_sum(cv.take(i + 1)));
                        }
                        dirs = dirs + c2.total_size;
                    },
                    EventType::DirLeave => {
                        proof {
                            assert(dirs == dirs_sum(cv.take(i + 1)));
                            assert(files == files_sum(cv.take(i + 1)));
                        }
                    },
                }
            } else {
                proof {
                    assert(dirs == dirs_sum(cv.take(i + 1)));
                    assert(files == files_sum(cv.take(i + 1)));
                }
            }
            let ghost out0 = out_cs@;
            out_cs.push(c2);
            proof {
                assert(forall|k: int| 0 <= k < i ==> out_cs@[k] == out0[k]);
            }
            i = i + 1;
        }
        let own: u64 = match data {
            Some(d) => match d.event_type {
                EventType::File => d.size,
                _ => 0,
            },
            None => 0,
        };
        proof {
            assert(cv.take(n as int) =~= cv);
            lemma_rollup_bounds(node_view(n0));
            assert(node_view(n0).data == data);
            assert(dirs + files + own == total_v(node_view(n0)));
            assert(dirs + files + own <= u64::MAX);
        }
        let total = dirs + files + own;
        let r = PathCache {
            path,
            data,
            dirs_size: dirs,
            files_size: files,
            total_size: total,
            childs: out_cs,
        };
        proof {
            lemma_nodes_view_len(r.childs@);
            assert forall|k: int| 0 <= k < n implies nodes_view(r.childs@)[k] == cv[k] by {
                lemma_nodes_view_index(r.childs@, k);
            }
            assert(nodes_view(r.childs@) =~= cv);
            assert(node_view(r) =~= node_view(n0));
            assert(total_v(node_view(r)) == total_v(node_view(n0)));
        }
        r
    }

    /// The total payload weight of this subtree, when it fits in a `u64`.
    fn weight_of(&self) -> (r: Option<u64>)
        ensures
            r is Some <==> weight_v(self@) <= u64::MAX,
            r is Some ==> r->0 == weight_v(self@),
        decreases size_v(self@),
    {
        let own: u64 = match self.data {
            Some(d) => d.size,
            None => 0,
        };
        proof {
            assert(entry_size(node_view(*self)) == own);
            assert(node_view(*self).childs == nodes_view(self.childs@));
            lemma_nodes_view_len(self.childs@);
            assert(nodes_view(self.childs@).take(0) =~= Seq::<NodeV>::empty());
        }
        let ghost cv = nodes_view(self.childs@);
        let n = self.childs.len();
        let mut acc: u64 = 0;
        let mut i: usize = 0;
        while i < n
            invariant
                i <= n,
                n == self.childs@.len(),
                cv == nodes_view(self.childs@),
                cv.len() == n,
                acc == weight_vs(cv.take(i as int)),
            decreases n - i,
        {
            proof {
                lemma_nodes_view_index(self.childs@, i as int);
                lemma_size_vs_elem(cv, i as int);
                assert(size_v(node_view(*self)) == 1 + size_vs(cv));
                assert(size_v(node_view(self.childs@[i as int])) < size_v(node_view(*self)));
            }
            let cw = match self.childs[i].weight_of() {
                Some(w) => w,
                None => {
                    proof {
                        lemma_weight_vs_elem(cv, i as int);
                        lemma_weight_vs_take(cv, i as int);
                        lemma_rollup_bounds_seq(cv.take(i as int));
                        assert(weight_v(node_view(*self)) > u64::MAX) by {
                            lemma_rollup_bounds_seq(cv);
                            assert(weight_vs(cv) >= weight_v(cv[i as int]));
                        }
                    }
                    return None;
                },
            };
            proof {
                assert(cv.take(i + 1).drop_last() =~= cv.take(i as int));
                assert(cv.take(i + 1).last() == cv[i as int]);
            }
            let sum = match acc.checked_add(cw) {
                Some(s) => s,
                None => {
                    proof {
                        lemma_rollup_bounds_seq(cv.take(i + 1));
                        lemma_weight_vs_take(cv, i + 1);
                        assert(weight_vs(cv) >= weight_vs(cv.take(i + 1)));
                        assert(weight_v(node_view(*self)) > u64::MAX);
                    }
                    return None;
                },
            };
            acc = sum;
            i = i + 1;
        }
        proof {
            assert(cv.take(n as int) =~= cv);
        }
        let total = match own.checked_add(acc) {
            Some(t) => t,
            None => {
                return None;
            },
        };
        Some(total)
    }

    /// Rolls up every root of the forest whose payload weight fits in a
    /// `u64`, leaving any other root untouched, and reports whether every
    /// root was rolled up. The shapes never change.
    pub fn calculate_all_sizes(pc: &mut Vec<PathCache>) -> (ok: bool)
        ensures
            nodes_view(final(pc)@) == nodes_view(old(pc)@),
            final(pc)@.len() == old(pc)@.len(),
            ok <==> (forall|k: int|
                0 <= k < old(pc)@.len() ==> weight_v(node_view(#[trigger] old(pc)@[k]))
                    <= u64::MAX),
            forall|k: int|
                0 <= k < old(pc)@.len() && weight_v(node_view(#[trigger] old(pc)@[k])) <= u64::MAX
                    ==> sizes_ok(final(pc)@[k]),
    {
        let ghost pc0 = pc@;
        let ghost pv = nodes_view(pc0);
        proof {
            lemma_nodes_view_len(pc0);
        }
        let n = pc.len();
        let mut i: usize = 0;
        let mut ok = true;
        while i < n
            invariant
                i <= n,
                n == pc0.len(),
                pc@.len() == n,
                pv == nodes_view(pc0),
                pv.len() == n,
                forall|k: int| 0 <= k < n - i ==> pc@[k] == pc0[i + k],
                forall|k: int|
                    n - i <= k < n ==> node_view(#[trigger] pc@[k]) == pv[k - (n - i)],
                forall|k: int|
                    n - i <= k < n && weight_v(pv[k - (n - i)]) <= u64::MAX ==> sizes_ok(pc@[k]),
                ok <==> (forall|k: int| 0 <= k < i ==> weight_v(pv[k]) <= u64::MAX),
            decreases n - i,
        {
            proof {
                lemma_nodes_view_index(pc0, i as int);
            }
            let mut c = pc.remove(0);
            proof {
                assert(c == pc0[i as int]);
            }
            let fits = match c.weight_of() {
                Some(_) => true,
                None => false,
            };
            if fits {
                c.calculate_size();
            } else {
                ok = false;
            }
            let ghost pcmid = pc@;
            pc.push(c);
            proof {
                assert(forall|k: int| 0 <= k < n - 1 ==> pc@[k] == pcmid[k]);
                assert(pc@[n - 1] == c);
            }
            i = i + 1;
        }
        proof {
            assert forall|k: int| 0 <= k < n implies pv[k] == node_view(#[trigger] pc0[k]) by {
                lemma_nodes_view_index(pc0, k);
            }
            assert forall|k: int| 0 <= k < n implies node_view(#[trigger] pc@[k]) == node_view(
                pc0[k],
            ) by {
                lemma_nodes_view_index(pc0, k);
            }
            lemma_nodes_view_len(pc@);
            assert forall|k: int| 0 <= k < n implies nodes_view(pc@)[k] == nodes_view(
                pc0,
            )[k] by {
                lemma_nodes_view_index(pc@, k);
                lemma_nodes_view_index(pc0, k);
            }
            assert(nodes_view(pc@) =~= nodes_view(pc0));
            if ok {
                assert forall|k: int| 0 <= k < n implies weight_v(node_view(
                    #[trigger] old(pc)@[k],
                )) <= u64::MAX by {
                    assert(weight_v(pv[k]) <= u64::MAX);
                }
            } else {
                let k0 = choose|k: int| 0 <= k < n && !(weight_v(pv[k]) <= u64::MAX);
                assert(weight_v(node_view(old(pc)@[k0])) > u64::MAX);
            }
        }
        ok
    }

    /// Renders the forest as an indented tree, in sibling order, and
    /// appends the lines: per node its segment and sizes as `node_line`
    /// and `render_v` lay down, descending while the depth cutoff allows.
    pub fn print(
        pc: &Vec<PathCache>,
        depth: u16,
        max_depth: u16,
        only_dirs: bool,
        human_readable: bool,
        out: &mut Vec<String>,
    )
        ensures
            lines_view(final(out)@) == lines_view(old(out)@) + render_v(
                pc@,
                depth,
                max_depth,
                only_dirs,
                human_readable,
            ),
        decreases pcs_size(pc@), 1nat,
    {
        let ghost base = lines_view(out@);
        proof {
            assert(base + render_v(pc@.take(0), depth, max_depth, only_dirs, human_readable)
                =~= base);
        }
        let n = pc.len();
        let mut i: usize = 0;
        while i < n
            invariant
                i <= n,
                n == pc@.len(),
                lines_view(out@) == base + render_v(
                    pc@.take(i as int),
                    depth,
                    max_depth,
                    only_dirs,
                    human_readable,
                ),
            decreases n - i,
        {
            proof {
                lemma_pcs_size_elem(pc@, i as int);
                lemma_render_v_take_step(pc@, i as int, depth, max_depth, only_dirs,
                    human_readable);
            }
            let ghost mid = lines_view(out@);
            let node = &pc[i];
            Self::print_node(node, depth, max_depth, only_dirs, human_readable, out);
            proof {
                assert(lines_view(out@) =~= base + render_v(
                    pc@.take(i + 1),
                    depth,
                    max_depth,
                    only_dirs,
                    human_readable,
                ));
            }
            i = i + 1;
        }
        proof {
            assert(pc@.take(n as int) =~= pc@);
        }
    }

    /// Renders one node and, depth allowing, its subtree.
    fn print_node(
        node: &PathCache,
        depth: u16,
        max_depth: u16,
        only_dirs: bool,
        human_readable: bool,
        out: &mut Vec<String>,
    )
        ensures
            lines_view(final(out)@) == lines_view(old(out)@) + node_render(
                *node,
                depth,
                max_depth,
                only_dirs,
                human_readable,
            ),
        decreases pc_size(*node), 0nat,
    {
        let ghost base = lines_view(out@);
        match node.data {
            None => {
                let ghost out0 = out@;
                out.push(node.path.clone());
                proof {
                    lemma_lines_view_push(out0, out@.last());
                    assert(lines_view(out@) =~= base + node_line(
                        *node,
                        depth,
                        only_dirs,
                        human_readable,
                    ));
                }
            },
            Some(d) => {
                match d.event_type {
                    crate::event_type::EventType::DirEnter => {
                        let mut line = indent_of(depth);
                        line.append(node.path.as_str());
                        line.append(" (");
                        let fs = crate::formatter::human_format_if_needed(
                            node.files_size,
                            human_readable,
                        );
                        line.append(fs.as_str());
                        line.append(" / ");
                        let ds = crate::formatter::human_format_if_needed(
                            node.dirs_size,
                            human_readable,
                        );
                        line.append(ds.as_str());
                        line.append(" / ");
                        let ts = crate::formatter::human_format_if_needed(
                            node.total_size,
                            human_readable,
                        );
                        line.append(ts.as_str());
                        line.append(")");
                        let ghost out0 = out@;
                        let ghost linev = line@;
                        out.push(line);
                        proof {
                            reveal_strlit(" (");
                            reveal_strlit(" / ");
                            reveal_strlit(")");
                            assert((" (")@ =~= seq![' ', '(']);
                            assert((" / ")@ =~= seq![' ', '/', ' ']);
                            assert((")")@ =~= seq![')']);
                            lemma_lines_view_push(out0, out@.last());
                            assert(linev =~= node_line(
                                *node,
                                depth,
                                only_dirs,
                                human_readable,
                            )[0]);
                            assert(lines_view(out@) =~= base + node_line(
                                *node,
                                depth,
                                only_dirs,
                                human_readable,
                            ));
                        }
                    },
                    crate::event_type::EventType::File => {
                        if !only_dirs {
                            let mut line = indent_of(depth);
                            line.append(node.path.as_str());
                            line.append(" (");
                            let fs = crate::formatter::human_format_if_needed(
                                d.size,
                                human_readable,
                            );
                            line.append(fs.as_str());
                            line.append(")");
                            let ghost out0 = out@;
                            let ghost linev = line@;
                            out.push(line);
                            proof {
                                reveal_strlit(" (");
                                reveal_strlit(")");
                                assert((" (")@ =~= seq![' ', '(']);
                                assert((")")@ =~= seq![')']);
                                lemma_lines_view_push(out0, out@.last());
                                assert(linev =~= node_line(
                                    *node,
                                    depth,
                                    only_dirs,
                                    human_readable,
                                )[0]);
                                assert(lines_view(out@) =~= base + node_line(
                                    *node,
                                    depth,
                                    only_dirs,
                                    human_readable,
                                ));
                            }
                        } else {
                            proof {
                                assert(lines_view(out@) =~= base + node_line(
                                    *node,
                                    depth,
                                    only_dirs,
                                    human_readable,
                                ));
                            }
                        }
                    },
                    crate::event_type::EventType::DirLeave => {
                        proof {
                            assert(lines_view(out@) =~= base + node_line(
                                *node,
                                depth,
                                only_dirs,
                                human_readable,
                            ));
                        }
                    },
                }
            },
        }
        if max_depth == 0 || depth < max_depth {
            let nd = if depth < 65535 {
                depth + 1
            } else {
                depth
            };
            proof {
                assert(pc_size(*node) == 1 + pcs_size(node.childs@));
            }
            Self::print(&node.childs, nd, max_depth, only_dirs, human_readable, out);
            proof {
                assert(lines_view(out@) =~= base + node_render(
                    *node,
                    depth,
                    max_depth,
                    only_dirs,
                    human_readable,
                ));
            }
        } else {
            proof {
                assert(lines_view(out@) =~= base + node_render(
                    *node,
                    depth,
                    max_depth,
                    only_dirs,
                    human_readable,
                ));
            }
        }
    }

    /// Builds a fresh chain of nodes: one node for `part`, and below it one
    /// node for each further segment popped off `parts`, top of the stack
    /// first; the payload is attached at the deepest node.
    fn build_chain(part: String, parts: &mut Vec<String>, data: &FsItemInfo) -> (r: PathCache)
        ensures
            final(parts)@.len() == 0,
            node_view(r) == chain_of(seq![part@] + rev_segs(old(parts)@), *data),
            node_full(r) == chain_f(seq![part@] + rev_segs(old(parts)@), *data),
        decreases old(parts)@.len(),
    {
        let ghost parts0 = parts@;
        let popped = parts.pop();
        match popped {
            None => {
                let r = PathCache {
                    path: part,
                    data: Some(*data),
                    dirs_size: 0,
                    files_size: 0,
                    total_size: 0,
                    childs: Vec::new(),
                };
                proof {
                    let segs = seq![r.path@] + rev_segs(parts0);
                    assert(segs.len() == 1);
                    assert(segs[0] == r.path@);
                    assert(node_view(r).childs =~= chain_of(segs, *data).childs);
                    assert(node_view(r) =~= chain_of(segs, *data));
                    assert(node_full(r).childs =~= chain_f(segs, *data).childs);
                    assert(node_full(r) =~= chain_f(segs, *data));
                }
                r
            },
            Some(next) => {
                let ghost parts1 = parts@;
                let child = Self::build_chain(next, parts, data);
                let mut cv: Vec<PathCache> = Vec::new();
                cv.push(child);
                let r = PathCache {
                    path: part,
                    data: None,
                    dirs_size: 0,
                    files_size: 0,
                    total_size: 0,
                    childs: cv,
                };
                proof {
                    let segs = seq![r.path@] + rev_segs(parts0);
                    assert(rev_segs(parts0) == seq![parts0.last()@] + rev_segs(parts0.drop_last()));
                    assert(parts1 == parts0.drop_last());
                    assert(segs.len() >= 2);
                    assert(segs[0] == r.path@);
                    assert(segs.drop_first() =~= seq![next@] + rev_segs(parts1));
                    assert(node_view(child) == chain_of(segs.drop_first(), *data));
                    assert(nodes_view(cv@) =~= seq![node_view(child)]) by {
                        lemma_nodes_view_len(cv@);
                        lemma_nodes_view_index(cv@, 0);
                    }
                    assert(node_view(r) =~= chain_of(segs, *data));
                    assert(node_full(child) == chain_f(segs.drop_first(), *data));
                    assert(nodes_full(cv@) =~= seq![node_full(child)]) by {
                        lemma_nodes_full_len(cv@);
                        lemma_nodes_full_index(cv@, 0);
                    }
                    assert(node_full(r) =~= chain_f(segs, *data));
                }
                r
            },
        }
    }

    /// Inserts one path into the forest `pc`. `parts` holds the path's
    /// segments as a stack, the root segment on top (that is, last); the
    /// call consumes them all. Nodes missing along the path are created; at
    /// the terminal segment the payload is attached only where the existing
    /// node carries none, so the first insertion for a path stays
    /// authoritative, and an existing deeper subtree is never replaced. An
    /// empty `parts` leaves the forest unchanged. By the full reading, every
    /// freshly created node carries zero derived sizes and every node
    /// already present keeps its stored sizes.
    pub fn construct(pc: &mut Vec<PathCache>, parts: &mut Vec<String>, data: &FsItemInfo)
        ensures
            final(parts)@.len() == 0,
            old(parts)@.len() == 0 ==> nodes_view(final(pc)@) == nodes_view(old(pc)@),
            old(parts)@.len() > 0 ==> nodes_view(final(pc)@) == insert_v(
                nodes_view(old(pc)@),
                rev_segs(old(parts)@),
                *data,
            ),
            old(parts)@.len() == 0 ==> nodes_full(final(pc)@) == nodes_full(old(pc)@),
            old(parts)@.len() > 0 ==> nodes_full(final(pc)@) == insert_f(
                nodes_full(old(pc)@),
                rev_segs(old(parts)@),
                *data,
            ),
            wf_vs(nodes_view(old(pc)@)) ==> wf_vs(nodes_view(final(pc)@)),
        decreases old(parts)@.len(),
    {
        proof {
            if wf_vs(nodes_view(pc@)) && parts@.len() > 0 {
                lemma_insert_v_wf(nodes_view(pc@), rev_segs(parts@), *data);
            }
        }
        let ghost parts0 = parts@;
        let ghost s = nodes_view(pc@);
        let ghost sf = nodes_full(pc@);
        proof {
            lemma_nodes_view_len(pc@);
            lemma_nodes_full_len(pc@);
        }
        let popped = parts.pop();
        let part = match popped {
            None => {
                return ;
            },
            Some(p) => p,
        };
        let ghost segs = rev_segs(parts0);
        proof {
            assert(segs == seq![part@] + rev_segs(parts@));
            assert(segs[0] == part@);
        }
        let mut i: usize = 0;
        while i < pc.len() && str_lt(pc[i].path.as_str(), part.as_str())
            invariant
                i <= pc.len(),
                pc@ == old(pc)@,
                s == nodes_view(pc@),
                s.len() == pc@.len(),
                forall|j: int| 0 <= j < i ==> lex_lt(#[trigger] s[j].seg, part@),
            decreases pc@.len() - i,
        {
            proof {
                lemma_nodes_view_index(pc@, i as int);
            }
            i = i + 1;
        }
        proof {
            lemma_insert_v_skip(s, segs, *data, i as int);
            assert forall|j: int| 0 <= j < pc@.len() implies (#[trigger] sf[j]).seg
                == s[j].seg by {
                lemma_nodes_full_index(pc@, j);
                lemma_nodes_view_index(pc@, j);
            }
            lemma_insert_f_skip(sf, segs, *data, i as int);
            if i < pc@.len() {
                lemma_nodes_view_index(pc@, i as int);
                lemma_nodes_full_index(pc@, i as int);
                assert(s.skip(i as int)[0] == s[i as int]);
                assert(s.skip(i as int).drop_first() =~= s.skip(i + 1));
                assert(sf.skip(i as int)[0] == sf[i as int]);
                assert(sf.skip(i as int).drop_first() =~= sf.skip(i + 1));
            }
        }
        if i < pc.len() && pc[i].path == part {
            proof {
                crate::segments::lemma_lex_irrefl(s[i as int].seg);
            }
            if parts.len() == 0 {
                let node = pc.remove(i);
                let new_data = if node.data.is_none() {
                    Some(*data)
                } else {
                    node.data
                };
                let node2 = PathCache {
                    path: node.path,
                    data: new_data,
                    dirs_size: node.dirs_size,
                    files_size: node.files_size,
                    total_size: node.total_size,
                    childs: node.childs,
                };
                let ghost pc1 = pc@;
                pc.insert(i, node2);
                proof {
                    assert(segs.len() == 1);
                    assert(node_view(node2) == NodeV {
                        seg: s[i as int].seg,
                        data: if s[i as int].data is Some {
                            s[i as int].data
                        } else {
                            Some(*data)
                        },
                        childs: s[i as int].childs,
                    });
                    assert(insert_v(s.skip(i as int), segs, *data) =~= seq![node_view(node2)]
                        + s.skip(i + 1));
                    assert(pc@ =~= old(pc)@.take(i as int).push(node2) + old(pc)@.skip(i + 1));
                    lemma_nodes_view_concat_parts(old(pc)@, node2, i as int);
                    assert(nodes_view(pc@) =~= insert_v(s, segs, *data));
                    assert(node_full(node2) == NodeF {
                        seg: sf[i as int].seg,
                        data: if sf[i as int].data is Some {
                            sf[i as int].data
                        } else {
                            Some(*data)
                        },
                        dirs_size: sf[i as int].dirs_size,
                        files_size: sf[i as int].files_size,
                        total_size: sf[i as int].total_size,
                        childs: sf[i as int].childs,
                    });
                    assert(insert_f(sf.skip(i as int), segs, *data) =~= seq![node_full(node2)]
                        + sf.skip(i + 1));
                    lemma_nodes_full_concat_parts(old(pc)@, node2, i as int);
                    assert(nodes_full(pc@) =~= insert_f(sf, segs, *data));
                }
            } else {
                let mut node = pc.remove(i);
                Self::construct(&mut node.childs, parts, data);
                let node2 = node;
                let ghost pc1 = pc@;
                pc.insert(i, node2);
                proof {
                    assert(segs.len() >= 2);
                    assert(segs.drop_first() =~= rev_segs(parts0.drop_last()));
                    assert(node_view(node2) == NodeV {
                        seg: s[i as int].seg,
                        data: s[i as int].data,
                        childs: insert_v(s[i as int].childs, segs.drop_first(), *data),
                    });
                    assert(insert_v(s.skip(i as int), segs, *data) =~= seq![node_view(node2)]
                        + s.skip(i + 1));
                    assert(pc@ =~= old(pc)@.take(i as int).push(node2) + old(pc)@.skip(i + 1));
                    lemma_nodes_view_concat_parts(old(pc)@, node2, i as int);
                    assert(nodes_view(pc@) =~= insert_v(s, segs, *data));
                    assert(node_full(node2) == NodeF {
                        seg: sf[i as int].seg,
                        data: sf[i as int].data,
                        dirs_size: sf[i as int].dirs_size,
                        files_size: sf[i as int].files_size,
                        total_size: sf[i as int].total_size,
                        childs: insert_f(sf[i as int].childs, segs.drop_first(), *data),
                    });
                    assert(insert_f(sf.skip(i as int), segs, *data) =~= seq![node_full(node2)]
                        + sf.skip(i + 1));
                    lemma_nodes_full_concat_parts(old(pc)@, node2, i as int);
                    assert(nodes_full(pc@) =~= insert_f(sf, segs, *data));
                }
            }
        } else {
            proof {
                if i < pc@.len() {
                    assert(!(s[i as int].seg == part@));
                    if !lex_lt(part@, s[i as int].seg) {
                        crate::segments::lemma_lex_connected(s[i as int].seg, part@);
                    }
                    assert(lex_lt(part@, s[i as int].seg));
                }
            }
            let node = Self::build_chain(part, parts, data);
            pc.insert(i, node);
            proof {
                assert(node_view(node) == chain_of(segs, *data));
                assert(pc@ =~= old(pc)@.take(i as int).push(node) + old(pc)@.skip(i as int));
                lemma_nodes_view_insert_parts(old(pc)@, node, i as int);
                assert(insert_v(s.skip(i as int), segs, *data) =~= seq![chain_of(segs, *data)]
                    + s.skip(i as int));
                assert(nodes_view(pc@) =~= insert_v(s, segs, *data));
                assert(node_full(node) == chain_f(segs, *data));
                lemma_nodes_full_insert_parts(old(pc)@, node, i as int);
                assert(insert_f(sf.skip(i as int), segs, *data) =~= seq![chain_f(segs, *data)]
                    + sf.skip(i as int));
                assert(nodes_full(pc@) =~= insert_f(sf, segs, *data));
            }
        }
    }

    /// Merges `right` into `left`, two forests of siblings destined for the
    /// same parent. A key present on one side only is adopted wholesale (by
    /// a deep copy when it comes from `right`); for a key present on both,
    /// the left node's payload and stored sizes are kept and the children
    /// are merged recursively. The full reading pins this down to every
    /// stored field at every depth: in particular a left node whose key the
    /// right side lacks, or meets with no children, is entirely unchanged.
    pub fn merge(left: &mut Vec<PathCache>, right: &Vec<PathCache>)
        ensures
            nodes_view(final(left)@) == merge_v(nodes_view(old(left)@), nodes_view(right@)),
            nodes_full(final(left)@) == merge_f(nodes_full(old(left)@), nodes_full(right@)),
            wf_vs(nodes_view(old(left)@)) && wf_vs(nodes_view(right@)) ==> wf_vs(
                nodes_view(final(left)@),
            ),
        decreases size_vs(nodes_view(right@)),
    {
        proof {
            if wf_vs(nodes_view(left@)) && wf_vs(nodes_view(right@)) {
                lemma_merge_v_wf(nodes_view(left@), nodes_view(right@));
            }
        }
        let ghost lv = nodes_view(left@);
        let ghost rv = nodes_view(right@);
        let ghost lf = nodes_full(left@);
        let ghost rf = nodes_full(right@);
        let mut out: Vec<PathCache> = Vec::new();
        let mut i: usize = 0;
        let mut j: usize = 0;
        proof {
            lemma_nodes_view_len(left@);
            lemma_nodes_view_len(right@);
            lemma_nodes_full_len(left@);
            lemma_nodes_full_len(right@);
            assert(lv.skip(0) =~= lv);
            assert(rv.skip(0) =~= rv);
            assert(nodes_view(out@) + merge_v(lv.skip(0), rv.skip(0)) =~= merge_v(lv, rv));
            assert(lf.skip(0) =~= lf);
            assert(rf.skip(0) =~= rf);
            assert(nodes_full(out@) + merge_f(lf.skip(0), rf.skip(0)) =~= merge_f(lf, rf));
        }
        while i < left.len() || j < right.len()
            invariant
                i <= left.len(),
                j <= right.len(),
                left@ == old(left)@,
                lv == nodes_view(left@),
                rv == nodes_view(right@),
                lv.len() == left@.len(),
                rv.len() == right@.len(),
                lf == nodes_full(left@),
                rf == nodes_full(right@),
                lf.len() == left@.len(),
                rf.len() == right@.len(),
                merge_v(lv, rv) == nodes_view(out@) + merge_v(
                    lv.skip(i as int),
                    rv.skip(j as int),
                ),
                merge_f(lf, rf) == nodes_full(out@) + merge_f(
                    lf.skip(i as int),
                    rf.skip(j as int),
                ),
            decreases left.len() - i + right.len() - j,
        {
            proof {
                if i < left.len() {
                    lemma_nodes_view_index(left@, i as int);
                    assert(lv.skip(i as int)[0] == lv[i as int]);
                    assert(lv.skip(i as int).drop_first() =~= lv.skip(i + 1));
                    assert(lv.skip(i as int).len() == lv.len() - i);
                    lemma_nodes_full_index(left@, i as int);
                    assert(lf.skip(i as int)[0] == lf[i as int]);
                    assert(lf.skip(i as int).drop_first() =~= lf.skip(i + 1));
                    assert(lf.skip(i as int).len() == lf.len() - i);
                    assert(lf[i as int].seg == lv[i as int].seg);
                }
                if j < right.len() {
                    lemma_nodes_view_index(right@, j as int);
                    assert(rv.skip(j as int)[0] == rv[j as int]);
                    assert(rv.skip(j as int).drop_first() =~= rv.skip(j + 1));
                    assert(rv.skip(j as int).len() == rv.len() - j);
                    lemma_nodes_full_index(right@, j as int);
                    assert(rf.skip(j as int)[0] == rf[j as int]);
                    assert(rf.skip(j as int).drop_first() =~= rf.skip(j + 1));
                    assert(rf.skip(j as int).len() == rf.len() - j);
                    assert(rf[j as int].seg == rv[j as int].seg);
                }
            }
            let ghost out0 = out@;
            if j == right.len() {
                let node = left[i].duplicate();
                out.push(node);
                proof {
                    lemma_nodes_view_push(out0, node);
                    assert(out@ == out0.push(node));
                    assert(nodes_view(out@) =~= nodes_view(out0).push(node_view(node)));
                    assert(node_view(node) == node_view(left@[i as int]));
                    assert(node_view(node) == lv[i as int]);
                    assert(rv.skip(j as int).len() == 0);
                    assert(merge_v(lv.skip(i as int), rv.skip(j as int)) == lv.skip(i as int));
                    assert(merge_v(lv.skip(i + 1), rv.skip(j as int)) == lv.skip(i + 1));
                    assert(nodes_view(out@) + merge_v(lv.skip(i + 1), rv.skip(j as int)) =~=
                    nodes_view(out0) + merge_v(lv.skip(i as int), rv.skip(j as int)));
                    lemma_nodes_full_push(out0, node);
                    assert(node_full(node) == lf[i as int]);
                    assert(rf.skip(j as int).len() == 0);
                    assert(merge_f(lf.skip(i as int), rf.skip(j as int)) == lf.skip(i as int));
                    assert(merge_f(lf.skip(i + 1), rf.skip(j as int)) == lf.skip(i + 1));
                    assert(nodes_full(out@) + merge_f(lf.skip(i + 1), rf.skip(j as int)) =~=
                    nodes_full(out0) + merge_f(lf.skip(i as int), rf.skip(j as int)));
                }
                i = i + 1;
            } else if i == left.len() {
                let node = right[j].duplicate();
                out.push(node);
                proof {
                    lemma_nodes_view_push(out0, node);
                    assert(lv.skip(i as int).len() == 0);
                    assert(nodes_view(out@) + merge_v(lv.skip(i as int), rv.skip(j + 1)) =~=
                    nodes_view(out0) + merge_v(lv.skip(i as int), rv.skip(j as int)));
                    lemma_nodes_full_push(out0, node);
                    assert(node_full(node) == rf[j as int]);
                    assert(lf.skip(i as int).len() == 0);
                    assert(nodes_full(out@) + merge_f(lf.skip(i as int), rf.skip(j + 1)) =~=
                    nodes_full(out0) + merge_f(lf.skip(i as int), rf.skip(j as int)));
                }
                j = j + 1;
            } else if str_lt(left[i].path.as_str(), right[j].path.as_str()) {
                let node = left[i].duplicate();
                out.push(node);
                proof {
                    lemma_nodes_view_push(out0, node);
                    assert(nodes_view(out@) + merge_v(lv.skip(i + 1), rv.skip(j as int)) =~=
                    nodes_view(out0) + merge_v(lv.skip(i as int), rv.skip(j as int)));
                    lemma_nodes_full_push(out0, node);
                    assert(node_full(node) == lf[i as int]);
                    assert(nodes_full(out@) + merge_f(lf.skip(i + 1), rf.skip(j as int)) =~=
                    nodes_full(out0) + merge_f(lf.skip(i as int), rf.skip(j as int)));
                }
                i = i + 1;
            } else if str_lt(right[j].path.as_str(), left[i].path.as_str()) {
                let node = right[j].duplicate();
                out.push(node);
                proof {
                    lemma_nodes_view_push(out0, node);
                    assert(nodes_view(out@) + merge_v(lv.skip(i as int), rv.skip(j + 1)) =~=
                    nodes_view(out0) + merge_v(lv.skip(i as int), rv.skip(j as int)));
                    lemma_nodes_full_push(out0, node);
                    assert(node_full(node) == rf[j as int]);
                    assert(nodes_full(out@) + merge_f(lf.skip(i as int), rf.skip(j + 1)) =~=
                    nodes_full(out0) + merge_f(lf.skip(i as int), rf.skip(j as int)));
                }
                j = j + 1;
            } else {
                let mut node = left[i].duplicate();
                proof {
                    lemma_size_vs_elem(rv, j as int);
                }
                Self::merge(&mut node.childs, &right[j].childs);
                out.push(node);
                proof {
                    lemma_nodes_view_push(out0, node);
                    assert(node_view(node) == NodeV {
                        seg: lv.skip(i as int)[0].seg,
                        data: lv.skip(i as int)[0].data,
                        childs: merge_v(lv.skip(i as int)[0].childs, rv.skip(j as int)[0].childs),
                    });
                    assert(nodes_view(out@) + merge_v(lv.skip(i + 1), rv.skip(j + 1)) =~=
                    nodes_view(out0) + merge_v(lv.skip(i as int), rv.skip(j as int)));
                    lemma_nodes_full_push(out0, node);
                    assert(node_full(node) == NodeF {
                        seg: lf.skip(i as int)[0].seg,
                        data: lf.skip(i as int)[0].data,
                        dirs_size: lf.skip(i as int)[0].dirs_size,
                        files_size: lf.skip(i as int)[0].files_size,
                        total_size: lf.skip(i as int)[0].total_size,
                        childs: merge_f(lf.skip(i as int)[0].childs, rf.skip(j as int)[0].childs),
                    });
                    assert(nodes_full(out@) + merge_f(lf.skip(i + 1), rf.skip(j + 1)) =~=
                    nodes_full(out0) + merge_f(lf.skip(i as int), rf.skip(j as int)));
                }
                i = i + 1;
                j = j + 1;
            }
        }
        proof {
            assert(lv.skip(left@.len() as int).len() == 0);
            assert(rv.skip(right@.len() as int).len() == 0);
            assert(merge_v(lv, rv) =~= nodes_view(out@));
            assert(lf.skip(left@.len() as int).len() == 0);
            assert(rf.skip(right@.len() as int).len() == 0);
            assert(merge_f(lf, rf) =~= nodes_full(out@));
        }
        *left = out;
    }

    /// A deep copy of this subtree; it has the same shape and the same
    /// derived sizes at every node.
    pub fn duplicate(&self) -> (r: PathCache)
        ensures
            r@ == self@,
            node_full(r) == node_full(*self),
            r.dirs_size == self.dirs_size,
            r.files_size == self.files_size,
            r.total_size == self.total_size,
        decreases *self,
    {
        let mut cs: Vec<PathCache> = Vec::new();
        let n = self.childs.len();
        let mut i: usize = 0;
        while i < n
            invariant
                i <= n,
                n == self.childs.len(),
                cs@.len() == i,
                forall|j: int|
                    0 <= j < i ==> node_view(#[trigger] cs@[j]) == node_view(self.childs@[j]),
                forall|j: int|
                    0 <= j < i ==> node_full(#[trigger] cs@[j]) == node_full(self.childs@[j]),
            decreases n - i,
        {
            let c = self.childs[i].duplicate();
            let ghost cs0 = cs@;
            cs.push(c);
            proof {
                assert forall|j: int|
                    0 <= j < i + 1 implies node_view(#[trigger] cs@[j]) == node_view(
                    self.childs@[j],
                ) && node_full(cs@[j]) == node_full(self.childs@[j]) by {
                    if j < i {
                        assert(cs@[j] == cs0[j]);
                    }
                }
            }
            i = i + 1;
        }
        proof {
            lemma_nodes_view_len(cs@);
            lemma_nodes_view_len(self.childs@);
            assert forall|k: int| 0 <= k < cs@.len() implies nodes_view(cs@)[k] == nodes_view(
                self.childs@,
            )[k] by {
                lemma_nodes_view_index(cs@, k);
                lemma_nodes_view_index(self.childs@, k);
            }
            assert(nodes_view(cs@) =~= nodes_view(self.childs@));
            lemma_nodes_full_len(cs@);
            lemma_nodes_full_len(self.childs@);
            assert forall|k: int| 0 <= k < cs@.len() implies nodes_full(cs@)[k] == nodes_full(
                self.childs@,
            )[k] by {
                lemma_nodes_full_index(cs@, k);
                lemma_nodes_full_index(self.childs@, k);
            }
            assert(nodes_full(cs@) =~= nodes_full(self.childs@));
        }
        PathCache {
            path: self.path.clone(),
            data: self.data,
            dirs_size: self.dirs_size,
            files_size: self.files_size,
            total_size: self.total_size,
            childs: cs,
        }
    }
}

} // verus!
