//! The path trie: one node per distinct run of segments from the root.

pub mod ordered_map;
pub mod paths;

use vstd::prelude::*;
use vstd::std_specs::cmp::PartialEqSpec;
use crate::processor::BraceConfig;
use crate::processor::balance::lemma_join_first;
use crate::text::{
    chars_of, ends_with, find_from, find_text, finishes_with, join, occurs_at, rows, slice_of,
    split, split_from, split_text, text_of, texts,
};
use ordered_map::{position_from, OrderedMap};

verus! {

/// What tells the children of one node apart: the segment, and a number
/// that keeps repeated paths apart when duplicates are kept.
#[derive(Debug)]
pub struct ChildKey {
    pub label: String,
    pub id: usize,
}

impl PartialEq for ChildKey {
    fn eq(&self, other: &Self) -> (r: bool) {
        self.label == other.label && self.id == other.id
    }
}

impl vstd::std_specs::cmp::PartialEqSpecImpl for ChildKey {
    open spec fn obeys_eq_spec() -> bool {
        true
    }

    open spec fn eq_spec(&self, other: &Self) -> bool {
        self.label@ == other.label@ && self.id == other.id
    }
}

/// One node of the trie; its children are indices into the same arena.
#[derive(Debug)]
pub struct Node {
    pub label: String,
    pub children: OrderedMap<ChildKey, usize>,
    pub is_leaf: bool,
    pub is_trailing_sep: bool,
    pub depth: usize,
}

/// One child entry of a node, as plain values.
pub struct ChildView {
    pub label: Seq<char>,
    pub id: nat,
    pub node: int,
}

/// One node of the trie, as plain values.
pub struct NodeView {
    pub label: Seq<char>,
    pub children: Seq<ChildView>,
    pub is_leaf: bool,
    pub is_trailing_sep: bool,
    pub depth: nat,
}

/// The child entries of a node, as plain values.
pub open spec fn children_view(entries: Seq<(ChildKey, usize)>) -> Seq<ChildView> {
    Seq::new(
        entries.len(),
        |i: int|
            ChildView {
                label: entries[i].0.label@,
                id: entries[i].0.id as nat,
                node: entries[i].1 as int,
            },
    )
}

impl View for Node {
    type V = NodeView;

    open spec fn view(&self) -> NodeView {
        NodeView {
            label: self.label@,
            children: children_view(self.children@),
            is_leaf: self.is_leaf,
            is_trailing_sep: self.is_trailing_sep,
            depth: self.depth as nat,
        }
    }
}

/// The nodes of an arena, as plain values.
pub open spec fn trie_view(nodes: Seq<Node>) -> Seq<NodeView> {
    Seq::new(nodes.len(), |i: int| nodes[i]@)
}

/// Every child lies after its parent in the arena, and no node is deeper
/// than its index.
pub open spec fn trie_wf(trie: Seq<NodeView>) -> bool {
    &&& trie.len() > 0
    &&& forall|i: int, j: int|
        0 <= i < trie.len() && 0 <= j < trie[i].children.len() ==> i < (
        #[trigger] trie[i].children[j]).node < trie.len()
    &&& forall|i: int| 0 <= i < trie.len() ==> (#[trigger] trie[i]).depth <= i
}

/// The segments of a path: cut at every separator, or only at the first
/// when full splitting is off; the whole path when the separator is empty.
pub open spec fn segments(path: Seq<char>, sep: Seq<char>, split_all: bool) -> Seq<Seq<char>> {
    if sep.len() == 0 {
        seq![path]
    } else if split_all {
        split(path, sep)
    } else {
        let at = find_from(path, sep, 0);
        if at < 0 || at + sep.len() > path.len() {
            seq![path]
        } else {
            seq![path.subrange(0, at), path.subrange(at + sep.len(), path.len() as int)]
        }
    }
}

/// The first child at or after `from` with this segment and number, or `-1`.
pub open spec fn find_child(children: Seq<ChildView>, label: Seq<char>, id: nat, from: int) -> int
    decreases children.len() - from,
{
    if from < 0 || from >= children.len() {
        -1
    } else if children[from].label == label && children[from].id == id {
        from
    } else {
        find_child(children, label, id, from + 1)
    }
}

/// The arena made of the root alone.
pub open spec fn root_only() -> Seq<NodeView> {
    seq![
        NodeView {
            label: Seq::empty(),
            children: Seq::empty(),
            is_leaf: false,
            is_trailing_sep: false,
            depth: 0,
        },
    ]
}

/// The arena with a fresh node appended as the last child of `cur`.
pub open spec fn with_child(trie: Seq<NodeView>, cur: int, label: Seq<char>, id: nat) -> Seq<
    NodeView,
> {
    trie.update(
        cur,
        NodeView {
            children: trie[cur].children.push(ChildView { label, id, node: trie.len() as int }),
            ..trie[cur]
        },
    ).push(
        NodeView {
            label,
            children: Seq::empty(),
            is_leaf: false,
            is_trailing_sep: false,
            depth: trie[cur].depth + 1,
        },
    )
}

/// The arena with node `idx` marked as the end of a path.
pub open spec fn marked(trie: Seq<NodeView>, idx: int, trailing: bool) -> Seq<NodeView> {
    trie.update(idx, NodeView { is_leaf: true, is_trailing_sep: trailing, ..trie[idx] })
}

/// The arena after walking the segments `segs[i..]` down from node `cur`,
/// adding the nodes that are missing. The last segment is keyed by
/// `last_id`, every other by 0; `closes` says that the path ends with the
/// separator.
pub open spec fn insert_from(
    trie: Seq<NodeView>,
    cur: int,
    segs: Seq<Seq<char>>,
    i: int,
    last_id: nat,
    closes: bool,
) -> Seq<NodeView>
    decreases segs.len() - i,
{
    if i < 0 || i >= segs.len() {
        trie
    } else {
        let last = i + 1 == segs.len();
        let id = if last {
            last_id
        } else {
            0
        };
        let at = find_child(trie[cur].children, segs[i], id, 0);
        let grown = if at >= 0 {
            trie
        } else {
            with_child(trie, cur, segs[i], id)
        };
        let child = if at >= 0 {
            trie[cur].children[at].node
        } else {
            trie.len() as int
        };
        let done = if last {
            marked(grown, child, segs[i].len() == 0 && closes)
        } else {
            grown
        };
        insert_from(done, child, segs, i + 1, last_id, closes)
    }
}

/// The number that keys the last segment of the path at position `k`.
pub open spec fn last_key(dedup: bool, k: int) -> nat {
    if dedup {
        0
    } else {
        k as nat
    }
}

/// The arena that holds the first `n` paths.
pub open spec fn trie_of(
    paths: Seq<Seq<char>>,
    sep: Seq<char>,
    split_all: bool,
    dedup: bool,
    n: int,
) -> Seq<NodeView>
    decreases n,
{
    if n <= 0 {
        root_only()
    } else {
        insert_from(
            trie_of(paths, sep, split_all, dedup, n - 1),
            0,
            segments(paths[n - 1], sep, split_all),
            0,
            last_key(dedup, n - 1),
            ends_with(paths[n - 1], sep),
        )
    }
}

/// Looking a key up among the entries finds what `find_child` finds among
/// their plain values.
pub proof fn lemma_position_is_find_child(entries: Seq<(ChildKey, usize)>, key: ChildKey, from: int)
    ensures
        position_from(entries, key, from) == find_child(
            children_view(entries),
            key.label@,
            key.id as nat,
            from,
        ),
    decreases entries.len() - from,
{
    if 0 <= from < entries.len() {
        if !entries[from].0.eq_spec(&key) {
            lemma_position_is_find_child(entries, key, from + 1);
        }
    }
}

/// Where `find_child` finds a child, it lies within the children.
pub proof fn lemma_find_child_bounds(children: Seq<ChildView>, label: Seq<char>, id: nat, from: int)
    requires
        0 <= from,
    ensures
        find_child(children, label, id, from) == -1 || from <= find_child(
            children,
            label,
            id,
            from,
        ) < children.len(),
    decreases children.len() - from,
{
    if from < children.len() && !(children[from].label == label && children[from].id == id) {
        lemma_find_child_bounds(children, label, id, from + 1);
    }
}

/// Node `idx` is the child at position `j` of node `p`.
pub open spec fn child_at(trie: Seq<NodeView>, p: int, j: int, idx: int) -> bool {
    0 <= p < trie.len() && 0 <= j < trie[p].children.len() && trie[p].children[j].node == idx
}

/// Node `idx` is a child of some node.
pub open spec fn has_parent(trie: Seq<NodeView>, idx: int) -> bool {
    exists|p: int, j: int| #[trigger] child_at(trie, p, j, idx)
}

/// The arena is a tree below node 0: the root has depth 0 and the empty
/// label, every child is one deeper than its parent and carries the label
/// under which its parent lists it, and every other node is the child of
/// exactly one node, at exactly one position.
pub open spec fn tree_shaped(trie: Seq<NodeView>) -> bool {
    &&& trie_wf(trie)
    &&& trie[0].depth == 0
    &&& trie[0].label.len() == 0
    &&& forall|p: int, j: int|
        0 <= p < trie.len() && 0 <= j < trie[p].children.len() ==> trie[(
        #[trigger] trie[p].children[j]).node].depth == trie[p].depth + 1
            && trie[trie[p].children[j].node].label == trie[p].children[j].label
    &&& forall|idx: int| 1 <= idx < trie.len() ==> #[trigger] has_parent(trie, idx)
    &&& forall|p: int, j: int, q: int, k: int, idx: int|
        #[trigger] child_at(trie, p, j, idx) && #[trigger] child_at(trie, q, k, idx) ==> p == q
            && j == k
}

/// A fresh last child keeps the arena a tree.
pub proof fn lemma_with_child_shape(trie: Seq<NodeView>, cur: int, label: Seq<char>, id: nat)
    requires
        tree_shaped(trie),
        0 <= cur < trie.len(),
    ensures
        tree_shaped(with_child(trie, cur, label, id)),
{
    let grown = with_child(trie, cur, label, id);
    let len = trie.len() as int;
    let old_kids = trie[cur].children;
    assert(grown.len() == len + 1);
    assert(grown[len].children.len() == 0);
    assert(grown[cur].children == old_kids.push(ChildView { label, id, node: len }));
    assert forall|a: int| 0 <= a < len && a != cur implies grown[a] == trie[a] by {}
    assert forall|a: int, j: int|
        0 <= a < grown.len() && 0 <= j < grown[a].children.len() implies a < (
        #[trigger] grown[a].children[j]).node < grown.len() && grown[grown[a].children[j].node].depth
            == grown[a].depth + 1 && grown[grown[a].children[j].node].label
            == grown[a].children[j].label by {
        if a == cur && j == old_kids.len() {
        } else {
            assert(a < len);
            assert(grown[a].children[j] == trie[a].children[j]);
            let c = trie[a].children[j];
            assert(a < c.node < len);
            assert(trie[c.node].depth == trie[a].depth + 1);
        }
    }
    assert forall|a: int| 0 <= a < grown.len() implies (#[trigger] grown[a]).depth <= a by {
        if a < len {
            assert(trie[a].depth <= a);
        } else {
            assert(trie[cur].depth <= cur);
        }
    }
    assert forall|idx: int| 1 <= idx < grown.len() implies #[trigger] has_parent(grown, idx) by {
        if idx < len {
            assert(has_parent(trie, idx));
            let (p, j) = choose|p: int, j: int| #[trigger] child_at(trie, p, j, idx);
            assert(grown[p].children[j] == trie[p].children[j]);
            assert(child_at(grown, p, j, idx));
        } else {
            assert(child_at(grown, cur, old_kids.len() as int, idx));
        }
    }
    assert forall|p: int, j: int, q: int, k: int, idx: int|
        #[trigger] child_at(grown, p, j, idx) && #[trigger] child_at(
            grown,
            q,
            k,
            idx,
        ) implies p == q && j == k by {
        let first_new = p == cur && j == old_kids.len();
        let second_new = q == cur && k == old_kids.len();
        if !first_new {
            assert(grown[p].children[j] == trie[p].children[j]);
            assert(p < trie[p].children[j].node < len);
            assert(child_at(trie, p, j, idx));
        }
        if !second_new {
            assert(grown[q].children[k] == trie[q].children[k]);
            assert(q < trie[q].children[k].node < len);
            assert(child_at(trie, q, k, idx));
        }
    }
}

/// Marking the end of a path keeps the arena a tree.
pub proof fn lemma_marked_shape(trie: Seq<NodeView>, idx: int, trailing: bool)
    requires
        tree_shaped(trie),
        0 <= idx < trie.len(),
    ensures
        tree_shaped(marked(trie, idx, trailing)),
{
    let done = marked(trie, idx, trailing);
    assert forall|a: int| 0 <= a < trie.len() implies (#[trigger] done[a]).children
        == trie[a].children && done[a].label == trie[a].label && done[a].depth
        == trie[a].depth by {}
    assert forall|a: int, j: int|
        0 <= a < done.len() && 0 <= j < done[a].children.len() implies a < (
        #[trigger] done[a].children[j]).node < done.len() && done[done[a].children[j].node].depth
            == done[a].depth + 1 && done[done[a].children[j].node].label
            == done[a].children[j].label by {
        assert(done[a].children[j] == trie[a].children[j]);
        let c = trie[a].children[j];
        assert(a < c.node < trie.len());
        assert(trie[c.node].depth == trie[a].depth + 1);
    }
    assert forall|a: int| 0 <= a < done.len() implies (#[trigger] done[a]).depth <= a by {
        assert(trie[a].depth <= a);
    }
    assert forall|a: int| 1 <= a < done.len() implies #[trigger] has_parent(done, a) by {
        assert(has_parent(trie, a));
        let (p, j) = choose|p: int, j: int| #[trigger] child_at(trie, p, j, a);
        assert(done[p].children[j] == trie[p].children[j]);
        assert(child_at(done, p, j, a));
    }
    assert forall|p: int, j: int, q: int, k: int, a: int|
        #[trigger] child_at(done, p, j, a) && #[trigger] child_at(done, q, k, a) implies p == q
            && j == k by {
        assert(done[p].children[j] == trie[p].children[j]);
        assert(done[q].children[k] == trie[q].children[k]);
        assert(child_at(trie, p, j, a));
        assert(child_at(trie, q, k, a));
    }
}

/// Walking a path into the arena keeps it a tree, and adds at most one
/// node for each segment that is left.
pub proof fn lemma_insert_shape(
    trie: Seq<NodeView>,
    cur: int,
    segs: Seq<Seq<char>>,
    i: int,
    last_id: nat,
    closes: bool,
)
    requires
        tree_shaped(trie),
        0 <= cur < trie.len(),
        0 <= i <= segs.len(),
    ensures
        tree_shaped(insert_from(trie, cur, segs, i, last_id, closes)),
        trie.len() <= insert_from(trie, cur, segs, i, last_id, closes).len() <= trie.len()
            + segs.len() - i,
    decreases segs.len() - i,
{
    if i < segs.len() {
        let last = i + 1 == segs.len();
        let id = if last {
            last_id
        } else {
            0
        };
        let at = find_child(trie[cur].children, segs[i], id, 0);
        lemma_find_child_bounds(trie[cur].children, segs[i], id, 0);
        let grown = if at >= 0 {
            trie
        } else {
            with_child(trie, cur, segs[i], id)
        };
        let child = if at >= 0 {
            trie[cur].children[at].node
        } else {
            trie.len() as int
        };
        if at >= 0 {
            assert(cur < trie[cur].children[at].node < trie.len());
        } else {
            lemma_with_child_shape(trie, cur, segs[i], id);
        }
        let trailing = segs[i].len() == 0 && closes;
        let done = if last {
            marked(grown, child, trailing)
        } else {
            grown
        };
        if last {
            lemma_marked_shape(grown, child, trailing);
        }
        lemma_insert_shape(done, child, segs, i + 1, last_id, closes);
    }
}

/// A text is cut into at least one piece, and into at most one more than it
/// has characters.
pub proof fn lemma_split_count(s: Seq<char>, sep: Seq<char>, start: int)
    requires
        sep.len() > 0,
        0 <= start <= s.len(),
    ensures
        1 <= split_from(s, sep, start).len() <= s.len() - start + 1,
    decreases s.len() - start,
{
    let at = find_from(s, sep, start);
    if !(at < start || at + sep.len() > s.len()) {
        lemma_split_count(s, sep, at + sep.len());
    }
}

/// A path has at least one segment, and at most one more than it has
/// characters.
pub proof fn lemma_segments_count(path: Seq<char>, sep: Seq<char>, split_all: bool)
    ensures
        1 <= segments(path, sep, split_all).len() <= path.len() + 1,
{
    if sep.len() > 0 && split_all {
        lemma_split_count(path, sep, 0);
    }
}

/// What `find_from` finds is an occurrence at or after the start.
pub proof fn lemma_find_from_occurs(s: Seq<char>, pat: Seq<char>, i: int)
    requires
        0 <= i,
        find_from(s, pat, i) >= 0,
    ensures
        i <= find_from(s, pat, i),
        occurs_at(s, pat, find_from(s, pat, i)),
    decreases s.len() - i,
{
    if i + pat.len() <= s.len() && !occurs_at(s, pat, i) && i < s.len() {
        lemma_find_from_occurs(s, pat, i + 1);
    }
}

/// The pieces of a text cut at a separator, joined by the separator, are
/// the text.
pub proof fn lemma_join_split(s: Seq<char>, sep: Seq<char>, start: int)
    requires
        sep.len() > 0,
        0 <= start <= s.len(),
    ensures
        split_from(s, sep, start).len() >= 1,
        join(split_from(s, sep, start), sep) == s.subrange(start, s.len() as int),
    decreases s.len() - start,
{
    let at = find_from(s, sep, start);
    if at < start || at + sep.len() > s.len() {
    } else {
        lemma_find_from_occurs(s, sep, start);
        let next = at + sep.len();
        lemma_join_split(s, sep, next);
        let rest = split_from(s, sep, next);
        let all = seq![s.subrange(start, at)] + rest;
        assert(split_from(s, sep, start) == all);
        lemma_join_first(all, sep);
        assert(all.drop_first() =~= rest);
        assert(all[0] == s.subrange(start, at));
        assert(s.subrange(at, next) == sep);
        assert(s.subrange(start, at) + s.subrange(at, next) + s.subrange(next, s.len() as int)
            =~= s.subrange(start, s.len() as int));
    }
}

/// The segments of a path, joined by the separator, are the path.
pub proof fn lemma_join_segments(s: Seq<char>, sep: Seq<char>, split_all: bool)
    ensures
        segments(s, sep, split_all).len() >= 1,
        join(segments(s, sep, split_all), sep) == s,
{
    assert(s.subrange(0, s.len() as int) =~= s);
    if sep.len() == 0 {
    } else if split_all {
        lemma_join_split(s, sep, 0);
    } else {
        let at = find_from(s, sep, 0);
        if at < 0 || at + sep.len() > s.len() {
        } else {
            lemma_find_from_occurs(s, sep, 0);
            let next = at + sep.len();
            let both = seq![s.subrange(0, at), s.subrange(next, s.len() as int)];
            lemma_join_first(both, sep);
            assert(both.drop_first() =~= seq![s.subrange(next, s.len() as int)]);
            assert(s.subrange(at, next) == sep);
            assert(s.subrange(0, at) + s.subrange(at, next) + s.subrange(next, s.len() as int)
                =~= s);
        }
    }
}

/// A path whose last segment is empty, after at least one other segment,
/// ends with the separator.
pub proof fn lemma_open_end_closes(path: Seq<char>, sep: Seq<char>, split_all: bool)
    requires
        segments(path, sep, split_all).len() >= 2,
        segments(path, sep, split_all).last().len() == 0,
    ensures
        ends_with(path, sep),
{
    let segs = segments(path, sep, split_all);
    lemma_join_segments(path, sep, split_all);
    let front = join(segs.drop_last(), sep);
    assert(path =~= front + sep + segs.last());
    assert(path.subrange(path.len() - sep.len(), path.len() as int) =~= sep);
}

/// How many segments the first `n` paths have together.
pub open spec fn segment_total(paths: Seq<Seq<char>>, sep: Seq<char>, split_all: bool, n: int) -> int
    decreases n,
{
    if n <= 0 || n > paths.len() {
        0
    } else {
        segment_total(paths, sep, split_all, n - 1) + segments(paths[n - 1], sep, split_all).len()
    }
}

/// The trie of any list of paths is a tree, with at most one node for each
/// segment besides the root.
pub proof fn lemma_trie_shape(
    paths: Seq<Seq<char>>,
    sep: Seq<char>,
    split_all: bool,
    dedup: bool,
    n: int,
)
    requires
        0 <= n <= paths.len(),
    ensures
        tree_shaped(trie_of(paths, sep, split_all, dedup, n)),
        trie_of(paths, sep, split_all, dedup, n).len() <= 1 + segment_total(
            paths,
            sep,
            split_all,
            n,
        ),
    decreases n,
{
    if n == 0 {
        let t = root_only();
        assert(t[0].children.len() == 0);
        assert(forall|p: int, j: int, idx: int| !child_at(t, p, j, idx));
    } else {
        lemma_trie_shape(paths, sep, split_all, dedup, n - 1);
        lemma_insert_shape(
            trie_of(paths, sep, split_all, dedup, n - 1),
            0,
            segments(paths[n - 1], sep, split_all),
            0,
            last_key(dedup, n - 1),
            ends_with(paths[n - 1], sep),
        );
    }
}

/// Cuts a path into its segments.
pub fn path_segments(path: &Vec<char>, sep: &Vec<char>, split_all: bool) -> (r: Vec<Vec<char>>)
    ensures
        rows(r@) == segments(path@, sep@, split_all),
{
    if sep.len() == 0 {
        let mut r: Vec<Vec<char>> = Vec::new();
        let whole = slice_of(path, 0, path.len());
        assert(path@.subrange(0, path.len() as int) =~= path@);
        r.push(whole);
        assert(rows(r@) =~= seq![path@]);
        r
    } else if split_all {
        split_text(path, sep)
    } else {
        let mut r: Vec<Vec<char>> = Vec::new();
        match find_text(path, sep, 0) {
            Some(at) => {
                let head = slice_of(path, 0, at);
                let rest = slice_of(path, at + sep.len(), path.len());
                r.push(head);
                r.push(rest);
                assert(rows(r@) =~= seq![
                    path@.subrange(0, at as int),
                    path@.subrange(at + sep.len(), path.len() as int),
                ]);
            },
            None => {
                let whole = slice_of(path, 0, path.len());
                assert(path@.subrange(0, path.len() as int) =~= path@);
                r.push(whole);
                assert(rows(r@) =~= seq![path@]);
            },
        }
        r
    }
}

/// Walks the segments of one path down from the root, adding the nodes that
/// are missing, and marks the node where the path ends.
pub fn insert_path(nodes: &mut Vec<Node>, comps: &Vec<Vec<char>>, last_id: usize, closes: bool)
    requires
        trie_wf(trie_view(old(nodes)@)),
    ensures
        trie_wf(trie_view(final(nodes)@)),
        trie_view(final(nodes)@) == insert_from(
            trie_view(old(nodes)@),
            0,
            rows(comps@),
            0,
            last_id as nat,
            closes,
        ),
{
    let mut cur: usize = 0;
    let mut i: usize = 0;
    while i < comps.len()
        invariant
            i <= comps.len(),
            cur < nodes.len(),
            trie_wf(trie_view(nodes@)),
            insert_from(trie_view(old(nodes)@), 0, rows(comps@), 0, last_id as nat, closes)
                == insert_from(
                trie_view(nodes@),
                cur as int,
                rows(comps@),
                i as int,
                last_id as nat,
                closes,
            ),
        decreases comps.len() - i,
    {
        let ghost before = trie_view(nodes@);
        let is_last = i + 1 == comps.len();
        let id = if is_last {
            last_id
        } else {
            0
        };
        let key = ChildKey { label: text_of(&comps[i]), id };
        proof {
            lemma_position_is_find_child(nodes[cur as int].children@, key, 0);
            lemma_find_child_bounds(before[cur as int].children, comps[i as int]@, id as nat, 0);
        }
        let found: Option<usize> = match nodes[cur].children.get(&key) {
            Some(idx) => Some(*idx),
            None => None,
        };
        let child = match found {
            Some(idx) => idx,
            None => {
                let idx = nodes.len();
                let depth = nodes[cur].depth + 1;
                nodes[cur].children.insert(key, idx);
                nodes.push(
                    Node {
                        label: text_of(&comps[i]),
                        children: OrderedMap::new(),
                        is_leaf: false,
                        is_trailing_sep: false,
                        depth,
                    },
                );
                proof {
                    let grown = with_child(before, cur as int, comps[i as int]@, id as nat);
                    assert(trie_view(nodes@).len() == grown.len());
                    assert forall|k: int| 0 <= k < grown.len() implies trie_view(nodes@)[k]
                        == grown[k] by {
                        if k == cur {
                            assert(trie_view(nodes@)[k].children =~= grown[k].children);
                        } else if k == idx {
                            assert(trie_view(nodes@)[k].children =~= grown[k].children);
                        }
                    }
                    assert(trie_view(nodes@) =~= grown);
                }
                idx
            },
        };
        let ghost grown = trie_view(nodes@);
        cur = child;
        if is_last {
            let trailing = comps[i].len() == 0 && closes;
            nodes[cur].is_leaf = true;
            nodes[cur].is_trailing_sep = trailing;
            proof {
                assert(trie_view(nodes@) =~= marked(grown, cur as int, trailing));
            }
        }
        i += 1;
    }
}

/// Builds the trie of a list of paths; the root is node 0.
pub fn build_trie(paths: &[String], sep: &str, config: &BraceConfig) -> (r: (Vec<Node>, usize))
    ensures
        r.1 == 0,
        tree_shaped(trie_view(r.0@)),
        trie_view(r.0@) == trie_of(
            texts(paths@),
            sep@,
            config.allow_segment_split,
            config.deduplicate_inputs,
            paths.len() as int,
        ),
        r.0.len() <= 1 + segment_total(
            texts(paths@),
            sep@,
            config.allow_segment_split,
            paths.len() as int,
        ),
{
    let sep_chars = chars_of(sep);
    let mut nodes: Vec<Node> = Vec::new();
    nodes.push(
        Node {
            label: String::new(),
            children: OrderedMap::new(),
            is_leaf: false,
            is_trailing_sep: false,
            depth: 0,
        },
    );
    assert(trie_view(nodes@) =~= root_only()) by {
        assert(trie_view(nodes@)[0].children =~= Seq::empty());
    }
    let mut p: usize = 0;
    while p < paths.len()
        invariant
            p <= paths.len(),
            sep_chars@ == sep@,
            trie_wf(trie_view(nodes@)),
            trie_view(nodes@) == trie_of(
                texts(paths@),
                sep@,
                config.allow_segment_split,
                config.deduplicate_inputs,
                p as int,
            ),
        decreases paths.len() - p,
    {
        let path = chars_of(paths[p].as_str());
        let comps = path_segments(&path, &sep_chars, config.allow_segment_split);
        let closes = finishes_with(&path, &sep_chars);
        let last_id = if config.deduplicate_inputs {
            0
        } else {
            p
        };
        insert_path(&mut nodes, &comps, last_id, closes);
        p += 1;
    }
    proof {
        lemma_trie_shape(
            texts(paths@),
            sep@,
            config.allow_segment_split,
            config.deduplicate_inputs,
            paths.len() as int,
        );
    }
    (nodes, 0)
}

} // verus!
