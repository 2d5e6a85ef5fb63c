//! Composition of brace expressions from the trie, and their expansion back
//! into literal paths.

use vstd::prelude::*;
use std::collections::HashMap;
use crate::processor::balance::lemma_alternatives_shorter;
use crate::processor::normalise::{
    common_prefix, common_suffix, shared_back, shared_front, stem_splittable,
};
use crate::processor::sorting::{arranged, sort_texts};
use crate::processor::trie::{trie_view, trie_wf, Node, NodeView};
use crate::processor::{BraceConfig, ConfigView};
use crate::text::{
    begins_with, chars_of, chars_of_all, ends_with, finishes_with, join, join_texts, rows,
    same_chars, slice_of, starts_with, text_of, texts, texts_of_all,
};

verus! {

/// `inner` between an opening and a closing brace.
pub open spec fn braced(inner: Seq<char>) -> Seq<char> {
    seq!['{'] + inner + seq!['}']
}

/// The alternatives as one expression: nothing for none, the item itself
/// for one, a brace group for more.
pub open spec fn wrap(items: Seq<Seq<char>>) -> Seq<char> {
    if items.len() == 0 {
        Seq::empty()
    } else if items.len() == 1 {
        items[0]
    } else {
        braced(join(items, seq![',']))
    }
}

/// `inner` below `label`: joined by the separator when both are non-empty,
/// else whichever of the two is there.
pub open spec fn with_label(label: Seq<char>, sep: Seq<char>, inner: Seq<char>) -> Seq<char> {
    if label.len() == 0 {
        inner
    } else if inner.len() == 0 {
        label
    } else {
        label + sep + inner
    }
}

/// The items cut into consecutive runs of `size`, each run wrapped and put
/// below the label.
pub open spec fn chunk_groups(
    label: Seq<char>,
    sep: Seq<char>,
    items: Seq<Seq<char>>,
    size: int,
) -> Seq<Seq<char>>
    decreases items.len(),
{
    if items.len() == 0 {
        Seq::empty()
    } else if size <= 0 || items.len() <= size {
        seq![with_label(label, sep, wrap(items))]
    } else {
        seq![with_label(label, sep, wrap(items.take(size)))] + chunk_groups(
            label,
            sep,
            items.skip(size),
            size,
        )
    }
}

/// Whether the items are more than one group may hold.
pub open spec fn overfull(count: nat, max: Option<usize>) -> bool {
    match max {
        Some(m) => count > m,
        None => false,
    }
}

/// A label with its alternatives: one group below the label, or, where the
/// items are more than a group may hold, an outer group of labelled chunks.
pub open spec fn compose(
    label: Seq<char>,
    sep: Seq<char>,
    items: Seq<Seq<char>>,
    max: Option<usize>,
    sort: bool,
) -> Seq<char> {
    let cleaned = arranged(items, sort);
    if overfull(cleaned.len(), max) {
        braced(join(chunk_groups(label, sep, cleaned, max->0 as int), seq![',']))
    } else {
        with_label(label, sep, wrap(cleaned))
    }
}

/// Writes `inner` between braces.
pub fn brace_text(inner: &str) -> (r: String)
    ensures
        r@ == braced(inner@),
{
    let mut r = String::new();
    r.push('{');
    r.append(inner);
    r.push('}');
    assert(r@ =~= braced(inner@));
    r
}

/// Writes the alternatives as one expression.
pub fn wrap_items(items: &[String]) -> (r: String)
    ensures
        r@ == wrap(texts(items@)),
{
    if items.len() == 0 {
        String::new()
    } else if items.len() == 1 {
        items[0].clone()
    } else {
        let inner = join_texts(items, ",");
        proof {
            reveal_strlit(",");
            assert(","@ =~= seq![',']);
        }
        brace_text(inner.as_str())
    }
}

/// Writes `inner` below `label`.
pub fn label_with(label: &str, sep: &str, inner: String) -> (r: String)
    ensures
        r@ == with_label(label@, sep@, inner@),
{
    if label.is_empty() {
        inner
    } else if inner.as_str().is_empty() {
        label.to_string()
    } else {
        let mut r = label.to_string();
        r.append(sep);
        r.append(inner.as_str());
        r
    }
}

/// A copy of the items `items[from..to]`.
pub fn items_between(items: &[String], from: usize, to: usize) -> (r: Vec<String>)
    requires
        from <= to <= items.len(),
    ensures
        texts(r@) == texts(items@).subrange(from as int, to as int),
{
    let mut r: Vec<String> = Vec::new();
    let mut i: usize = from;
    while i < to
        invariant
            from <= i <= to <= items.len(),
            r.len() == i - from,
            forall|j: int| 0 <= j < r.len() ==> (#[trigger] r[j])@ == items[from + j]@,
        decreases to - i,
    {
        r.push(items[i].clone());
        i += 1;
    }
    assert(texts(r@) =~= texts(items@).subrange(from as int, to as int));
    r
}

/// Composes a label and its alternatives into one expression. A group size
/// limit of zero cannot be met and is left out.
pub fn compose_label_and_items(
    label: &str,
    sep: &str,
    items: &[String],
    max_brace_size: Option<usize>,
    sort_items: bool,
) -> (r: String)
    requires
        max_brace_size != Some(0usize),
    ensures
        r@ == compose(label@, sep@, texts(items@), max_brace_size, sort_items),
{
    let cleaned: Vec<String> = if sort_items {
        sort_texts(items)
    } else {
        let all = items_between(items, 0, items.len());
        assert(texts(items@).subrange(0, items.len() as int) =~= texts(items@));
        all
    };
    let ghost whole = texts(cleaned@);
    assert(whole == arranged(texts(items@), sort_items));
    match max_brace_size {
        Some(max) => {
            if cleaned.len() <= max {
                label_with(label, sep, wrap_items(cleaned.as_slice()))
            } else {
                let mut groups: Vec<String> = Vec::new();
                let mut start: usize = 0;
                assert(whole.skip(0) =~= whole);
                while start < cleaned.len()
                    invariant
                        max > 0,
                        start <= cleaned.len(),
                        whole == texts(cleaned@),
                        chunk_groups(label@, sep@, whole, max as int) == texts(groups@)
                            + chunk_groups(label@, sep@, whole.skip(start as int), max as int),
                    decreases cleaned.len() - start,
                {
                    let end = if cleaned.len() - start <= max {
                        cleaned.len()
                    } else {
                        start + max
                    };
                    let chunk = items_between(cleaned.as_slice(), start, end);
                    let group = label_with(label, sep, wrap_items(chunk.as_slice()));
                    proof {
                        let rest = whole.skip(start as int);
                        if end == cleaned.len() {
                            assert(rest =~= texts(chunk@));
                            assert(whole.skip(end as int) =~= Seq::empty());
                        } else {
                            assert(rest.take(max as int) =~= texts(chunk@));
                            assert(rest.skip(max as int) =~= whole.skip(end as int));
                        }
                        assert(texts(groups@.push(group)) =~= texts(groups@) + seq![group@]);
                    }
                    groups.push(group);
                    start = end;
                }
                let inner = join_texts(groups.as_slice(), ",");
                proof {
                    reveal_strlit(",");
                    assert(","@ =~= seq![',']);
                    assert(chunk_groups(label@, sep@, whole.skip(start as int), max as int)
                        =~= Seq::empty());
                    assert(texts(groups@) =~= chunk_groups(label@, sep@, whole, max as int));
                }
                brace_text(inner.as_str())
            }
        },
        None => label_with(label, sep, wrap_items(cleaned.as_slice())),
    }
}

/// A raw leaf as seen from below `label`: without `label` and the separator
/// in front, or empty where it is the label itself.
pub open spec fn relative(label: Seq<char>, sep: Seq<char>, raw: Seq<char>) -> Seq<char> {
    if label.len() == 0 {
        raw
    } else if starts_with(raw, label + sep) {
        raw.subrange((label.len() + sep.len()) as int, raw.len() as int)
    } else if raw == label {
        Seq::empty()
    } else {
        raw
    }
}

/// The items hold an empty one beside at least one that is not empty.
pub open spec fn mixes_empty(items: Seq<Seq<char>>) -> bool {
    (exists|i: int| 0 <= i < items.len() && (#[trigger] items[i]).len() == 0) && (exists|j: int|
        0 <= j < items.len() && (#[trigger] items[j]).len() > 0)
}

/// `s` without `prefix` in front and then without `suffix` at the end; where
/// the end does not match once the front is gone, `s` itself.
pub open spec fn strip_both(s: Seq<char>, prefix: Seq<char>, suffix: Seq<char>) -> Seq<char> {
    let t = if starts_with(s, prefix) {
        s.subrange(prefix.len() as int, s.len() as int)
    } else {
        s
    };
    if ends_with(t, suffix) {
        t.subrange(0, t.len() - suffix.len())
    } else {
        s
    }
}

/// What is left of each item without the shared beginning and ending.
pub open spec fn variants(items: Seq<Seq<char>>) -> Seq<Seq<char>> {
    Seq::new(
        items.len(),
        |i: int| strip_both(items[i], common_prefix(items), common_suffix(items)),
    )
}

/// A label with its alternatives, the shared beginning and ending of the
/// alternatives written once, outside the braces.
pub open spec fn stem_compose(
    label: Seq<char>,
    sep: Seq<char>,
    items: Seq<Seq<char>>,
    sort: bool,
) -> Seq<char> {
    let inner = common_prefix(items) + wrap(arranged(variants(items), sort)) + common_suffix(
        items,
    );
    if label.len() == 0 {
        inner
    } else {
        label + sep + inner
    }
}

/// The raw leaves of a node as seen from below its label.
pub open spec fn relatives(label: Seq<char>, sep: Seq<char>, raws: Seq<Seq<char>>) -> Seq<
    Seq<char>,
> {
    Seq::new(raws.len(), |i: int| relative(label, sep, raws[i]))
}

/// The representation of a node, from its label, its depth, its raw leaves
/// and its items. Beyond the depth limit the items are the raw leaves seen
/// from below the label. Where empty alternatives are forbidden and the items
/// mix an empty one with others, the raw leaves are listed with single spaces
/// between them. Else the items are grouped, with their shared stem outside
/// the braces where that is allowed, within the limit, and called for.
pub open spec fn render(
    label: Seq<char>,
    sep: Seq<char>,
    depth: nat,
    raws: Seq<Seq<char>>,
    items: Seq<Seq<char>>,
    cfg: ConfigView,
) -> Seq<char> {
    if depth > cfg.max_depth {
        let suffixes = relatives(label, sep, raws);
        if cfg.disallow_empty_braces && mixes_empty(suffixes) {
            join(raws, seq![' '])
        } else {
            compose(label, sep, suffixes, cfg.max_brace_size, cfg.sort_items)
        }
    } else if cfg.disallow_empty_braces && mixes_empty(items) {
        join(raws, seq![' '])
    } else if cfg.allow_stem_split && stem_splittable(items) {
        stem_compose(label, sep, items, cfg.sort_items)
    } else {
        compose(label, sep, items, cfg.max_brace_size, cfg.sort_items)
    }
}

/// Child `j` of node `idx` is a node that stands for a trailing separator.
pub open spec fn trailing_at(trie: Seq<NodeView>, idx: int, j: int) -> bool {
    0 <= trie[idx].children[j].node < trie.len() && trie[trie[idx].children[j].node].is_trailing_sep
}

/// Some child of node `idx` stands for a trailing separator.
pub open spec fn has_trailing_child(trie: Seq<NodeView>, idx: int) -> bool {
    exists|j: int| 0 <= j < trie[idx].children.len() && #[trigger] trailing_at(trie, idx, j)
}

/// The raw leaves of a node, from those of its children taken together: each
/// below the node's label, and the label itself where a path ends at the
/// node and no child stands for a trailing separator. A node without
/// children has its label as its one raw leaf.
pub open spec fn assemble_raws(
    label: Seq<char>,
    sep: Seq<char>,
    childless: bool,
    ends_here: bool,
    below: Seq<Seq<char>>,
) -> Seq<Seq<char>> {
    if childless {
        seq![label]
    } else {
        let out = Seq::new(below.len(), |i: int| with_label(label, sep, below[i]));
        if ends_here {
            out.push(label)
        } else {
            out
        }
    }
}

/// The raw leaves of the first `upto` children of node `idx`, one child
/// after another.
pub open spec fn raws_upto(trie: Seq<NodeView>, idx: int, upto: int, sep: Seq<char>) -> Seq<
    Seq<char>,
>
    decreases trie.len() - idx, upto,
{
    if upto <= 0 || idx < 0 || idx >= trie.len() || upto > trie[idx].children.len() {
        Seq::empty()
    } else {
        let c = trie[idx].children[upto - 1];
        raws_upto(trie, idx, upto - 1, sep) + (if idx < c.node < trie.len() {
            raw_leaves(trie, c.node, sep)
        } else {
            seq![c.label]
        })
    }
}

/// The raw leaves of node `idx`: the literal paths that end at or below it,
/// each starting with the node's own label.
pub open spec fn raw_leaves(trie: Seq<NodeView>, idx: int, sep: Seq<char>) -> Seq<Seq<char>>
    decreases trie.len() - idx, trie[idx].children.len() + 1,
{
    if idx < 0 || idx >= trie.len() {
        Seq::empty()
    } else {
        assemble_raws(
            trie[idx].label,
            sep,
            trie[idx].children.len() == 0,
            trie[idx].is_leaf && !has_trailing_child(trie, idx),
            raws_upto(trie, idx, trie[idx].children.len() as int, sep),
        )
    }
}

/// The items of a node, from the representations of its children: those,
/// and an empty item where a path ends at the node itself.
pub open spec fn assemble_items(ends_here: bool, below: Seq<Seq<char>>) -> Seq<Seq<char>> {
    if ends_here {
        below.push(Seq::empty())
    } else {
        below
    }
}

/// The representations of the first `upto` children of node `idx`.
pub open spec fn reprs_upto(
    trie: Seq<NodeView>,
    idx: int,
    upto: int,
    sep: Seq<char>,
    cfg: ConfigView,
) -> Seq<Seq<char>>
    decreases trie.len() - idx, upto,
{
    if upto <= 0 || idx < 0 || idx >= trie.len() || upto > trie[idx].children.len() {
        Seq::empty()
    } else {
        let c = trie[idx].children[upto - 1];
        reprs_upto(trie, idx, upto - 1, sep, cfg).push(
            if idx < c.node < trie.len() {
                node_repr(trie, c.node, sep, cfg)
            } else {
                c.label
            },
        )
    }
}

/// Whether a path ends at node `idx` in a way that its items must show: the
/// node is a leaf, stands for no trailing separator, and has no child that
/// does.
pub open spec fn stops_here(trie: Seq<NodeView>, idx: int) -> bool {
    trie[idx].is_leaf && !trie[idx].is_trailing_sep && !has_trailing_child(trie, idx)
}

/// The brace expression for the subtree of node `idx`.
pub open spec fn node_repr(trie: Seq<NodeView>, idx: int, sep: Seq<char>, cfg: ConfigView) -> Seq<
    char,
>
    decreases trie.len() - idx, trie[idx].children.len() + 1,
{
    if idx < 0 || idx >= trie.len() {
        Seq::empty()
    } else {
        render(
            trie[idx].label,
            sep,
            trie[idx].depth,
            raw_leaves(trie, idx, sep),
            assemble_items(
                stops_here(trie, idx),
                reprs_upto(trie, idx, trie[idx].children.len() as int, sep, cfg),
            ),
            cfg,
        )
    }
}

/// Node `b` is node `a` or lies below it.
pub open spec fn reaches(trie: Seq<NodeView>, a: int, b: int) -> bool
    decreases trie.len() - a,
{
    a == b || (0 <= a < trie.len() && exists|j: int|
        0 <= j < trie[a].children.len() && a < (#[trigger] trie[a].children[j]).node < trie.len()
            && reaches(trie, trie[a].children[j].node, b))
}

/// The map has an entry for node `k`.
pub open spec fn holds<V>(map: Map<usize, V>, k: int) -> bool {
    0 <= k <= usize::MAX && map.contains_key(k as usize)
}

/// The map has an entry for each of the first `upto` children of node `idx`.
pub open spec fn ready<V>(map: Map<usize, V>, trie: Seq<NodeView>, idx: int, upto: int) -> bool {
    forall|j: int| 0 <= j < upto ==> holds(map, (#[trigger] trie[idx].children[j]).node)
}

/// Every entry of the map is the representation of its node.
pub open spec fn reprs_sound(
    reprs: Map<usize, String>,
    trie: Seq<NodeView>,
    sep: Seq<char>,
    cfg: ConfigView,
) -> bool {
    forall|k: usize| #[trigger]
        reprs.contains_key(k) ==> k < trie.len() && reprs[k]@ == node_repr(
            trie,
            k as int,
            sep,
            cfg,
        )
}

/// Every entry of the map holds the raw leaves of its node.
pub open spec fn raws_sound(raws: Map<usize, Vec<String>>, trie: Seq<NodeView>, sep: Seq<char>) -> bool {
    forall|k: usize| #[trigger]
        raws.contains_key(k) ==> k < trie.len() && texts(raws[k]@) == raw_leaves(
            trie,
            k as int,
            sep,
        )
}

/// The map holds, for exactly the nodes at or below `root`, their
/// representations.
pub open spec fn reprs_hold(
    reprs: Map<usize, String>,
    trie: Seq<NodeView>,
    root: int,
    sep: Seq<char>,
    cfg: ConfigView,
) -> bool {
    &&& reprs_sound(reprs, trie, sep, cfg)
    &&& forall|k: usize| #[trigger] reprs.contains_key(k) <==> reaches(trie, root, k as int)
}

/// The map holds, for exactly the nodes at or below `root`, their raw
/// leaves.
pub open spec fn raws_hold(
    raws: Map<usize, Vec<String>>,
    trie: Seq<NodeView>,
    root: int,
    sep: Seq<char>,
) -> bool {
    &&& raws_sound(raws, trie, sep)
    &&& forall|k: usize| #[trigger] raws.contains_key(k) <==> reaches(trie, root, k as int)
}

/// Whoever has an entry has entries for all its children.
pub open spec fn closed(reprs: Map<usize, String>, trie: Seq<NodeView>) -> bool {
    forall|k: usize| #[trigger]
        reprs.contains_key(k) ==> k < trie.len() && ready(
            reprs,
            trie,
            k as int,
            trie[k as int].children.len() as int,
        )
}

/// One frame of the work stack is in order: its node lies at or below the
/// root and has no entry yet, the children before the one in work have
/// entries, and the child in work is the node of the next frame.
pub open spec fn frame_ok(
    frames: Seq<(usize, usize)>,
    f: int,
    trie: Seq<NodeView>,
    root: int,
    reprs: Map<usize, String>,
) -> bool {
    let node = frames[f].0 as int;
    let next = frames[f].1 as int;
    &&& node < trie.len()
    &&& next <= trie[node].children.len()
    &&& !reprs.contains_key(frames[f].0)
    &&& reaches(trie, root, node)
    &&& (f == 0 ==> node == root)
    &&& (f + 1 < frames.len() ==> next >= 1 && trie[node].children[next - 1].node == frames[f
        + 1].0 && ready(reprs, trie, node, next - 1))
    &&& (f + 1 == frames.len() ==> ready(reprs, trie, node, next))
}

/// The work stack is in order: every frame is, and the nodes rise from the
/// bottom of the stack to its top.
pub open spec fn walking(
    frames: Seq<(usize, usize)>,
    trie: Seq<NodeView>,
    root: int,
    reprs: Map<usize, String>,
) -> bool {
    &&& forall|f: int| 0 <= f < frames.len() ==> #[trigger] frame_ok(frames, f, trie, root, reprs)
    &&& forall|f: int, g: int|
        0 <= f < g < frames.len() ==> (#[trigger] frames[f]).0 < (#[trigger] frames[g]).0
}

/// How far the node on top of the stack is from the end of the arena.
pub open spec fn room_above(frames: Seq<(usize, usize)>, len: int) -> int {
    if frames.len() == 0 {
        0
    } else {
        len - frames.last().0
    }
}

/// How many children the node on top of the stack has left.
pub open spec fn children_left(frames: Seq<(usize, usize)>, trie: Seq<NodeView>) -> int {
    if frames.len() == 0 {
        0
    } else {
        trie[frames.last().0 as int].children.len() - frames.last().1
    }
}

/// A child of a node below `a` lies below `a`.
pub proof fn lemma_reaches_child(trie: Seq<NodeView>, a: int, idx: int, j: int)
    requires
        reaches(trie, a, idx),
        0 <= idx < trie.len(),
        0 <= j < trie[idx].children.len(),
        idx < trie[idx].children[j].node < trie.len(),
    ensures
        reaches(trie, a, trie[idx].children[j].node),
    decreases trie.len() - a,
{
    let child = trie[idx].children[j].node;
    if a == idx {
        assert(reaches(trie, child, child));
    } else {
        let k = choose|k: int|
            0 <= k < trie[a].children.len() && a < (#[trigger] trie[a].children[k]).node
                < trie.len() && reaches(trie, trie[a].children[k].node, idx);
        lemma_reaches_child(trie, trie[a].children[k].node, idx, j);
    }
}

/// Where entries are closed under children, every node below a node with
/// an entry has one.
pub proof fn lemma_closed_reaches(reprs: Map<usize, String>, trie: Seq<NodeView>, a: int, b: int)
    requires
        closed(reprs, trie),
        holds(reprs, a),
        reaches(trie, a, b),
    ensures
        holds(reprs, b),
    decreases trie.len() - a,
{
    if a != b {
        let k = choose|k: int|
            0 <= k < trie[a].children.len() && a < (#[trigger] trie[a].children[k]).node
                < trie.len() && reaches(trie, trie[a].children[k].node, b);
        assert(reprs.contains_key(a as usize));
        assert(holds(reprs, trie[a].children[k].node));
        lemma_closed_reaches(reprs, trie, trie[a].children[k].node, b);
    }
}

/// Different numbers below `n` are at most `n`.
pub proof fn lemma_distinct_bounded(s: Seq<int>, n: int)
    requires
        0 <= n,
        s.no_duplicates(),
        forall|i: int| 0 <= i < s.len() ==> 0 <= #[trigger] s[i] < n,
    ensures
        s.len() <= n,
{
    s.unique_seq_to_set();
    vstd::set_lib::lemma_int_range(0, n);
    assert(s.to_set().subset_of(vstd::set_lib::set_int_range(0, n))) by {
        assert forall|x: int| s.to_set().contains(x) implies vstd::set_lib::set_int_range(
            0,
            n,
        ).contains(x) by {
            let i = choose|i: int| 0 <= i < s.len() && s[i] == x;
        }
    }
    vstd::set_lib::lemma_len_subset(s.to_set(), vstd::set_lib::set_int_range(0, n));
}

/// Appends copies of `more` to `out`.
pub fn append_texts(out: &mut Vec<String>, more: &[String])
    ensures
        texts(final(out)@) == texts(old(out)@) + texts(more@),
{
    let mut i: usize = 0;
    while i < more.len()
        invariant
            i <= more.len(),
            texts(out@) == texts(old(out)@) + texts(more@).take(i as int),
        decreases more.len() - i,
    {
        proof {
            assert(texts(out@.push(more[i as int])) =~= texts(out@) + seq![more[i as int]@]);
            assert(texts(more@).take(i + 1) =~= texts(more@).take(i as int) + seq![
                more[i as int]@,
            ]);
        }
        out.push(more[i].clone());
        i += 1;
    }
    assert(texts(more@).take(more.len() as int) =~= texts(more@));
}

/// The raw leaves as seen from below `label`.
pub fn relative_suffixes(label: &str, sep: &str, raws: &[String]) -> (r: Vec<String>)
    ensures
        texts(r@) == relatives(label@, sep@, texts(raws@)),
{
    let name = chars_of(label);
    let mut front = chars_of(label);
    let cut = chars_of(sep);
    crate::text::push_all(&mut front, &cut);
    let mut r: Vec<String> = Vec::new();
    let mut i: usize = 0;
    while i < raws.len()
        invariant
            i <= raws.len(),
            name@ == label@,
            front@ == label@ + sep@,
            r.len() == i,
            forall|j: int| 0 <= j < i ==> (#[trigger] r[j])@ == relative(label@, sep@, raws[j]@),
        decreases raws.len() - i,
    {
        let raw = chars_of(raws[i].as_str());
        let item = if name.len() == 0 {
            raws[i].clone()
        } else if begins_with(&raw, &front) {
            text_of(&slice_of(&raw, front.len(), raw.len()))
        } else if same_chars(&raw, &name) {
            String::new()
        } else {
            raws[i].clone()
        };
        r.push(item);
        i += 1;
    }
    assert(texts(r@) =~= relatives(label@, sep@, texts(raws@)));
    r
}

/// Tells whether the items hold an empty one beside one that is not empty.
pub fn mixes_empty_items(items: &[String]) -> (r: bool)
    ensures
        r == mixes_empty(texts(items@)),
{
    let mut some_empty = false;
    let mut some_full = false;
    let mut i: usize = 0;
    while i < items.len()
        invariant
            i <= items.len(),
            some_empty == (exists|k: int| 0 <= k < i && (#[trigger] texts(items@)[k]).len() == 0),
            some_full == (exists|k: int| 0 <= k < i && (#[trigger] texts(items@)[k]).len() > 0),
        decreases items.len() - i,
    {
        assert(texts(items@)[i as int] == items[i as int]@);
        if items[i].as_str().is_empty() {
            some_empty = true;
        } else {
            some_full = true;
        }
        i += 1;
    }
    some_empty && some_full
}

/// Removes the shared beginning and ending from one item.
fn strip_item(s: &Vec<char>, prefix: &Vec<char>, suffix: &Vec<char>) -> (r: Vec<char>)
    ensures
        r@ == strip_both(s@, prefix@, suffix@),
{
    let t = if begins_with(s, prefix) {
        slice_of(s, prefix.len(), s.len())
    } else {
        let whole = slice_of(s, 0, s.len());
        assert(s@.subrange(0, s.len() as int) =~= s@);
        whole
    };
    if finishes_with(&t, suffix) {
        slice_of(&t, 0, t.len() - suffix.len())
    } else {
        let whole = slice_of(s, 0, s.len());
        assert(s@.subrange(0, s.len() as int) =~= s@);
        whole
    }
}

/// Composes a label and its alternatives with their shared beginning and
/// ending written once, outside the braces.
pub fn compose_with_stem(label: &str, sep: &str, items: &[String], sort_items: bool) -> (r: String)
    ensures
        r@ == stem_compose(label@, sep@, texts(items@), sort_items),
{
    let all = chars_of_all(items);
    let prefix = shared_front(&all);
    let suffix = shared_back(&all);
    let mut stripped: Vec<Vec<char>> = Vec::new();
    let mut i: usize = 0;
    while i < all.len()
        invariant
            i <= all.len(),
            rows(all@) == texts(items@),
            prefix@ == common_prefix(texts(items@)),
            suffix@ == common_suffix(texts(items@)),
            stripped.len() == i,
            forall|j: int|
                0 <= j < i ==> (#[trigger] stripped[j])@ == strip_both(
                    texts(items@)[j],
                    prefix@,
                    suffix@,
                ),
        decreases all.len() - i,
    {
        assert(rows(all@)[i as int] == all[i as int]@);
        stripped.push(strip_item(&all[i], &prefix, &suffix));
        i += 1;
    }
    assert(rows(stripped@) =~= variants(texts(items@)));
    let plain = texts_of_all(&stripped);
    let vars = if sort_items {
        sort_texts(plain.as_slice())
    } else {
        plain
    };
    let mut r = String::new();
    if !label.is_empty() {
        r.append(label);
        r.append(sep);
    }
    r.append(text_of(&prefix).as_str());
    r.append(wrap_items(vars.as_slice()).as_str());
    r.append(text_of(&suffix).as_str());
    assert(r@ =~= stem_compose(label@, sep@, texts(items@), sort_items));
    r
}

/// The representation of a node, from its label, its depth, its raw leaves
/// and its items.
pub fn render_node(
    label: &str,
    sep: &str,
    depth: usize,
    raws: &[String],
    items: &[String],
    config: &BraceConfig,
) -> (r: String)
    requires
        config.max_brace_size != Some(0usize),
    ensures
        r@ == render(label@, sep@, depth as nat, texts(raws@), texts(items@), config@),
{
    proof {
        reveal_strlit(" ");
        assert(" "@ =~= seq![' ']);
    }
    if depth > config.max_depth {
        let suffixes = relative_suffixes(label, sep, raws);
        if config.disallow_empty_braces && mixes_empty_items(suffixes.as_slice()) {
            join_texts(raws, " ")
        } else {
            compose_label_and_items(
                label,
                sep,
                suffixes.as_slice(),
                config.max_brace_size,
                config.sort_items,
            )
        }
    } else if config.disallow_empty_braces && mixes_empty_items(items) {
        join_texts(raws, " ")
    } else if config.allow_stem_split && crate::processor::normalise::can_stem_split(items) {
        compose_with_stem(label, sep, items, config.sort_items)
    } else {
        compose_label_and_items(label, sep, items, config.max_brace_size, config.sort_items)
    }
}

/// Tells whether some child of node `idx` stands for a trailing separator.
pub fn has_trailing_sep_child(nodes: &[Node], idx: usize) -> (r: bool)
    requires
        trie_wf(trie_view(nodes@)),
        idx < nodes.len(),
    ensures
        r == has_trailing_child(trie_view(nodes@), idx as int),
{
    let ghost trie = trie_view(nodes@);
    let node = &nodes[idx];
    let mut j: usize = 0;
    while j < node.children.len()
        invariant
            j <= node.children@.len(),
            trie == trie_view(nodes@),
            trie_wf(trie),
            idx < nodes.len(),
            node == &nodes[idx as int],
            forall|k: int| 0 <= k < j ==> !trailing_at(trie, idx as int, k),
        decreases node.children@.len() - j,
    {
        match node.children.get_index(j) {
            Some((_, child)) => {
                assert(trie[idx as int].children[j as int].node == *child);
                if nodes[*child].is_trailing_sep {
                    assert(trailing_at(trie, idx as int, j as int));
                    return true;
                }
            },
            None => {},
        }
        j += 1;
    }
    false
}

/// The representations of the children of node `idx`, in their order,
/// taken from the map, which holds them all.
pub fn gather_reprs(
    nodes: &[Node],
    idx: usize,
    sep: &str,
    config: &BraceConfig,
    reprs: &HashMap<usize, String>,
) -> (r: Vec<String>)
    requires
        trie_wf(trie_view(nodes@)),
        idx < nodes.len(),
        reprs_sound(reprs@, trie_view(nodes@), sep@, config@),
        ready(
            reprs@,
            trie_view(nodes@),
            idx as int,
            trie_view(nodes@)[idx as int].children.len() as int,
        ),
    ensures
        texts(r@) == reprs_upto(
            trie_view(nodes@),
            idx as int,
            trie_view(nodes@)[idx as int].children.len() as int,
            sep@,
            config@,
        ),
{
    let ghost trie = trie_view(nodes@);
    let node = &nodes[idx];
    let mut r: Vec<String> = Vec::new();
    let mut j: usize = 0;
    while j < node.children.len()
        invariant
            j <= node.children@.len(),
            trie == trie_view(nodes@),
            trie_wf(trie),
            idx < nodes.len(),
            node == &nodes[idx as int],
            reprs_sound(reprs@, trie, sep@, config@),
            ready(reprs@, trie, idx as int, trie[idx as int].children.len() as int),
            texts(r@) == reprs_upto(trie, idx as int, j as int, sep@, config@),
        decreases node.children@.len() - j,
    {
        match node.children.get_index(j) {
            Some((key, child)) => {
                assert(trie[idx as int].children[j as int].node == *child);
                assert(holds(reprs@, trie[idx as int].children[j as int].node));
                let item = match reprs.get(child) {
                    Some(text) => text.clone(),
                    None => key.label.clone(),
                };
                assert(texts(r@.push(item)) =~= texts(r@).push(item@));
                r.push(item);
            },
            None => {},
        }
        j += 1;
    }
    r
}

/// The raw leaves of the children of node `idx`, one child after another,
/// taken from the map, which holds them all.
pub fn gather_raws(nodes: &[Node], idx: usize, sep: &str, raws: &HashMap<usize, Vec<String>>) -> (r:
    Vec<String>)
    requires
        trie_wf(trie_view(nodes@)),
        idx < nodes.len(),
        raws_sound(raws@, trie_view(nodes@), sep@),
        ready(
            raws@,
            trie_view(nodes@),
            idx as int,
            trie_view(nodes@)[idx as int].children.len() as int,
        ),
    ensures
        texts(r@) == raws_upto(
            trie_view(nodes@),
            idx as int,
            trie_view(nodes@)[idx as int].children.len() as int,
            sep@,
        ),
{
    let ghost trie = trie_view(nodes@);
    let node = &nodes[idx];
    let mut r: Vec<String> = Vec::new();
    let mut j: usize = 0;
    while j < node.children.len()
        invariant
            j <= node.children@.len(),
            trie == trie_view(nodes@),
            trie_wf(trie),
            idx < nodes.len(),
            node == &nodes[idx as int],
            raws_sound(raws@, trie, sep@),
            ready(raws@, trie, idx as int, trie[idx as int].children.len() as int),
            texts(r@) == raws_upto(trie, idx as int, j as int, sep@),
        decreases node.children@.len() - j,
    {
        match node.children.get_index(j) {
            Some((key, child)) => {
                assert(trie[idx as int].children[j as int].node == *child);
                assert(holds(raws@, trie[idx as int].children[j as int].node));
                match raws.get(child) {
                    Some(list) => {
                        append_texts(&mut r, list.as_slice());
                    },
                    None => {
                        r.push(key.label.clone());
                    },
                }
            },
            None => {},
        }
        j += 1;
    }
    r
}

/// The raw leaves of a node, from those of its children taken together.
pub fn node_raw_leaves(
    label: &str,
    sep: &str,
    childless: bool,
    ends_here: bool,
    below: &[String],
) -> (r: Vec<String>)
    ensures
        texts(r@) == assemble_raws(label@, sep@, childless, ends_here, texts(below@)),
{
    let mut r: Vec<String> = Vec::new();
    if childless {
        r.push(label.to_string());
        assert(texts(r@) =~= seq![label@]);
        return r;
    }
    let mut i: usize = 0;
    while i < below.len()
        invariant
            i <= below.len(),
            r.len() == i,
            forall|j: int|
                0 <= j < i ==> (#[trigger] r[j])@ == with_label(label@, sep@, below[j]@),
        decreases below.len() - i,
    {
        r.push(label_with(label, sep, below[i].clone()));
        i += 1;
    }
    if ends_here {
        r.push(label.to_string());
    }
    assert(texts(r@) =~= assemble_raws(label@, sep@, childless, ends_here, texts(below@)));
    r
}

/// Computes the brace expression and the raw leaves of node `idx`, whose
/// children all have their entries, and enters both in the maps.
pub fn compute_node(
    nodes: &[Node],
    idx: usize,
    sep: &str,
    config: &BraceConfig,
    reprs: &mut HashMap<usize, String>,
    leaves: &mut HashMap<usize, Vec<String>>,
)
    requires
        trie_wf(trie_view(nodes@)),
        idx < nodes.len(),
        config.max_brace_size != Some(0usize),
        reprs_sound(old(reprs)@, trie_view(nodes@), sep@, config@),
        raws_sound(old(leaves)@, trie_view(nodes@), sep@),
        ready(
            old(reprs)@,
            trie_view(nodes@),
            idx as int,
            trie_view(nodes@)[idx as int].children.len() as int,
        ),
        ready(
            old(leaves)@,
            trie_view(nodes@),
            idx as int,
            trie_view(nodes@)[idx as int].children.len() as int,
        ),
    ensures
        reprs_sound(final(reprs)@, trie_view(nodes@), sep@, config@),
        raws_sound(final(leaves)@, trie_view(nodes@), sep@),
        final(reprs)@.dom() == old(reprs)@.dom().insert(idx),
        final(leaves)@.dom() == old(leaves)@.dom().insert(idx),
{
    let ghost trie = trie_view(nodes@);
    let node = &nodes[idx];
    let trailing = has_trailing_sep_child(nodes, idx);
    let child_raws = gather_raws(nodes, idx, sep, leaves);
    let node_raws = node_raw_leaves(
        node.label.as_str(),
        sep,
        node.children.is_empty(),
        node.is_leaf && !trailing,
        child_raws.as_slice(),
    );
    let mut items = gather_reprs(nodes, idx, sep, config, reprs);
    if node.is_leaf && !node.is_trailing_sep && !trailing {
        let blank = String::new();
        assert(texts(items@.push(blank)) =~= texts(items@).push(Seq::empty()));
        items.push(blank);
    }
    let repr = render_node(
        node.label.as_str(),
        sep,
        node.depth,
        node_raws.as_slice(),
        items.as_slice(),
        config,
    );
    assert(texts(node_raws@) == raw_leaves(trie, idx as int, sep@));
    assert(repr@ == node_repr(trie, idx as int, sep@, config@));
    leaves.insert(idx, node_raws);
    reprs.insert(idx, repr);
    assert(reprs@.dom() =~= old(reprs)@.dom().insert(idx));
    assert(leaves@.dom() =~= old(leaves)@.dom().insert(idx));
}

/// Computes the brace expression and the raw leaves of `root_idx` and of
/// every node below it, children before parents. The walk keeps a stack of
/// the nodes in work, each with the number of its children already seen to,
/// so that no depth of the trie can exhaust the call stack.
#[verifier::rlimit(40)]
pub fn compute_reprs(nodes: &[Node], root_idx: usize, sep: &str, config: &BraceConfig) -> (r: (
    HashMap<usize, String>,
    HashMap<usize, Vec<String>>,
))
    requires
        trie_wf(trie_view(nodes@)),
        root_idx < nodes.len(),
        config.max_brace_size != Some(0usize),
    ensures
        reprs_hold(r.0@, trie_view(nodes@), root_idx as int, sep@, config@),
        raws_hold(r.1@, trie_view(nodes@), root_idx as int, sep@),
{
    let ghost trie = trie_view(nodes@);
    let ghost root = root_idx as int;
    let mut reprs: HashMap<usize, String> = HashMap::new();
    let mut leaves: HashMap<usize, Vec<String>> = HashMap::new();
    let mut stack: Vec<(usize, usize)> = Vec::new();
    stack.push((root_idx, 0));
    let ghost mut post: Seq<int> = Seq::empty();
    proof {
        assert(frame_ok(stack@, 0, trie, root, reprs@));
    }
    while stack.len() > 0
        invariant
            trie == trie_view(nodes@),
            root == root_idx as int,
            trie_wf(trie),
            root_idx < nodes.len(),
            config.max_brace_size != Some(0usize),
            walking(stack@, trie, root, reprs@),
            closed(reprs@, trie),
            reprs_sound(reprs@, trie, sep@, config@),
            raws_sound(leaves@, trie, sep@),
            reprs@.dom() == leaves@.dom(),
            forall|k: usize| #[trigger] reprs@.contains_key(k) ==> reaches(trie, root, k as int),
            stack.len() == 0 ==> reprs@.contains_key(root_idx),
            post.no_duplicates(),
            forall|i: int| 0 <= i < post.len() ==> 0 <= #[trigger] post[i] < nodes.len(),
            forall|k: usize| #[trigger] reprs@.contains_key(k) <==> post.contains(k as int),
        decreases
                nodes.len() - post.len(),
                room_above(stack@, nodes.len() as int),
                children_left(stack@, trie),
    {
        let ghost frames = stack@;
        let ghost before = reprs@;
        let top = stack.len() - 1;
        let (idx, next) = stack[top];
        proof {
            assert(frame_ok(frames, top as int, trie, root, before));
            lemma_distinct_bounded(post, nodes.len() as int);
        }
        let node = &nodes[idx];
        if next < node.children.len() {
            let child: usize = match node.children.get_index(next) {
                Some((_, c)) => *c,
                None => 0,
            };
            assert(trie[idx as int].children[next as int].node == child);
            assert(idx < child < nodes.len());
            stack.set(top, (idx, next + 1));
            let known = reprs.contains_key(&child);
            if !known {
                stack.push((child, 0));
            }
            proof {
                let now = stack@;
                lemma_reaches_child(trie, root, idx as int, next as int);
                assert forall|f: int| 0 <= f < now.len() implies #[trigger] frame_ok(
                    now,
                    f,
                    trie,
                    root,
                    before,
                ) by {
                    if f < top {
                        assert(frame_ok(frames, f, trie, root, before));
                        assert(now[f] == frames[f]);
                        assert(now[f + 1].0 == frames[f + 1].0);
                    } else if f == top {
                        if known {
                            assert(holds(before, child as int));
                        }
                    }
                }
                assert forall|f: int, g: int| 0 <= f < g < now.len() implies (#[trigger] now[f]).0
                    < (#[trigger] now[g]).0 by {
                    if g <= top {
                        assert(frames[f].0 < frames[g].0);
                    } else if f < top {
                        assert(frames[f].0 < frames[top as int].0);
                    }
                }
            }
        } else {
            compute_node(nodes, idx, sep, config, &mut reprs, &mut leaves);
            stack.pop();
            proof {
                let now = stack@;
                let after = reprs@;
                assert(after.contains_key(idx));
                assert forall|k: usize| before.contains_key(k) implies after.contains_key(k) by {}
                assert forall|k: usize| #[trigger] after.contains_key(k) implies k < trie.len()
                    && ready(after, trie, k as int, trie[k as int].children.len() as int) by {
                    if k == idx {
                        assert(ready(before, trie, k as int, trie[k as int].children.len() as int));
                    } else {
                        assert(before.contains_key(k));
                    }
                    assert forall|j: int|
                        0 <= j < trie[k as int].children.len() implies holds(
                        after,
                        (#[trigger] trie[k as int].children[j]).node,
                    ) by {
                        assert(holds(before, trie[k as int].children[j].node));
                    }
                }
                assert forall|f: int| 0 <= f < now.len() implies #[trigger] frame_ok(
                    now,
                    f,
                    trie,
                    root,
                    after,
                ) by {
                    assert(frame_ok(frames, f, trie, root, before));
                    assert(now[f] == frames[f]);
                    assert(frames[f].0 < frames[top as int].0);
                    let node_f = frames[f].0 as int;
                    let next_f = frames[f].1 as int;
                    assert forall|j: int| 0 <= j < next_f - 1 implies holds(
                        after,
                        (#[trigger] trie[node_f].children[j]).node,
                    ) by {
                        assert(holds(before, trie[node_f].children[j].node));
                    }
                    if f + 1 == now.len() {
                        assert(trie[node_f].children[next_f - 1].node == idx);
                        assert(holds(after, idx as int));
                    } else {
                        assert(now[f + 1] == frames[f + 1]);
                    }
                }
                assert forall|f: int, g: int| 0 <= f < g < now.len() implies (#[trigger] now[f]).0
                    < (#[trigger] now[g]).0 by {
                    assert(frames[f].0 < frames[g].0);
                }
                let grown = post.push(idx as int);
                assert(!post.contains(idx as int));
                assert forall|i: int, j: int|
                    0 <= i < grown.len() && 0 <= j < grown.len() && i != j implies grown[i]
                    != grown[j] by {
                    if i < post.len() && j < post.len() {
                    } else if i < post.len() {
                        assert(post.contains(post[i]));
                    } else {
                        assert(post.contains(post[j]));
                    }
                }
                assert forall|k: usize| #[trigger] after.contains_key(k) <==> grown.contains(
                    k as int,
                ) by {
                    if k == idx {
                        assert(grown[post.len() as int] == idx as int);
                    } else {
                        if before.contains_key(k) {
                            let i = choose|i: int| 0 <= i < post.len() && post[i] == k as int;
                            assert(grown[i] == k as int);
                        }
                        if grown.contains(k as int) {
                            let i = choose|i: int| 0 <= i < grown.len() && grown[i] == k as int;
                            assert(post[i] == k as int);
                        }
                    }
                }
                post = grown;
                lemma_distinct_bounded(post, nodes.len() as int);
                if now.len() == 0 {
                    assert(frames[0].0 == root_idx);
                }
            }
        }
    }
    proof {
        assert forall|k: usize| reaches(trie, root, k as int) implies #[trigger] reprs@.contains_key(
            k,
        ) by {
            lemma_closed_reaches(reprs@, trie, root, k as int);
        }
        assert forall|k: usize| #[trigger] leaves@.contains_key(k) <==> reaches(
            trie,
            root,
            k as int,
        ) by {
            assert(leaves@.dom().contains(k) == reprs@.dom().contains(k));
        }
    }
    (reprs, leaves)
}

/// The position of the brace that closes a group, scanning from `i` with
/// `depth` groups open; the end of the text where none closes it.
pub open spec fn closing(s: Seq<char>, i: int, depth: int) -> int
    decreases s.len() - i,
{
    if i < 0 || i >= s.len() {
        s.len() as int
    } else if s[i] == '{' {
        closing(s, i + 1, depth + 1)
    } else if s[i] == '}' {
        if depth <= 1 {
            i
        } else {
            closing(s, i + 1, depth - 1)
        }
    } else {
        closing(s, i + 1, depth)
    }
}

/// The position of the brace that closes the group opened at `open`; the
/// end of the text for a group that is never closed.
pub open spec fn group_close(s: Seq<char>, open: int) -> int {
    let end = closing(s, open + 1, 1);
    if open < end <= s.len() {
        end
    } else {
        s.len() as int
    }
}

/// The alternatives of a group's content: `inner[start..]` cut at every comma
/// that lies in no nested group, scanning from `i` with `depth` nested groups
/// open.
pub open spec fn split_top(inner: Seq<char>, i: int, start: int, depth: int) -> Seq<Seq<char>>
    decreases inner.len() - i,
{
    if i < 0 || start < 0 || start > i {
        Seq::empty()
    } else if i >= inner.len() {
        seq![inner.subrange(start, inner.len() as int)]
    } else if inner[i] == ',' && depth <= 0 {
        seq![inner.subrange(start, i)] + split_top(inner, i + 1, i + 1, 0)
    } else if inner[i] == '{' {
        split_top(inner, i + 1, start, depth + 1)
    } else if inner[i] == '}' && depth > 0 {
        split_top(inner, i + 1, start, depth - 1)
    } else {
        split_top(inner, i + 1, start, depth)
    }
}

/// The alternatives of a group's content.
pub open spec fn alternatives(inner: Seq<char>) -> Seq<Seq<char>> {
    split_top(inner, 0, 0, 0)
}

/// Every result so far, continued by `mid` and then by each option in turn.
pub open spec fn spread(results: Seq<Seq<char>>, mid: Seq<char>, opts: Seq<Seq<char>>) -> Seq<
    Seq<char>,
>
    decreases results.len(),
{
    if results.len() == 0 {
        Seq::empty()
    } else {
        spread(results.drop_last(), mid, opts) + Seq::new(
            opts.len(),
            |k: int| results.last() + mid + opts[k],
        )
    }
}

/// Every result, continued by `tail`.
pub open spec fn finish(results: Seq<Seq<char>>, tail: Seq<char>) -> Seq<Seq<char>> {
    Seq::new(results.len(), |k: int| results[k] + tail)
}

/// The expansions of the first `n` alternatives, one alternative after
/// another. `bound` is the length of the text that the alternatives were cut
/// from, which every one of them is shorter than.
pub open spec fn expand_all(bound: nat, alts: Seq<Seq<char>>, n: int) -> Seq<Seq<char>>
    decreases bound, 0nat, n,
{
    if n <= 0 || n > alts.len() {
        Seq::empty()
    } else {
        expand_all(bound, alts, n - 1) + (if alts[n - 1].len() < bound {
            expand(alts[n - 1])
        } else {
            seq![alts[n - 1]]
        })
    }
}

/// The expansion of `s[i..]`, given the partial `results` for what came
/// before the last group and the literal text `current` read since.
pub open spec fn expand_scan(
    s: Seq<char>,
    i: int,
    results: Seq<Seq<char>>,
    current: Seq<char>,
) -> Seq<Seq<char>>
    decreases s.len(), s.len() - i + 1, 0nat,
{
    if i < 0 || i >= s.len() {
        finish(results, current)
    } else if s[i] == '{' {
        let end = group_close(s, i);
        let alts = alternatives(s.subrange(i + 1, end));
        let opts = expand_all(s.len(), alts, alts.len() as int);
        let next = if end < s.len() {
            end + 1
        } else {
            end
        };
        expand_scan(s, next, spread(results, current, opts), Seq::empty())
    } else {
        expand_scan(s, i + 1, results, current.push(s[i]))
    }
}

/// The literal strings that a brace expression stands for, in order: the
/// first alternative of the first group first. A `}` that closes nothing is
/// literal text; a `{` that nothing closes opens a group that runs to the
/// end.
pub open spec fn expand(s: Seq<char>) -> Seq<Seq<char>>
    decreases s.len(), s.len() + 2, 0nat,
{
    expand_scan(s, 0, seq![Seq::empty()], Seq::empty())
}

/// Finds the brace that closes the group opened at `open`.
pub fn find_close(s: &Vec<char>, open: usize) -> (end: usize)
    requires
        open < s.len(),
    ensures
        end == group_close(s@, open as int),
        open < end <= s.len(),
{
    let mut i: usize = open + 1;
    let mut depth: usize = 1;
    while i < s.len()
        invariant
            open < i <= s.len(),
            depth >= 1,
            depth <= i,
            closing(s@, open + 1, 1) == closing(s@, i as int, depth as int),
        decreases s.len() - i,
    {
        if s[i] == '{' {
            depth += 1;
        } else if s[i] == '}' {
            if depth == 1 {
                return i;
            }
            depth -= 1;
        }
        i += 1;
    }
    i
}

/// Cuts a group's content into its alternatives.
pub fn split_alternatives(inner: &Vec<char>) -> (r: Vec<Vec<char>>)
    ensures
        rows(r@) == alternatives(inner@),
{
    let mut r: Vec<Vec<char>> = Vec::new();
    let mut start: usize = 0;
    let mut depth: usize = 0;
    let mut i: usize = 0;
    while i < inner.len()
        invariant
            start <= i <= inner.len(),
            depth <= i,
            alternatives(inner@) == rows(r@) + split_top(
                inner@,
                i as int,
                start as int,
                depth as int,
            ),
        decreases inner.len() - i,
    {
        if inner[i] == ',' && depth == 0 {
            let piece = slice_of(inner, start, i);
            assert(rows(r@.push(piece)) =~= rows(r@) + seq![piece@]);
            r.push(piece);
            start = i + 1;
        } else if inner[i] == '{' {
            depth += 1;
        } else if inner[i] == '}' && depth > 0 {
            depth -= 1;
        }
        i += 1;
    }
    let piece = slice_of(inner, start, inner.len());
    assert(rows(r@.push(piece)) =~= rows(r@) + seq![piece@]);
    r.push(piece);
    r
}

/// Continues every result by `mid` and then by each option in turn.
pub fn spread_over(results: &Vec<Vec<char>>, mid: &Vec<char>, opts: &Vec<Vec<char>>) -> (r: Vec<
    Vec<char>,
>)
    ensures
        rows(r@) == spread(rows(results@), mid@, rows(opts@)),
{
    let mut r: Vec<Vec<char>> = Vec::new();
    let mut a: usize = 0;
    assert(rows(results@).take(0) =~= Seq::empty());
    while a < results.len()
        invariant
            a <= results.len(),
            rows(r@) == spread(rows(results@).take(a as int), mid@, rows(opts@)),
        decreases results.len() - a,
    {
        let ghost done = rows(r@);
        let ghost row = Seq::new(
            opts.len() as nat,
            |k: int| results[a as int]@ + mid@ + rows(opts@)[k],
        );
        let mut b: usize = 0;
        while b < opts.len()
            invariant
                a < results.len(),
                b <= opts.len(),
                rows(r@) == done + row.take(b as int),
                row.len() == opts.len(),
                forall|k: int|
                    0 <= k < opts.len() ==> #[trigger] row[k] == results[a as int]@ + mid@ + rows(
                        opts@,
                    )[k],
            decreases opts.len() - b,
        {
            let mut piece = slice_of(&results[a], 0, results[a].len());
            assert(results[a as int]@.subrange(0, results[a as int].len() as int)
                =~= results[a as int]@);
            crate::text::push_all(&mut piece, mid);
            crate::text::push_all(&mut piece, &opts[b]);
            proof {
                assert(rows(opts@)[b as int] == opts[b as int]@);
                assert(piece@ == row[b as int]);
                assert(rows(r@.push(piece)) =~= rows(r@) + seq![piece@]);
                assert(row.take(b + 1) =~= row.take(b as int) + seq![row[b as int]]);
            }
            r.push(piece);
            b += 1;
        }
        proof {
            let upto = rows(results@).take(a + 1);
            assert(upto.drop_last() =~= rows(results@).take(a as int));
            assert(upto.last() == results[a as int]@);
            assert(row.take(opts.len() as int) =~= row);
            assert(row =~= Seq::new(
                rows(opts@).len(),
                |k: int| upto.last() + mid@ + rows(opts@)[k],
            ));
        }
        a += 1;
    }
    assert(rows(results@).take(results.len() as int) =~= rows(results@));
    r
}

/// Appends copies of the rows of `more` to `out`.
pub fn append_rows(out: &mut Vec<Vec<char>>, more: &Vec<Vec<char>>)
    ensures
        rows(final(out)@) == rows(old(out)@) + rows(more@),
{
    let mut i: usize = 0;
    while i < more.len()
        invariant
            i <= more.len(),
            rows(out@) == rows(old(out)@) + rows(more@).take(i as int),
        decreases more.len() - i,
    {
        let piece = slice_of(&more[i], 0, more[i].len());
        proof {
            assert(more[i as int]@.subrange(0, more[i as int].len() as int) =~= more[i as int]@);
            assert(rows(out@.push(piece)) =~= rows(out@) + seq![piece@]);
            assert(rows(more@).take(i + 1) =~= rows(more@).take(i as int) + seq![
                more[i as int]@,
            ]);
        }
        out.push(piece);
        i += 1;
    }
    assert(rows(more@).take(more.len() as int) =~= rows(more@));
}

/// Expands a brace expression given as characters.
pub fn expand_chars(s: &Vec<char>) -> (r: Vec<Vec<char>>)
    ensures
        rows(r@) == expand(s@),
    decreases s.len(),
{
    let mut results: Vec<Vec<char>> = Vec::new();
    results.push(Vec::new());
    assert(rows(results@) =~= seq![Seq::<char>::empty()]);
    let mut current: Vec<char> = Vec::new();
    let mut i: usize = 0;
    while i < s.len()
        invariant
            i <= s.len(),
            expand(s@) == expand_scan(s@, i as int, rows(results@), current@),
        decreases s.len() - i,
    {
        if s[i] == '{' {
            let end = find_close(s, i);
            let inner = slice_of(s, i + 1, end);
            let alts = split_alternatives(&inner);
            let mut opts: Vec<Vec<char>> = Vec::new();
            let mut k: usize = 0;
            while k < alts.len()
                invariant
                    k <= alts.len(),
                    i < s.len(),
                    rows(alts@) == alternatives(
                        s@.subrange(i + 1, group_close(s@, i as int)),
                    ),
                    rows(opts@) == expand_all(s@.len(), rows(alts@), k as int),
                decreases alts.len() - k,
            {
                proof {
                    assert(rows(alts@)[k as int] == alts[k as int]@);
                    lemma_alternatives_shorter(s@, i as int, k as int);
                }
                let more = expand_chars(&alts[k]);
                append_rows(&mut opts, &more);
                k += 1;
            }
            results = spread_over(&results, &current, &opts);
            current = Vec::new();
            i = if end < s.len() {
                end + 1
            } else {
                end
            };
        } else {
            current.push(s[i]);
            i += 1;
        }
    }
    let mut r: Vec<Vec<char>> = Vec::new();
    let mut k: usize = 0;
    while k < results.len()
        invariant
            k <= results.len(),
            r.len() == k,
            forall|j: int| 0 <= j < k ==> (#[trigger] r[j])@ == results[j]@ + current@,
        decreases results.len() - k,
    {
        let mut piece = slice_of(&results[k], 0, results[k].len());
        assert(results[k as int]@.subrange(0, results[k as int].len() as int)
            =~= results[k as int]@);
        crate::text::push_all(&mut piece, &current);
        r.push(piece);
        k += 1;
    }
    assert(rows(r@) =~= finish(rows(results@), current@));
    r
}

/// Expands a brace expression into the literal strings it stands for
/// (`a{b,c}d` into `abd` and `acd`).
pub fn expand_braces(pattern: &str) -> (r: Vec<String>)
    ensures
        texts(r@) == expand(pattern@),
{
    let s = chars_of(pattern);
    texts_of_all(&expand_chars(&s))
}

} // verus!
