//! Expanding a compressed list of paths gives the paths back: first for the
//! expression of a trie whose labels are plain and whose paths end only at
//! childless nodes, then for the paths that build such a trie. Along the
//! way: how deep such an expression can nest.

use vstd::prelude::*;
use crate::error::ErrorView;
use crate::processor::balance::{
    balanced, expands_to, framed, gathered, lemma_braced_within, lemma_concat_within,
    lemma_group_expands, lemma_join_balanced, lemma_join_first, lemma_join_within,
    lemma_level_plain, lemma_plain_concat, lemma_plain_expands, lemma_plain_sealed,
    lemma_plain_within, lemma_prefix_expands, lemma_within_more, plain, sealed, within,
};
use crate::processor::expansion::{
    assemble_items, braced, compose, expand, has_trailing_child, mixes_empty, node_repr,
    raw_leaves, raws_upto, relatives, reprs_upto, stops_here, with_label, wrap,
};
use crate::processor::normalise::{common_suffix, lemma_common_suffix_ends, stem_splittable};
use crate::processor::sorting::arranged;
use crate::processor::theorems::{lemma_dedup_contains, lemma_dedup_empty};
use crate::processor::trie::paths::{
    accompanied, all_segments, leads, lemma_ancestor, lemma_child_of, lemma_tracks_clean,
    lemma_trie_tracks, tidy, tracks, Ledger,
};
use crate::processor::trie::{lemma_join_segments, trie_of, trie_wf, NodeView};
use crate::processor::{
    compression, dedup, default_config, path_trie, prepared, rejection, separated, stripped,
    ConfigView,
};
use crate::text::{join, starts_with};

verus! {

/// The trie has plain labels, which are empty only at the root and at the
/// nodes that stand for a trailing separator; paths end exactly at its
/// childless nodes; a node with a child that stands for a trailing
/// separator has another child and lies within the depth limit; every child
/// is one deeper than its parent; and the separator is plain and not empty.
pub open spec fn clean(trie: Seq<NodeView>, sep: Seq<char>, max_depth: int) -> bool {
    &&& trie_wf(trie)
    &&& plain(sep)
    &&& sep.len() > 0
    &&& trie[0].label.len() == 0
    &&& !trie[0].is_trailing_sep
    &&& forall|idx: int|
        1 <= idx < trie.len() ==> plain((#[trigger] trie[idx]).label) && (trie[idx].label.len()
            == 0 <==> trie[idx].is_trailing_sep)
    &&& forall|idx: int|
        0 <= idx < trie.len() ==> ((#[trigger] trie[idx]).is_leaf <==> trie[idx].children.len()
            == 0) && (trie[idx].is_trailing_sep ==> trie[idx].is_leaf)
    &&& forall|idx: int, j: int|
        0 <= idx < trie.len() && 0 <= j < trie[idx].children.len() ==> trie[(
        #[trigger] trie[idx].children[j]).node].depth == trie[idx].depth + 1 && (trie[trie[idx].children[j].node].is_trailing_sep
            ==> trie[idx].children.len() >= 2 && trie[idx].depth <= max_depth)
}

/// The configuration groups items as they come: no stem splitting, no
/// limit on the size of a group, no sorting, and empty alternatives allowed.
pub open spec fn simple(cfg: ConfigView) -> bool {
    !cfg.allow_stem_split && cfg.max_brace_size is None && !cfg.sort_items
        && !cfg.disallow_empty_braces
}

/// What stands before the paths below a node: its label and the separator,
/// or nothing for the root.
pub open spec fn lead(label: Seq<char>, sep: Seq<char>) -> Seq<char> {
    if label.len() == 0 {
        Seq::empty()
    } else {
        label + sep
    }
}

/// The literal paths below the first `upto` children of node `idx`, one
/// child after another.
pub open spec fn paths_upto(trie: Seq<NodeView>, idx: int, upto: int, sep: Seq<char>) -> Seq<
    Seq<char>,
>
    decreases trie.len() - idx, upto,
{
    if upto <= 0 || idx < 0 || idx >= trie.len() || upto > trie[idx].children.len() {
        Seq::empty()
    } else {
        let c = trie[idx].children[upto - 1];
        paths_upto(trie, idx, upto - 1, sep) + (if idx < c.node < trie.len() {
            paths_below(trie, c.node, sep)
        } else {
            Seq::empty()
        })
    }
}

/// The literal paths that end at or below node `idx`, each from the node's
/// own label on, with the separator after every label that a further
/// segment follows.
pub open spec fn paths_below(trie: Seq<NodeView>, idx: int, sep: Seq<char>) -> Seq<Seq<char>>
    decreases trie.len() - idx, trie[idx].children.len() + 1,
{
    if idx < 0 || idx >= trie.len() {
        Seq::empty()
    } else if trie[idx].children.len() == 0 {
        seq![trie[idx].label]
    } else {
        framed(
            lead(trie[idx].label, sep),
            paths_upto(trie, idx, trie[idx].children.len() as int, sep),
            Seq::empty(),
        )
    }
}

/// The literal paths below each child of node `idx`.
pub open spec fn child_meanings(trie: Seq<NodeView>, idx: int, sep: Seq<char>) -> Seq<
    Seq<Seq<char>>,
> {
    Seq::new(
        trie[idx].children.len(),
        |j: int| paths_below(trie, trie[idx].children[j].node, sep),
    )
}

/// Every text is plain and not empty.
pub open spec fn solid(texts: Seq<Seq<char>>) -> bool {
    forall|k: int| 0 <= k < texts.len() ==> plain(#[trigger] texts[k]) && texts[k].len() > 0
}

/// How deep the expression of a node at `depth` may nest: one level for a
/// node beyond the depth limit, and one more for every level up to the
/// root.
pub open spec fn allowance(depth: nat, max_depth: usize) -> int {
    if depth > max_depth {
        1
    } else {
        max_depth + 2 - depth
    }
}

/// One-item lists, written one after another, are the items.
pub proof fn lemma_gathered_singles(items: Seq<Seq<char>>, n: int)
    requires
        0 <= n <= items.len(),
    ensures
        gathered(Seq::new(items.len(), |i: int| seq![items[i]]), n) == items.subrange(0, n),
    decreases n,
{
    let ms = Seq::new(items.len(), |i: int| seq![items[i]]);
    if n > 0 {
        lemma_gathered_singles(items, n - 1);
        assert(ms[n - 1] == seq![items[n - 1]]);
        assert(items.subrange(0, n - 1) + seq![items[n - 1]] =~= items.subrange(0, n));
    } else {
        assert(items.subrange(0, 0) =~= Seq::<Seq<char>>::empty());
    }
}

/// Solid items as one expression stand for themselves, and nest one level
/// at most.
pub proof fn lemma_wrap_solid(items: Seq<Seq<char>>)
    requires
        items.len() >= 1,
        solid(items),
    ensures
        expands_to(wrap(items), items),
        wrap(items).len() > 0,
        within(wrap(items), 1),
{
    assert forall|k: int| 0 <= k < items.len() implies balanced(#[trigger] items[k]) && within(
        items[k],
        0,
    ) by {
        lemma_plain_sealed(items[k]);
        lemma_plain_within(items[k]);
    }
    if items.len() == 1 {
        lemma_plain_expands(items[0]);
        assert(seq![items[0]] =~= items);
        lemma_within_more(items[0], 0, 1);
    } else {
        lemma_join_balanced(items);
        lemma_join_within(items, 0);
        lemma_braced_within(join(items, seq![',']), 0);
        let ms = Seq::new(items.len(), |i: int| seq![items[i]]);
        assert forall|k: int| 0 <= k < items.len() implies expands_to(#[trigger] items[k], ms[k]) by {
            lemma_plain_expands(items[k]);
        }
        lemma_group_expands(items, ms);
        lemma_gathered_singles(items, items.len() as int);
        assert(items.subrange(0, items.len() as int) =~= items);
        assert(braced(join(items, seq![','])).len() > 0);
    }
}

/// Beyond the depth limit, the raw leaves of the first children of a node
/// are the literal paths below them, and they are solid.
pub proof fn lemma_deep_children(
    trie: Seq<NodeView>,
    idx: int,
    upto: int,
    sep: Seq<char>,
    max_depth: int,
)
    requires
        clean(trie, sep, max_depth),
        0 <= idx < trie.len(),
        trie[idx].depth > max_depth,
        0 <= upto <= trie[idx].children.len(),
    ensures
        raws_upto(trie, idx, upto, sep) == paths_upto(trie, idx, upto, sep),
        solid(raws_upto(trie, idx, upto, sep)),
        upto >= 1 ==> raws_upto(trie, idx, upto, sep).len() >= 1,
    decreases trie.len() - idx, upto,
{
    if upto > 0 {
        let c = trie[idx].children[upto - 1];
        assert(idx < c.node < trie.len());
        assert(!trie[c.node].is_trailing_sep);
        lemma_deep_children(trie, idx, upto - 1, sep, max_depth);
        lemma_deep_raws(trie, c.node, sep, max_depth);
        let before = raws_upto(trie, idx, upto - 1, sep);
        let added = raw_leaves(trie, c.node, sep);
        let now = raws_upto(trie, idx, upto, sep);
        assert(now == before + added);
        assert forall|k: int| 0 <= k < now.len() implies plain(#[trigger] now[k]) && now[k].len()
            > 0 by {
            if k < before.len() {
                assert(now[k] == before[k]);
            } else {
                assert(now[k] == added[k - before.len()]);
            }
        }
    }
}

/// Beyond the depth limit, the raw leaves of a node are the literal paths
/// at or below it, and they are solid unless the node stands for a trailing
/// separator.
pub proof fn lemma_deep_raws(trie: Seq<NodeView>, idx: int, sep: Seq<char>, max_depth: int)
    requires
        clean(trie, sep, max_depth),
        1 <= idx < trie.len(),
        trie[idx].depth > max_depth,
    ensures
        raw_leaves(trie, idx, sep) == paths_below(trie, idx, sep),
        raw_leaves(trie, idx, sep).len() >= 1,
        !trie[idx].is_trailing_sep ==> solid(raw_leaves(trie, idx, sep)),
    decreases trie.len() - idx, trie[idx].children.len() + 1,
{
    let e = Seq::<char>::empty();
    let label = trie[idx].label;
    let kids = trie[idx].children.len() as int;
    if kids == 0 {
        assert(raw_leaves(trie, idx, sep) == seq![label]);
    } else {
        assert(!trie[idx].is_leaf);
        assert(label.len() > 0);
        lemma_deep_children(trie, idx, kids, sep, max_depth);
        let list = raws_upto(trie, idx, kids, sep);
        let raws = raw_leaves(trie, idx, sep);
        assert(raws == Seq::new(list.len(), |i: int| with_label(label, sep, list[i])));
        lemma_plain_concat(label, sep);
        assert forall|i: int| 0 <= i < list.len() implies #[trigger] raws[i] == framed(
            label + sep,
            list,
            e,
        )[i] && plain(raws[i]) && raws[i].len() > 0 by {
            assert(label + sep + list[i] =~= (label + sep) + list[i] + e);
            lemma_plain_concat(label + sep, list[i]);
        }
        assert(raws =~= framed(label + sep, list, e));
    }
}

/// The expressions of the first children of a node stand for the literal
/// paths below those children.
pub proof fn lemma_children_expand(
    trie: Seq<NodeView>,
    idx: int,
    upto: int,
    sep: Seq<char>,
    cfg: ConfigView,
)
    requires
        clean(trie, sep, cfg.max_depth as int),
        simple(cfg),
        0 <= idx < trie.len(),
        0 <= upto <= trie[idx].children.len(),
    ensures
        reprs_upto(trie, idx, upto, sep, cfg).len() == upto,
        forall|j: int|
            0 <= j < upto ==> expands_to(
                #[trigger] reprs_upto(trie, idx, upto, sep, cfg)[j],
                child_meanings(trie, idx, sep)[j],
            ) && within(
                reprs_upto(trie, idx, upto, sep, cfg)[j],
                allowance(trie[idx].depth + 1, cfg.max_depth),
            ) && (!trie[trie[idx].children[j].node].is_trailing_sep ==> reprs_upto(
                trie,
                idx,
                upto,
                sep,
                cfg,
            )[j].len() > 0),
        paths_upto(trie, idx, upto, sep) == gathered(child_meanings(trie, idx, sep), upto),
        upto >= 1 ==> paths_upto(trie, idx, upto, sep).len() >= 1,
    decreases trie.len() - idx, upto,
{
    if upto > 0 {
        let c = trie[idx].children[upto - 1];
        assert(idx < c.node < trie.len());
        lemma_children_expand(trie, idx, upto - 1, sep, cfg);
        lemma_node_expands(trie, c.node, sep, cfg);
        let before = reprs_upto(trie, idx, upto - 1, sep, cfg);
        let now = reprs_upto(trie, idx, upto, sep, cfg);
        assert(now == before.push(node_repr(trie, c.node, sep, cfg)));
        assert(trie[c.node].depth == trie[idx].depth + 1);
        assert forall|j: int| 0 <= j < upto implies expands_to(
            #[trigger] now[j],
            child_meanings(trie, idx, sep)[j],
        ) && within(now[j], allowance(trie[idx].depth + 1, cfg.max_depth)) && (!trie[trie[idx].children[j].node].is_trailing_sep
            ==> now[j].len() > 0) by {
            if j < upto - 1 {
                assert(now[j] == before[j]);
            }
        }
    }
}

/// The expression of a node of a clean trie stands for the literal paths
/// at or below the node, in their order, and nests no deeper than the
/// depth of the node allows.
pub proof fn lemma_node_expands(trie: Seq<NodeView>, idx: int, sep: Seq<char>, cfg: ConfigView)
    requires
        clean(trie, sep, cfg.max_depth as int),
        simple(cfg),
        0 <= idx < trie.len(),
    ensures
        expands_to(node_repr(trie, idx, sep, cfg), paths_below(trie, idx, sep)),
        paths_below(trie, idx, sep).len() >= 1,
        idx >= 1 && !trie[idx].is_trailing_sep ==> node_repr(trie, idx, sep, cfg).len() > 0,
        within(node_repr(trie, idx, sep, cfg), allowance(trie[idx].depth, cfg.max_depth)),
    decreases trie.len() - idx, trie[idx].children.len() + 1,
{
    let room = allowance(trie[idx].depth, cfg.max_depth);
    let e = Seq::<char>::empty();
    let node = trie[idx];
    let label = node.label;
    let kids = node.children.len() as int;
    let raws = raw_leaves(trie, idx, sep);
    let repr = node_repr(trie, idx, sep, cfg);
    let front = lead(label, sep);
    if idx == 0 {
        assert(label =~= e);
    }
    assert(plain(label));
    if kids == 0 {
        assert(node.is_leaf);
        assert(!has_trailing_child(trie, idx));
        assert(raws_upto(trie, idx, 0, sep) =~= Seq::<Seq<char>>::empty());
        assert(reprs_upto(trie, idx, 0, sep, cfg) =~= Seq::<Seq<char>>::empty());
        assert(raws == seq![label]);
        let items = assemble_items(stops_here(trie, idx), Seq::<Seq<char>>::empty());
        assert(items.len() == 0 || items =~= seq![e]);
        let suffixes = relatives(label, sep, raws);
        assert(!starts_with(label, label + sep));
        if label.len() == 0 {
            assert(label =~= e);
        }
        assert(suffixes =~= seq![e]);
        assert(!mixes_empty(seq![e]));
        assert(!mixes_empty(items));
        assert(!stem_splittable(items));
        assert(wrap(seq![e]) == e);
        assert(wrap(Seq::<Seq<char>>::empty()) == e);
        assert(with_label(label, sep, e) =~= label);
        assert(compose(label, sep, seq![e], cfg.max_brace_size, cfg.sort_items) == label);
        assert(compose(label, sep, items, cfg.max_brace_size, cfg.sort_items) == label);
        assert(repr == label);
        lemma_plain_expands(label);
        lemma_plain_within(label);
        lemma_within_more(label, 0, room);
    } else {
        assert(!node.is_leaf);
        assert(!node.is_trailing_sep);
        if idx >= 1 {
            assert(label.len() > 0);
        }
        lemma_children_expand(trie, idx, kids, sep, cfg);
        let ms = child_meanings(trie, idx, sep);
        let below = paths_upto(trie, idx, kids, sep);
        let items = reprs_upto(trie, idx, kids, sep, cfg);
        assert(below == gathered(ms, kids));
        assert(!stops_here(trie, idx));
        assert(assemble_items(stops_here(trie, idx), items) == items);
        lemma_plain_concat(label, sep);
        let chosen = if node.depth > cfg.max_depth {
            relatives(label, sep, raws)
        } else {
            items
        };
        if node.depth > cfg.max_depth {
            assert(idx >= 1);
            lemma_deep_raws(trie, idx, sep, cfg.max_depth as int);
            lemma_deep_children(trie, idx, kids, sep, cfg.max_depth as int);
            let list = raws_upto(trie, idx, kids, sep);
            assert(list == below);
            assert(raws == Seq::new(list.len(), |i: int| with_label(label, sep, list[i])));
            assert forall|i: int| 0 <= i < below.len() implies #[trigger] chosen[i] == below[i] by {
                let raw = label + sep + below[i];
                assert(raws[i] == raw);
                assert(raw.subrange(0, (label + sep).len() as int) =~= label + sep);
                assert(raw.subrange((label.len() + sep.len()) as int, raw.len() as int)
                    =~= below[i]);
            }
            assert(chosen =~= below);
            lemma_wrap_solid(below);
            assert(!mixes_empty(chosen)) by {
                if mixes_empty(chosen) {
                    let i = choose|i: int|
                        0 <= i < chosen.len() && (#[trigger] chosen[i]).len() == 0;
                    assert(false);
                }
            }
        } else {
            let lower = room - 1;
            assert forall|j: int| 0 <= j < items.len() implies balanced(#[trigger] items[j])
                && within(items[j], lower) by {
                assert(expands_to(items[j], ms[j]));
                lemma_within_more(
                    items[j],
                    allowance(trie[idx].depth + 1, cfg.max_depth),
                    lower,
                );
            }
            if kids == 1 {
                let c = trie[idx].children[0];
                assert(!trie[c.node].is_trailing_sep);
                assert(items[0].len() > 0);
                assert(gathered(ms, 0) =~= Seq::<Seq<char>>::empty());
                assert(gathered(ms, 1) =~= ms[0]);
                lemma_within_more(items[0], lower, room);
            } else {
                lemma_group_expands(items, ms);
                lemma_join_balanced(items);
                lemma_join_within(items, lower);
                lemma_braced_within(join(items, seq![',']), lower);
            }
        }
        let inner = wrap(chosen);
        assert(expands_to(inner, below));
        assert(inner.len() > 0);
        assert(within(inner, room));
        assert(arranged(chosen, false) == chosen);
        assert(compose(label, sep, chosen, cfg.max_brace_size, cfg.sort_items) == with_label(
            label,
            sep,
            inner,
        ));
        assert(repr == with_label(label, sep, inner));
        assert(paths_below(trie, idx, sep) == framed(front, below, e));
        if label.len() == 0 {
            assert(framed(front, below, e) =~= below) by {
                assert forall|i: int| 0 <= i < below.len() implies framed(front, below, e)[i]
                    == below[i] by {
                    assert(front + below[i] + e =~= below[i]);
                }
            }
        } else {
            lemma_prefix_expands(label + sep, inner, below);
            assert(label + sep + inner =~= (label + sep) + inner);
            lemma_plain_within(label + sep);
            lemma_within_more(label + sep, 0, room);
            lemma_level_plain(label + sep, (label + sep).len() as int);
            lemma_concat_within(label + sep, inner, room);
        }
    }
}

/// A path ends at node `l`, at or below node `a`.
pub open spec fn below(trie: Seq<NodeView>, led: Ledger, a: int, l: int) -> bool {
    0 <= l < trie.len() && trie[l].is_leaf && leads(led.addr[a], led.addr[l])
}

/// The segments of node `l` from position `s` on, joined by the separator.
pub open spec fn text_from(led: Ledger, l: int, s: int, sep: Seq<char>) -> Seq<char> {
    join(led.addr[l].subrange(s, led.addr[l].len() as int), sep)
}

/// Where the text of a leaf starts as seen from node `idx`: at the node's
/// own label, or at the very start for the root.
pub open spec fn start_of(led: Ledger, idx: int) -> int {
    if led.addr[idx].len() >= 1 {
        led.addr[idx].len() - 1
    } else {
        0
    }
}

/// What the lemmas on the paths below a node assume: a clean trie in step
/// with tidy paths.
pub open spec fn settled_trie(
    trie: Seq<NodeView>,
    led: Ledger,
    paths: Seq<Seq<Seq<char>>>,
    sep: Seq<char>,
    max_depth: int,
) -> bool {
    &&& tidy(paths)
    &&& paths.len() >= 1
    &&& tracks(trie, led, paths, paths.len() as int, paths.len() as int)
    &&& clean(trie, sep, max_depth)
}

/// A label, the separator and the text of a leaf further down are the text
/// of the leaf from the label on.
pub proof fn lemma_text_step(led: Ledger, l: int, d: int, sep: Seq<char>)
    requires
        1 <= d < led.addr[l].len(),
    ensures
        text_from(led, l, d - 1, sep) == led.addr[l][d - 1] + sep + text_from(led, l, d, sep),
{
    let whole = led.addr[l];
    let items = whole.subrange(d - 1, whole.len() as int);
    lemma_join_first(items, sep);
    assert(items.drop_first() =~= whole.subrange(d, whole.len() as int));
    assert(items[0] == whole[d - 1]);
}

/// The root of a settled trie has children.
pub proof fn lemma_root_has_children(
    trie: Seq<NodeView>,
    led: Ledger,
    paths: Seq<Seq<Seq<char>>>,
    sep: Seq<char>,
    max_depth: int,
)
    requires
        settled_trie(trie, led, paths, sep, max_depth),
    ensures
        trie[0].children.len() > 0,
        !trie[0].is_leaf,
{
    let o = led.owner[0];
    if trie[0].is_leaf {
        assert(led.addr[0] == paths[o]);
        assert(false);
    }
}

/// Each path among those below the first children of a node is the text of
/// a leaf below one of these children; the child's position and the leaf
/// are handed back.
pub proof fn lemma_upto_origin(
    trie: Seq<NodeView>,
    led: Ledger,
    paths: Seq<Seq<Seq<char>>>,
    sep: Seq<char>,
    max_depth: int,
    idx: int,
    upto: int,
    k: int,
) -> (r: (int, int))
    requires
        settled_trie(trie, led, paths, sep, max_depth),
        0 <= idx < trie.len(),
        0 <= upto <= trie[idx].children.len(),
        0 <= k < paths_upto(trie, idx, upto, sep).len(),
    ensures
        0 <= r.0 < upto,
        below(trie, led, trie[idx].children[r.0].node, r.1),
        paths_upto(trie, idx, upto, sep)[k] == text_from(
            led,
            r.1,
            led.addr[idx].len() as int,
            sep,
        ),
    decreases trie.len() - idx, upto,
{
    assert(upto > 0);
    let c = trie[idx].children[upto - 1];
    assert(idx < c.node < trie.len());
    assert(led.addr[c.node] == led.addr[idx].push(c.label));
    let before = paths_upto(trie, idx, upto - 1, sep);
    let added = paths_below(trie, c.node, sep);
    assert(paths_upto(trie, idx, upto, sep) == before + added);
    if k < before.len() {
        lemma_upto_origin(trie, led, paths, sep, max_depth, idx, upto - 1, k)
    } else {
        let l = lemma_path_origin(trie, led, paths, sep, max_depth, c.node, k - before.len());
        (upto - 1, l)
    }
}

/// Each path below a node is the text of a leaf at or below the node; the
/// leaf is handed back.
pub proof fn lemma_path_origin(
    trie: Seq<NodeView>,
    led: Ledger,
    paths: Seq<Seq<Seq<char>>>,
    sep: Seq<char>,
    max_depth: int,
    idx: int,
    k: int,
) -> (l: int)
    requires
        settled_trie(trie, led, paths, sep, max_depth),
        0 <= idx < trie.len(),
        0 <= k < paths_below(trie, idx, sep).len(),
    ensures
        below(trie, led, idx, l),
        paths_below(trie, idx, sep)[k] == text_from(led, l, start_of(led, idx), sep),
    decreases trie.len() - idx, trie[idx].children.len() + 1,
{
    let e = Seq::<char>::empty();
    let label = trie[idx].label;
    let kids = trie[idx].children.len() as int;
    let d = led.addr[idx].len() as int;
    if idx >= 1 {
        let p = led.parent[idx];
        assert(label == led.addr[idx].last());
    }
    if kids == 0 {
        lemma_root_has_children(trie, led, paths, sep, max_depth);
        assert(idx >= 1);
        assert(led.addr[idx].subrange(0, d) =~= led.addr[idx]);
        assert(led.addr[idx].subrange(d - 1, d) =~= seq![label]);
        idx
    } else {
        let list = paths_upto(trie, idx, kids, sep);
        let r = lemma_upto_origin(trie, led, paths, sep, max_depth, idx, kids, k);
        let c = trie[idx].children[r.0];
        let l = r.1;
        assert(led.addr[c.node] == led.addr[idx].push(c.label));
        assert(led.addr[l].subrange(0, d) =~= led.addr[c.node].subrange(0, d));
        assert(led.addr[c.node].subrange(0, d) =~= led.addr[idx]);
        assert(leads(led.addr[idx], led.addr[l]));
        assert(!trie[idx].is_leaf);
        if idx >= 1 {
            assert(label.len() > 0);
            assert(led.addr[l][d - 1] == led.addr[idx][d - 1]);
            lemma_text_step(led, l, d, sep);
            assert((label + sep) + list[k] + e =~= label + sep + list[k]);
        } else {
            assert(d == 0);
            assert(lead(label, sep) + list[k] + e =~= list[k]);
        }
        l
    }
}

/// The text of a leaf below one of the first children of a node is among
/// the paths below these children; its position is handed back.
pub proof fn lemma_upto_present(
    trie: Seq<NodeView>,
    led: Ledger,
    paths: Seq<Seq<Seq<char>>>,
    sep: Seq<char>,
    max_depth: int,
    idx: int,
    upto: int,
    j: int,
    l: int,
) -> (k: int)
    requires
        settled_trie(trie, led, paths, sep, max_depth),
        0 <= idx < trie.len(),
        0 <= j < upto <= trie[idx].children.len(),
        below(trie, led, trie[idx].children[j].node, l),
    ensures
        0 <= k < paths_upto(trie, idx, upto, sep).len(),
        paths_upto(trie, idx, upto, sep)[k] == text_from(led, l, led.addr[idx].len() as int, sep),
    decreases trie.len() - idx, upto,
{
    let c = trie[idx].children[upto - 1];
    assert(idx < c.node < trie.len());
    assert(led.addr[c.node] == led.addr[idx].push(c.label));
    let before = paths_upto(trie, idx, upto - 1, sep);
    let added = paths_below(trie, c.node, sep);
    assert(paths_upto(trie, idx, upto, sep) == before + added);
    if j == upto - 1 {
        let k = lemma_path_present(trie, led, paths, sep, max_depth, c.node, l);
        before.len() + k
    } else {
        lemma_upto_present(trie, led, paths, sep, max_depth, idx, upto - 1, j, l)
    }
}

/// The text of a leaf at or below a node is among the paths below the node;
/// its position is handed back.
pub proof fn lemma_path_present(
    trie: Seq<NodeView>,
    led: Ledger,
    paths: Seq<Seq<Seq<char>>>,
    sep: Seq<char>,
    max_depth: int,
    idx: int,
    l: int,
) -> (k: int)
    requires
        settled_trie(trie, led, paths, sep, max_depth),
        0 <= idx < trie.len(),
        below(trie, led, idx, l),
    ensures
        0 <= k < paths_below(trie, idx, sep).len(),
        paths_below(trie, idx, sep)[k] == text_from(led, l, start_of(led, idx), sep),
    decreases trie.len() - idx, trie[idx].children.len() + 1,
{
    let e = Seq::<char>::empty();
    let n = paths.len() as int;
    let label = trie[idx].label;
    let kids = trie[idx].children.len() as int;
    let d = led.addr[idx].len() as int;
    if idx >= 1 {
        let p = led.parent[idx];
        assert(label == led.addr[idx].last());
    }
    if kids == 0 {
        lemma_root_has_children(trie, led, paths, sep, max_depth);
        assert(idx >= 1);
        assert(trie[idx].is_leaf);
        let o = led.owner[idx];
        let q = led.owner[l];
        assert(led.addr[idx] == paths[o] && led.addr[l] == paths[q]);
        assert(o == q);
        assert(l == idx);
        assert(led.addr[idx].subrange(d - 1, d) =~= seq![label]);
        0
    } else {
        assert(!trie[idx].is_leaf);
        assert(l != idx);
        if led.addr[l].len() == d {
            assert(led.addr[l].subrange(0, d) =~= led.addr[l]);
            assert(led.addr[l] == led.addr[idx]);
            assert(false);
        }
        let g = lemma_ancestor(trie, led, paths, n, l, d + 1);
        assert(led.addr[g].subrange(0, d) =~= led.addr[l].subrange(0, d));
        let j = lemma_child_of(trie, led, paths, n, idx, g);
        assert(led.addr[l].subrange(0, d + 1) == led.addr[g]);
        assert(below(trie, led, g, l));
        let list = paths_upto(trie, idx, kids, sep);
        let k = lemma_upto_present(trie, led, paths, sep, max_depth, idx, kids, j, l);
        if idx >= 1 {
            assert(label.len() > 0);
            assert(led.addr[l][d - 1] == led.addr[l].subrange(0, d)[d - 1]);
            assert(led.addr[l][d - 1] == led.addr[idx][d - 1]);
            lemma_text_step(led, l, d, sep);
            assert((label + sep) + list[k] + e =~= label + sep + list[k]);
        } else {
            assert(d == 0);
            assert(lead(label, sep) + list[k] + e =~= list[k]);
        }
        k
    }
}

/// The configuration leaves the paths as they are before repeats are
/// dropped, merges repeats, and groups items as they come, with a plain
/// separator that is not empty.
pub open spec fn faithful(cfg: ConfigView) -> bool {
    &&& simple(cfg)
    &&& cfg.deduplicate_inputs
    &&& !cfg.allow_mixed_separators
    &&& !cfg.reprocess_braces
    &&& plain(cfg.path_separator)
    &&& cfg.path_separator.len() > 0
}

/// The paths can be told apart again after compression. Once repeats are
/// dropped and the common ending is removed: every segment is plain; only a
/// last segment that follows another may be empty; no path's segments are
/// an initial part of another's; a path that ends with the separator lies
/// within the depth limit and shares all but its empty last segment with
/// another path; and the common ending is plain.
pub open spec fn separable(paths: Seq<Seq<char>>, cfg: ConfigView) -> bool {
    let kept = prepared(paths, cfg);
    let suffix = common_suffix(kept);
    let segs = all_segments(stripped(kept, suffix), cfg.path_separator, cfg.allow_segment_split);
    &&& plain(suffix)
    &&& tidy(segs)
    &&& accompanied(segs, cfg.max_depth as int)
}

/// Expanding the compressed form of separable paths gives exactly the
/// paths: as sets, the expansion and the input are the same.
pub proof fn lemma_round_trip(paths: Seq<Seq<char>>, cfg: ConfigView)
    requires
        faithful(cfg),
        rejection(paths, cfg) is None,
        separable(paths, cfg),
    ensures
        compression(paths, cfg) is Ok,
        expand(compression(paths, cfg)->Ok_0).to_set() == paths.to_set(),
{
    let e = Seq::<char>::empty();
    let sep = cfg.path_separator;
    let depth = cfg.max_depth as int;
    let kept = prepared(paths, cfg);
    assert(separated(paths, cfg) == paths);
    assert(kept == dedup(paths));
    let suffix = common_suffix(kept);
    let bare = stripped(kept, suffix);
    let segs = all_segments(bare, sep, cfg.allow_segment_split);
    let n = kept.len() as int;
    lemma_dedup_empty(paths);
    assert(n >= 1);
    let trie = path_trie(kept, cfg);
    assert(trie == trie_of(bare, sep, cfg.allow_segment_split, true, n));
    let led = lemma_trie_tracks(bare, sep, cfg.allow_segment_split, n);
    lemma_tracks_clean(trie, led, segs, sep, depth);
    lemma_node_expands(trie, 0, sep, cfg);
    let repr = node_repr(trie, 0, sep, cfg);
    let meant = paths_below(trie, 0, sep);
    let out = repr + suffix;
    assert(compression(paths, cfg) == Ok::<Seq<char>, ErrorView>(out));
    assert(plain(e));
    assert(e + repr + suffix =~= out);
    assert(expand(e + repr + suffix) == framed(e, meant, suffix));
    let got = expand(out);
    assert(led.addr[0].subrange(0, 0) =~= led.addr[0]);
    assert forall|x: Seq<char>| got.contains(x) implies paths.contains(x) by {
        let k = choose|k: int| 0 <= k < got.len() && got[k] == x;
        let l = lemma_path_origin(trie, led, segs, sep, depth, 0, k);
        let o = led.owner[l];
        assert(led.addr[l] == segs[o]);
        assert(led.addr[l].subrange(0, led.addr[l].len() as int) =~= led.addr[l]);
        lemma_join_segments(bare[o], sep, cfg.allow_segment_split);
        lemma_common_suffix_ends(kept, o);
        assert(meant[k] == bare[o]);
        assert(x =~= bare[o] + suffix);
        assert(x == kept[o]);
        lemma_dedup_contains(paths, x);
    }
    assert forall|x: Seq<char>| paths.contains(x) implies got.contains(x) by {
        lemma_dedup_contains(paths, x);
        let i = choose|i: int| 0 <= i < kept.len() && kept[i] == x;
        let h = led.home[i];
        assert(led.owner[h] == i);
        assert(led.addr[h] == segs[i]);
        assert(trie[h].is_leaf);
        assert(led.addr[h].subrange(0, 0) =~= led.addr[0]);
        assert(below(trie, led, 0, h));
        let k = lemma_path_present(trie, led, segs, sep, depth, 0, h);
        assert(led.addr[h].subrange(0, led.addr[h].len() as int) =~= led.addr[h]);
        lemma_join_segments(bare[i], sep, cfg.allow_segment_split);
        lemma_common_suffix_ends(kept, i);
        assert(meant[k] == bare[i]);
        assert(got[k] =~= bare[i] + suffix);
        assert(got[k] == x);
    }
    assert(got.to_set() =~= paths.to_set());
}

/// With the default configuration, expanding the compressed form of
/// separable paths gives exactly the paths.
pub proof fn lemma_round_trip_default(paths: Seq<Seq<char>>)
    requires
        rejection(paths, default_config()) is None,
        separable(paths, default_config()),
    ensures
        compression(paths, default_config()) is Ok,
        expand(compression(paths, default_config())->Ok_0).to_set() == paths.to_set(),
{
    assert(plain(default_config().path_separator));
    lemma_round_trip(paths, default_config());
}

/// The compressed form of separable paths never nests deeper than the
/// depth limit and two: one level for each depth from the root to the
/// limit, and one for the nodes just beyond it, which list their paths
/// literally.
pub proof fn lemma_nesting_bounded(paths: Seq<Seq<char>>, cfg: ConfigView)
    requires
        faithful(cfg),
        rejection(paths, cfg) is None,
        separable(paths, cfg),
    ensures
        compression(paths, cfg) is Ok,
        within(compression(paths, cfg)->Ok_0, cfg.max_depth + 2),
{
    let sep = cfg.path_separator;
    let kept = prepared(paths, cfg);
    assert(separated(paths, cfg) == paths);
    let suffix = common_suffix(kept);
    let bare = stripped(kept, suffix);
    let segs = all_segments(bare, sep, cfg.allow_segment_split);
    let n = kept.len() as int;
    lemma_dedup_empty(paths);
    let trie = path_trie(kept, cfg);
    let led = lemma_trie_tracks(bare, sep, cfg.allow_segment_split, n);
    lemma_tracks_clean(trie, led, segs, sep, cfg.max_depth as int);
    lemma_node_expands(trie, 0, sep, cfg);
    let repr = node_repr(trie, 0, sep, cfg);
    assert(trie[0].depth == 0);
    assert(sealed(repr));
    lemma_plain_within(suffix);
    lemma_within_more(suffix, 0, cfg.max_depth + 2);
    lemma_concat_within(repr, suffix, cfg.max_depth + 2);
}

} // verus!
