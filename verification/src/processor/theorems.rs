//! What holds of compression as a whole, proved from the definitions.

use vstd::prelude::*;
use vstd::relations::sorted_by;
use crate::error::ErrorView;
use crate::processor::balance::{lemma_alternatives_of_join, lemma_expand_plain, sealed};
use crate::processor::expansion::{
    alternatives, assemble_items, chunk_groups, compose, expand, has_trailing_child, mixes_empty,
    node_repr,
    raw_leaves, raws_upto, relatives, reprs_upto, stops_here, variants, with_label, wrap,
};
use crate::processor::normalise::{
    agree_back, back_run, common_suffix, normalised, offending, offends, stem_splittable,
    strip_suffix,
};
use crate::processor::sorting::{
    arranged, lemma_lex_total_order, lemma_sorted_texts, lex_order, sorted_texts,
};
use crate::processor::trie::{
    find_child, insert_from, last_key, marked, root_only, segments, trie_of, with_child,
    ChildView, NodeView,
};
use crate::processor::{
    compressed, compression, dedup, expanded, first_braced, has_brace, path_trie, prepared,
    rejection, separated, stripped, ConfigView,
};
use crate::text::{ends_with, find_from, join, split};

verus! {

/// The literal paths that one input path stands for once separators are
/// settled and, where reprocessing is on, braces are expanded.
pub open spec fn settled(path: Seq<char>, cfg: ConfigView) -> Seq<Seq<char>> {
    let ready = if cfg.allow_mixed_separators {
        normalised(path, cfg.path_separator)
    } else {
        path
    };
    if cfg.reprocess_braces {
        expand(ready)
    } else {
        seq![ready]
    }
}

/// The literal paths of a list before repeats are dropped.
pub open spec fn literal(paths: Seq<Seq<char>>, cfg: ConfigView) -> Seq<Seq<char>> {
    let ready = separated(paths, cfg);
    if cfg.reprocess_braces {
        expanded(ready, ready.len() as int)
    } else {
        ready
    }
}

/// `acc`, then each text of `more` that has not come before, in order.
pub open spec fn onto(acc: Seq<Seq<char>>, more: Seq<Seq<char>>) -> Seq<Seq<char>>
    decreases more.len(),
{
    if more.len() == 0 {
        acc
    } else {
        let before = onto(acc, more.drop_last());
        if before.contains(more.last()) {
            before
        } else {
            before.push(more.last())
        }
    }
}

/// Dropping repeats neither adds nor loses a text.
pub proof fn lemma_dedup_contains(paths: Seq<Seq<char>>, x: Seq<char>)
    ensures
        dedup(paths).contains(x) <==> paths.contains(x),
    decreases paths.len(),
{
    if paths.len() > 0 {
        let front = paths.drop_last();
        let last = paths.last();
        lemma_dedup_contains(front, x);
        lemma_dedup_contains(front, last);
        let before = dedup(front);
        let all = dedup(paths);
        if paths.contains(x) {
            let i = choose|i: int| 0 <= i < paths.len() && paths[i] == x;
            if i < front.len() {
                assert(front[i] == x);
                assert(before.contains(x));
                let j = choose|j: int| 0 <= j < before.len() && before[j] == x;
                assert(all[j] == x);
            } else {
                assert(x == last);
                if !before.contains(last) {
                    assert(all[before.len() as int] == x);
                }
            }
            assert(all.contains(x));
        }
        if all.contains(x) {
            let j = choose|j: int| 0 <= j < all.len() && all[j] == x;
            if j < before.len() {
                assert(before[j] == x);
                assert(front.contains(x));
                let i = choose|i: int| 0 <= i < front.len() && front[i] == x;
                assert(paths[i] == x);
            } else {
                assert(x == last);
                assert(paths[paths.len() - 1] == x);
            }
            assert(paths.contains(x));
        }
    }
}

/// Once repeats are dropped, no text comes twice.
pub proof fn lemma_dedup_distinct(paths: Seq<Seq<char>>)
    ensures
        dedup(paths).no_duplicates(),
    decreases paths.len(),
{
    if paths.len() > 0 {
        let before = dedup(paths.drop_last());
        lemma_dedup_distinct(paths.drop_last());
        if !before.contains(paths.last()) {
            let all = before.push(paths.last());
            assert forall|i: int, j: int|
                0 <= i < all.len() && 0 <= j < all.len() && i != j implies all[i] != all[j] by {
                if i < before.len() && j < before.len() {
                } else if i < before.len() {
                    assert(before.contains(before[i]));
                } else {
                    assert(before.contains(before[j]));
                }
            }
        }
    }
}

/// Dropping the repeats of two lists written one after the other continues
/// the first list's result with what the second adds.
pub proof fn lemma_dedup_concat(a: Seq<Seq<char>>, b: Seq<Seq<char>>)
    ensures
        dedup(a + b) == onto(dedup(a), b),
    decreases b.len(),
{
    if b.len() == 0 {
        assert(a + b =~= a);
    } else {
        lemma_dedup_concat(a, b.drop_last());
        assert((a + b).drop_last() =~= a + b.drop_last());
        assert((a + b).last() == b.last());
    }
}

/// Texts that have all come before add nothing.
pub proof fn lemma_onto_absorbs(acc: Seq<Seq<char>>, more: Seq<Seq<char>>)
    requires
        forall|i: int| 0 <= i < more.len() ==> acc.contains(#[trigger] more[i]),
    ensures
        onto(acc, more) == acc,
    decreases more.len(),
{
    if more.len() > 0 {
        lemma_onto_absorbs(acc, more.drop_last());
    }
}

/// Expanding the first paths of a list does not look at the later ones.
pub proof fn lemma_expanded_prefix(paths: Seq<Seq<char>>, shorter: Seq<Seq<char>>, n: int)
    requires
        0 <= n <= shorter.len() <= paths.len(),
        forall|i: int| 0 <= i < shorter.len() ==> shorter[i] == paths[i],
    ensures
        expanded(paths, n) == expanded(shorter, n),
    decreases n,
{
    if n > 0 {
        lemma_expanded_prefix(paths, shorter, n - 1);
    }
}

/// The literal paths of a list with one more path are those of the list,
/// followed by those of the added path.
pub proof fn lemma_literal_push(paths: Seq<Seq<char>>, x: Seq<char>, cfg: ConfigView)
    ensures
        literal(paths.push(x), cfg) == literal(paths, cfg) + settled(x, cfg),
{
    let more = paths.push(x);
    let ready = separated(paths, cfg);
    let ready_more = separated(more, cfg);
    assert(ready_more.len() == ready.len() + 1);
    assert forall|i: int| 0 <= i < ready.len() implies ready[i] == ready_more[i] by {
        assert(more[i] == paths[i]);
    }
    assert(more[paths.len() as int] == x);
    if cfg.reprocess_braces {
        lemma_expanded_prefix(ready_more, ready, ready.len() as int);
    } else {
        assert(ready_more =~= ready + settled(x, cfg));
    }
}

/// Every literal path of a member of a list is among the literal paths of
/// the list.
pub proof fn lemma_literal_holds(paths: Seq<Seq<char>>, x: Seq<char>, cfg: ConfigView, k: int)
    requires
        paths.contains(x),
        0 <= k < settled(x, cfg).len(),
    ensures
        literal(paths, cfg).contains(settled(x, cfg)[k]),
    decreases paths.len(),
{
    let front = paths.drop_last();
    assert(paths =~= front.push(paths.last()));
    lemma_literal_push(front, paths.last(), cfg);
    let whole = literal(paths, cfg);
    if paths.last() == x {
        assert(whole[literal(front, cfg).len() + k] == settled(x, cfg)[k]);
    } else {
        let i = choose|i: int| 0 <= i < paths.len() && paths[i] == x;
        assert(front[i] == x);
        lemma_literal_holds(front, x, cfg, k);
        let j = choose|j: int|
            0 <= j < literal(front, cfg).len() && literal(front, cfg)[j] == settled(x, cfg)[k];
        assert(whole[j] == settled(x, cfg)[k]);
    }
}

/// Dropping repeats before settling the paths changes nothing once repeats
/// are dropped after it.
pub proof fn lemma_dedup_literal(paths: Seq<Seq<char>>, cfg: ConfigView)
    ensures
        dedup(literal(dedup(paths), cfg)) == dedup(literal(paths, cfg)),
    decreases paths.len(),
{
    if paths.len() == 0 {
        assert(dedup(paths) =~= paths);
    } else {
        let front = paths.drop_last();
        let x = paths.last();
        assert(paths =~= front.push(x));
        lemma_dedup_literal(front, cfg);
        lemma_literal_push(front, x, cfg);
        lemma_dedup_concat(literal(front, cfg), settled(x, cfg));
        lemma_dedup_contains(front, x);
        if dedup(front).contains(x) {
            assert forall|k: int| 0 <= k < settled(x, cfg).len() implies dedup(
                literal(front, cfg),
            ).contains(#[trigger] settled(x, cfg)[k]) by {
                lemma_literal_holds(front, x, cfg, k);
                lemma_dedup_contains(literal(front, cfg), settled(x, cfg)[k]);
            }
            lemma_onto_absorbs(dedup(literal(front, cfg)), settled(x, cfg));
        } else {
            lemma_literal_push(dedup(front), x, cfg);
            lemma_dedup_concat(literal(dedup(front), cfg), settled(x, cfg));
        }
    }
}

/// A path that holds a brace is found at or after any earlier start.
pub proof fn lemma_first_braced_finds(paths: Seq<Seq<char>>, from: int, at: int)
    requires
        0 <= from <= at < paths.len(),
        has_brace(paths[at]),
    ensures
        from <= first_braced(paths, from) <= at,
    decreases at - from,
{
    if !has_brace(paths[from]) {
        lemma_first_braced_finds(paths, from + 1, at);
    }
}

/// What `first_braced` finds holds a brace, and nothing between the start
/// and it does.
pub proof fn lemma_first_braced_is_first(paths: Seq<Seq<char>>, from: int)
    requires
        0 <= from,
    ensures
        first_braced(paths, from) == -1 || (from <= first_braced(paths, from) < paths.len()
            && has_brace(paths[first_braced(paths, from)])),
        forall|i: int|
            from <= i < paths.len() && (first_braced(paths, from) == -1 || i < first_braced(
                paths,
                from,
            )) ==> !has_brace(#[trigger] paths[i]),
    decreases paths.len() - from,
{
    if from < paths.len() && !has_brace(paths[from]) {
        lemma_first_braced_is_first(paths, from + 1);
    }
}

/// Where the first path with a brace stands in a list that has one more
/// path at its end.
pub proof fn lemma_first_braced_push(paths: Seq<Seq<char>>, x: Seq<char>)
    ensures
        first_braced(paths.push(x), 0) == if first_braced(paths, 0) >= 0 {
            first_braced(paths, 0)
        } else if has_brace(x) {
            paths.len() as int
        } else {
            -1
        },
{
    let more = paths.push(x);
    lemma_first_braced_is_first(paths, 0);
    lemma_first_braced_is_first(more, 0);
    let a = first_braced(paths, 0);
    let b = first_braced(more, 0);
    if a >= 0 {
        assert(more[a] == paths[a]);
        lemma_first_braced_finds(more, 0, a);
        if b < a {
            assert(more[b] == paths[b]);
        }
    } else if has_brace(x) {
        assert(more[paths.len() as int] == x);
        lemma_first_braced_finds(more, 0, paths.len() as int);
        if b < paths.len() {
            assert(more[b] == paths[b]);
        }
    } else {
        if b >= 0 {
            if b < paths.len() {
                assert(more[b] == paths[b]);
            } else {
                assert(more[b] == x);
            }
        }
    }
}

/// The first path with a brace, as a text, or nothing.
pub open spec fn braced_path(paths: Seq<Seq<char>>) -> Option<Seq<char>> {
    if first_braced(paths, 0) >= 0 {
        Some(paths[first_braced(paths, 0)])
    } else {
        None
    }
}

/// The settled list of a list with one more path.
pub proof fn lemma_separated_push(paths: Seq<Seq<char>>, x: Seq<char>, cfg: ConfigView)
    ensures
        separated(paths.push(x), cfg) == separated(paths, cfg) + separated(seq![x], cfg),
{
    let more = paths.push(x);
    assert forall|i: int| 0 <= i < paths.len() implies more[i] == paths[i] by {}
    assert(more[paths.len() as int] == x);
    assert(seq![x][0] == x);
    assert(separated(more, cfg) =~= separated(paths, cfg) + separated(seq![x], cfg));
}

/// A settled path is among the settled list of any list that holds it.
pub proof fn lemma_separated_holds(paths: Seq<Seq<char>>, x: Seq<char>, cfg: ConfigView)
    requires
        paths.contains(x),
    ensures
        separated(paths, cfg).contains(separated(seq![x], cfg)[0]),
{
    let i = choose|i: int| 0 <= i < paths.len() && paths[i] == x;
    assert(seq![x][0] == x);
    assert(separated(paths, cfg)[i] == separated(seq![x], cfg)[0]);
}

/// Dropping repeats does not change which settled path is the first with a
/// brace.
pub proof fn lemma_dedup_braced(paths: Seq<Seq<char>>, cfg: ConfigView)
    ensures
        braced_path(separated(dedup(paths), cfg)) == braced_path(separated(paths, cfg)),
    decreases paths.len(),
{
    if paths.len() == 0 {
        assert(dedup(paths) =~= paths);
    } else {
        let front = paths.drop_last();
        let x = paths.last();
        assert(paths =~= front.push(x));
        lemma_dedup_braced(front, cfg);
        lemma_dedup_contains(front, x);
        let one = separated(seq![x], cfg);
        assert(one.len() == 1);
        lemma_separated_push(front, x, cfg);
        assert(separated(front, cfg) + one =~= separated(front, cfg).push(one[0]));
        lemma_first_braced_push(separated(front, cfg), one[0]);
        let ready = separated(front, cfg);
        let more = ready.push(one[0]);
        if first_braced(ready, 0) >= 0 {
            lemma_first_braced_is_first(ready, 0);
            assert(more[first_braced(ready, 0)] == ready[first_braced(ready, 0)]);
        } else if has_brace(one[0]) {
            assert(more[ready.len() as int] == one[0]);
        }
        if dedup(front).contains(x) {
            if first_braced(ready, 0) < 0 && has_brace(one[0]) {
                lemma_separated_holds(front, x, cfg);
                let i = choose|i: int| 0 <= i < ready.len() && ready[i] == one[0];
                lemma_first_braced_finds(ready, 0, i);
            }
        } else {
            let short = separated(dedup(front), cfg);
            lemma_separated_push(dedup(front), x, cfg);
            assert(short + one =~= short.push(one[0]));
            lemma_first_braced_push(short, one[0]);
            let short_more = short.push(one[0]);
            if first_braced(short, 0) >= 0 {
                lemma_first_braced_is_first(short, 0);
                assert(short_more[first_braced(short, 0)] == short[first_braced(short, 0)]);
            } else if has_brace(one[0]) {
                assert(short_more[short.len() as int] == one[0]);
            }
        }
    }
}

/// Dropping repeats does not change which separators offend.
pub proof fn lemma_dedup_offending(paths: Seq<Seq<char>>, expected: Seq<char>)
    ensures
        offending(dedup(paths), expected) == offending(paths, expected),
{
    assert forall|c: char| offends(dedup(paths), expected, c) == offends(paths, expected, c) by {
        if offends(paths, expected, c) {
            let i = choose|i: int| 0 <= i < paths.len() && (#[trigger] paths[i]).contains(c);
            lemma_dedup_contains(paths, paths[i]);
            let j = choose|j: int| 0 <= j < dedup(paths).len() && dedup(paths)[j] == paths[i];
            assert(dedup(paths)[j].contains(c));
        }
        if offends(dedup(paths), expected, c) {
            let j = choose|j: int|
                0 <= j < dedup(paths).len() && (#[trigger] dedup(paths)[j]).contains(c);
            lemma_dedup_contains(paths, dedup(paths)[j]);
            let i = choose|i: int| 0 <= i < paths.len() && paths[i] == dedup(paths)[j];
            assert(paths[i].contains(c));
        }
    }
}

/// A list without repeats is empty exactly when the list is.
pub proof fn lemma_dedup_empty(paths: Seq<Seq<char>>)
    ensures
        (dedup(paths).len() == 0) == (paths.len() == 0),
    decreases paths.len(),
{
    if paths.len() > 0 {
        lemma_dedup_contains(paths, paths.last());
        assert(paths[paths.len() - 1] == paths.last());
    }
}

/// Compressing with repeats dropped gives the same as compressing the list
/// from which the repeats were removed beforehand: the same expression, or
/// the same refusal.
pub proof fn lemma_dedup_idempotent(paths: Seq<Seq<char>>, cfg: ConfigView)
    requires
        cfg.deduplicate_inputs,
    ensures
        compression(dedup(paths), cfg) == compression(paths, cfg),
{
    lemma_dedup_empty(paths);
    lemma_dedup_offending(paths, cfg.path_separator);
    lemma_dedup_braced(paths, cfg);
    lemma_dedup_literal(paths, cfg);
    assert(prepared(paths, cfg) == dedup(literal(paths, cfg)));
    assert(prepared(dedup(paths), cfg) == dedup(literal(dedup(paths), cfg)));
}

/// How many of the first `n` nodes lie beyond the depth limit, and so list
/// their paths literally.
pub open spec fn fallback_count(trie: Seq<NodeView>, max_depth: usize, n: int) -> nat
    decreases n,
{
    if n <= 0 || n > trie.len() {
        0
    } else {
        fallback_count(trie, max_depth, n - 1) + if trie[n - 1].depth > max_depth {
            1nat
        } else {
            0nat
        }
    }
}

/// How many nodes list their paths literally when `paths` are compressed.
pub open spec fn fallbacks(paths: Seq<Seq<char>>, cfg: ConfigView) -> nat {
    let trie = path_trie(prepared(paths, cfg), cfg);
    fallback_count(trie, cfg.max_depth, trie.len() as int)
}

/// A higher limit leaves no more nodes beyond it.
pub proof fn lemma_fallback_count_monotone(trie: Seq<NodeView>, lower: usize, higher: usize, n: int)
    requires
        lower <= higher,
    ensures
        fallback_count(trie, higher, n) <= fallback_count(trie, lower, n),
    decreases n,
{
    if 0 < n <= trie.len() {
        lemma_fallback_count_monotone(trie, lower, higher, n - 1);
    }
}

/// Raising the depth limit never makes more nodes fall back to listing
/// their paths literally.
pub proof fn lemma_depth_monotone(paths: Seq<Seq<char>>, cfg: ConfigView, deeper: usize)
    requires
        cfg.max_depth <= deeper,
    ensures
        fallbacks(paths, ConfigView { max_depth: deeper, ..cfg }) <= fallbacks(paths, cfg),
{
    let raised = ConfigView { max_depth: deeper, ..cfg };
    assert(separated(paths, raised) == separated(paths, cfg));
    assert(prepared(paths, raised) == prepared(paths, cfg));
    let trie = path_trie(prepared(paths, cfg), cfg);
    assert(path_trie(prepared(paths, raised), raised) == trie);
    lemma_fallback_count_monotone(trie, cfg.max_depth, deeper, trie.len() as int);
}

/// A run of neighbours of a sorted list is sorted.
pub proof fn lemma_run_sorted(items: Seq<Seq<char>>, from: int, to: int)
    requires
        sorted_by(items, lex_order()),
        0 <= from <= to <= items.len(),
    ensures
        sorted_by(items.subrange(from, to), lex_order()),
{
    let run = items.subrange(from, to);
    assert forall|i: int, j: int| 0 <= i < j < run.len() implies #[trigger] lex_order()(
        run[i],
        run[j],
    ) by {
        assert(lex_order()(items[from + i], items[from + j]));
    }
}

/// The end of the chunk that starts at `from`.
pub open spec fn chunk_end(len: int, from: int, size: int) -> int {
    if from + size < len {
        from + size
    } else {
        len
    }
}

/// The chunk groups of what is left from `from` on are, one by one, the
/// wrapped runs of `size` neighbours.
pub proof fn lemma_chunk_is_run(
    label: Seq<char>,
    sep: Seq<char>,
    items: Seq<Seq<char>>,
    size: int,
    from: int,
)
    requires
        size > 0,
        0 <= from < items.len(),
    ensures
        chunk_groups(label, sep, items.skip(from), size).len() > 0,
        chunk_groups(label, sep, items.skip(from), size)[0] == with_label(
            label,
            sep,
            wrap(items.subrange(from, chunk_end(items.len() as int, from, size))),
        ),
        chunk_groups(label, sep, items.skip(from), size).drop_first() == chunk_groups(
            label,
            sep,
            items.skip(chunk_end(items.len() as int, from, size)),
            size,
        ),
{
    let rest = items.skip(from);
    let end = chunk_end(items.len() as int, from, size);
    if rest.len() <= size {
        assert(rest =~= items.subrange(from, end));
        assert(items.skip(end) =~= Seq::empty());
        assert(chunk_groups(label, sep, rest, size).drop_first() =~= Seq::empty());
    } else {
        assert(rest.take(size) =~= items.subrange(from, end));
        assert(rest.skip(size) =~= items.skip(end));
        assert(chunk_groups(label, sep, rest, size).drop_first() =~= chunk_groups(
            label,
            sep,
            rest.skip(size),
            size,
        ));
    }
}

/// With sorting on, the alternatives that a brace group lists are in
/// non-decreasing lexicographic order, and they are the items that were
/// given. This holds of the list that `compose` wraps, of every run of
/// neighbours of it (a chunk is such a run), and of the variants that
/// `stem_compose` wraps.
pub proof fn lemma_groups_sorted(items: Seq<Seq<char>>, from: int, to: int)
    requires
        0 <= from <= to <= items.len(),
    ensures
        sorted_by(arranged(items, true), lex_order()),
        arranged(items, true).to_multiset() == items.to_multiset(),
        sorted_by(arranged(items, true).subrange(from, to), lex_order()),
        sorted_by(arranged(variants(items), true), lex_order()),
        arranged(variants(items), true).to_multiset() == variants(items).to_multiset(),
{
    lemma_sorted_texts(items);
    lemma_sorted_texts(variants(items));
    lemma_run_sorted(sorted_texts(items), from, to);
}

/// With sorting on, the alternatives that `expand` reads back out of a
/// group are in non-decreasing lexicographic order: for items that are
/// well nested with every comma inside a group of their own, the content of
/// the group that is written for them has exactly the sorted items as its
/// alternatives.
pub proof fn lemma_written_group_sorted(items: Seq<Seq<char>>)
    requires
        items.len() >= 1,
        forall|k: int| 0 <= k < items.len() ==> sealed(#[trigger] items[k]),
    ensures
        alternatives(join(arranged(items, true), seq![','])) == arranged(items, true),
        sorted_by(alternatives(join(arranged(items, true), seq![','])), lex_order()),
{
    let sorted = sorted_texts(items);
    lemma_sorted_texts(items);
    lemma_lex_total_order();
    items.lemma_sort_by_ensures(lex_order());
    assert forall|k: int| 0 <= k < sorted.len() implies sealed(#[trigger] sorted[k]) by {
        assert(sorted.contains(sorted[k]));
        assert(items.contains(sorted[k]));
        let i = choose|i: int| 0 <= i < items.len() && items[i] == sorted[k];
        assert(sealed(items[i]));
    }
    lemma_alternatives_of_join(sorted);
}

/// A list of at most one item is its own sorted list.
pub proof fn lemma_sorted_small(items: Seq<Seq<char>>)
    requires
        items.len() <= 1,
    ensures
        sorted_texts(items) == items,
{
    lemma_sorted_texts(items);
    lemma_lex_total_order();
    vstd::seq_lib::lemma_sorted_unique(items, sorted_texts(items), lex_order());
}

/// A single text is its own common ending.
pub proof fn lemma_back_run_single(p: Seq<char>, k: int)
    requires
        0 <= k <= p.len(),
    ensures
        back_run(seq![p], k) == p.len(),
    decreases p.len() - k,
{
    if k < p.len() {
        assert(agree_back(seq![p], k));
        lemma_back_run_single(p, k + 1);
    }
}

/// The empty path has the empty segment as its only segment.
pub proof fn lemma_segments_of_empty(sep: Seq<char>, split_all: bool)
    ensures
        segments(Seq::empty(), sep, split_all) == seq![Seq::<char>::empty()],
{
    let e = Seq::<char>::empty();
    assert(e.subrange(0, 0) =~= e);
    if sep.len() > 0 {
        assert(find_from(e, sep, 0) == -1);
        assert(split(e, sep) =~= seq![e]);
    }
}

/// The trie of the one empty path: the root, and below it one leaf with the
/// empty label, which stands for a trailing separator exactly where the
/// separator is empty.
pub open spec fn lone_trie(closes: bool) -> Seq<NodeView> {
    seq![
        NodeView {
            label: Seq::empty(),
            children: seq![ChildView { label: Seq::empty(), id: 0, node: 1 }],
            is_leaf: false,
            is_trailing_sep: false,
            depth: 0,
        },
        NodeView {
            label: Seq::empty(),
            children: Seq::empty(),
            is_leaf: true,
            is_trailing_sep: closes,
            depth: 1,
        },
    ]
}

/// The trie of the one empty path is `lone_trie`.
pub proof fn lemma_trie_of_empty_path(sep: Seq<char>, split_all: bool, dedup: bool)
    ensures
        trie_of(seq![Seq::<char>::empty()], sep, split_all, dedup, 1) == lone_trie(
            ends_with(Seq::empty(), sep),
        ),
{
    let e = Seq::<char>::empty();
    let paths = seq![e];
    let closes = ends_with(e, sep);
    lemma_segments_of_empty(sep, split_all);
    let segs = seq![e];
    assert(trie_of(paths, sep, split_all, dedup, 0) == root_only());
    assert(last_key(dedup, 0) == 0);
    let start = root_only();
    assert(find_child(start[0].children, e, 0, 0) == -1);
    let grown = with_child(start, 0, e, 0);
    let done = marked(grown, 1, closes);
    assert(insert_from(done, 1, segs, 1, 0, closes) == done);
    assert(insert_from(start, 0, segs, 0, 0, closes) == done);
    assert(done =~= lone_trie(closes)) by {
        assert(done[0].children =~= lone_trie(closes)[0].children);
        assert(done[1].children =~= lone_trie(closes)[1].children);
    }
    assert(paths[0] == e);
}

/// Composing the empty label with no item, or with the one empty item,
/// gives the empty text.
pub proof fn lemma_compose_blank(sep: Seq<char>, items: Seq<Seq<char>>, max: Option<usize>, sort: bool)
    requires
        max != Some(0usize),
        items.len() == 0 || items == seq![Seq::<char>::empty()],
    ensures
        compose(Seq::empty(), sep, items, max, sort) == Seq::<char>::empty(),
        !mixes_empty(items),
        !stem_splittable(items),
{
    lemma_sorted_small(items);
}

/// The expression for the trie of the one empty path is empty.
pub proof fn lemma_lone_trie_repr(closes: bool, sep: Seq<char>, cfg: ConfigView)
    requires
        cfg.max_brace_size != Some(0usize),
    ensures
        node_repr(lone_trie(closes), 0, sep, cfg) == Seq::<char>::empty(),
{
    let e = Seq::<char>::empty();
    let t = lone_trie(closes);
    // the leaf
    assert(!has_trailing_child(t, 1));
    assert(raws_upto(t, 1, 0, sep) == Seq::<Seq<char>>::empty());
    assert(raw_leaves(t, 1, sep) == seq![e]);
    assert(reprs_upto(t, 1, 0, sep, cfg) == Seq::<Seq<char>>::empty());
    let leaf_items = assemble_items(stops_here(t, 1), Seq::empty());
    assert(leaf_items.len() == 0 || leaf_items =~= seq![e]);
    let leaf_suffixes = relatives(e, sep, seq![e]);
    assert(leaf_suffixes =~= seq![e]);
    lemma_compose_blank(sep, leaf_items, cfg.max_brace_size, cfg.sort_items);
    lemma_compose_blank(sep, seq![e], cfg.max_brace_size, cfg.sort_items);
    assert(node_repr(t, 1, sep, cfg) == e);
    // the root
    assert(raws_upto(t, 0, 0, sep) == Seq::<Seq<char>>::empty());
    assert(raws_upto(t, 0, 1, sep) =~= seq![e]);
    assert(raw_leaves(t, 0, sep) =~= seq![e]) by {
        assert(with_label(e, sep, e) == e);
    }
    assert(reprs_upto(t, 0, 0, sep, cfg) == Seq::<Seq<char>>::empty());
    assert(reprs_upto(t, 0, 1, sep, cfg) =~= seq![e]);
    assert(!stops_here(t, 0));
    assert(assemble_items(false, seq![e]) == seq![e]);
    assert(node_repr(t, 0, sep, cfg) == e);
}

/// A list of one literal path compresses to that path.
pub proof fn lemma_single_compressed(p: Seq<char>, cfg: ConfigView)
    requires
        cfg.max_brace_size != Some(0usize),
    ensures
        compressed(seq![p], cfg) == p,
{
    let paths = seq![p];
    let e = Seq::<char>::empty();
    lemma_back_run_single(p, 0);
    assert(common_suffix(paths) =~= p);
    assert(ends_with(p, p)) by {
        assert(p.subrange(0, p.len() as int) =~= p);
    }
    assert(strip_suffix(p, p) =~= e);
    assert(stripped(paths, p) =~= seq![e]);
    lemma_trie_of_empty_path(cfg.path_separator, cfg.allow_segment_split, cfg.deduplicate_inputs);
    lemma_lone_trie_repr(ends_with(e, cfg.path_separator), cfg.path_separator, cfg);
    assert(e + p =~= p);
}

/// Compressing a list of one path gives that path unchanged, whatever the
/// configuration, provided the path is accepted and settling separators and
/// braces leaves it as it is.
pub proof fn lemma_single_stays_literal(p: Seq<char>, cfg: ConfigView)
    requires
        cfg.max_brace_size != Some(0usize),
        rejection(seq![p], cfg) is None,
        prepared(seq![p], cfg) == seq![p],
    ensures
        compression(seq![p], cfg) == Ok::<Seq<char>, ErrorView>(p),
{
    lemma_single_compressed(p, cfg);
}

/// A path without braces, whose separators are accepted and left as they
/// are, compresses to itself when it is the only path.
pub proof fn lemma_plain_single_stays_literal(p: Seq<char>, cfg: ConfigView)
    requires
        cfg.max_brace_size != Some(0usize),
        !has_brace(p),
        cfg.allow_mixed_separators ==> normalised(p, cfg.path_separator) == p,
        !cfg.allow_mixed_separators ==> offending(seq![p], cfg.path_separator).len() == 0,
    ensures
        compression(seq![p], cfg) == Ok::<Seq<char>, ErrorView>(p),
{
    let paths = seq![p];
    assert(paths[0] == p);
    let ready = separated(paths, cfg);
    assert(ready =~= paths);
    assert(first_braced(paths, 1) == -1);
    assert(first_braced(paths, 0) == -1);
    lemma_expand_plain(p);
    assert(expanded(paths, 0) == Seq::<Seq<char>>::empty());
    assert(expanded(paths, 1) =~= paths);
    assert(paths.drop_last() =~= Seq::<Seq<char>>::empty());
    assert(dedup(paths.drop_last()) =~= Seq::<Seq<char>>::empty());
    assert(dedup(paths) =~= paths);
    lemma_single_stays_literal(p, cfg);
}

} // verus!
