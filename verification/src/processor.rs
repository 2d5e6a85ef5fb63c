//! Compression of path lists into brace expressions.

pub mod balance;
pub mod expansion;
pub mod normalise;
pub mod ppb;
pub mod round_trip;
pub mod sorting;
pub mod theorems;
pub mod trie;

use vstd::prelude::*;
use std::collections::HashMap;
use crate::error::{BraceError, ErrorView};
use crate::text::{chars_of, finishes_with, has_char, strs, text_between, text_of_char, texts};
use expansion::{append_texts, compute_reprs, expand, expand_braces, node_repr};
use normalise::{
    common_suffix, find_common_suffix, normalise_separators, normalised, offending, strip_suffix,
    validate_separators,
};
use trie::{build_trie, trie_of, NodeView};

verus! {

/// How paths are compressed into brace notation.
#[derive(Debug, Clone)]
pub struct BraceConfig {
    /// The separator at which paths are cut into segments, and which the
    /// output uses.
    pub path_separator: String,
    /// The depth beyond which a node lists its paths literally.
    pub max_depth: usize,
    /// The most alternatives that one brace group may hold.
    pub max_brace_size: Option<usize>,
    /// Factor out what the alternatives share character by character.
    pub allow_stem_split: bool,
    /// Cut paths at every separator, not only at the first.
    pub allow_segment_split: bool,
    /// Sort the alternatives of each brace group.
    pub sort_items: bool,
    /// Never write a brace group with an empty alternative.
    pub disallow_empty_braces: bool,
    /// Kept for callers; has no effect on the output.
    pub preserve_order_within_braces: bool,
    /// Rewrite foreign separators instead of rejecting them.
    pub allow_mixed_separators: bool,
    /// Drop paths that already came earlier in the input.
    pub deduplicate_inputs: bool,
    /// Expand brace syntax in the input instead of rejecting it.
    pub reprocess_braces: bool,
}

/// What a `BraceConfig` holds, with the separator as a character sequence.
pub struct ConfigView {
    pub path_separator: Seq<char>,
    pub max_depth: usize,
    pub max_brace_size: Option<usize>,
    pub allow_stem_split: bool,
    pub allow_segment_split: bool,
    pub sort_items: bool,
    pub disallow_empty_braces: bool,
    pub preserve_order_within_braces: bool,
    pub allow_mixed_separators: bool,
    pub deduplicate_inputs: bool,
    pub reprocess_braces: bool,
}

impl View for BraceConfig {
    type V = ConfigView;

    open spec fn view(&self) -> ConfigView {
        ConfigView {
            path_separator: self.path_separator@,
            max_depth: self.max_depth,
            max_brace_size: self.max_brace_size,
            allow_stem_split: self.allow_stem_split,
            allow_segment_split: self.allow_segment_split,
            sort_items: self.sort_items,
            disallow_empty_braces: self.disallow_empty_braces,
            preserve_order_within_braces: self.preserve_order_within_braces,
            allow_mixed_separators: self.allow_mixed_separators,
            deduplicate_inputs: self.deduplicate_inputs,
            reprocess_braces: self.reprocess_braces,
        }
    }
}

/// The settings used when the caller chooses none.
pub open spec fn default_config() -> ConfigView {
    ConfigView {
        path_separator: seq!['/'],
        max_depth: 5,
        max_brace_size: None,
        allow_stem_split: false,
        allow_segment_split: true,
        sort_items: false,
        disallow_empty_braces: false,
        preserve_order_within_braces: false,
        allow_mixed_separators: false,
        deduplicate_inputs: true,
        reprocess_braces: false,
    }
}

impl Default for BraceConfig {
    fn default() -> (c: Self)
        ensures
            c@ == default_config(),
    {
        Self {
            path_separator: text_of_char('/'),
            max_depth: 5,
            max_brace_size: None,
            allow_stem_split: false,
            allow_segment_split: true,
            sort_items: false,
            disallow_empty_braces: false,
            preserve_order_within_braces: false,
            allow_mixed_separators: false,
            deduplicate_inputs: true,
            reprocess_braces: false,
        }
    }
}

/// The path holds an opening or a closing brace.
pub open spec fn has_brace(path: Seq<char>) -> bool {
    path.contains('{') || path.contains('}')
}

/// The first position at or after `from` of a path that holds a brace, or `-1`.
pub open spec fn first_braced(paths: Seq<Seq<char>>, from: int) -> int
    decreases paths.len() - from,
{
    if from < 0 || from >= paths.len() {
        -1
    } else if has_brace(paths[from]) {
        from
    } else {
        first_braced(paths, from + 1)
    }
}

/// Every path with its separators rewritten as `sep`.
pub open spec fn unified(paths: Seq<Seq<char>>, sep: Seq<char>) -> Seq<Seq<char>> {
    Seq::new(paths.len(), |i: int| normalised(paths[i], sep))
}

/// The expansions of the first `n` paths, one path after another.
pub open spec fn expanded(paths: Seq<Seq<char>>, n: int) -> Seq<Seq<char>>
    decreases n,
{
    if n <= 0 || n > paths.len() {
        Seq::empty()
    } else {
        expanded(paths, n - 1) + expand(paths[n - 1])
    }
}

/// The paths without those that already came earlier.
pub open spec fn dedup(paths: Seq<Seq<char>>) -> Seq<Seq<char>>
    decreases paths.len(),
{
    if paths.len() == 0 {
        Seq::empty()
    } else {
        let before = dedup(paths.drop_last());
        if before.contains(paths.last()) {
            before
        } else {
            before.push(paths.last())
        }
    }
}

/// Every path without the ending `suffix`.
pub open spec fn stripped(paths: Seq<Seq<char>>, suffix: Seq<char>) -> Seq<Seq<char>> {
    Seq::new(paths.len(), |i: int| strip_suffix(paths[i], suffix))
}

/// The paths as the caller's separators leave them: rewritten where mixing
/// is allowed, untouched otherwise.
pub open spec fn separated(paths: Seq<Seq<char>>, cfg: ConfigView) -> Seq<Seq<char>> {
    if cfg.allow_mixed_separators {
        unified(paths, cfg.path_separator)
    } else {
        paths
    }
}

/// Why the paths are refused, if they are: an empty list, a foreign
/// separator where mixing is not allowed, or a brace where reprocessing is
/// off.
pub open spec fn rejection(paths: Seq<Seq<char>>, cfg: ConfigView) -> Option<ErrorView> {
    let ready = separated(paths, cfg);
    if paths.len() == 0 {
        Some(ErrorView::EmptyInput)
    } else if !cfg.allow_mixed_separators && offending(paths, cfg.path_separator).len() > 0 {
        Some(
            ErrorView::MixedSeparators {
                found: offending(paths, cfg.path_separator),
                expected: cfg.path_separator,
            },
        )
    } else if !cfg.reprocess_braces && first_braced(ready, 0) >= 0 {
        Some(
            ErrorView::InvalidBraceInput {
                path: ready[first_braced(ready, 0)],
                reason: "reprocessing disabled"@,
            },
        )
    } else {
        None
    }
}

/// The literal paths that go into the trie: separators settled, braces
/// expanded where reprocessing is on, repeats dropped where that is on.
pub open spec fn prepared(paths: Seq<Seq<char>>, cfg: ConfigView) -> Seq<Seq<char>> {
    let ready = separated(paths, cfg);
    let literal = if cfg.reprocess_braces {
        expanded(ready, ready.len() as int)
    } else {
        ready
    };
    if cfg.deduplicate_inputs {
        dedup(literal)
    } else {
        literal
    }
}

/// The trie of a list of literal paths, built without their common ending.
pub open spec fn path_trie(paths: Seq<Seq<char>>, cfg: ConfigView) -> Seq<NodeView> {
    trie_of(
        stripped(paths, common_suffix(paths)),
        cfg.path_separator,
        cfg.allow_segment_split,
        cfg.deduplicate_inputs,
        paths.len() as int,
    )
}

/// The brace expression for a list of literal paths: the expression of the
/// root of their trie, built without their common ending, and that ending.
pub open spec fn compressed(paths: Seq<Seq<char>>, cfg: ConfigView) -> Seq<char> {
    node_repr(path_trie(paths, cfg), 0, cfg.path_separator, cfg) + common_suffix(paths)
}

/// What compressing a list of paths gives.
pub open spec fn compression(paths: Seq<Seq<char>>, cfg: ConfigView) -> Result<
    Seq<char>,
    ErrorView,
> {
    match rejection(paths, cfg) {
        Some(e) => Err(e),
        None => Ok(compressed(prepared(paths, cfg), cfg)),
    }
}

/// What a result of `brace_paths` holds, as plain values.
pub open spec fn outcome(r: Result<String, BraceError>) -> Result<Seq<char>, ErrorView> {
    match r {
        Ok(s) => Ok(s@),
        Err(e) => Err(e@),
    }
}

/// Tells whether a string holds an opening or a closing brace.
pub fn holds_brace(path: &str) -> (r: bool)
    ensures
        r == has_brace(path@),
{
    let c = chars_of(path);
    has_char(&c, '{') || has_char(&c, '}')
}

/// The position of the first path that holds a brace.
pub fn find_braced(paths: &[String]) -> (r: Option<usize>)
    ensures
        match r {
            Some(at) => at < paths.len() && first_braced(texts(paths@), 0) == at,
            None => first_braced(texts(paths@), 0) == -1,
        },
{
    let mut i: usize = 0;
    while i < paths.len()
        invariant
            i <= paths.len(),
            first_braced(texts(paths@), 0) == first_braced(texts(paths@), i as int),
        decreases paths.len() - i,
    {
        assert(texts(paths@)[i as int] == paths[i as int]@);
        if holds_brace(paths[i].as_str()) {
            return Some(i);
        }
        i += 1;
    }
    None
}

/// A number that equal texts share, by which earlier paths are found again
/// without comparing a path with every one of them.
pub open spec fn digest_of(s: Seq<char>) -> u64
    decreases s.len(),
{
    if s.len() == 0 {
        0
    } else {
        ((digest_of(s.drop_last()) * 31 + (s.last() as u32)) % 0x1_0000_0000) as u64
    }
}

/// The list holds the position `k`.
pub open spec fn lists(list: Seq<usize>, k: int) -> bool {
    exists|j: int| 0 <= j < list.len() && #[trigger] list[j] == k
}

/// Every kept path is listed, by its position, under its digest, and
/// nothing else is listed.
pub open spec fn indexed(buckets: Map<u64, Vec<usize>>, kept: Seq<Seq<char>>) -> bool {
    &&& forall|k: int|
        0 <= k < kept.len() ==> buckets.contains_key(digest_of(#[trigger] kept[k])) && lists(
            buckets[digest_of(kept[k])]@,
            k,
        )
    &&& forall|h: u64, j: int|
        buckets.contains_key(h) && 0 <= j < buckets[h]@.len() ==> (#[trigger] buckets[h]@[j])
            < kept.len()
}

/// Computes the digest of a string.
pub fn digest(s: &str) -> (h: u64)
    ensures
        h == digest_of(s@),
{
    let mut h: u64 = 0;
    for c in it: s.chars()
        invariant
            it.seq() == s@,
            h < 0x1_0000_0000,
            h == digest_of(it.seq().take(it.index() as int)),
    {
        proof {
            let upto = it.seq().take(it.index() + 1);
            assert(upto.drop_last() =~= it.seq().take(it.index() as int));
            assert(upto.last() == c);
        }
        let code: u32 = c as u32;
        h = (h * 31 + code as u64) % 0x1_0000_0000;
    }
    assert(s@.take(s@.len() as int) =~= s@);
    h
}

/// Tells whether `item`, whose digest is `h`, is among the kept paths.
pub fn seen_before(
    kept: &Vec<String>,
    buckets: &HashMap<u64, Vec<usize>>,
    item: &String,
    h: u64,
) -> (found: bool)
    requires
        h == digest_of(item@),
        indexed(buckets@, texts(kept@)),
    ensures
        found == texts(kept@).contains(item@),
{
    let ghost all = texts(kept@);
    match buckets.get(&h) {
        None => {
            assert forall|k: int| 0 <= k < all.len() implies all[k] != item@ by {
                assert(buckets@.contains_key(digest_of(all[k])));
            }
            false
        },
        Some(list) => {
            let mut j: usize = 0;
            while j < list.len()
                invariant
                    j <= list.len(),
                    all == texts(kept@),
                    buckets@.contains_key(h),
                    *list == buckets@[h],
                    indexed(buckets@, all),
                    forall|i: int| 0 <= i < j ==> all[list[i] as int] != item@,
                decreases list.len() - j,
            {
                assert(buckets@[h]@[j as int] < all.len());
                let at = list[j];
                assert(all[at as int] == kept[at as int]@);
                if kept[at] == *item {
                    return true;
                }
                j += 1;
            }
            assert forall|k: int| 0 <= k < all.len() implies all[k] != item@ by {
                if all[k] == item@ {
                    assert(lists(buckets@[digest_of(all[k])]@, k));
                    let i = choose|i: int| 0 <= i < list@.len() && #[trigger] list@[i] == k;
                    assert(all[list[i] as int] != item@);
                }
            }
            false
        },
    }
}

/// Lists position `at` under the digest `h`.
pub fn remember(buckets: &mut HashMap<u64, Vec<usize>>, h: u64, at: usize)
    ensures
        final(buckets)@.dom() == old(buckets)@.dom().insert(h),
        forall|g: u64| g != h && old(buckets)@.contains_key(g) ==> final(buckets)@[g] == old(
            buckets,
        )@[g],
        final(buckets)@[h]@ == if old(buckets)@.contains_key(h) {
            old(buckets)@[h]@.push(at)
        } else {
            seq![at]
        },
{
    let mut list: Vec<usize> = match buckets.remove(&h) {
        Some(l) => l,
        None => Vec::new(),
    };
    list.push(at);
    buckets.insert(h, list);
    assert(buckets@.dom() =~= old(buckets)@.dom().insert(h));
}

/// Keeps the first occurrence of every path, in order.
pub fn deduplicate(paths: &Vec<String>) -> (r: Vec<String>)
    ensures
        texts(r@) == dedup(texts(paths@)),
{
    let mut r: Vec<String> = Vec::new();
    let mut buckets: HashMap<u64, Vec<usize>> = HashMap::new();
    let mut i: usize = 0;
    assert(texts(paths@).take(0) =~= Seq::empty());
    assert(texts(r@) =~= Seq::empty());
    while i < paths.len()
        invariant
            i <= paths.len(),
            texts(r@) == dedup(texts(paths@).take(i as int)),
            indexed(buckets@, texts(r@)),
        decreases paths.len() - i,
    {
        proof {
            let upto = texts(paths@).take(i + 1);
            assert(upto.drop_last() =~= texts(paths@).take(i as int));
            assert(upto.last() == paths[i as int]@);
        }
        let h = digest(paths[i].as_str());
        if !seen_before(&r, &buckets, &paths[i], h) {
            let ghost before = texts(r@);
            let ghost old_buckets = buckets@;
            let at = r.len();
            remember(&mut buckets, h, at);
            r.push(paths[i].clone());
            proof {
                let now = texts(r@);
                assert(now =~= before.push(paths[i as int]@));
                assert forall|k: int| 0 <= k < now.len() implies buckets@.contains_key(
                    digest_of(#[trigger] now[k]),
                ) && lists(buckets@[digest_of(now[k])]@, k) by {
                    let g = digest_of(now[k]);
                    if k < before.len() {
                        assert(now[k] == before[k]);
                        assert(lists(old_buckets[g]@, k));
                        let j = choose|j: int|
                            0 <= j < old_buckets[g]@.len() && #[trigger] old_buckets[g]@[j] == k;
                        assert(buckets@[g]@[j] == k);
                    } else {
                        assert(buckets@[h]@[buckets@[h]@.len() - 1] == at);
                    }
                }
                assert forall|g: u64, j: int|
                    buckets@.contains_key(g) && 0 <= j < buckets@[g]@.len() implies (
                #[trigger] buckets@[g]@[j]) < now.len() by {
                    if g == h {
                        if old_buckets.contains_key(h) && j < old_buckets[h]@.len() {
                            assert(buckets@[g]@[j] == old_buckets[h]@[j]);
                        }
                    } else {
                        assert(old_buckets.contains_key(g));
                        assert(buckets@[g]@[j] == old_buckets[g]@[j]);
                    }
                }
            }
        }
        i += 1;
    }
    assert(texts(paths@).take(paths.len() as int) =~= texts(paths@));
    r
}

/// Expands the brace syntax of every path, one path after another.
pub fn expand_each(paths: &Vec<String>) -> (r: Vec<String>)
    ensures
        texts(r@) == expanded(texts(paths@), paths.len() as int),
{
    let mut r: Vec<String> = Vec::new();
    let mut i: usize = 0;
    assert(texts(r@) =~= Seq::empty());
    while i < paths.len()
        invariant
            i <= paths.len(),
            texts(r@) == expanded(texts(paths@), i as int),
        decreases paths.len() - i,
    {
        assert(texts(paths@)[i as int] == paths[i as int]@);
        let more = expand_braces(paths[i].as_str());
        append_texts(&mut r, more.as_slice());
        i += 1;
    }
    r
}

/// Rewrites the separators of every path as `sep`.
pub fn unify_each(paths: &Vec<String>, sep: &str) -> (r: Vec<String>)
    ensures
        texts(r@) == unified(texts(paths@), sep@),
{
    let mut r: Vec<String> = Vec::new();
    let mut i: usize = 0;
    while i < paths.len()
        invariant
            i <= paths.len(),
            r.len() == i,
            forall|j: int| 0 <= j < i ==> (#[trigger] r[j])@ == normalised(paths[j]@, sep@),
        decreases paths.len() - i,
    {
        r.push(normalise_separators(paths[i].as_str(), sep));
        i += 1;
    }
    assert(texts(r@) =~= unified(texts(paths@), sep@));
    r
}

/// Removes the ending `suffix` from every path that ends with it.
pub fn strip_each(paths: &Vec<String>, suffix: &str) -> (r: Vec<String>)
    ensures
        texts(r@) == stripped(texts(paths@), suffix@),
{
    let tail = chars_of(suffix);
    let mut r: Vec<String> = Vec::new();
    let mut i: usize = 0;
    while i < paths.len()
        invariant
            i <= paths.len(),
            tail@ == suffix@,
            r.len() == i,
            forall|j: int| 0 <= j < i ==> (#[trigger] r[j])@ == strip_suffix(paths[j]@, suffix@),
        decreases paths.len() - i,
    {
        let path = chars_of(paths[i].as_str());
        if finishes_with(&path, &tail) {
            r.push(text_between(&path, 0, path.len() - tail.len()));
        } else {
            r.push(paths[i].clone());
        }
        i += 1;
    }
    assert(texts(r@) =~= stripped(texts(paths@), suffix@));
    r
}

/// Owned copies of the caller's paths.
pub fn own_paths(paths: &[&str]) -> (r: Vec<String>)
    ensures
        texts(r@) == strs(paths@),
{
    let mut r: Vec<String> = Vec::new();
    let mut i: usize = 0;
    while i < paths.len()
        invariant
            i <= paths.len(),
            r.len() == i,
            forall|j: int| 0 <= j < i ==> (#[trigger] r[j])@ == paths[j]@,
        decreases paths.len() - i,
    {
        r.push(paths[i].to_string());
        i += 1;
    }
    assert(texts(r@) =~= strs(paths@));
    r
}

/// Compresses literal paths, already settled, into one brace expression.
pub fn compress(paths: &Vec<String>, config: &BraceConfig) -> (r: String)
    requires
        config.max_brace_size != Some(0usize),
    ensures
        r@ == compressed(texts(paths@), config@),
{
    let common = find_common_suffix(paths.as_slice());
    let bare = strip_each(paths, common.as_str());
    let sep = config.path_separator.as_str();
    let (nodes, root) = build_trie(bare.as_slice(), sep, config);
    let (reprs, _) = compute_reprs(nodes.as_slice(), root, sep, config);
    proof {
        assert(texts(bare@).len() == texts(paths@).len());
        assert(reprs@.contains_key(root));
    }
    let mut result = match reprs.get(&root) {
        Some(text) => text.clone(),
        None => String::new(),
    };
    result.append(common.as_str());
    result
}

/// Compresses a list of paths into one brace expression.
///
/// An empty list is refused; so is a path with a foreign separator unless
/// mixing is allowed, and a path with a brace unless reprocessing is on.
/// A group size limit of zero cannot be met and is left out.
pub fn brace_paths(paths: &[&str], config: &BraceConfig) -> (r: Result<String, BraceError>)
    requires
        config.max_brace_size != Some(0usize),
    ensures
        outcome(r) == compression(strs(paths@), config@),
{
    if paths.len() == 0 {
        return Err(BraceError::EmptyInput);
    }
    let sep = config.path_separator.as_str();
    let mut owned = own_paths(paths);
    if !config.allow_mixed_separators {
        match validate_separators(owned.as_slice(), sep) {
            Err(e) => {
                return Err(e);
            },
            Ok(_) => {},
        }
    } else {
        owned = unify_each(&owned, sep);
    }
    assert(texts(owned@) == separated(strs(paths@), config@));
    if !config.reprocess_braces {
        match find_braced(owned.as_slice()) {
            Some(at) => {
                let e = BraceError::InvalidBraceInput {
                    path: owned[at].clone(),
                    reason: "reprocessing disabled".to_string(),
                };
                return Err(e);
            },
            None => {},
        }
    }
    if config.reprocess_braces {
        owned = expand_each(&owned);
    }
    if config.deduplicate_inputs {
        owned = deduplicate(&owned);
    }
    assert(texts(owned@) == prepared(strs(paths@), config@));
    Ok(compress(&owned, config))
}

} // verus!
