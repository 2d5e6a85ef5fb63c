//! Separator checks, separator normalisation, and the longest text that a
//! list of strings has in common at its front or at its end.

use vstd::prelude::*;
use crate::error::{BraceError, ErrorView};
use crate::text::{
    chars_of, chars_of_all, ends_with, finishes_with, has_char, push_all, rows, slice_of,
    starts_with, text_of, text_of_char, texts,
};

verus! {

/// Some path holds the character `c`, and the expected separator does not.
pub open spec fn offends(paths: Seq<Seq<char>>, expected: Seq<char>, c: char) -> bool {
    !expected.contains(c) && exists|i: int| 0 <= i < paths.len() && (#[trigger] paths[i]).contains(c)
}

/// `c` as a one-character string if it offends, nothing otherwise.
pub open spec fn offender(paths: Seq<Seq<char>>, expected: Seq<char>, c: char) -> Seq<Seq<char>> {
    if offends(paths, expected, c) {
        seq![seq![c]]
    } else {
        Seq::empty()
    }
}

/// The candidate separators `/`, `\` and `:` that offend, in that order.
pub open spec fn offending(paths: Seq<Seq<char>>, expected: Seq<char>) -> Seq<Seq<char>> {
    offender(paths, expected, '/') + offender(paths, expected, '\\') + offender(
        paths,
        expected,
        ':',
    )
}

/// `s` with every occurrence of the character `c` replaced by `to`.
pub open spec fn replace_char(s: Seq<char>, c: char, to: Seq<char>) -> Seq<char>
    decreases s.len(),
{
    if s.len() == 0 {
        s
    } else {
        replace_char(s.drop_last(), c, to) + (if s.last() == c {
            to
        } else {
            seq![s.last()]
        })
    }
}

/// `s` with the candidate separator `c` turned into `target`, unless `c`
/// alone is the target.
pub open spec fn unify(s: Seq<char>, c: char, target: Seq<char>) -> Seq<char> {
    if target == seq![c] {
        s
    } else {
        replace_char(s, c, target)
    }
}

/// `path` with `/`, then `\`, then `:` turned into `target`.
pub open spec fn normalised(path: Seq<char>, target: Seq<char>) -> Seq<char> {
    unify(unify(unify(path, '/', target), '\\', target), ':', target)
}

/// Every string is longer than `k` and holds at position `k` what the first
/// string holds there.
pub open spec fn agree_front(strings: Seq<Seq<char>>, k: int) -> bool {
    forall|i: int|
        0 <= i < strings.len() ==> k < (#[trigger] strings[i]).len() && strings[i][k]
            == strings[0][k]
}

/// Every string is longer than `k` and holds, `k` places before its end,
/// what the first string holds there.
pub open spec fn agree_back(strings: Seq<Seq<char>>, k: int) -> bool {
    forall|i: int|
        0 <= i < strings.len() ==> k < (#[trigger] strings[i]).len() && strings[i][strings[i].len()
            - 1 - k] == strings[0][strings[0].len() - 1 - k]
}

/// How far the strings agree from the front, counting from position `k`.
pub open spec fn front_run(strings: Seq<Seq<char>>, k: int) -> int
    decreases strings[0].len() - k,
{
    if strings.len() > 0 && 0 <= k < strings[0].len() && agree_front(strings, k) {
        front_run(strings, k + 1)
    } else {
        k
    }
}

/// How far the strings agree from the end, counting from `k` places back.
pub open spec fn back_run(strings: Seq<Seq<char>>, k: int) -> int
    decreases strings[0].len() - k,
{
    if strings.len() > 0 && 0 <= k < strings[0].len() && agree_back(strings, k) {
        back_run(strings, k + 1)
    } else {
        k
    }
}

/// The longest text with which every string begins; empty for no strings.
pub open spec fn common_prefix(strings: Seq<Seq<char>>) -> Seq<char> {
    if strings.len() == 0 {
        Seq::empty()
    } else {
        strings[0].subrange(0, front_run(strings, 0))
    }
}

/// The longest text with which every string ends; empty for no strings.
pub open spec fn common_suffix(strings: Seq<Seq<char>>) -> Seq<char> {
    if strings.len() == 0 {
        Seq::empty()
    } else {
        strings[0].subrange(strings[0].len() - back_run(strings, 0), strings[0].len() as int)
    }
}

/// `s` without the ending `suffix`, or `s` itself where it does not end so.
pub open spec fn strip_suffix(s: Seq<char>, suffix: Seq<char>) -> Seq<char> {
    if ends_with(s, suffix) {
        s.subrange(0, s.len() - suffix.len())
    } else {
        s
    }
}

/// Whether at least two items share a non-empty beginning or ending.
pub open spec fn stem_splittable(items: Seq<Seq<char>>) -> bool {
    items.len() >= 2 && (common_prefix(items).len() > 0 || common_suffix(items).len() > 0)
}

/// The run from the front stays within the first string.
pub proof fn lemma_front_run_bounds(strings: Seq<Seq<char>>, k: int)
    requires
        strings.len() > 0,
        0 <= k <= strings[0].len(),
    ensures
        k <= front_run(strings, k) <= strings[0].len(),
    decreases strings[0].len() - k,
{
    if k < strings[0].len() && agree_front(strings, k) {
        lemma_front_run_bounds(strings, k + 1);
    }
}

/// The run from the end stays within the first string.
pub proof fn lemma_back_run_bounds(strings: Seq<Seq<char>>, k: int)
    requires
        strings.len() > 0,
        0 <= k <= strings[0].len(),
    ensures
        k <= back_run(strings, k) <= strings[0].len(),
    decreases strings[0].len() - k,
{
    if k < strings[0].len() && agree_back(strings, k) {
        lemma_back_run_bounds(strings, k + 1);
    }
}

/// Within the run from the end, every string agrees with the first.
pub proof fn lemma_back_run_agrees(strings: Seq<Seq<char>>, from: int, k: int)
    requires
        0 <= from <= k < back_run(strings, from),
    ensures
        agree_back(strings, k),
    decreases strings[0].len() - from,
{
    if strings.len() > 0 && from < strings[0].len() && agree_back(strings, from) {
        if k > from {
            lemma_back_run_agrees(strings, from + 1, k);
        }
    }
}

/// Every string ends with the common ending, so a string without it,
/// followed by it, is the string.
pub proof fn lemma_common_suffix_ends(strings: Seq<Seq<char>>, i: int)
    requires
        0 <= i < strings.len(),
    ensures
        ends_with(strings[i], common_suffix(strings)),
        strip_suffix(strings[i], common_suffix(strings)) + common_suffix(strings) == strings[i],
{
    let n = back_run(strings, 0);
    let first = strings[0];
    let s = strings[i];
    let suffix = common_suffix(strings);
    lemma_back_run_bounds(strings, 0);
    assert(suffix.len() == n);
    assert forall|k: int| 0 <= k < n implies #[trigger] agree_back(strings, k) by {
        lemma_back_run_agrees(strings, 0, k);
    }
    if n > 0 {
        assert(agree_back(strings, n - 1));
        assert(n - 1 < strings[i].len());
    }
    let tail = s.subrange(s.len() - n, s.len() as int);
    assert forall|m: int| 0 <= m < n implies #[trigger] tail[m] == suffix[m] by {
        let k = n - 1 - m;
        assert(agree_back(strings, k));
        assert(strings[i][strings[i].len() - 1 - k] == first[first.len() - 1 - k]);
    }
    assert(tail =~= suffix);
    assert(s.subrange(0, s.len() - n) + suffix =~= s);
}

/// Where the strings agree at every place from `from` up to `m` places
/// before the end, the run from the end reaches at least `m`.
pub proof fn lemma_back_run_reaches(strings: Seq<Seq<char>>, from: int, m: int)
    requires
        strings.len() > 0,
        0 <= from <= m <= strings[0].len(),
        forall|k: int| from <= k < m ==> #[trigger] agree_back(strings, k),
    ensures
        back_run(strings, from) >= m,
    decreases m - from,
{
    if from < m {
        assert(agree_back(strings, from));
        lemma_back_run_reaches(strings, from + 1, m);
    } else {
        lemma_back_run_bounds(strings, from);
    }
}

/// No text with which every string ends is longer than the common ending.
pub proof fn lemma_common_suffix_longest(strings: Seq<Seq<char>>, t: Seq<char>)
    requires
        strings.len() > 0,
        forall|i: int| 0 <= i < strings.len() ==> ends_with(#[trigger] strings[i], t),
    ensures
        t.len() <= common_suffix(strings).len(),
{
    let first = strings[0];
    assert(ends_with(first, t));
    assert forall|k: int| 0 <= k < t.len() implies #[trigger] agree_back(strings, k) by {
        assert forall|i: int| 0 <= i < strings.len() implies k < (#[trigger] strings[i]).len()
            && strings[i][strings[i].len() - 1 - k] == first[first.len() - 1 - k] by {
            let s = strings[i];
            assert(ends_with(s, t));
            assert(s.subrange(s.len() - t.len(), s.len() as int)[t.len() - 1 - k] == t[t.len() - 1
                - k]);
            assert(first.subrange(first.len() - t.len(), first.len() as int)[t.len() - 1 - k]
                == t[t.len() - 1 - k]);
        }
    }
    lemma_back_run_reaches(strings, 0, t.len() as int);
    lemma_back_run_bounds(strings, 0);
}

/// Within the run from the front, every string agrees with the first.
pub proof fn lemma_front_run_agrees(strings: Seq<Seq<char>>, from: int, k: int)
    requires
        0 <= from <= k < front_run(strings, from),
    ensures
        agree_front(strings, k),
    decreases strings[0].len() - from,
{
    if strings.len() > 0 && from < strings[0].len() && agree_front(strings, from) {
        if k > from {
            lemma_front_run_agrees(strings, from + 1, k);
        }
    }
}

/// Every string begins with the common beginning.
pub proof fn lemma_common_prefix_starts(strings: Seq<Seq<char>>, i: int)
    requires
        0 <= i < strings.len(),
    ensures
        starts_with(strings[i], common_prefix(strings)),
{
    let n = front_run(strings, 0);
    let first = strings[0];
    let s = strings[i];
    let prefix = common_prefix(strings);
    lemma_front_run_bounds(strings, 0);
    assert forall|k: int| 0 <= k < n implies #[trigger] agree_front(strings, k) by {
        lemma_front_run_agrees(strings, 0, k);
    }
    if n > 0 {
        assert(agree_front(strings, n - 1));
        assert(n - 1 < strings[i].len());
    }
    let head = s.subrange(0, n);
    assert forall|m: int| 0 <= m < n implies #[trigger] head[m] == prefix[m] by {
        assert(agree_front(strings, m));
        assert(strings[i][m] == first[m]);
    }
    assert(head =~= prefix);
}

/// Where the strings agree at every place from `from` up to `m`, the run
/// from the front reaches at least `m`.
pub proof fn lemma_front_run_reaches(strings: Seq<Seq<char>>, from: int, m: int)
    requires
        strings.len() > 0,
        0 <= from <= m <= strings[0].len(),
        forall|k: int| from <= k < m ==> #[trigger] agree_front(strings, k),
    ensures
        front_run(strings, from) >= m,
    decreases m - from,
{
    if from < m {
        assert(agree_front(strings, from));
        lemma_front_run_reaches(strings, from + 1, m);
    } else {
        lemma_front_run_bounds(strings, from);
    }
}

/// No text with which every string begins is longer than the common
/// beginning.
pub proof fn lemma_common_prefix_longest(strings: Seq<Seq<char>>, t: Seq<char>)
    requires
        strings.len() > 0,
        forall|i: int| 0 <= i < strings.len() ==> starts_with(#[trigger] strings[i], t),
    ensures
        t.len() <= common_prefix(strings).len(),
{
    let first = strings[0];
    assert(starts_with(first, t));
    assert forall|k: int| 0 <= k < t.len() implies #[trigger] agree_front(strings, k) by {
        assert forall|i: int| 0 <= i < strings.len() implies k < (#[trigger] strings[i]).len()
            && strings[i][k] == first[k] by {
            let s = strings[i];
            assert(starts_with(s, t));
            assert(s.subrange(0, t.len() as int)[k] == t[k]);
            assert(first.subrange(0, t.len() as int)[k] == t[k]);
        }
    }
    lemma_front_run_reaches(strings, 0, t.len() as int);
    lemma_front_run_bounds(strings, 0);
}

/// Tells whether some path holds `c` while `expected` does not.
fn separator_offends(paths: &Vec<Vec<char>>, expected: &Vec<char>, c: char) -> (r: bool)
    ensures
        r == offends(rows(paths@), expected@, c),
{
    if has_char(expected, c) {
        return false;
    }
    let mut i: usize = 0;
    while i < paths.len()
        invariant
            i <= paths.len(),
            !expected@.contains(c),
            forall|j: int| 0 <= j < i ==> !(#[trigger] rows(paths@)[j]).contains(c),
        decreases paths.len() - i,
    {
        if has_char(&paths[i], c) {
            assert(rows(paths@)[i as int].contains(c));
            return true;
        }
        i += 1;
    }
    false
}

/// Checks that no path uses a candidate separator (`/`, `\`, `:`) that the
/// expected separator does not hold; reports those that do, in that order.
pub fn validate_separators(paths: &[String], expected: &str) -> (r: Result<(), BraceError>)
    ensures
        match r {
            Ok(_) => offending(texts(paths@), expected@).len() == 0,
            Err(e) => offending(texts(paths@), expected@).len() > 0 && e@
                == (ErrorView::MixedSeparators {
                found: offending(texts(paths@), expected@),
                expected: expected@,
            }),
        },
{
    let all = chars_of_all(paths);
    let want = chars_of(expected);
    let mut found: Vec<String> = Vec::new();
    if separator_offends(&all, &want, '/') {
        found.push(text_of_char('/'));
    }
    assert(texts(found@) =~= offender(texts(paths@), expected@, '/'));
    if separator_offends(&all, &want, '\\') {
        found.push(text_of_char('\\'));
    }
    assert(texts(found@) =~= offender(texts(paths@), expected@, '/') + offender(
        texts(paths@),
        expected@,
        '\\',
    ));
    if separator_offends(&all, &want, ':') {
        found.push(text_of_char(':'));
    }
    assert(texts(found@) =~= offending(texts(paths@), expected@));
    if found.len() > 0 {
        Err(BraceError::MixedSeparators { found, expected: expected.to_string() })
    } else {
        Ok(())
    }
}

/// Replaces every `c` in `s` by `to`.
fn replace_in(s: &Vec<char>, c: char, to: &Vec<char>) -> (r: Vec<char>)
    ensures
        r@ == replace_char(s@, c, to@),
{
    let mut r: Vec<char> = Vec::new();
    let mut i: usize = 0;
    while i < s.len()
        invariant
            i <= s.len(),
            r@ == replace_char(s@.subrange(0, i as int), c, to@),
        decreases s.len() - i,
    {
        proof {
            let next = s@.subrange(0, i + 1);
            assert(next.drop_last() =~= s@.subrange(0, i as int));
            assert(next.last() == s[i as int]);
        }
        if s[i] == c {
            push_all(&mut r, to);
        } else {
            r.push(s[i]);
            assert(r@ =~= replace_char(s@.subrange(0, i as int), c, to@) + seq![s[i as int]]);
        }
        i += 1;
    }
    assert(s@.subrange(0, s.len() as int) =~= s@);
    r
}

/// Turns the candidate separator `c` into `target`, unless `c` alone is the target.
fn unify_in(s: Vec<char>, c: char, target: &Vec<char>) -> (r: Vec<char>)
    ensures
        r@ == unify(s@, c, target@),
{
    if target.len() == 1 && target[0] == c {
        assert(target@ =~= seq![c]);
        s
    } else {
        assert(target@ != seq![c]) by {
            if target@ == seq![c] {
                assert(seq![c].len() == 1 && seq![c][0] == c);
            }
        }
        replace_in(&s, c, target)
    }
}

/// Rewrites `/`, then `\`, then `:` as the target separator.
pub fn normalise_separators(path: &str, target: &str) -> (r: String)
    ensures
        r@ == normalised(path@, target@),
{
    let to = chars_of(target);
    let a = unify_in(chars_of(path), '/', &to);
    let b = unify_in(a, '\\', &to);
    let c = unify_in(b, ':', &to);
    text_of(&c)
}

/// Tells whether every string agrees with the first at position `k`.
fn agrees_front(strings: &Vec<Vec<char>>, k: usize) -> (r: bool)
    requires
        strings.len() > 0,
        k < strings[0].len(),
    ensures
        r == agree_front(rows(strings@), k as int),
{
    let c = strings[0][k];
    let mut i: usize = 0;
    while i < strings.len()
        invariant
            i <= strings.len(),
            strings.len() > 0,
            k < strings[0].len(),
            c == strings[0][k as int],
            forall|j: int|
                0 <= j < i ==> k < (#[trigger] rows(strings@)[j]).len() && rows(strings@)[j][k as int]
                    == c,
        decreases strings.len() - i,
    {
        if k >= strings[i].len() || strings[i][k] != c {
            assert(rows(strings@)[i as int] == strings[i as int]@);
            assert(rows(strings@)[0] == strings[0]@);
            return false;
        }
        assert(rows(strings@)[i as int] == strings[i as int]@);
        i += 1;
    }
    assert(rows(strings@)[0] == strings[0]@);
    true
}

/// Tells whether every string agrees with the first `k` places before its end.
fn agrees_back(strings: &Vec<Vec<char>>, k: usize) -> (r: bool)
    requires
        strings.len() > 0,
        k < strings[0].len(),
    ensures
        r == agree_back(rows(strings@), k as int),
{
    let c = strings[0][strings[0].len() - 1 - k];
    let mut i: usize = 0;
    while i < strings.len()
        invariant
            i <= strings.len(),
            strings.len() > 0,
            k < strings[0].len(),
            c == strings[0][strings[0].len() - 1 - k],
            forall|j: int|
                0 <= j < i ==> k < (#[trigger] rows(strings@)[j]).len() && rows(
                    strings@,
                )[j][rows(strings@)[j].len() - 1 - k] == c,
        decreases strings.len() - i,
    {
        if k >= strings[i].len() || strings[i][strings[i].len() - 1 - k] != c {
            assert(rows(strings@)[i as int] == strings[i as int]@);
            assert(rows(strings@)[0] == strings[0]@);
            return false;
        }
        assert(rows(strings@)[i as int] == strings[i as int]@);
        i += 1;
    }
    assert(rows(strings@)[0] == strings[0]@);
    true
}

/// The longest common beginning of a list of character vectors.
pub fn shared_front(strings: &Vec<Vec<char>>) -> (r: Vec<char>)
    ensures
        r@ == common_prefix(rows(strings@)),
{
    if strings.len() == 0 {
        return Vec::new();
    }
    let mut k: usize = 0;
    assert(rows(strings@)[0] == strings[0]@);
    while k < strings[0].len() && agrees_front(strings, k)
        invariant
            strings.len() > 0,
            k <= strings[0].len(),
            rows(strings@)[0] == strings[0]@,
            front_run(rows(strings@), 0) == front_run(rows(strings@), k as int),
        decreases strings[0].len() - k,
    {
        k += 1;
    }
    slice_of(&strings[0], 0, k)
}

/// The longest common ending of a list of character vectors.
pub fn shared_back(strings: &Vec<Vec<char>>) -> (r: Vec<char>)
    ensures
        r@ == common_suffix(rows(strings@)),
{
    if strings.len() == 0 {
        return Vec::new();
    }
    let mut k: usize = 0;
    assert(rows(strings@)[0] == strings[0]@);
    while k < strings[0].len() && agrees_back(strings, k)
        invariant
            strings.len() > 0,
            k <= strings[0].len(),
            rows(strings@)[0] == strings[0]@,
            back_run(rows(strings@), 0) == back_run(rows(strings@), k as int),
        decreases strings[0].len() - k,
    {
        k += 1;
    }
    slice_of(&strings[0], strings[0].len() - k, strings[0].len())
}

/// The longest text with which every string ends.
pub fn find_common_suffix(strings: &[String]) -> (r: String)
    ensures
        r@ == common_suffix(texts(strings@)),
{
    let all = chars_of_all(strings);
    text_of(&shared_back(&all))
}

/// The longest text with which every string begins.
pub fn find_common_string_prefix(strings: &[String]) -> (r: String)
    ensures
        r@ == common_prefix(texts(strings@)),
{
    let all = chars_of_all(strings);
    text_of(&shared_front(&all))
}

/// The longest text with which every string ends.
pub fn find_common_string_suffix(strings: &[String]) -> (r: String)
    ensures
        r@ == common_suffix(texts(strings@)),
{
    let all = chars_of_all(strings);
    text_of(&shared_back(&all))
}

/// Tells whether at least two items share a non-empty beginning or ending.
pub fn can_stem_split(items: &[String]) -> (r: bool)
    ensures
        r == stem_splittable(texts(items@)),
{
    if items.len() < 2 {
        return false;
    }
    let p = find_common_string_prefix(items);
    let s = find_common_string_suffix(items);
    !p.as_str().is_empty() || !s.as_str().is_empty()
}

/// `s` without one trailing `sep`, or `s` itself where it does not end so.
pub fn clean_trailing_sep<'a>(s: &'a str, sep: &str) -> (r: &'a str)
    ensures
        r@ == strip_suffix(s@, sep@),
{
    let text = chars_of(s);
    let tail = chars_of(sep);
    if finishes_with(&text, &tail) {
        s.substring_char(0, text.len() - tail.len())
    } else {
        s
    }
}

} // verus!
