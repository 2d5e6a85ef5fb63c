//! Expansion of well-nested expressions: what `expand` gives for plain
//! text, for a brace group of well-nested alternatives, and for such an
//! expression between plain text.

use vstd::prelude::*;
use crate::processor::expansion::{
    alternatives, braced, closing, expand, expand_all, expand_scan, finish, group_close, split_top,
    spread,
};
use crate::text::join;

verus! {

/// By how much a character changes the nesting level.
pub open spec fn step(c: char) -> int {
    if c == '{' {
        1
    } else if c == '}' {
        -1
    } else {
        0
    }
}

/// The nesting level after the first `n` characters of `s`.
pub open spec fn level(s: Seq<char>, n: int) -> int
    decreases n,
{
    if n <= 0 || n > s.len() {
        0
    } else {
        level(s, n - 1) + step(s[n - 1])
    }
}

/// `s` holds no brace and no comma.
pub open spec fn plain(s: Seq<char>) -> bool {
    forall|k: int| 0 <= k < s.len() ==> s[k] != '{' && s[k] != '}' && s[k] != ','
}

/// `s` is well nested, and every comma of it lies inside a group.
pub open spec fn sealed(s: Seq<char>) -> bool {
    &&& forall|n: int| 0 <= n <= s.len() ==> #[trigger] level(s, n) >= 0
    &&& level(s, s.len() as int) == 0
    &&& forall|k: int| 0 <= k < s.len() && s[k] == ',' ==> #[trigger] level(s, k) > 0
}

/// Every text of `m`, between `a` and `z`.
pub open spec fn framed(a: Seq<char>, m: Seq<Seq<char>>, z: Seq<char>) -> Seq<Seq<char>> {
    Seq::new(m.len(), |k: int| a + m[k] + z)
}

/// `r` is a sealed expression that stands for the texts `m`: between any
/// plain texts it expands to those texts between them.
pub open spec fn expands_to(r: Seq<char>, m: Seq<Seq<char>>) -> bool {
    sealed(r) && forall|a: Seq<char>, z: Seq<char>|
        plain(a) && plain(z) ==> #[trigger] expand(a + r + z) == framed(a, m, z)
}

/// The first `n` lists of `ms`, written one after another.
pub open spec fn gathered(ms: Seq<Seq<Seq<char>>>, n: int) -> Seq<Seq<char>>
    decreases n,
{
    if n <= 0 || n > ms.len() {
        Seq::empty()
    } else {
        gathered(ms, n - 1) + ms[n - 1]
    }
}

/// The level within two texts written one after the other.
pub proof fn lemma_level_concat(a: Seq<char>, b: Seq<char>, n: int)
    requires
        0 <= n <= a.len() + b.len(),
    ensures
        level(a + b, n) == if n <= a.len() {
            level(a, n)
        } else {
            level(a, a.len() as int) + level(b, n - a.len())
        },
    decreases n,
{
    assert(level(b, 0) == 0);
    if n > 0 {
        lemma_level_concat(a, b, n - 1);
        assert(level(a + b, n) == level(a + b, n - 1) + step((a + b)[n - 1]));
        if n <= a.len() {
            assert((a + b)[n - 1] == a[n - 1]);
            assert(level(a, n) == level(a, n - 1) + step(a[n - 1]));
        } else {
            assert((a + b)[n - 1] == b[n - 1 - a.len()]);
            assert(level(b, n - a.len()) == level(b, n - a.len() - 1) + step(
                b[n - a.len() - 1],
            ));
        }
    }
}

/// Plain text stays at level 0.
pub proof fn lemma_level_plain(s: Seq<char>, n: int)
    requires
        plain(s),
        0 <= n <= s.len(),
    ensures
        level(s, n) == 0,
    decreases n,
{
    if n > 0 {
        lemma_level_plain(s, n - 1);
    }
}

/// Plain text is sealed.
pub proof fn lemma_plain_sealed(s: Seq<char>)
    requires
        plain(s),
    ensures
        sealed(s),
{
    assert forall|n: int| 0 <= n <= s.len() implies #[trigger] level(s, n) >= 0 by {
        lemma_level_plain(s, n);
    }
    lemma_level_plain(s, s.len() as int);
}

/// Two plain texts written one after the other are plain.
pub proof fn lemma_plain_concat(a: Seq<char>, b: Seq<char>)
    requires
        plain(a),
        plain(b),
    ensures
        plain(a + b),
{
    assert forall|k: int| 0 <= k < (a + b).len() implies (a + b)[k] != '{' && (a + b)[k] != '}'
        && (a + b)[k] != ',' by {
        if k < a.len() {
            assert((a + b)[k] == a[k]);
        } else {
            assert((a + b)[k] == b[k - a.len()]);
        }
    }
}

/// A sealed text after a plain one is sealed.
pub proof fn lemma_sealed_after_plain(p: Seq<char>, r: Seq<char>)
    requires
        plain(p),
        sealed(r),
    ensures
        sealed(p + r),
{
    let s = p + r;
    lemma_level_plain(p, p.len() as int);
    assert forall|n: int| 0 <= n <= s.len() implies #[trigger] level(s, n) >= 0 by {
        lemma_level_concat(p, r, n);
        if n <= p.len() {
            lemma_level_plain(p, n);
        } else {
            assert(level(r, n - p.len()) >= 0);
        }
    }
    lemma_level_concat(p, r, s.len() as int);
    if r.len() == 0 {
        assert(s =~= p);
    }
    assert forall|k: int| 0 <= k < s.len() && s[k] == ',' implies #[trigger] level(s, k) > 0 by {
        lemma_level_concat(p, r, k);
        if k < p.len() {
            assert(s[k] == p[k]);
        } else {
            assert(s[k] == r[k - p.len()]);
            assert(level(r, k - p.len()) > 0);
        }
    }
}

/// While the level stays at 1 or above, the search for the closing brace
/// goes on.
pub proof fn lemma_closing_skips(s: Seq<char>, i: int, j: int, d: int)
    requires
        0 <= i <= j <= s.len(),
        d >= 1,
        forall|k: int| i < k <= j ==> d + #[trigger] level(s, k) - level(s, i) >= 1,
    ensures
        closing(s, i, d) == closing(s, j, d + level(s, j) - level(s, i)),
    decreases j - i,
{
    if i < j {
        assert(level(s, i + 1) == level(s, i) + step(s[i]));
        assert(d + level(s, i + 1) - level(s, i) >= 1);
        let d1 = d + step(s[i]);
        assert forall|k: int| i + 1 < k <= j implies d1 + #[trigger] level(s, k) - level(s, i + 1)
            >= 1 by {
            assert(d + level(s, k) - level(s, i) >= 1);
        }
        lemma_closing_skips(s, i + 1, j, d1);
    }
}

/// While no comma lies at level 0 and the level stays at 0 or above, the
/// search for alternatives goes on without a cut.
pub proof fn lemma_split_skips(inner: Seq<char>, i: int, j: int, start: int, depth: int)
    requires
        0 <= start <= i <= j <= inner.len(),
        depth >= 0,
        forall|k: int|
            i <= k < j ==> depth + #[trigger] level(inner, k + 1) - level(inner, i) >= 0,
        forall|k: int|
            i <= k < j && inner[k] == ',' ==> depth + #[trigger] level(inner, k) - level(inner, i)
                > 0,
    ensures
        split_top(inner, i, start, depth) == split_top(
            inner,
            j,
            start,
            depth + level(inner, j) - level(inner, i),
        ),
    decreases j - i,
{
    if i < j {
        assert(level(inner, i + 1) == level(inner, i) + step(inner[i]));
        assert(depth + level(inner, i + 1) - level(inner, i) >= 0);
        if inner[i] == ',' {
            assert(depth + level(inner, i) - level(inner, i) > 0);
        }
        let d1 = depth + step(inner[i]);
        assert forall|k: int| i + 1 <= k < j implies d1 + #[trigger] level(inner, k + 1) - level(
            inner,
            i + 1,
        ) >= 0 by {
            assert(depth + level(inner, k + 1) - level(inner, i) >= 0);
        }
        assert forall|k: int| i + 1 <= k < j && inner[k] == ',' implies d1 + #[trigger] level(
            inner,
            k,
        ) - level(inner, i + 1) > 0 by {
            assert(depth + level(inner, k) - level(inner, i) > 0);
        }
        lemma_split_skips(inner, i + 1, j, start, d1);
    }
}

/// A joined list is its first item, the separator, and the rest joined.
pub proof fn lemma_join_first(items: Seq<Seq<char>>, sep: Seq<char>)
    requires
        items.len() >= 2,
    ensures
        join(items, sep) == items[0] + sep + join(items.drop_first(), sep),
    decreases items.len(),
{
    let rest = items.drop_first();
    if items.len() == 2 {
        assert(items.drop_last() =~= seq![items[0]]);
        assert(join(items.drop_last(), sep) == items[0]);
        assert(rest =~= seq![items[1]]);
        assert(join(rest, sep) == items[1]);
    } else {
        lemma_join_first(items.drop_last(), sep);
        assert(items.drop_last().drop_first() =~= rest.drop_last());
        assert(rest.last() == items.last());
        assert(items.drop_last()[0] == items[0]);
        assert(join(items, sep) =~= items[0] + sep + join(rest, sep));
    }
}

/// The alternatives of sealed items joined by commas, read from where the
/// items start, are the items.
pub proof fn lemma_split_joined(x: Seq<char>, items: Seq<Seq<char>>)
    requires
        items.len() >= 1,
        forall|k: int| 0 <= k < items.len() ==> sealed(#[trigger] items[k]),
    ensures
        split_top(x + join(items, seq![',']), x.len() as int, x.len() as int, 0) == items,
    decreases items.len(),
{
    let comma = seq![','];
    let inner = x + join(items, comma);
    let first = items[0];
    let i = x.len() as int;
    let j = i + first.len();
    assert(sealed(first));
    if items.len() == 1 {
        assert(join(items, comma) == first);
    } else {
        lemma_join_first(items, comma);
    }
    let tail = if items.len() == 1 {
        Seq::<char>::empty()
    } else {
        comma + join(items.drop_first(), comma)
    };
    assert(inner =~= (x + first) + tail);
    assert forall|n: int| 0 <= n <= first.len() implies #[trigger] level(inner, i + n) - level(
        inner,
        i,
    ) == level(first, n) by {
        lemma_level_concat(x + first, tail, i + n);
        lemma_level_concat(x + first, tail, i);
        lemma_level_concat(x, first, i + n);
        lemma_level_concat(x, first, i);
    }
    assert forall|k: int| i <= k < j implies 0 + #[trigger] level(inner, k + 1) - level(inner, i)
        >= 0 by {
        assert(level(inner, i + (k + 1 - i)) - level(inner, i) == level(first, k + 1 - i));
        assert(level(first, k + 1 - i) >= 0);
    }
    assert forall|k: int| i <= k < j && inner[k] == ',' implies 0 + #[trigger] level(inner, k)
        - level(inner, i) > 0 by {
        assert(level(inner, i + (k - i)) - level(inner, i) == level(first, k - i));
        assert(inner[k] == first[k - i]);
        assert(level(first, k - i) > 0);
    }
    lemma_split_skips(inner, i, j, i, 0);
    assert(level(inner, i + first.len()) - level(inner, i) == level(first, first.len() as int));
    assert(split_top(inner, i, i, 0) == split_top(inner, j, i, 0));
    assert(inner.subrange(i, j) =~= first);
    if items.len() == 1 {
        assert(j == inner.len());
        assert(split_top(inner, j, i, 0) =~= seq![first]);
        assert(items =~= seq![first]);
    } else {
        assert(inner[j] == ',');
        let x2 = x + first + comma;
        assert(inner =~= x2 + join(items.drop_first(), comma));
        assert forall|k: int| 0 <= k < items.drop_first().len() implies sealed(
            #[trigger] items.drop_first()[k],
        ) by {
            assert(items.drop_first()[k] == items[k + 1]);
        }
        lemma_split_joined(x2, items.drop_first());
        assert(split_top(inner, j, i, 0) == seq![first] + split_top(inner, j + 1, j + 1, 0));
        assert(items =~= seq![first] + items.drop_first());
    }
}

/// Sealed items joined by commas have the items as their alternatives.
pub proof fn lemma_alternatives_of_join(items: Seq<Seq<char>>)
    requires
        items.len() >= 1,
        forall|k: int| 0 <= k < items.len() ==> sealed(#[trigger] items[k]),
    ensures
        alternatives(join(items, seq![','])) == items,
{
    lemma_split_joined(Seq::empty(), items);
    assert(Seq::<char>::empty() + join(items, seq![',']) =~= join(items, seq![',']));
}

/// Text without an opening brace expands to itself: scanning it only
/// collects its characters.
pub proof fn lemma_scan_plain(s: Seq<char>, i: int, current: Seq<char>)
    requires
        0 <= i <= s.len(),
        forall|j: int| i <= j < s.len() ==> s[j] != '{',
    ensures
        expand_scan(s, i, seq![Seq::<char>::empty()], current) == seq![current + s.skip(i)],
    decreases s.len() - i,
{
    let start = seq![Seq::<char>::empty()];
    if i < s.len() {
        lemma_scan_plain(s, i + 1, current.push(s[i]));
        assert(current.push(s[i]) + s.skip(i + 1) =~= current + s.skip(i));
    } else {
        assert(current + s.skip(i) =~= current);
        assert(finish(start, current) =~= seq![current]) by {
            assert(start[0] + current =~= current);
        }
    }
}

/// Text without an opening brace expands to itself.
pub proof fn lemma_expand_plain(s: Seq<char>)
    requires
        !s.contains('{'),
    ensures
        expand(s) == seq![s],
{
    assert forall|j: int| 0 <= j < s.len() implies s[j] != '{' by {
        if s[j] == '{' {
            assert(s.contains('{'));
        }
    }
    lemma_scan_plain(s, 0, Seq::empty());
    assert(Seq::<char>::empty() + s.skip(0) =~= s);
}

/// `s` is well nested.
pub open spec fn balanced(s: Seq<char>) -> bool {
    &&& forall|n: int| 0 <= n <= s.len() ==> #[trigger] level(s, n) >= 0
    &&& level(s, s.len() as int) == 0
}

/// Well-nested items joined by commas are well nested, and no shorter than
/// any one of them.
pub proof fn lemma_join_balanced(items: Seq<Seq<char>>)
    requires
        forall|k: int| 0 <= k < items.len() ==> balanced(#[trigger] items[k]),
    ensures
        balanced(join(items, seq![','])),
        forall|k: int| 0 <= k < items.len() ==> (#[trigger] items[k]).len() <= join(
            items,
            seq![','],
        ).len(),
    decreases items.len(),
{
    let comma = seq![','];
    if items.len() == 0 {
        assert(level(Seq::<char>::empty(), 0) == 0);
    } else if items.len() == 1 {
        assert(balanced(items[0]));
    } else {
        let front = items.drop_last();
        let last = items.last();
        assert forall|k: int| 0 <= k < front.len() implies balanced(#[trigger] front[k]) by {
            assert(front[k] == items[k]);
        }
        lemma_join_balanced(front);
        let head = join(front, comma) + comma;
        let whole = head + last;
        assert(join(items, comma) == whole);
        assert(balanced(last));
        assert forall|n: int| 0 <= n <= head.len() implies level(head, n) >= 0 && (n
            == head.len() ==> level(head, n) == 0) by {
            lemma_level_concat(join(front, comma), comma, n);
            if n > join(front, comma).len() {
                assert(level(comma, 1) == level(comma, 0) + step(comma[0]));
                assert(level(comma, 0) == 0);
            } else {
                assert(level(join(front, comma), n) >= 0);
            }
        }
        assert forall|n: int| 0 <= n <= whole.len() implies #[trigger] level(whole, n) >= 0 by {
            lemma_level_concat(head, last, n);
            if n > head.len() {
                assert(level(last, n - head.len()) >= 0);
            }
        }
        lemma_level_concat(head, last, whole.len() as int);
        assert forall|k: int| 0 <= k < items.len() implies (#[trigger] items[k]).len()
            <= whole.len() by {
            if k < front.len() {
                assert(front[k] == items[k]);
            }
        }
    }
}

/// The level inside a brace group is one above the level of its content.
pub proof fn lemma_level_braced(a: Seq<char>, inner: Seq<char>, z: Seq<char>, n: int)
    requires
        plain(a),
        0 <= n <= inner.len(),
    ensures
        level(a + braced(inner) + z, a.len() + 1 + n) == 1 + level(inner, n),
        level(a + braced(inner) + z, a.len() as int) == 0,
        n == inner.len() ==> level(a + braced(inner) + z, a.len() + 2 + n) == level(inner, n),
{
    let open = seq!['{'];
    let close = seq!['}'];
    let group = braced(inner);
    let s = a + group + z;
    lemma_level_plain(a, a.len() as int);
    lemma_level_concat(a + group, z, a.len() + 1 + n);
    lemma_level_concat(a + group, z, a.len() as int);
    lemma_level_concat(a, group, a.len() + 1 + n);
    lemma_level_concat(a, group, a.len() as int);
    lemma_level_concat(open + inner, close, 1 + n);
    lemma_level_concat(open, inner, 1 + n);
    assert(level(open, 1) == level(open, 0) + step(open[0]));
    assert(level(open, 0) == 0);
    if n == inner.len() {
        lemma_level_concat(a + group, z, a.len() + 2 + n);
        lemma_level_concat(a, group, a.len() + 2 + n);
        lemma_level_concat(open + inner, close, 2 + n);
        assert(level(close, 1) == level(close, 0) + step(close[0]));
        assert(level(close, 0) == 0);
    }
}

/// A brace group of well-nested content, after plain text, is sealed.
pub proof fn lemma_group_sealed(inner: Seq<char>)
    requires
        balanced(inner),
    ensures
        sealed(braced(inner)),
{
    let e = Seq::<char>::empty();
    let s = braced(inner);
    assert(e + s + e =~= s);
    assert forall|n: int| 0 <= n <= s.len() implies #[trigger] level(s, n) >= 0 by {
        if n == 0 {
            assert(level(s, 0) == 0);
        } else if n <= inner.len() + 1 {
            lemma_level_braced(e, inner, e, n - 1);
            assert(level(inner, n - 1) >= 0);
        } else {
            lemma_level_braced(e, inner, e, inner.len() as int);
        }
    }
    lemma_level_braced(e, inner, e, inner.len() as int);
    assert forall|k: int| 0 <= k < s.len() && s[k] == ',' implies #[trigger] level(s, k) > 0 by {
        assert(k >= 1);
        assert(k <= inner.len());
        lemma_level_braced(e, inner, e, k - 1);
        assert(level(inner, k - 1) >= 0);
    }
}

/// A run without an opening brace is read as literal text.
pub proof fn lemma_scan_run(
    s: Seq<char>,
    i: int,
    j: int,
    results: Seq<Seq<char>>,
    current: Seq<char>,
)
    requires
        0 <= i <= j <= s.len(),
        forall|k: int| i <= k < j ==> s[k] != '{',
    ensures
        expand_scan(s, i, results, current) == expand_scan(
            s,
            j,
            results,
            current + s.subrange(i, j),
        ),
    decreases j - i,
{
    if i < j {
        lemma_scan_run(s, i + 1, j, results, current.push(s[i]));
        assert(current.push(s[i]) + s.subrange(i + 1, j) =~= current + s.subrange(i, j));
    } else {
        assert(current + s.subrange(i, j) =~= current);
    }
}

/// Alternatives that are shorter than the bound expand one by one.
pub proof fn lemma_expand_all(
    bound: nat,
    alts: Seq<Seq<char>>,
    ms: Seq<Seq<Seq<char>>>,
    n: int,
)
    requires
        0 <= n <= alts.len(),
        alts.len() == ms.len(),
        forall|k: int|
            0 <= k < n ==> (#[trigger] alts[k]).len() < bound && expand(alts[k]) == ms[k],
    ensures
        expand_all(bound, alts, n) == gathered(ms, n),
    decreases n,
{
    if n > 0 {
        lemma_expand_all(bound, alts, ms, n - 1);
        assert(alts[n - 1].len() < bound);
    }
}

/// What a sealed expression stands for is what it expands to on its own.
pub proof fn lemma_expands_alone(r: Seq<char>, m: Seq<Seq<char>>)
    requires
        expands_to(r, m),
    ensures
        expand(r) == m,
{
    let e = Seq::<char>::empty();
    assert(plain(e));
    assert(e + r + e =~= r);
    assert(expand(e + r + e) == framed(e, m, e));
    assert forall|k: int| 0 <= k < m.len() implies framed(e, m, e)[k] == m[k] by {
        assert(e + m[k] + e =~= m[k]);
    }
    assert(framed(e, m, e) =~= m);
}

/// Plain text stands for itself.
pub proof fn lemma_plain_expands(r: Seq<char>)
    requires
        plain(r),
    ensures
        expands_to(r, seq![r]),
{
    lemma_plain_sealed(r);
    assert forall|a: Seq<char>, z: Seq<char>| plain(a) && plain(z) implies #[trigger] expand(
        a + r + z,
    ) == framed(a, seq![r], z) by {
        lemma_plain_concat(a, r);
        lemma_plain_concat(a + r, z);
        let s = a + r + z;
        if s.contains('{') {
            let k = choose|k: int| 0 <= k < s.len() && s[k] == '{';
            assert(false);
        }
        lemma_expand_plain(s);
        assert(framed(a, seq![r], z) =~= seq![s]);
    }
}

/// A sealed expression after plain text stands for its texts after that
/// text.
pub proof fn lemma_prefix_expands(p: Seq<char>, r: Seq<char>, m: Seq<Seq<char>>)
    requires
        plain(p),
        expands_to(r, m),
    ensures
        expands_to(p + r, framed(p, m, Seq::empty())),
{
    let e = Seq::<char>::empty();
    lemma_sealed_after_plain(p, r);
    assert forall|a: Seq<char>, z: Seq<char>| plain(a) && plain(z) implies #[trigger] expand(
        a + (p + r) + z,
    ) == framed(a, framed(p, m, e), z) by {
        lemma_plain_concat(a, p);
        assert(a + (p + r) + z =~= (a + p) + r + z);
        assert(expand((a + p) + r + z) == framed(a + p, m, z));
        assert forall|k: int| 0 <= k < m.len() implies framed(a + p, m, z)[k] == framed(
            a,
            framed(p, m, e),
            z,
        )[k] by {
            assert((a + p) + m[k] + z =~= a + (p + m[k] + e) + z);
        }
        assert(framed(a + p, m, z) =~= framed(a, framed(p, m, e), z));
    }
}

/// A brace group of sealed alternatives stands for the texts of its
/// alternatives, one alternative after another.
pub proof fn lemma_group_expands(alts: Seq<Seq<char>>, ms: Seq<Seq<Seq<char>>>)
    requires
        alts.len() >= 1,
        alts.len() == ms.len(),
        forall|k: int| 0 <= k < alts.len() ==> expands_to(#[trigger] alts[k], ms[k]),
    ensures
        expands_to(braced(join(alts, seq![','])), gathered(ms, ms.len() as int)),
{
    let inner = join(alts, seq![',']);
    let group = braced(inner);
    let m = gathered(ms, ms.len() as int);
    let e = Seq::<char>::empty();
    assert forall|k: int| 0 <= k < alts.len() implies balanced(#[trigger] alts[k]) && sealed(
        alts[k],
    ) by {
        assert(expands_to(alts[k], ms[k]));
    }
    lemma_join_balanced(alts);
    lemma_group_sealed(inner);
    lemma_alternatives_of_join(alts);
    assert forall|a: Seq<char>, z: Seq<char>| plain(a) && plain(z) implies #[trigger] expand(
        a + group + z,
    ) == framed(a, m, z) by {
        let s = a + group + z;
        let open = a.len() as int;
        let end = open + 1 + inner.len();
        let start = seq![e];
        // the plain text before the group
        assert forall|k: int| 0 <= k < open implies s[k] != '{' by {
            assert(s[k] == a[k]);
        }
        lemma_scan_run(s, 0, open, start, e);
        assert(e + s.subrange(0, open) =~= a);
        // the group
        assert(s[open] == '{');
        assert(s[end] == '}');
        assert forall|k: int| open + 1 < k <= end implies 1 + #[trigger] level(s, k) - level(
            s,
            open + 1,
        ) >= 1 by {
            lemma_level_braced(a, inner, z, k - open - 1);
            lemma_level_braced(a, inner, z, 0);
            assert(level(inner, 0) == 0);
            assert(level(inner, k - open - 1) >= 0);
        }
        lemma_closing_skips(s, open + 1, end, 1);
        lemma_level_braced(a, inner, z, inner.len() as int);
        lemma_level_braced(a, inner, z, 0);
        assert(level(inner, 0) == 0);
        assert(closing(s, open + 1, 1) == closing(s, end, 1));
        assert(closing(s, end, 1) == end);
        assert(group_close(s, open) == end);
        assert(s.subrange(open + 1, end) =~= inner);
        assert forall|k: int| 0 <= k < alts.len() implies (#[trigger] alts[k]).len() < s.len()
            && expand(alts[k]) == ms[k] by {
            lemma_expands_alone(alts[k], ms[k]);
        }
        lemma_expand_all(s.len(), alts, ms, alts.len() as int);
        let opts = expand_all(s.len(), alts, alts.len() as int);
        assert(opts == m);
        let next = spread(start, a, opts);
        assert(expand_scan(s, open, start, a) == expand_scan(s, end + 1, next, e));
        // the plain text after the group
        assert forall|k: int| end + 1 <= k < s.len() implies s[k] != '{' by {
            assert(s[k] == z[k - end - 1]);
        }
        lemma_scan_run(s, end + 1, s.len() as int, next, e);
        assert(e + s.subrange(end + 1, s.len() as int) =~= z);
        assert(start.drop_last() =~= Seq::<Seq<char>>::empty());
        assert(spread(start.drop_last(), a, opts) =~= Seq::<Seq<char>>::empty());
        assert(next =~= Seq::new(opts.len(), |k: int| start.last() + a + opts[k]));
        assert forall|k: int| 0 <= k < m.len() implies finish(next, z)[k] == framed(a, m, z)[k] by {
            assert(start.last() + a + opts[k] + z =~= a + m[k] + z);
        }
        assert(finish(next, z) =~= framed(a, m, z));
    }
}

/// No alternative is longer than the content it is cut from.
pub proof fn lemma_split_pieces(inner: Seq<char>, i: int, start: int, depth: int, k: int)
    requires
        0 <= start <= i <= inner.len(),
        0 <= k < split_top(inner, i, start, depth).len(),
    ensures
        split_top(inner, i, start, depth)[k].len() <= inner.len(),
    decreases inner.len() - i,
{
    if i >= inner.len() {
    } else if inner[i] == ',' && depth <= 0 {
        if k > 0 {
            lemma_split_pieces(inner, i + 1, i + 1, 0, k - 1);
        }
    } else if inner[i] == '{' {
        lemma_split_pieces(inner, i + 1, start, depth + 1, k);
    } else if inner[i] == '}' && depth > 0 {
        lemma_split_pieces(inner, i + 1, start, depth - 1, k);
    } else {
        lemma_split_pieces(inner, i + 1, start, depth, k);
    }
}

/// Every alternative of a group is shorter than the text that holds the
/// group, so `expand` always expands the alternatives of a group in turn.
pub proof fn lemma_alternatives_shorter(s: Seq<char>, open: int, k: int)
    requires
        0 <= open < s.len(),
        0 <= k < alternatives(s.subrange(open + 1, group_close(s, open))).len(),
    ensures
        alternatives(s.subrange(open + 1, group_close(s, open)))[k].len() < s.len(),
{
    lemma_split_pieces(s.subrange(open + 1, group_close(s, open)), 0, 0, 0, k);
}

/// The nesting level of `s` never exceeds `bound`.
pub open spec fn within(s: Seq<char>, bound: int) -> bool {
    forall|n: int| 0 <= n <= s.len() ==> #[trigger] level(s, n) <= bound
}

/// Plain text never leaves level 0.
pub proof fn lemma_plain_within(s: Seq<char>)
    requires
        plain(s),
    ensures
        within(s, 0),
{
    assert forall|n: int| 0 <= n <= s.len() implies #[trigger] level(s, n) <= 0 by {
        lemma_level_plain(s, n);
    }
}

/// After a well-nested text, a text stays within the bound that both keep.
pub proof fn lemma_concat_within(a: Seq<char>, b: Seq<char>, bound: int)
    requires
        within(a, bound),
        within(b, bound),
        level(a, a.len() as int) == 0,
    ensures
        within(a + b, bound),
{
    assert forall|n: int| 0 <= n <= (a + b).len() implies #[trigger] level(a + b, n) <= bound by {
        lemma_level_concat(a, b, n);
        if n > a.len() {
            assert(level(b, n - a.len()) <= bound);
        } else {
            assert(level(a, n) <= bound);
        }
    }
}

/// Well-nested items joined by commas stay within the bound that each
/// keeps.
pub proof fn lemma_join_within(items: Seq<Seq<char>>, bound: int)
    requires
        bound >= 0,
        forall|k: int|
            0 <= k < items.len() ==> balanced(#[trigger] items[k]) && within(items[k], bound),
    ensures
        within(join(items, seq![',']), bound),
    decreases items.len(),
{
    let comma = seq![','];
    if items.len() == 0 {
        assert(level(Seq::<char>::empty(), 0) == 0);
    } else if items.len() == 1 {
        assert(within(items[0], bound));
    } else {
        let front = items.drop_last();
        let head = join(front, comma);
        assert forall|k: int| 0 <= k < front.len() implies balanced(#[trigger] front[k])
            && within(front[k], bound) by {
            assert(front[k] == items[k]);
        }
        lemma_join_within(front, bound);
        lemma_join_balanced(front);
        assert(level(comma, 0) == 0);
        assert(level(comma, 1) == level(comma, 0) + step(comma[0]));
        assert(within(comma, bound));
        lemma_concat_within(head, comma, bound);
        lemma_level_concat(head, comma, (head.len() + 1) as int);
        assert(within(items.last(), bound));
        lemma_concat_within(head + comma, items.last(), bound);
    }
}

/// A brace group goes one level above what its content keeps within.
pub proof fn lemma_braced_within(inner: Seq<char>, bound: int)
    requires
        bound >= 0,
        balanced(inner),
        within(inner, bound),
    ensures
        within(braced(inner), bound + 1),
{
    let e = Seq::<char>::empty();
    let s = braced(inner);
    assert(e + s + e =~= s);
    assert(plain(e));
    assert forall|n: int| 0 <= n <= s.len() implies #[trigger] level(s, n) <= bound + 1 by {
        if n == 0 {
            assert(level(s, 0) == 0);
        } else if n <= inner.len() + 1 {
            lemma_level_braced(e, inner, e, n - 1);
            assert(level(inner, n - 1) <= bound);
        } else {
            lemma_level_braced(e, inner, e, inner.len() as int);
        }
    }
}

/// A text that stays within a bound stays within every higher one.
pub proof fn lemma_within_more(s: Seq<char>, bound: int, higher: int)
    requires
        within(s, bound),
        bound <= higher,
    ensures
        within(s, higher),
{
    assert forall|n: int| 0 <= n <= s.len() implies #[trigger] level(s, n) <= higher by {
        assert(level(s, n) <= bound);
    }
}

} // verus!
