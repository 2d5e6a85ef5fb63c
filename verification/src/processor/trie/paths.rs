//! Which paths a trie holds: a ledger that gives every node the segments
//! that lead to it from the root, kept in step with insertion.

use vstd::prelude::*;
use crate::processor::balance::plain;
use crate::processor::trie::{
    find_child, insert_from, marked, root_only, trie_of, trie_wf, with_child, ChildView, NodeView,
};

verus! {

/// The list `a` is an initial part of the list `b`.
pub open spec fn leads(a: Seq<Seq<char>>, b: Seq<Seq<char>>) -> bool {
    a.len() <= b.len() && b.subrange(0, a.len() as int) == a
}

/// Every path has at least one segment, every segment is plain, only a
/// last segment that follows another may be empty, and no path is an
/// initial part of another.
pub open spec fn tidy(paths: Seq<Seq<Seq<char>>>) -> bool {
    &&& forall|i: int| 0 <= i < paths.len() ==> (#[trigger] paths[i]).len() >= 1
    &&& forall|i: int, k: int|
        0 <= i < paths.len() && 0 <= k < paths[i].len() ==> plain(#[trigger] paths[i][k]) && (
        paths[i][k].len() > 0 || (k >= 1 && k == paths[i].len() - 1))
    &&& forall|i: int, j: int|
        0 <= i < paths.len() && 0 <= j < paths.len() && i != j ==> !leads(
            #[trigger] paths[i],
            #[trigger] paths[j],
        )
}

/// Path `j` goes along with path `i` up to the last segment of `i`, and is
/// another path.
pub open spec fn goes_along(paths: Seq<Seq<Seq<char>>>, i: int, j: int) -> bool {
    &&& 0 <= j < paths.len()
    &&& j != i
    &&& paths[j].len() >= paths[i].len()
    &&& paths[j].subrange(0, paths[i].len() - 1) == paths[i].subrange(0, paths[i].len() - 1)
}

/// Every path that ends with the separator (its last segment is empty) is
/// no deeper than the limit allows, and another path goes along with it up
/// to that end.
pub open spec fn accompanied(paths: Seq<Seq<Seq<char>>>, max_depth: int) -> bool {
    forall|i: int|
        0 <= i < paths.len() && (#[trigger] paths[i]).last().len() == 0 ==> paths[i].len() - 1
            <= max_depth && exists|j: int| #[trigger] goes_along(paths, i, j)
}

/// What is known of each node and each path while a trie is built.
pub struct Ledger {
    /// Per node: the segments that lead to it from the root.
    pub addr: Seq<Seq<Seq<char>>>,
    /// Per node below the root: its parent.
    pub parent: Seq<int>,
    /// Per node below the root: its position among its parent's children.
    pub slot: Seq<int>,
    /// Per node below the root: a path that passes through it.
    pub via: Seq<int>,
    /// Per node: the path that ends at it, or -1.
    pub owner: Seq<int>,
    /// Per path that has ended: the node where it ends.
    pub home: Seq<int>,
}

/// Every child's address is its parent's address and the child's label.
pub open spec fn links(trie: Seq<NodeView>, led: Ledger) -> bool {
    forall|idx: int, j: int|
        0 <= idx < trie.len() && 0 <= j < trie[idx].children.len() ==> led.addr[(
        #[trigger] trie[idx].children[j]).node] == led.addr[idx].push(trie[idx].children[j].label)
            && trie[idx].children[j].id == 0
}

/// No two nodes have the same address.
pub open spec fn distinct(led: Ledger) -> bool {
    forall|a: int, b: int|
        0 <= a < led.addr.len() && 0 <= b < led.addr.len() && #[trigger] led.addr[a]
            == #[trigger] led.addr[b] ==> a == b
}

/// Every node below the root is the child that its ledger entry says, and
/// its label is the last segment of its address.
pub open spec fn rooted(trie: Seq<NodeView>, led: Ledger) -> bool {
    forall|idx: int|
        1 <= idx < trie.len() ==> {
            let p = #[trigger] led.parent[idx];
            let j = led.slot[idx];
            &&& 0 <= p < trie.len()
            &&& 0 <= j < trie[p].children.len()
            &&& trie[p].children[j].node == idx
            &&& led.addr[idx].len() >= 1
            &&& trie[idx].label == led.addr[idx].last()
        }
}

/// Every node below the root lies on one of the first `passing` paths.
pub open spec fn passes(led: Ledger, paths: Seq<Seq<Seq<char>>>, passing: int) -> bool {
    forall|idx: int|
        1 <= idx < led.addr.len() ==> 0 <= (#[trigger] led.via[idx]) < passing && passing
            <= paths.len() && leads(led.addr[idx], paths[led.via[idx]])
}

/// The leaves are the nodes where one of the first `ended` paths ends, each
/// such path ends at a node, the nodes that stand for a trailing separator
/// are those where a path with an empty last segment ends, and every node is
/// as deep as its address is long.
pub open spec fn ends(
    trie: Seq<NodeView>,
    led: Ledger,
    paths: Seq<Seq<Seq<char>>>,
    ended: int,
) -> bool {
    &&& forall|idx: int|
        0 <= idx < trie.len() ==> {
            let o = #[trigger] led.owner[idx];
            &&& trie[idx].is_leaf <==> o >= 0
            &&& trie[idx].is_trailing_sep <==> (o >= 0 && paths[o].last().len() == 0)
            &&& trie[idx].depth == led.addr[idx].len()
            &&& o >= 0 ==> o < ended && led.addr[idx] == paths[o]
        }
    &&& forall|i: int|
        0 <= i < ended ==> 0 <= (#[trigger] led.home[i]) < trie.len() && led.owner[led.home[i]]
            == i
}

/// The ledger describes the trie after the first `ended` paths have ended
/// in it and nodes of the first `passing` paths have been added.
pub open spec fn tracks(
    trie: Seq<NodeView>,
    led: Ledger,
    paths: Seq<Seq<Seq<char>>>,
    passing: int,
    ended: int,
) -> bool {
    &&& trie_wf(trie)
    &&& led.addr.len() == trie.len()
    &&& led.parent.len() == trie.len()
    &&& led.slot.len() == trie.len()
    &&& led.via.len() == trie.len()
    &&& led.owner.len() == trie.len()
    &&& led.home.len() == ended
    &&& 0 <= ended <= passing <= paths.len()
    &&& led.addr[0].len() == 0
    &&& trie[0].label.len() == 0
    &&& links(trie, led)
    &&& distinct(led)
    &&& rooted(trie, led)
    &&& passes(led, paths, passing)
    &&& ends(trie, led, paths, ended)
}

/// Where `find_child` finds nothing, no child from the start on matches.
pub proof fn lemma_find_child_none(
    children: Seq<ChildView>,
    label: Seq<char>,
    id: nat,
    from: int,
    j: int,
)
    requires
        0 <= from <= j < children.len(),
        find_child(children, label, id, from) == -1,
    ensures
        !(children[j].label == label && children[j].id == id),
    decreases children.len() - from,
{
    if from < j {
        crate::processor::trie::lemma_find_child_bounds(children, label, id, from + 1);
        lemma_find_child_none(children, label, id, from + 1, j);
    }
}

/// What `find_child` finds matches.
pub proof fn lemma_find_child_some(children: Seq<ChildView>, label: Seq<char>, id: nat, from: int)
    requires
        0 <= from,
        find_child(children, label, id, from) >= 0,
    ensures
        from <= find_child(children, label, id, from) < children.len(),
        children[find_child(children, label, id, from)].label == label,
        children[find_child(children, label, id, from)].id == id,
    decreases children.len() - from,
{
    if from < children.len() && !(children[from].label == label && children[from].id == id) {
        lemma_find_child_some(children, label, id, from + 1);
    }
}

/// The ledger after a fresh node was added below `cur` for the next
/// segment of path `n`.
pub open spec fn grown_ledger(
    trie: Seq<NodeView>,
    led: Ledger,
    cur: int,
    n: int,
    address: Seq<Seq<char>>,
) -> Ledger {
    Ledger {
        addr: led.addr.push(address),
        parent: led.parent.push(cur),
        slot: led.slot.push(trie[cur].children.len() as int),
        via: led.via.push(n),
        owner: led.owner.push(-1),
        home: led.home,
    }
}

/// Adding a fresh node for the next segment of a path keeps the ledger in
/// step.
pub proof fn lemma_grow_tracks(
    trie: Seq<NodeView>,
    led: Ledger,
    paths: Seq<Seq<Seq<char>>>,
    n: int,
    cur: int,
    i: int,
)
    requires
        tidy(paths),
        0 <= n < paths.len(),
        0 <= i < paths[n].len(),
        0 <= cur < trie.len(),
        tracks(trie, led, paths, n + 1, n),
        led.addr[cur] == paths[n].subrange(0, i),
        find_child(trie[cur].children, paths[n][i], 0, 0) == -1,
    ensures
        tracks(
            with_child(trie, cur, paths[n][i], 0),
            grown_ledger(trie, led, cur, n, paths[n].subrange(0, i + 1)),
            paths,
            n + 1,
            n,
        ),
{
    let segs = paths[n];
    let label = segs[i];
    let address = segs.subrange(0, i + 1);
    let grown = with_child(trie, cur, label, 0);
    let out = grown_ledger(trie, led, cur, n, address);
    let len = trie.len() as int;
    let old_kids = trie[cur].children;
    assert(grown.len() == len + 1);
    assert(grown[len].children.len() == 0);
    assert(grown[cur].children == old_kids.push(ChildView { label, id: 0, node: len }));
    assert forall|idx: int| 0 <= idx < len && idx != cur implies grown[idx] == trie[idx] by {}
    assert(address =~= led.addr[cur].push(label));
    // well-formedness
    assert forall|a: int, j: int|
        0 <= a < grown.len() && 0 <= j < grown[a].children.len() implies a < (
        #[trigger] grown[a].children[j]).node < grown.len() by {
        if a == cur {
            if j < old_kids.len() {
                assert(grown[a].children[j] == trie[a].children[j]);
            }
        } else if a < len {
            assert(grown[a].children[j] == trie[a].children[j]);
        }
    }
    assert forall|a: int| 0 <= a < grown.len() implies (#[trigger] grown[a]).depth <= a by {
        if a < len {
            assert(trie[a].depth <= a);
        } else {
            assert(trie[cur].depth <= cur);
        }
    }
    assert(trie_wf(grown));
    // links
    assert forall|a: int, j: int|
        0 <= a < grown.len() && 0 <= j < grown[a].children.len() implies out.addr[(
        #[trigger] grown[a].children[j]).node] == out.addr[a].push(grown[a].children[j].label)
            && grown[a].children[j].id == 0 by {
        if a == cur && j == old_kids.len() {
        } else {
            assert(a < len);
            assert(grown[a].children[j] == trie[a].children[j]);
            let c = trie[a].children[j];
            assert(a < c.node < len);
            assert(led.addr[c.node] == led.addr[a].push(c.label));
        }
    }
    // distinct addresses
    assert forall|b: int| 0 <= b < len implies led.addr[b] != address by {
        if led.addr[b] == address {
            assert(b >= 1);
            let p = led.parent[b];
            let j = led.slot[b];
            let c = trie[p].children[j];
            assert(c.node == b);
            assert(led.addr[b] == led.addr[p].push(c.label));
            assert(led.addr[p] =~= address.drop_last());
            assert(address.drop_last() =~= segs.subrange(0, i));
            assert(led.addr[p] == led.addr[cur]);
            assert(p == cur);
            assert(c.label == address.last());
            lemma_find_child_none(old_kids, label, 0, 0, j);
        }
    }
    assert forall|a: int, b: int|
        0 <= a < out.addr.len() && 0 <= b < out.addr.len() && #[trigger] out.addr[a]
            == #[trigger] out.addr[b] implies a == b by {
        if a < len && b < len {
            assert(led.addr[a] == led.addr[b]);
        } else if a < len {
            assert(led.addr[a] != address);
        } else if b < len {
            assert(led.addr[b] != address);
        }
    }
    // rooted
    assert forall|idx: int| 1 <= idx < grown.len() implies {
        let p = #[trigger] out.parent[idx];
        let j = out.slot[idx];
        &&& 0 <= p < grown.len()
        &&& 0 <= j < grown[p].children.len()
        &&& grown[p].children[j].node == idx
        &&& out.addr[idx].len() >= 1
        &&& grown[idx].label == out.addr[idx].last()
    } by {
        if idx < len {
            let p = led.parent[idx];
            let j = led.slot[idx];
            assert(trie[p].children[j].node == idx);
            assert(grown[p].children[j] == trie[p].children[j]);
            if idx != cur {
                assert(grown[idx] == trie[idx]);
            }
        }
    }
    // passes
    assert forall|idx: int| 1 <= idx < out.addr.len() implies 0 <= (#[trigger] out.via[idx]) < n
        + 1 && n + 1 <= paths.len() && leads(out.addr[idx], paths[out.via[idx]]) by {
        if idx < len {
            assert(out.via[idx] == led.via[idx]);
        } else {
            assert(segs.subrange(0, address.len() as int) =~= address);
        }
    }
    // ends
    assert forall|idx: int| 0 <= idx < grown.len() implies {
        let o = #[trigger] out.owner[idx];
        &&& grown[idx].is_leaf <==> o >= 0
        &&& grown[idx].is_trailing_sep <==> (o >= 0 && paths[o].last().len() == 0)
        &&& grown[idx].depth == out.addr[idx].len()
        &&& o >= 0 ==> o < n && out.addr[idx] == paths[o]
    } by {
        if idx < len {
            assert(out.owner[idx] == led.owner[idx]);
            if idx != cur {
                assert(grown[idx] == trie[idx]);
            }
        } else {
            assert(trie[cur].is_leaf <==> led.owner[cur] >= 0);
            assert(trie[cur].depth == led.addr[cur].len());
        }
    }
    assert forall|k: int| 0 <= k < n implies 0 <= (#[trigger] out.home[k]) < grown.len()
        && out.owner[out.home[k]] == k by {
        assert(out.home[k] == led.home[k]);
    }
}

/// The ledger after path `n` has ended at `child`.
pub open spec fn marked_ledger(led: Ledger, child: int, n: int) -> Ledger {
    Ledger { owner: led.owner.update(child, n), home: led.home.push(child), ..led }
}

/// Marking the node where a path ends keeps the ledger in step.
pub proof fn lemma_mark_tracks(
    trie: Seq<NodeView>,
    led: Ledger,
    paths: Seq<Seq<Seq<char>>>,
    n: int,
    child: int,
    trailing: bool,
)
    requires
        tidy(paths),
        0 <= n < paths.len(),
        0 <= child < trie.len(),
        tracks(trie, led, paths, n + 1, n),
        led.addr[child] == paths[n],
        trailing == (paths[n].last().len() == 0),
    ensures
        tracks(marked(trie, child, trailing), marked_ledger(led, child, n), paths, n + 1, n + 1),
{
    let done = marked(trie, child, trailing);
    let out = marked_ledger(led, child, n);
    assert(done.len() == trie.len());
    assert forall|idx: int| 0 <= idx < trie.len() implies (#[trigger] done[idx]).children
        == trie[idx].children && done[idx].label == trie[idx].label && done[idx].depth
        == trie[idx].depth by {}
    assert(led.owner[child] < 0) by {
        let o = led.owner[child];
        if o >= 0 {
            assert(led.addr[child] == paths[o]);
            assert(paths[n].subrange(0, paths[o].len() as int) =~= paths[o]);
            assert(leads(paths[o], paths[n]));
        }
    }
    assert forall|a: int, j: int|
        0 <= a < done.len() && 0 <= j < done[a].children.len() implies a < (
        #[trigger] done[a].children[j]).node < done.len() by {
        assert(done[a].children[j] == trie[a].children[j]);
    }
    assert forall|a: int| 0 <= a < done.len() implies (#[trigger] done[a]).depth <= a by {
        assert(trie[a].depth <= a);
    }
    assert(trie_wf(done));
    assert forall|a: int, j: int|
        0 <= a < done.len() && 0 <= j < done[a].children.len() implies out.addr[(
        #[trigger] done[a].children[j]).node] == out.addr[a].push(done[a].children[j].label)
            && done[a].children[j].id == 0 by {
        assert(done[a].children[j] == trie[a].children[j]);
    }
    assert forall|idx: int| 1 <= idx < done.len() implies {
        let p = #[trigger] out.parent[idx];
        let j = out.slot[idx];
        &&& 0 <= p < done.len()
        &&& 0 <= j < done[p].children.len()
        &&& done[p].children[j].node == idx
        &&& out.addr[idx].len() >= 1
        &&& done[idx].label == out.addr[idx].last()
    } by {
        let p = led.parent[idx];
        let j = led.slot[idx];
        assert(done[p].children[j] == trie[p].children[j]);
    }
    assert forall|idx: int| 0 <= idx < done.len() implies {
        let o = #[trigger] out.owner[idx];
        &&& done[idx].is_leaf <==> o >= 0
        &&& done[idx].is_trailing_sep <==> (o >= 0 && paths[o].last().len() == 0)
        &&& done[idx].depth == out.addr[idx].len()
        &&& o >= 0 ==> o < n + 1 && out.addr[idx] == paths[o]
    } by {
        assert(trie[idx].depth == led.addr[idx].len()) by {
            assert(trie[idx].is_leaf <==> led.owner[idx] >= 0);
        }
        if idx != child {
            assert(done[idx] == trie[idx]);
            assert(out.owner[idx] == led.owner[idx]);
        }
    }
    assert forall|k: int| 0 <= k < n + 1 implies 0 <= (#[trigger] out.home[k]) < done.len()
        && out.owner[out.home[k]] == k by {
        if k < n {
            assert(out.home[k] == led.home[k]);
            assert(led.owner[led.home[k]] == k);
        }
    }
    assert forall|idx: int| 1 <= idx < out.addr.len() implies 0 <= (#[trigger] out.via[idx]) < n
        + 1 && n + 1 <= paths.len() && leads(out.addr[idx], paths[out.via[idx]]) by {
        assert(out.via[idx] == led.via[idx]);
    }
}

/// How many paths have ended once the walk along path `n` stands before its
/// segment `i`.
pub open spec fn ended_at(paths: Seq<Seq<Seq<char>>>, n: int, i: int) -> int {
    if i >= paths[n].len() {
        n + 1
    } else {
        n
    }
}

/// Walking the rest of a path down from a node keeps the ledger in step;
/// the ledger that results is handed back.
pub proof fn lemma_insert_tracks(
    trie: Seq<NodeView>,
    led: Ledger,
    paths: Seq<Seq<Seq<char>>>,
    n: int,
    cur: int,
    i: int,
    closes: bool,
) -> (out: Ledger)
    requires
        tidy(paths),
        0 <= n < paths.len(),
        0 <= i <= paths[n].len(),
        0 <= cur < trie.len(),
        tracks(trie, led, paths, n + 1, ended_at(paths, n, i)),
        led.addr[cur] == paths[n].subrange(0, i),
        paths[n].last().len() == 0 ==> closes,
    ensures
        tracks(insert_from(trie, cur, paths[n], i, 0, closes), out, paths, n + 1, n + 1),
    decreases paths[n].len() - i,
{
    let segs = paths[n];
    if i >= segs.len() {
        led
    } else {
        let label = segs[i];
        let last = i + 1 == segs.len();
        let kids = trie[cur].children;
        let at = find_child(kids, label, 0, 0);
        let address = segs.subrange(0, i + 1);
        assert(address =~= led.addr[cur].push(label));
        let trailing = segs[i].len() == 0 && closes;
        if last {
            assert(segs[i] == segs.last());
        }
        if at >= 0 {
            lemma_find_child_some(kids, label, 0, 0);
            let child = kids[at].node;
            assert(cur < child < trie.len());
            assert(led.addr[child] == led.addr[cur].push(kids[at].label));
            if last {
                assert(address =~= segs);
                lemma_mark_tracks(trie, led, paths, n, child, trailing);
                let done = marked(trie, child, trailing);
                let led2 = marked_ledger(led, child, n);
                assert(led2.addr[child] == segs.subrange(0, i + 1));
                lemma_insert_tracks(done, led2, paths, n, child, i + 1, closes)
            } else {
                lemma_insert_tracks(trie, led, paths, n, child, i + 1, closes)
            }
        } else {
            crate::processor::trie::lemma_find_child_bounds(kids, label, 0, 0);
            lemma_grow_tracks(trie, led, paths, n, cur, i);
            let grown = with_child(trie, cur, label, 0);
            let led1 = grown_ledger(trie, led, cur, n, address);
            let child = trie.len() as int;
            if last {
                assert(address =~= segs);
                lemma_mark_tracks(grown, led1, paths, n, child, trailing);
                let done = marked(grown, child, trailing);
                let led2 = marked_ledger(led1, child, n);
                assert(led2.addr[child] == segs.subrange(0, i + 1));
                lemma_insert_tracks(done, led2, paths, n, child, i + 1, closes)
            } else {
                lemma_insert_tracks(grown, led1, paths, n, child, i + 1, closes)
            }
        }
    }
}

/// The segments of every path.
pub open spec fn all_segments(paths: Seq<Seq<char>>, sep: Seq<char>, split_all: bool) -> Seq<
    Seq<Seq<char>>,
> {
    Seq::new(paths.len(), |i: int| crate::processor::trie::segments(paths[i], sep, split_all))
}

/// The ledger of the trie that holds only the root.
pub open spec fn first_ledger() -> Ledger {
    Ledger {
        addr: seq![Seq::empty()],
        parent: seq![-1int],
        slot: seq![-1int],
        via: seq![-1int],
        owner: seq![-1int],
        home: Seq::empty(),
    }
}

/// The trie of tidy paths, built with repeats merged, has a ledger that is
/// in step with it; the ledger is handed back.
pub proof fn lemma_trie_tracks(paths: Seq<Seq<char>>, sep: Seq<char>, split_all: bool, n: int) -> (out:
    Ledger)
    requires
        tidy(all_segments(paths, sep, split_all)),
        0 <= n <= paths.len(),
    ensures
        tracks(trie_of(paths, sep, split_all, true, n), out, all_segments(paths, sep, split_all), n, n),
    decreases n,
{
    let segs = all_segments(paths, sep, split_all);
    if n == 0 {
        let t = root_only();
        let led = first_ledger();
        assert(t[0].children.len() == 0);
        assert(trie_wf(t));
        assert(links(t, led));
        assert(distinct(led));
        assert(rooted(t, led));
        assert(passes(led, segs, 0));
        assert(ends(t, led, segs, 0));
        led
    } else {
        let before = trie_of(paths, sep, split_all, true, n - 1);
        let led = lemma_trie_tracks(paths, sep, split_all, n - 1);
        assert(passes(led, segs, n)) by {
            assert forall|idx: int| 1 <= idx < led.addr.len() implies 0 <= (
            #[trigger] led.via[idx]) < n && n <= segs.len() && leads(
                led.addr[idx],
                segs[led.via[idx]],
            ) by {}
        }
        assert(segs[n - 1].len() >= 1);
        assert(segs[n - 1].subrange(0, 0) =~= led.addr[0]);
        assert(ended_at(segs, n - 1, 0) == n - 1);
        if segs[n - 1].last().len() == 0 {
            let k = segs[n - 1].len() - 1;
            assert(segs[n - 1][k].len() == 0);
            crate::processor::trie::lemma_open_end_closes(paths[n - 1], sep, split_all);
        }
        lemma_insert_tracks(
            before,
            led,
            segs,
            n - 1,
            0,
            0,
            crate::text::ends_with(paths[n - 1], sep),
        )
    }
}

/// Every initial part of a node's address is the address of a node, which
/// is handed back.
pub proof fn lemma_ancestor(
    trie: Seq<NodeView>,
    led: Ledger,
    paths: Seq<Seq<Seq<char>>>,
    n: int,
    h: int,
    m: int,
) -> (g: int)
    requires
        tracks(trie, led, paths, n, n),
        0 <= h < trie.len(),
        0 <= m <= led.addr[h].len(),
    ensures
        0 <= g < trie.len(),
        led.addr[g] == led.addr[h].subrange(0, m),
    decreases led.addr[h].len() - m,
{
    if m == led.addr[h].len() {
        assert(led.addr[h].subrange(0, m) =~= led.addr[h]);
        h
    } else {
        assert(h >= 1);
        let p = led.parent[h];
        let j = led.slot[h];
        let c = trie[p].children[j];
        assert(c.node == h);
        assert(led.addr[h] == led.addr[p].push(c.label));
        let g = lemma_ancestor(trie, led, paths, n, p, m);
        assert(led.addr[p].subrange(0, m) =~= led.addr[h].subrange(0, m));
        g
    }
}

/// A node whose address is the address of `a` and one more segment is a
/// child of `a`; its position among the children is handed back.
pub proof fn lemma_child_of(
    trie: Seq<NodeView>,
    led: Ledger,
    paths: Seq<Seq<Seq<char>>>,
    n: int,
    a: int,
    g: int,
) -> (j: int)
    requires
        tracks(trie, led, paths, n, n),
        0 <= a < trie.len(),
        0 <= g < trie.len(),
        led.addr[g].len() == led.addr[a].len() + 1,
        led.addr[g].subrange(0, led.addr[a].len() as int) == led.addr[a],
    ensures
        0 <= j < trie[a].children.len(),
        trie[a].children[j].node == g,
{
    assert(g >= 1);
    let p = led.parent[g];
    let j = led.slot[g];
    let c = trie[p].children[j];
    assert(c.node == g);
    assert(led.addr[g] == led.addr[p].push(c.label));
    assert(led.addr[p] =~= led.addr[g].subrange(0, led.addr[a].len() as int));
    assert(led.addr[p] == led.addr[a]);
    j
}

/// In a trie that is in step with tidy paths, a path ends at a node exactly
/// when the node has no children.
pub proof fn lemma_leaf_is_childless(
    trie: Seq<NodeView>,
    led: Ledger,
    paths: Seq<Seq<Seq<char>>>,
    idx: int,
)
    requires
        tidy(paths),
        paths.len() >= 1,
        tracks(trie, led, paths, paths.len() as int, paths.len() as int),
        0 <= idx < trie.len(),
    ensures
        trie[idx].is_leaf <==> trie[idx].children.len() == 0,
{
    let n = paths.len() as int;
    let d = led.addr[idx].len() as int;
    if trie[idx].is_leaf && trie[idx].children.len() > 0 {
        let o = led.owner[idx];
        assert(led.addr[idx] == paths[o]);
        let c = trie[idx].children[0];
        assert(idx < c.node < trie.len());
        assert(led.addr[c.node] == led.addr[idx].push(c.label));
        let v = led.via[c.node];
        assert(leads(led.addr[c.node], paths[v]));
        assert(paths[v].subrange(0, d) =~= led.addr[c.node].subrange(0, d));
        assert(led.addr[c.node].subrange(0, d) =~= led.addr[idx]);
        assert(leads(paths[o], paths[v]));
        assert(paths[v].len() > paths[o].len());
        assert(false);
    }
    if !trie[idx].is_leaf && trie[idx].children.len() == 0 {
        // a path passes through the node and goes on
        let v = if idx >= 1 {
            led.via[idx]
        } else {
            0
        };
        assert(leads(led.addr[idx], paths[v])) by {
            if idx == 0 {
                assert(paths[v].subrange(0, 0) =~= led.addr[0]);
            }
        }
        let h = led.home[v];
        assert(led.owner[h] == v);
        assert(led.addr[h] == paths[v]);
        if d == paths[v].len() {
            assert(paths[v].subrange(0, d) =~= paths[v]);
            assert(led.addr[h] == led.addr[idx]);
            assert(h == idx);
            assert(false);
        }
        let g = lemma_ancestor(trie, led, paths, n, h, d + 1);
        assert(led.addr[g].subrange(0, d) =~= paths[v].subrange(0, d));
        let j = lemma_child_of(trie, led, paths, n, idx, g);
        assert(false);
    }
}

/// A node with an empty label is one where a path with an empty last
/// segment ends.
pub proof fn lemma_empty_label_ends(
    trie: Seq<NodeView>,
    led: Ledger,
    paths: Seq<Seq<Seq<char>>>,
    idx: int,
)
    requires
        tidy(paths),
        tracks(trie, led, paths, paths.len() as int, paths.len() as int),
        1 <= idx < trie.len(),
        trie[idx].label.len() == 0,
    ensures
        led.owner[idx] >= 0,
        paths[led.owner[idx]].last().len() == 0,
        trie[idx].is_trailing_sep,
{
    let v = led.via[idx];
    let p = led.parent[idx];
    let d = led.addr[idx].len() as int;
    assert(d >= 1);
    assert(leads(led.addr[idx], paths[v]));
    assert(paths[v].subrange(0, d)[d - 1] == paths[v][d - 1]);
    assert(trie[idx].label == paths[v][d - 1]);
    assert(paths[v][d - 1].len() == 0);
    assert(d - 1 == paths[v].len() - 1);
    assert(paths[v].subrange(0, d) =~= paths[v]);
    let h = led.home[v];
    assert(led.owner[h] == v);
    assert(trie[h].is_leaf <==> led.owner[h] >= 0);
    assert(led.addr[h] == paths[v]);
    assert(h == idx);
    assert(trie[idx].is_leaf <==> led.owner[idx] >= 0);
}

/// The trie of tidy, accompanied paths is clean.
pub proof fn lemma_tracks_clean(
    trie: Seq<NodeView>,
    led: Ledger,
    paths: Seq<Seq<Seq<char>>>,
    sep: Seq<char>,
    max_depth: int,
)
    requires
        tidy(paths),
        accompanied(paths, max_depth),
        paths.len() >= 1,
        tracks(trie, led, paths, paths.len() as int, paths.len() as int),
        plain(sep),
        sep.len() > 0,
    ensures
        crate::processor::round_trip::clean(trie, sep, max_depth),
{
    let n = paths.len() as int;
    assert(!trie[0].is_trailing_sep) by {
        let o = led.owner[0];
        assert(trie[0].is_leaf <==> o >= 0);
        if o >= 0 {
            assert(led.addr[0] == paths[o]);
        }
    }
    assert forall|idx: int| 1 <= idx < trie.len() implies plain((#[trigger] trie[idx]).label) && (
    trie[idx].label.len() == 0 <==> trie[idx].is_trailing_sep) by {
        let v = led.via[idx];
        let p = led.parent[idx];
        let d = led.addr[idx].len() as int;
        assert(d >= 1);
        assert(leads(led.addr[idx], paths[v]));
        assert(paths[v].subrange(0, d)[d - 1] == paths[v][d - 1]);
        assert(trie[idx].label == paths[v][d - 1]);
        if trie[idx].label.len() == 0 {
            lemma_empty_label_ends(trie, led, paths, idx);
        }
        if trie[idx].is_trailing_sep {
            let o = led.owner[idx];
            assert(trie[idx].is_leaf <==> o >= 0);
            assert(led.addr[idx] == paths[o]);
        }
    }
    assert forall|idx: int| 0 <= idx < trie.len() implies ((#[trigger] trie[idx]).is_leaf
        <==> trie[idx].children.len() == 0) && (trie[idx].is_trailing_sep
        ==> trie[idx].is_leaf) by {
        lemma_leaf_is_childless(trie, led, paths, idx);
        assert(trie[idx].is_leaf <==> led.owner[idx] >= 0);
    }
    assert forall|idx: int, j: int|
        0 <= idx < trie.len() && 0 <= j < trie[idx].children.len() implies trie[(
        #[trigger] trie[idx].children[j]).node].depth == trie[idx].depth + 1 && (trie[trie[idx].children[j].node].is_trailing_sep
        ==> trie[idx].children.len() >= 2 && trie[idx].depth <= max_depth) by {
        let c = trie[idx].children[j];
        assert(idx < c.node < trie.len());
        assert(led.addr[c.node] == led.addr[idx].push(c.label));
        assert(trie[idx].is_leaf <==> led.owner[idx] >= 0);
        assert(trie[c.node].is_leaf <==> led.owner[c.node] >= 0);
        if trie[c.node].is_trailing_sep {
            let o = led.owner[c.node];
            let m = paths[o].len() as int;
            assert(led.addr[c.node] == paths[o]);
            assert(paths[o].last().len() == 0);
            assert(led.addr[idx] =~= paths[o].subrange(0, m - 1));
            let other = choose|other: int| #[trigger] goes_along(paths, o, other);
            let h = led.home[other];
            assert(led.owner[h] == other);
            assert(trie[h].is_leaf <==> led.owner[h] >= 0);
            assert(led.addr[h] == paths[other]);
            let g = lemma_ancestor(trie, led, paths, n, h, m);
            assert(led.addr[g].subrange(0, m - 1) =~= paths[other].subrange(0, m - 1));
            let k = lemma_child_of(trie, led, paths, n, idx, g);
            if g == c.node {
                assert(paths[other].subrange(0, m) == paths[o]);
                assert(leads(paths[o], paths[other]));
                assert(false);
            }
            assert(k != j);
        }
    }
}

} // verus!
