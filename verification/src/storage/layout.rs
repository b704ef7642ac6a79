//! The shape of a static search tree over sorted leaf pages: how many nodes
//! each level has, which children each node gets, and the pages that stand
//! for the nodes, the root first.

use crate::search::{count_at_most_after_first, lemma_count_at_most_is};
use vstd::prelude::*;

verus! {

/// The number of nodes of the level above `children` children.
pub open spec fn node_count(children: nat) -> nat {
    (children + 255) / 256
}

/// The number of children that every node of the level above `children`
/// children gets at least.
pub open spec fn base_fanout(children: nat) -> nat {
    (2 + (children - 2 * node_count(children)) / (node_count(children) as int)) as nat
}

/// The number of nodes, from the left, that get one child more.
pub open spec fn wide_nodes(children: nat) -> nat {
    ((children - 2 * node_count(children)) % (node_count(children) as int)) as nat
}

/// The number of children of node `t` of the level above `children` children.
pub open spec fn fanout(children: nat, t: nat) -> nat {
    base_fanout(children) + if t < wide_nodes(children) {
        1nat
    } else {
        0nat
    }
}

/// The index, among `children` children, of the first child of node `t`.
pub open spec fn child_start(children: nat, t: nat) -> nat {
    t * base_fanout(children) + if t < wide_nodes(children) {
        t
    } else {
        wide_nodes(children)
    }
}

/// How the children are dealt out: each node gets from 2 to 256 of them, one
/// node's children follow the other's, and all children are dealt.
pub proof fn lemma_fanout(children: nat, t: nat)
    requires
        children >= 2,
        t < node_count(children),
    ensures
        1 <= node_count(children) < children,
        2 * node_count(children) <= children,
        2 <= fanout(children, t) <= 256,
        child_start(children, 0) == 0,
        child_start(children, t + 1) == child_start(children, t) + fanout(children, t),
        child_start(children, node_count(children)) == children,
        child_start(children, t) + fanout(children, t) <= children,
{
    let n = node_count(children) as int;
    let c = children as int;
    let rest = c - 2 * n;
    let q = rest / n;
    let e = rest % n;
    assert(rest >= 0);
    assert(rest == n * q + e && 0 <= e < n) by (nonlinear_arith)
        requires
            n > 0,
            q == rest / n,
            e == rest % n,
    ;
    assert(q >= 0) by (nonlinear_arith)
        requires
            rest >= 0,
            n > 0,
            q == rest / n,
    ;
    assert(c <= 256 * n);
    assert(n * q <= 254 * n);
    assert(q <= 254) by (nonlinear_arith)
        requires
            n * q <= 254 * n,
            n > 0,
    ;
    assert(e > 0 ==> q <= 253) by (nonlinear_arith)
        requires
            n * q + e <= 254 * n,
            n > 0,
    ;
    let b = 2 + q;
    assert(base_fanout(children) == b);
    assert(wide_nodes(children) == e);
    assert((t + 1) * b == t * b + b) by (nonlinear_arith);
    assert(n * b == 2 * n + n * q) by (nonlinear_arith)
        requires
            b == 2 + q,
    ;
    assert(0 * b == 0) by (nonlinear_arith);
    assert(child_start(children, node_count(children)) == children);
    assert(child_start(children, t) + fanout(children, t) <= children) by {
        assert((t + 1) * b <= n * b) by (nonlinear_arith)
            requires
                t + 1 <= n,
                b >= 0,
        ;
    }
}

/// The first keys of the nodes of the level above: that of each node's first
/// child.
pub open spec fn level_up(mins: Seq<i64>) -> Seq<i64> {
    Seq::new(node_count(mins.len()), |t: int| mins[child_start(mins.len(), t as nat) as int])
}

/// The entries of node `t` of the level above the children whose first keys
/// are `mins`, the first of which lies on page `child_base`: one entry for
/// each child, its first key and its page. The first entry repeats the key
/// of the second.
pub open spec fn node_entries(mins: Seq<i64>, t: nat, child_base: int) -> Seq<(i64, i64)> {
    let start = child_start(mins.len(), t) as int;
    Seq::new(
        fanout(mins.len(), t),
        |k: int|
            (
                mins[start + if k == 0 {
                    1
                } else {
                    k
                }],
                (child_base + start + k) as i64,
            ),
    )
}

/// The pages of the level above the children whose first keys are `mins`.
pub open spec fn level_pages(mins: Seq<i64>, child_base: int) -> Seq<Seq<(i64, i64)>> {
    Seq::new(node_count(mins.len()), |t: int| node_entries(mins, t as nat, child_base))
}

/// The pages of all levels above the leaves whose first keys are `mins`, the
/// root first, each level from left to right. The leaves follow on the next
/// pages.
pub open spec fn internal_pages(mins: Seq<i64>) -> Seq<Seq<(i64, i64)>>
    decreases mins.len(),
{
    if mins.len() <= 1 {
        Seq::empty()
    } else {
        let above = internal_pages(level_up(mins));
        above + level_pages(mins, (above.len() + node_count(mins.len())) as int)
    }
}

/// There are fewer pages above the leaves than leaves.
pub proof fn lemma_internal_pages_len(mins: Seq<i64>)
    ensures
        internal_pages(mins).len() < mins.len() || mins.len() == 0,
        mins.len() <= 1 ==> internal_pages(mins).len() == 0,
    decreases mins.len(),
{
    if mins.len() > 1 {
        lemma_fanout(mins.len(), 0);
        lemma_internal_pages_len(level_up(mins));
    }
}

/// The records of the pages in `pages`.
pub open spec fn pages_view(pages: Seq<Vec<(i64, i64)>>) -> Seq<Seq<(i64, i64)>> {
    Seq::new(pages.len(), |i: int| pages[i]@)
}

/// The first keys of the nodes of the level above.
fn build_level_up(mins: &Vec<i64>) -> (up: Vec<i64>)
    requires
        mins@.len() >= 2,
    ensures
        up@ == level_up(mins@),
{
    let children: usize = mins.len();
    let nodes: usize = (children - 1) / 256 + 1;
    let keys_per_node: usize = (children - 2 * nodes) / nodes;
    let excess_keys: usize = (children - 2 * nodes) % nodes;
    proof {
        lemma_fanout(children as nat, 0);
        assert(nodes == node_count(children as nat));
    }
    let mut up: Vec<i64> = Vec::with_capacity(nodes);
    let mut t: usize = 0;
    let mut start: usize = 0;
    while t < nodes
        invariant
            children == mins@.len(),
            children >= 2,
            nodes == node_count(children as nat),
            2 + keys_per_node == base_fanout(children as nat),
            excess_keys == wide_nodes(children as nat),
            t <= nodes,
            start == child_start(children as nat, t as nat),
            start <= children,
            up@.len() == t,
            forall|i: int|
                0 <= i < t ==> up@[i] == mins@[child_start(children as nat, i as nat) as int],
        decreases nodes - t,
    {
        proof {
            lemma_fanout(children as nat, t as nat);
        }
        up.push(mins[start]);
        let wide: usize = if t < excess_keys {
            1
        } else {
            0
        };
        start = start + 2 + keys_per_node + wide;
        t += 1;
    }
    assert(up@ =~= level_up(mins@));
    up
}

/// The entries of node `t`, whose first child is child number `start`.
fn build_node(mins: &Vec<i64>, start: usize, count: usize, child_base: usize, Ghost(t): Ghost<
    nat,
>) -> (entries: Vec<(i64, i64)>)
    requires
        mins@.len() >= 2,
        t < node_count(mins@.len()),
        start == child_start(mins@.len(), t),
        count == fanout(mins@.len(), t),
        child_base + mins@.len() <= i64::MAX,
        child_base + mins@.len() <= usize::MAX,
    ensures
        entries@ == node_entries(mins@, t, child_base as int),
{
    proof {
        lemma_fanout(mins@.len(), t);
    }
    let mut entries: Vec<(i64, i64)> = Vec::with_capacity(count);
    let mut k: usize = 0;
    while k < count
        invariant
            k <= count,
            2 <= count <= 256,
            start + count <= mins@.len(),
            child_base + mins@.len() <= i64::MAX,
            child_base + mins@.len() <= usize::MAX,
            entries@.len() == k,
            forall|i: int|
                0 <= i < k ==> entries@[i] == (
                    mins@[start + if i == 0 {
                        1
                    } else {
                        i
                    }],
                    (child_base + start + i) as i64,
                ),
        decreases count - k,
    {
        let which: usize = if k == 0 {
            1
        } else {
            k
        };
        let page: usize = child_base + start + k;
        entries.push((mins[start + which], page as i64));
        k += 1;
    }
    assert(entries@ =~= node_entries(mins@, t, child_base as int));
    entries
}

/// The pages of the level above the children whose first keys are `mins`.
fn build_level_pages(mins: &Vec<i64>, child_base: usize) -> (pages: Vec<Vec<(i64, i64)>>)
    requires
        mins@.len() >= 2,
        child_base + mins@.len() <= i64::MAX,
        child_base + mins@.len() <= usize::MAX,
    ensures
        pages_view(pages@) == level_pages(mins@, child_base as int),
{
    let children: usize = mins.len();
    let nodes: usize = (children - 1) / 256 + 1;
    let keys_per_node: usize = (children - 2 * nodes) / nodes;
    let excess_keys: usize = (children - 2 * nodes) % nodes;
    proof {
        lemma_fanout(children as nat, 0);
        assert(nodes == node_count(children as nat));
    }
    let mut pages: Vec<Vec<(i64, i64)>> = Vec::with_capacity(nodes);
    let mut t: usize = 0;
    let mut start: usize = 0;
    while t < nodes
        invariant
            children == mins@.len(),
            children >= 2,
            child_base + mins@.len() <= i64::MAX,
            child_base + mins@.len() <= usize::MAX,
            nodes == node_count(children as nat),
            2 + keys_per_node == base_fanout(children as nat),
            excess_keys == wide_nodes(children as nat),
            t <= nodes,
            start == child_start(children as nat, t as nat),
            start <= children,
            pages@.len() == t,
            forall|i: int|
                0 <= i < t ==> (#[trigger] pages@[i])@ == node_entries(
                    mins@,
                    i as nat,
                    child_base as int,
                ),
        decreases nodes - t,
    {
        proof {
            lemma_fanout(children as nat, t as nat);
        }
        let wide: usize = if t < excess_keys {
            1
        } else {
            0
        };
        let count: usize = 2 + keys_per_node + wide;
        pages.push(build_node(mins, start, count, child_base, Ghost(t as nat)));
        start = start + count;
        t += 1;
    }
    assert(pages_view(pages@) =~= level_pages(mins@, child_base as int));
    pages
}

/// The pages of all levels above the leaves whose first keys are `mins`, the
/// root first.
pub fn build_internal_pages(mins: Vec<i64>) -> (pages: Vec<Vec<(i64, i64)>>)
    requires
        2 * mins@.len() <= i64::MAX,
        2 * mins@.len() <= usize::MAX,
    ensures
        pages_view(pages@) == internal_pages(mins@),
{
    let ghost leaf_mins = mins@;
    let mut levels: Vec<Vec<i64>> = Vec::new();
    levels.push(mins);
    while levels[levels.len() - 1].len() > 1
        invariant
            levels@.len() >= 1,
            levels@[0]@ == leaf_mins,
            forall|h: int|
                0 <= h < levels@.len() - 1 ==> (#[trigger] levels@[h])@.len() >= 2 && levels@[h
                    + 1]@ == level_up(levels@[h]@),
            forall|h: int| 0 <= h < levels@.len() ==> (#[trigger] levels@[h])@.len() <= leaf_mins.len(),
        decreases levels@[levels@.len() - 1]@.len(),
    {
        let last: usize = levels.len() - 1;
        proof {
            lemma_fanout(levels@[last as int]@.len(), 0);
        }
        let up: Vec<i64> = build_level_up(&levels[last]);
        levels.push(up);
    }
    let mut pages: Vec<Vec<(i64, i64)>> = Vec::new();
    let mut h: usize = levels.len() - 1;
    proof {
        assert(pages_view(pages@) =~= internal_pages(levels@[h as int]@));
    }
    while h > 0
        invariant
            h < levels@.len(),
            2 * leaf_mins.len() <= i64::MAX,
            2 * leaf_mins.len() <= usize::MAX,
            forall|g: int|
                0 <= g < levels@.len() - 1 ==> (#[trigger] levels@[g])@.len() >= 2 && levels@[g
                    + 1]@ == level_up(levels@[g]@),
            forall|g: int| 0 <= g < levels@.len() ==> (#[trigger] levels@[g])@.len() <= leaf_mins.len(),
            pages_view(pages@) == internal_pages(levels@[h as int]@),
        decreases h,
    {
        let ghost above = pages_view(pages@);
        proof {
            lemma_internal_pages_len(levels@[h as int]@);
            assert(levels@[h - 1]@.len() >= 2);
            lemma_fanout(levels@[h - 1]@.len(), 0);
        }
        let child_base: usize = pages.len() + levels[h].len();
        let mut level: Vec<Vec<(i64, i64)>> = build_level_pages(&levels[h - 1], child_base);
        let ghost added = pages_view(level@);
        pages.append(&mut level);
        h -= 1;
        proof {
            assert(pages_view(pages@) =~= above + added);
        }
    }
    pages
}


/// The first keys rise from the second one on.
pub open spec fn mins_ascend(mins: Seq<i64>) -> bool {
    forall|i: int, j: int| 1 <= i < j < mins.len() ==> mins[i] < mins[j]
}

/// The child that covers the key `x` among children with the first keys
/// `mins`: the last one, from the second on, whose first key is at most `x`,
/// and the first child where there is none.
pub open spec fn covering(mins: Seq<i64>, x: i64) -> nat
    decreases mins.len(),
{
    if mins.len() <= 1 {
        0
    } else if mins.last() <= x {
        (mins.len() - 1) as nat
    } else {
        covering(mins.drop_last(), x)
    }
}

/// What `covering` finds when the first keys rise.
pub proof fn lemma_covering(mins: Seq<i64>, x: i64)
    requires
        mins_ascend(mins),
    ensures
        covering(mins, x) < mins.len() || mins.len() == 0,
        covering(mins, x) >= 1 ==> mins[covering(mins, x) as int] <= x,
        forall|i: int| covering(mins, x) < i < mins.len() ==> mins[i] > x,
    decreases mins.len(),
{
    if mins.len() > 1 && mins.last() > x {
        let front = mins.drop_last();
        assert forall|i: int, j: int| 1 <= i < j < front.len() implies front[i] < front[j] by {
            assert(front[i] == mins[i] && front[j] == mins[j]);
        }
        lemma_covering(front, x);
        assert forall|i: int| covering(mins, x) < i < mins.len() implies mins[i] > x by {
            if i < front.len() {
                assert(front[i] == mins[i]);
            }
        }
        if covering(mins, x) >= 1 {
            assert(front[covering(mins, x) as int] == mins[covering(mins, x) as int]);
        }
    }
}

/// The child with these properties is the covering one.
pub proof fn lemma_covering_is(mins: Seq<i64>, x: i64, j: int)
    requires
        mins_ascend(mins),
        0 <= j,
        j < mins.len() || j == 0,
        j >= 1 ==> mins[j] <= x,
        forall|i: int| j < i < mins.len() ==> mins[i] > x,
    ensures
        covering(mins, x) == j,
{
    lemma_covering(mins, x);
    let c = covering(mins, x) as int;
    if c < j {
        assert(mins[j] > x);
    }
    if j < c {
        assert(mins[c] > x);
    }
}

/// The first keys of the level above rise as those of the children do.
pub proof fn lemma_level_up_ascends(mins: Seq<i64>)
    requires
        mins.len() >= 2,
        mins_ascend(mins),
    ensures
        mins_ascend(level_up(mins)),
        level_up(mins).len() == node_count(mins.len()),
        level_up(mins).len() < mins.len(),
{
    let up = level_up(mins);
    let n = mins.len();
    lemma_fanout(n, 0);
    assert forall|i: int, j: int| 1 <= i < j < up.len() implies up[i] < up[j] by {
        lemma_starts_rise(n, i as nat, j as nat);
        lemma_fanout(n, j as nat);
        lemma_fanout(n, 0);
        lemma_starts_rise(n, 0, i as nat);
    }
}

/// A node further right starts at a later child.
pub proof fn lemma_starts_rise(children: nat, s: nat, t: nat)
    requires
        children >= 2,
        s < t <= node_count(children),
    ensures
        child_start(children, s) + fanout(children, s) <= child_start(children, t),
    decreases t - s,
{
    lemma_fanout(children, s);
    if s + 1 < t {
        lemma_starts_rise(children, s + 1, t);
        lemma_fanout(children, (s + 1) as nat);
    }
}

/// The page that the entries of an internal page name for the key `x`: that
/// of the last entry, from the second on, whose key is at most `x`, and that
/// of the first entry where there is none.
pub open spec fn pick_child(entries: Seq<(i64, i64)>, x: i64) -> i64 {
    entries[count_at_most_after_first(entries, x) as int].1
}

/// The page at which the way down from page `from` for the key `x` ends,
/// where the pages below `limit` are internal pages: the first page from
/// `limit` on that the way reaches. A page that names no later page ends the
/// way at once.
pub open spec fn descent(pages: Seq<Seq<(i64, i64)>>, limit: int, from: int, x: i64) -> int
    decreases limit - from,
{
    if from < 0 || from >= limit || from >= pages.len() {
        from
    } else {
        let child = pick_child(pages[from], x);
        if child <= from {
            from
        } else if child >= limit {
            child as int
        } else {
            descent(pages, limit, child as int, x)
        }
    }
}

/// The way down depends on the pages below the limit only.
pub proof fn lemma_descent_prefix(
    one: Seq<Seq<(i64, i64)>>,
    other: Seq<Seq<(i64, i64)>>,
    limit: int,
    from: int,
    x: i64,
)
    requires
        limit <= one.len(),
        limit <= other.len(),
        forall|p: int| 0 <= p < limit ==> one[p] == other[p],
    ensures
        descent(one, limit, from, x) == descent(other, limit, from, x),
    decreases limit - from,
{
    if 0 <= from < limit {
        let child = pick_child(one[from], x);
        if from < child < limit {
            lemma_descent_prefix(one, other, limit, child as int, x);
        }
    }
}

/// The way down to a later limit passes the page at which the way down to an
/// earlier limit ends.
pub proof fn lemma_descent_split(
    pages: Seq<Seq<(i64, i64)>>,
    lo: int,
    hi: int,
    from: int,
    x: i64,
)
    requires
        lo <= hi <= pages.len(),
        descent(pages, lo, from, x) >= lo,
    ensures
        descent(pages, hi, from, x) == descent(pages, hi, descent(pages, lo, from, x), x),
    decreases lo - from,
{
    if 0 <= from < lo {
        let child = pick_child(pages[from], x);
        if from < child < lo {
            lemma_descent_split(pages, lo, hi, child as int, x);
        }
    }
}

/// The entries of a node name, for the key `x`, the page of the child that
/// covers `x`, when the node itself covers `x` in its level.
pub proof fn lemma_node_step(mins: Seq<i64>, child_base: int, x: i64)
    requires
        mins.len() >= 2,
        mins_ascend(mins),
        0 <= child_base,
        child_base + mins.len() <= i64::MAX,
    ensures
        covering(level_up(mins), x) < node_count(mins.len()),
        pick_child(node_entries(mins, covering(level_up(mins), x), child_base), x) == child_base
            + covering(mins, x),
{
    let n = mins.len();
    let up = level_up(mins);
    lemma_level_up_ascends(mins);
    lemma_covering(up, x);
    lemma_covering(mins, x);
    let t = covering(up, x);
    let j = covering(mins, x) as int;
    lemma_fanout(n, t);
    let start = child_start(n, t) as int;
    let f = fanout(n, t) as int;
    let entries = node_entries(mins, t, child_base);
    // the covering child is one of this node's children
    if t >= 1 {
        lemma_starts_rise(n, 0, t);
        lemma_fanout(n, 0);
        assert(start >= 2);
        assert(up[t as int] == mins[start]);
        if j < start {
            assert(mins[start] > x);
        }
    }
    assert(start <= j);
    if t + 1 < node_count(n) {
        let next = child_start(n, (t + 1) as nat) as int;
        assert(up[t as int + 1] == mins[next]);
        assert(mins[next] > x);
        if j >= next {
            if j > next {
                assert(mins[next] < mins[j]);
            }
        }
        assert(j < next);
    }
    assert(j < start + f);
    let k = j - start;
    assert forall|a: int, b: int| 1 <= a < b < entries.len() implies entries[a].0
        < entries[b].0 by {
        assert(mins[start + a] < mins[start + b]);
    }
    assert forall|a: int| 1 <= a <= k implies (#[trigger] entries[a]).0 <= x by {
        if start + a < j {
            assert(mins[start + a] < mins[j]);
        }
    }
    assert forall|a: int| k < a < entries.len() implies (#[trigger] entries[a]).0 > x by {
        assert(mins[start + a] > x);
    }
    lemma_count_at_most_is(entries, x, k);
}

/// The way down from the root through the pages above the leaves ends at
/// the leaf that covers the key.
pub proof fn lemma_descent_finds_leaf(mins: Seq<i64>, x: i64)
    requires
        mins.len() >= 1,
        mins_ascend(mins),
        2 * mins.len() <= i64::MAX,
    ensures
        descent(internal_pages(mins), internal_pages(mins).len() as int, 0, x) == internal_pages(
            mins,
        ).len() + covering(mins, x),
    decreases mins.len(),
{
    let pages = internal_pages(mins);
    if mins.len() >= 2 {
        let n = mins.len();
        let up = level_up(mins);
        let above = internal_pages(up);
        let a = above.len() as int;
        let nodes = node_count(n) as int;
        let total = a + nodes;
        lemma_fanout(n, 0);
        lemma_level_up_ascends(mins);
        lemma_internal_pages_len(up);
        lemma_descent_finds_leaf(up, x);
        let t = covering(up, x) as int;
        lemma_covering(up, x);
        assert(pages =~= above + level_pages(mins, total));
        lemma_descent_prefix(pages, above, a, 0, x);
        lemma_descent_split(pages, a, total, 0, x);
        lemma_node_step(mins, total, x);
        let from = a + t;
        assert(pages[from] == node_entries(mins, t as nat, total));
        let child = pick_child(pages[from], x);
        assert(child == total + covering(mins, x));
        assert(descent(pages, total, child as int, x) == child);
    }
}

} // verus!
