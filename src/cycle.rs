//! What it means for a list of edge positions to be a cycle of a graph,
//! and the facts about degrees and walks that the verifier rests on.
use vstd::prelude::*;
use crate::graph::{is_bipartite, touches, Edge, Node};

verus! {

/// The edge that entry `k` of the candidate `cs` names.
pub open spec fn selected(es: Seq<Edge>, cs: Seq<usize>, k: int) -> Edge {
    es[cs[k] as int]
}

/// Whether `e` joins `a` and `b`, in either order.
pub open spec fn links(e: Edge, a: Node, b: Node) -> bool {
    (e.0 == a && e.1 == b) || (e.0 == b && e.1 == a)
}

/// How many of the first `i` entries of `cs` name an edge that touches `x`.
pub open spec fn degree_upto(es: Seq<Edge>, cs: Seq<usize>, x: Node, i: int) -> nat
    decreases i,
{
    if i <= 0 {
        0
    } else {
        degree_upto(es, cs, x, i - 1) + if touches(selected(es, cs, i - 1), x) {
            1nat
        } else {
            0nat
        }
    }
}

/// The degree of `x` in the subgraph that the entries of `cs` select.
pub open spec fn degree(es: Seq<Edge>, cs: Seq<usize>, x: Node) -> nat {
    degree_upto(es, cs, x, cs.len() as int)
}

/// Every endpoint of a selected edge has degree exactly two.
pub open spec fn all_degrees_two(es: Seq<Edge>, cs: Seq<usize>) -> bool {
    forall|k: int|
        0 <= k < cs.len() ==> degree(es, cs, (#[trigger] selected(es, cs, k)).0) == 2 && degree(
            es,
            cs,
            selected(es, cs, k).1,
        ) == 2
}

/// Whether the edges of entries `a` and `b` have an endpoint in common.
pub open spec fn shares_node(es: Seq<Edge>, cs: Seq<usize>, a: int, b: int) -> bool {
    touches(selected(es, cs, b), selected(es, cs, a).0) || touches(
        selected(es, cs, b),
        selected(es, cs, a).1,
    )
}

/// A set of entries that holds, with each entry, every entry whose edge
/// shares a node with it.
pub open spec fn closed_under_sharing(es: Seq<Edge>, cs: Seq<usize>, s: Set<int>) -> bool {
    forall|a: int, b: int|
        s.contains(a) && 0 <= b < cs.len() && #[trigger] shares_node(es, cs, a, b) ==> s.contains(
            b,
        )
}

/// The selected edges hang together: a set that is closed under sharing
/// a node and holds one entry holds them all.
pub open spec fn connected(es: Seq<Edge>, cs: Seq<usize>) -> bool {
    forall|s: Set<int>, a: int|
        0 <= a < cs.len() && #[trigger] closed_under_sharing(es, cs, s) && #[trigger] s.contains(a)
            ==> forall|b: int| 0 <= b < cs.len() ==> s.contains(b)
}

/// `cs` names, in any order, the edges of one simple cycle of length `len`
/// in the graph with edges `es`: `len` distinct positions of edges, every
/// touched node of degree two, and all of them in one piece. No cycle has
/// length zero.
pub open spec fn is_cycle(es: Seq<Edge>, len: int, cs: Seq<usize>) -> bool {
    &&& cs.len() == len
    &&& len > 0
    &&& cs.no_duplicates()
    &&& forall|k: int| 0 <= k < len ==> cs[k] < es.len()
    &&& all_degrees_two(es, cs)
    &&& connected(es, cs)
}

/// `ns[i]` and `ns[i + 1]` are the ends of the edge of entry `ws[i]`, for
/// each step `i` of the walk.
pub open spec fn is_walk(es: Seq<Edge>, cs: Seq<usize>, ws: Seq<int>, ns: Seq<Node>) -> bool {
    &&& ns.len() == ws.len() + 1
    &&& forall|i: int| 0 <= i < ws.len() ==> 0 <= #[trigger] ws[i] < cs.len()
    &&& forall|i: int|
        0 <= i < ws.len() ==> links(selected(es, cs, #[trigger] ws[i]), ns[i], ns[i + 1])
}

pub proof fn lemma_degree_monotone(es: Seq<Edge>, cs: Seq<usize>, x: Node, i: int, j: int)
    requires
        0 <= i <= j,
    ensures
        degree_upto(es, cs, x, i) <= degree_upto(es, cs, x, j),
    decreases j - i,
{
    if i < j {
        lemma_degree_monotone(es, cs, x, i, j - 1);
    }
}

/// Three distinct entries whose edges touch `x` give `x` a degree of at
/// least three.
pub proof fn lemma_three_touch(es: Seq<Edge>, cs: Seq<usize>, x: Node, a: int, b: int, c: int)
    requires
        0 <= a < cs.len(),
        0 <= b < cs.len(),
        0 <= c < cs.len(),
        a != b,
        b != c,
        a != c,
        touches(selected(es, cs, a), x),
        touches(selected(es, cs, b), x),
        touches(selected(es, cs, c), x),
    ensures
        degree(es, cs, x) >= 3,
{
    if a < b && b < c {
        lemma_three_sorted(es, cs, x, a, b, c);
    } else if a < c && c < b {
        lemma_three_sorted(es, cs, x, a, c, b);
    } else if b < a && a < c {
        lemma_three_sorted(es, cs, x, b, a, c);
    } else if b < c && c < a {
        lemma_three_sorted(es, cs, x, b, c, a);
    } else if c < a && a < b {
        lemma_three_sorted(es, cs, x, c, a, b);
    } else {
        lemma_three_sorted(es, cs, x, c, b, a);
    }
}

proof fn lemma_three_sorted(es: Seq<Edge>, cs: Seq<usize>, x: Node, a: int, b: int, c: int)
    requires
        0 <= a < b < c < cs.len(),
        touches(selected(es, cs, a), x),
        touches(selected(es, cs, b), x),
        touches(selected(es, cs, c), x),
    ensures
        degree(es, cs, x) >= 3,
{
    assert(degree_upto(es, cs, x, a + 1) >= 1);
    lemma_degree_monotone(es, cs, x, a + 1, b);
    assert(degree_upto(es, cs, x, b + 1) >= 2);
    lemma_degree_monotone(es, cs, x, b + 1, c);
    assert(degree_upto(es, cs, x, c + 1) >= 3);
    lemma_degree_monotone(es, cs, x, c + 1, cs.len() as int);
}

/// Where no entry of the first `i` but `k` touches `x`, at most one does.
pub proof fn lemma_only_one_touch(es: Seq<Edge>, cs: Seq<usize>, x: Node, k: int, i: int)
    requires
        0 <= i,
        forall|j: int| 0 <= j < i && j != k ==> !touches(#[trigger] selected(es, cs, j), x),
    ensures
        degree_upto(es, cs, x, i) <= if k < i {
            1nat
        } else {
            0nat
        },
    decreases i,
{
    if i > 0 {
        lemma_only_one_touch(es, cs, x, k, i - 1);
    }
}

/// A set of distinct entries of `[0, len)` has at most `len` members.
pub proof fn lemma_distinct_bounded(ws: Seq<int>, len: int)
    requires
        0 <= len,
        ws.no_duplicates(),
        forall|i: int| 0 <= i < ws.len() ==> 0 <= #[trigger] ws[i] < len,
    ensures
        ws.len() <= len,
{
    let range = Set::new(|k: int| 0 <= k < len);
    vstd::set_lib::lemma_int_range(0, len);
    assert(range == vstd::set_lib::set_int_range(0, len));
    ws.unique_seq_to_set();
    assert(ws.to_set().subset_of(range)) by {
        assert forall|k: int| ws.to_set().contains(k) implies range.contains(k) by {
            let i = choose|i: int| 0 <= i < ws.len() && ws[i] == k;
        }
    }
    vstd::set_lib::lemma_len_subset(ws.to_set(), range);
}

/// A set closed under sharing a node that holds one step of a walk holds
/// every later step.
proof fn lemma_walk_forward(
    es: Seq<Edge>,
    cs: Seq<usize>,
    ws: Seq<int>,
    ns: Seq<Node>,
    s: Set<int>,
    i: int,
    t: int,
)
    requires
        is_walk(es, cs, ws, ns),
        closed_under_sharing(es, cs, s),
        0 <= i <= t < ws.len(),
        s.contains(ws[i]),
    ensures
        s.contains(ws[t]),
    decreases t - i,
{
    if i < t {
        lemma_walk_forward(es, cs, ws, ns, s, i, t - 1);
        assert(links(selected(es, cs, ws[t - 1]), ns[t - 1], ns[t]));
        assert(links(selected(es, cs, ws[t]), ns[t], ns[t + 1]));
        assert(shares_node(es, cs, ws[t - 1], ws[t]));
    }
}

/// The same, for every earlier step.
proof fn lemma_walk_backward(
    es: Seq<Edge>,
    cs: Seq<usize>,
    ws: Seq<int>,
    ns: Seq<Node>,
    s: Set<int>,
    i: int,
    t: int,
)
    requires
        is_walk(es, cs, ws, ns),
        closed_under_sharing(es, cs, s),
        0 <= t <= i < ws.len(),
        s.contains(ws[i]),
    ensures
        s.contains(ws[t]),
    decreases i - t,
{
    if t < i {
        lemma_walk_backward(es, cs, ws, ns, s, i, t + 1);
        assert(links(selected(es, cs, ws[t]), ns[t], ns[t + 1]));
        assert(links(selected(es, cs, ws[t + 1]), ns[t + 1], ns[t + 2]));
        assert(shares_node(es, cs, ws[t + 1], ws[t]));
    }
}

/// Two distinct steps of a closed walk touch its node `ns[t]`.
proof fn lemma_two_steps_at(es: Seq<Edge>, cs: Seq<usize>, ws: Seq<int>, ns: Seq<Node>, t: int)
    -> (pq: (int, int))
    requires
        is_walk(es, cs, ws, ns),
        ws.no_duplicates(),
        ws.len() >= 2,
        ns[0] == ns[ws.len() as int],
        0 <= t <= ws.len(),
    ensures
        ws.contains(pq.0),
        ws.contains(pq.1),
        pq.0 != pq.1,
        touches(selected(es, cs, pq.0), ns[t]),
        touches(selected(es, cs, pq.1), ns[t]),
{
    let s = ws.len() as int;
    if 1 <= t < s {
        assert(links(selected(es, cs, ws[t - 1]), ns[t - 1], ns[t]));
        assert(links(selected(es, cs, ws[t]), ns[t], ns[t + 1]));
        assert(ws[t - 1] != ws[t]);
        (ws[t - 1], ws[t])
    } else {
        assert(links(selected(es, cs, ws[0]), ns[0], ns[1]));
        assert(links(selected(es, cs, ws[s - 1]), ns[s - 1], ns[s]));
        assert(ws[0] != ws[s - 1]);
        (ws[0], ws[s - 1])
    }
}

/// A closed walk whose steps miss entry `k` shows that the selected edges
/// are not connected: the steps it took form a set closed under sharing a
/// node, since each node on it already has its two edges on it.
pub proof fn lemma_closed_walk_misses(
    es: Seq<Edge>,
    cs: Seq<usize>,
    ws: Seq<int>,
    ns: Seq<Node>,
    k: int,
)
    requires
        is_walk(es, cs, ws, ns),
        ws.no_duplicates(),
        ws.len() >= 2,
        ns[0] == ns[ws.len() as int],
        all_degrees_two(es, cs),
        0 <= k < cs.len(),
        !ws.contains(k),
    ensures
        !connected(es, cs),
{
    let set = Set::new(|a: int| ws.contains(a));
    assert forall|a: int, b: int|
        set.contains(a) && 0 <= b < cs.len() && #[trigger] shares_node(
            es,
            cs,
            a,
            b,
        ) implies set.contains(b) by {
        let i = choose|i: int| 0 <= i < ws.len() && ws[i] == a;
        assert(links(selected(es, cs, ws[i]), ns[i], ns[i + 1]));
        let t = if touches(selected(es, cs, b), ns[i]) {
            i
        } else {
            i + 1
        };
        assert(touches(selected(es, cs, b), ns[t]));
        assert(degree(es, cs, selected(es, cs, a).0) == 2);
        assert(degree(es, cs, ns[t]) == 2);
        let pq = lemma_two_steps_at(es, cs, ws, ns, t);
        if !ws.contains(b) {
            lemma_three_touch(es, cs, ns[t], pq.0, pq.1, b);
        }
    }
    assert(closed_under_sharing(es, cs, set));
    assert(set.contains(ws[0]));
    assert(!set.contains(k));
}

/// A walk with no repeated step and no repeated node, but that its last
/// node may be its first.
pub open spec fn simple_walk(es: Seq<Edge>, cs: Seq<usize>, ws: Seq<int>, ns: Seq<Node>) -> bool {
    &&& is_walk(es, cs, ws, ns)
    &&& ws.len() >= 1
    &&& ws.no_duplicates()
    &&& forall|a: int, b: int|
        0 <= a < b <= ws.len() && !(a == 0 && b == ws.len()) ==> ns[a] != ns[b]
}

/// Where every node has degree two, entry `k` touching `x` has a partner:
/// another entry that touches `x`.
pub proof fn lemma_other_touch(es: Seq<Edge>, cs: Seq<usize>, x: Node, k: int)
    requires
        0 <= k < cs.len(),
        touches(selected(es, cs, k), x),
        degree(es, cs, x) == 2,
    ensures
        exists|j: int| 0 <= j < cs.len() && j != k && touches(#[trigger] selected(es, cs, j), x),
{
    if !(exists|j: int| 0 <= j < cs.len() && j != k && touches(#[trigger] selected(es, cs, j), x)) {
        lemma_only_one_touch(es, cs, x, k, cs.len() as int);
    }
}

/// A simple walk that has not come back to its start, taken on along the
/// other edge at its last node, stays simple.
pub proof fn lemma_walk_step(
    es: Seq<Edge>,
    cs: Seq<usize>,
    ws: Seq<int>,
    ns: Seq<Node>,
    j: int,
    next: Node,
)
    requires
        is_bipartite(es),
        forall|k: int| 0 <= k < cs.len() ==> cs[k] < es.len(),
        all_degrees_two(es, cs),
        simple_walk(es, cs, ws, ns),
        ns[ws.len() as int] != ns[0],
        0 <= j < cs.len(),
        j != ws.last(),
        links(selected(es, cs, j), ns[ws.len() as int], next),
    ensures
        !ws.contains(j),
        ws.len() < cs.len(),
        simple_walk(es, cs, ws.push(j), ns.push(next)),
{
    let s = ws.len() as int;
    let cur = ns[s];
    let e = selected(es, cs, j);
    assert(es[cs[j] as int] == e);
    assert(e.0 != e.1);
    assert(!ws.contains(j)) by {
        if ws.contains(j) {
            let i = choose|i: int| 0 <= i < ws.len() && ws[i] == j;
            assert(links(selected(es, cs, ws[i]), ns[i], ns[i + 1]));
            assert(i != s - 1);
            assert(ns[i] != ns[s]);
            assert(ns[i + 1] != ns[s]);
        }
    }
    assert forall|a: int| 1 <= a <= s implies ns[a] != next by {
        if a < s && ns[a] == next {
            assert(links(selected(es, cs, ws[a - 1]), ns[a - 1], ns[a]));
            assert(links(selected(es, cs, ws[a]), ns[a], ns[a + 1]));
            assert(degree(es, cs, selected(es, cs, ws[a]).0) == 2);
            lemma_three_touch(es, cs, next, ws[a - 1], ws[a], j);
        }
    }
    let ws2 = ws.push(j);
    let ns2 = ns.push(next);
    assert(ws2.no_duplicates()) by {
        assert forall|a: int, b: int|
            0 <= a < ws2.len() && 0 <= b < ws2.len() && a != b implies ws2[a] != ws2[b] by {
            if a < ws.len() && b < ws.len() {
                assert(ws[a] != ws[b]);
            } else if a < ws.len() {
                assert(ws.contains(ws2[a]));
            } else {
                assert(ws.contains(ws2[b]));
            }
        }
    }
    assert forall|i: int| 0 <= i < ws2.len() implies links(
        selected(es, cs, #[trigger] ws2[i]),
        ns2[i],
        ns2[i + 1],
    ) by {
        if i < ws.len() {
            assert(ws[i] == ws2[i]);
            assert(links(selected(es, cs, ws[i]), ns[i], ns[i + 1]));
        }
    }
    lemma_distinct_bounded(ws2, cs.len() as int);
}

/// A list without repeats that holds every value of `[0, len)` is at least
/// `len` long.
pub proof fn lemma_covering_long(ws: Seq<int>, len: int)
    requires
        0 <= len,
        ws.no_duplicates(),
        forall|k: int| 0 <= k < len ==> ws.contains(k),
    ensures
        ws.len() >= len,
{
    vstd::set_lib::lemma_int_range(0, len);
    ws.unique_seq_to_set();
    assert(vstd::set_lib::set_int_range(0, len).subset_of(ws.to_set())) by {
        assert forall|k: int| vstd::set_lib::set_int_range(0, len).contains(k) implies ws.to_set().contains(k) by {
            assert(ws.contains(k));
        }
    }
    vstd::set_lib::lemma_len_subset(vstd::set_lib::set_int_range(0, len), ws.to_set());
}

/// A simple walk along the edges of a cycle goes on, at each node by the
/// other edge there, until it comes back to its start having taken every
/// edge once.
pub proof fn lemma_cycle_walk(es: Seq<Edge>, cs: Seq<usize>, ws: Seq<int>, ns: Seq<Node>) -> (r: (
    Seq<int>,
    Seq<Node>,
))
    requires
        is_bipartite(es),
        is_cycle(es, cs.len() as int, cs),
        simple_walk(es, cs, ws, ns),
    ensures
        simple_walk(es, cs, r.0, r.1),
        r.0.len() == cs.len(),
        r.1[cs.len() as int] == r.1[0],
        r.0.subrange(0, ws.len() as int) == ws,
        r.1.subrange(0, ns.len() as int) == ns,
        forall|k: int| 0 <= k < cs.len() ==> r.0.contains(k),
    decreases cs.len() - ws.len(),
{
    let s = ws.len() as int;
    let cur = ns[s];
    assert(links(selected(es, cs, ws[s - 1]), ns[s - 1], ns[s]));
    if cur == ns[0] {
        assert(s >= 2) by {
            if s < 2 {
                assert(es[cs[ws[0]] as int] == selected(es, cs, ws[0]));
            }
        }
        if exists|k: int| 0 <= k < cs.len() && !ws.contains(k) {
            let k = choose|k: int| 0 <= k < cs.len() && !ws.contains(k);
            lemma_closed_walk_misses(es, cs, ws, ns, k);
        }
        lemma_distinct_bounded(ws, cs.len() as int);
        lemma_covering_long(ws, cs.len() as int);
        assert(ws.subrange(0, s) =~= ws);
        assert(ns.subrange(0, s + 1) =~= ns);
        (ws, ns)
    } else {
        let last = ws[s - 1];
        assert(degree(es, cs, selected(es, cs, last).0) == 2);
        assert(degree(es, cs, cur) == 2);
        lemma_other_touch(es, cs, cur, last);
        let j = choose|j: int| 0 <= j < cs.len() && j != last && touches(#[trigger] selected(es, cs, j), cur);
        let e = selected(es, cs, j);
        let next = if e.0 == cur {
            e.1
        } else {
            e.0
        };
        lemma_walk_step(es, cs, ws, ns, j, next);
        let r = lemma_cycle_walk(es, cs, ws.push(j), ns.push(next));
        assert(r.0.subrange(0, s) =~= r.0.subrange(0, s + 1).subrange(0, s));
        assert(ws.push(j).subrange(0, s) =~= ws);
        assert(r.1.subrange(0, s + 1) =~= r.1.subrange(0, s + 2).subrange(0, s + 1));
        assert(ns.push(next).subrange(0, s + 1) =~= ns);
        r
    }
}

/// A walk that passes every entry leaves the selected edges connected.
pub proof fn lemma_walk_covers_connected(
    es: Seq<Edge>,
    cs: Seq<usize>,
    ws: Seq<int>,
    ns: Seq<Node>,
)
    requires
        is_walk(es, cs, ws, ns),
        forall|k: int| 0 <= k < cs.len() ==> ws.contains(k),
    ensures
        connected(es, cs),
{
    assert forall|s: Set<int>, a: int|
        0 <= a < cs.len() && #[trigger] closed_under_sharing(es, cs, s) && #[trigger] s.contains(
            a,
        ) implies forall|b: int| 0 <= b < cs.len() ==> s.contains(b) by {
        assert(ws.contains(a));
        let i = choose|i: int| 0 <= i < ws.len() && ws[i] == a;
        assert forall|b: int| 0 <= b < cs.len() implies s.contains(b) by {
            assert(ws.contains(b));
            let t = choose|t: int| 0 <= t < ws.len() && ws[t] == b;
            if i <= t {
                lemma_walk_forward(es, cs, ws, ns, s, i, t);
            } else {
                lemma_walk_backward(es, cs, ws, ns, s, i, t);
            }
        }
    }
}

/// The positions among the first `i` entries of `cs` whose edge touches `x`.
pub open spec fn touching_prefix(es: Seq<Edge>, cs: Seq<usize>, x: Node, i: int) -> Set<usize> {
    Set::new(
        |p: usize| exists|j: int| 0 <= j < i && cs[j] == p && touches(es[p as int], x),
    )
}

/// Where no position repeats, the degree of `x` counts the positions whose
/// edge touches it.
pub proof fn lemma_degree_counts_positions(es: Seq<Edge>, cs: Seq<usize>, x: Node, i: int)
    requires
        cs.no_duplicates(),
        0 <= i <= cs.len(),
    ensures
        touching_prefix(es, cs, x, i).finite(),
        touching_prefix(es, cs, x, i).len() == degree_upto(es, cs, x, i),
    decreases i,
{
    if i == 0 {
        assert(touching_prefix(es, cs, x, 0) =~= Set::empty());
    } else {
        lemma_degree_counts_positions(es, cs, x, i - 1);
        let prev = touching_prefix(es, cs, x, i - 1);
        let cur = touching_prefix(es, cs, x, i);
        let q = cs[i - 1];
        assert(selected(es, cs, i - 1) == es[q as int]);
        if touches(es[q as int], x) {
            assert forall|p: usize| cur.contains(p) <==> prev.insert(q).contains(p) by {
                if cur.contains(p) && p != q {
                    let j = choose|j: int| 0 <= j < i && cs[j] == p && touches(es[p as int], x);
                    assert(j != i - 1);
                }
                if p == q {
                    assert(cs[i - 1] == p && touches(es[p as int], x));
                }
            }
            assert(cur =~= prev.insert(q));
            assert(!prev.contains(q)) by {
                if prev.contains(q) {
                    let j = choose|j: int|
                        0 <= j < i - 1 && cs[j] == q && touches(es[q as int], x);
                    assert(cs[j] == cs[i - 1]);
                }
            }
        } else {
            assert forall|p: usize| cur.contains(p) <==> prev.contains(p) by {
                if cur.contains(p) {
                    let j = choose|j: int| 0 <= j < i && cs[j] == p && touches(es[p as int], x);
                    assert(j != i - 1);
                }
            }
            assert(cur =~= prev);
        }
    }
}

/// Two lists without repeats that hold the same positions select edges
/// that are equally connected.
proof fn lemma_connected_reordered(es: Seq<Edge>, cs: Seq<usize>, ds: Seq<usize>)
    requires
        connected(es, cs),
        ds.no_duplicates(),
        forall|p: usize| cs.contains(p) <==> ds.contains(p),
    ensures
        connected(es, ds),
{
    assert forall|s: Set<int>, a: int|
        0 <= a < ds.len() && #[trigger] closed_under_sharing(es, ds, s) && #[trigger] s.contains(
            a,
        ) implies forall|b: int| 0 <= b < ds.len() ==> s.contains(b) by {
        let s1 = Set::new(
            |i: int|
                0 <= i < cs.len() && exists|j: int| 0 <= j < ds.len() && s.contains(j) && ds[j]
                    == cs[i],
        );
        assert forall|i: int, i2: int|
            s1.contains(i) && 0 <= i2 < cs.len() && #[trigger] shares_node(
                es,
                cs,
                i,
                i2,
            ) implies s1.contains(i2) by {
            let j = choose|j: int| 0 <= j < ds.len() && s.contains(j) && ds[j] == cs[i];
            assert(cs.contains(cs[i2]));
            let j2 = choose|j2: int| 0 <= j2 < ds.len() && ds[j2] == cs[i2];
            assert(shares_node(es, ds, j, j2));
        }
        assert(ds.contains(ds[a]));
        let i0 = choose|i0: int| 0 <= i0 < cs.len() && cs[i0] == ds[a];
        assert(s1.contains(i0));
        assert(closed_under_sharing(es, cs, s1));
        assert forall|b: int| 0 <= b < ds.len() implies s.contains(b) by {
            assert(ds.contains(ds[b]));
            let i = choose|i: int| 0 <= i < cs.len() && cs[i] == ds[b];
            assert(s1.contains(i));
            let j = choose|j: int| 0 <= j < ds.len() && s.contains(j) && ds[j] == cs[i];
            assert(j == b);
        }
    }
}

/// Being a cycle does not depend on the order of the positions: a list
/// without repeats that holds the positions of a cycle is that cycle.
pub proof fn lemma_cycle_reordered(es: Seq<Edge>, len: int, cs: Seq<usize>, ds: Seq<usize>)
    requires
        is_cycle(es, len, cs),
        ds.no_duplicates(),
        forall|p: usize| cs.contains(p) <==> ds.contains(p),
    ensures
        is_cycle(es, len, ds),
{
    cs.unique_seq_to_set();
    ds.unique_seq_to_set();
    assert(cs.to_set() =~= ds.to_set());
    assert forall|k: int| 0 <= k < len implies ds[k] < es.len() by {
        assert(ds.contains(ds[k]));
    }
    assert forall|x: Node| degree(es, cs, x) == degree(es, ds, x) by {
        lemma_degree_counts_positions(es, cs, x, cs.len() as int);
        lemma_degree_counts_positions(es, ds, x, ds.len() as int);
        assert forall|p: usize|
            touching_prefix(es, cs, x, cs.len() as int).contains(p) <==> touching_prefix(
                es,
                ds,
                x,
                ds.len() as int,
            ).contains(p) by {
            if touching_prefix(es, cs, x, cs.len() as int).contains(p) {
                assert(cs.contains(p));
                assert(ds.contains(p));
                let j = choose|j: int| 0 <= j < ds.len() && ds[j] == p;
            }
            if touching_prefix(es, ds, x, ds.len() as int).contains(p) {
                assert(ds.contains(p));
                assert(cs.contains(p));
                let j = choose|j: int| 0 <= j < cs.len() && cs[j] == p;
            }
        }
        assert(touching_prefix(es, cs, x, cs.len() as int) =~= touching_prefix(
            es,
            ds,
            x,
            ds.len() as int,
        ));
    }
    assert forall|k: int| 0 <= k < ds.len() implies degree(
        es,
        ds,
        (#[trigger] selected(es, ds, k)).0,
    ) == 2 && degree(es, ds, selected(es, ds, k).1) == 2 by {
        assert(ds.contains(ds[k]));
        let i = choose|i: int| 0 <= i < cs.len() && cs[i] == ds[k];
        assert(selected(es, cs, i) == selected(es, ds, k));
        assert(degree(es, cs, selected(es, cs, i).0) == 2);
        assert(degree(es, cs, selected(es, cs, i).1) == 2);
        assert(degree(es, cs, selected(es, ds, k).0) == degree(es, ds, selected(es, ds, k).0));
        assert(degree(es, cs, selected(es, ds, k).1) == degree(es, ds, selected(es, ds, k).1));
    }
    lemma_connected_reordered(es, cs, ds);
}

/// A candidate whose length differs from the asked length is no cycle.
pub proof fn lemma_wrong_length_rejected(es: Seq<Edge>, len: int, cs: Seq<usize>)
    requires
        cs.len() != len,
    ensures
        !is_cycle(es, len, cs),
{
}

/// A candidate that names one edge position twice is no cycle, whatever
/// else it holds.
pub proof fn lemma_repeated_position_rejected(
    es: Seq<Edge>,
    len: int,
    cs: Seq<usize>,
    i: int,
    j: int,
)
    requires
        0 <= i < cs.len(),
        0 <= j < cs.len(),
        i != j,
        cs[i] == cs[j],
    ensures
        !is_cycle(es, len, cs),
{
}

/// Two non-empty lists of edges with no node in common, put together, are
/// no cycle: even where every node has degree two, the union falls apart.
pub proof fn lemma_disjoint_union_rejected(
    es: Seq<Edge>,
    len: int,
    first: Seq<usize>,
    second: Seq<usize>,
)
    requires
        first.len() > 0,
        second.len() > 0,
        forall|a: int, b: int|
            0 <= a < first.len() && 0 <= b < second.len() ==> !touches(
                #[trigger] es[second[b] as int],
                (#[trigger] es[first[a] as int]).0,
            ) && !touches(es[second[b] as int], es[first[a] as int].1),
    ensures
        !is_cycle(es, len, first + second),
{
    let cs = first + second;
    let part = Set::new(|a: int| 0 <= a < first.len());
    assert forall|a: int, b: int|
        part.contains(a) && 0 <= b < cs.len() && #[trigger] shares_node(
            es,
            cs,
            a,
            b,
        ) implies part.contains(b) by {
        if b >= first.len() {
            assert(cs[a] == first[a]);
            assert(cs[b] == second[b - first.len()]);
        }
    }
    assert(closed_under_sharing(es, cs, part));
    assert(part.contains(0));
    assert(!part.contains(first.len() as int));
}

} // verus!
