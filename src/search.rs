//! The cycle search: a depth-first walk over the live edges of a trimmed
//! adjacency index. The edges on the current path are marked in one bitmap
//! that each branch sets on the way in and clears on the way back, so no
//! branch sees the edges of another. Every closed path of the asked length
//! is checked by the verifier before it is returned.
use vstd::prelude::*;
use crate::adjacency::AdjacencyIndex;
use crate::adjacency::{cycle_alive, lemma_cycle_keeps_degree};
use crate::cycle::{
    is_cycle, is_walk, lemma_cycle_reordered, lemma_cycle_walk, links, selected, simple_walk,
};
use crate::graph::{is_bipartite, Edge, Graph, Node};

verus! {

/// Each entry is smaller than the next.
pub open spec fn strictly_increasing(s: Seq<usize>) -> bool {
    forall|i: int, j: int| 0 <= i < j < s.len() ==> s[i] < s[j]
}

/// The positions below `i` whose mark is set, in increasing order.
pub open spec fn marked_upto(marks: Seq<bool>, i: int) -> Seq<usize>
    decreases i,
{
    if i <= 0 {
        Seq::empty()
    } else if marks[i - 1] {
        marked_upto(marks, i - 1).push((i - 1) as usize)
    } else {
        marked_upto(marks, i - 1)
    }
}

/// The positions whose mark is set, in increasing order.
pub open spec fn marked(marks: Seq<bool>) -> Seq<usize> {
    marked_upto(marks, marks.len() as int)
}

/// The marks with the positions of `t` set as well.
pub open spec fn marks_with(marks: Seq<bool>, t: Seq<usize>) -> Seq<bool> {
    Seq::new(marks.len(), |p: int| marks[p] || t.contains(p as usize))
}

/// `t` is a trail of unmarked edges from `live` that leads from `cur` to
/// `goal` through the nodes `ms`, with no position twice.
pub open spec fn is_trail(
    es: Seq<Edge>,
    live: Seq<usize>,
    marks: Seq<bool>,
    cur: Node,
    goal: Node,
    t: Seq<usize>,
    ms: Seq<Node>,
) -> bool {
    &&& ms.len() == t.len() + 1
    &&& ms[0] == cur
    &&& ms[t.len() as int] == goal
    &&& t.no_duplicates()
    &&& forall|i: int|
        0 <= i < t.len() ==> live.contains(#[trigger] t[i]) && (t[i] as int) < marks.len()
            && !marks[t[i] as int] && links(es[t[i] as int], ms[i], ms[i + 1])
}

proof fn lemma_marked(marks: Seq<bool>, i: int)
    requires
        0 <= i <= marks.len(),
        marks.len() <= usize::MAX,
    ensures
        strictly_increasing(marked_upto(marks, i)),
        forall|k: int| 0 <= k < marked_upto(marks, i).len() ==> marked_upto(marks, i)[k] < i,
        forall|p: usize| #[trigger]
            marked_upto(marks, i).contains(p) <==> (p < i && marks[p as int]),
    decreases i,
{
    if i > 0 {
        lemma_marked(marks, i - 1);
        let prev = marked_upto(marks, i - 1);
        let cur = marked_upto(marks, i);
        let q = (i - 1) as usize;
        assert(q as int == i - 1);
        if marks[i - 1] {
            assert(cur == prev.push(q));
            assert forall|a: int, b: int| 0 <= a < b < cur.len() implies cur[a] < cur[b] by {
                if b == cur.len() - 1 {
                    assert(prev[a] < i - 1);
                } else {
                    assert(prev[a] < prev[b]);
                }
            }
        }
        assert forall|p: usize| #[trigger] cur.contains(p) <==> (p < i && marks[p as int]) by {
            if !marks[i - 1] {
                assert(cur == prev);
                assert(prev.contains(p) <==> (p < i - 1 && marks[p as int]));
            } else {
                if p == (i - 1) as usize {
                    assert(cur[cur.len() - 1] == p);
                } else if prev.contains(p) {
                    let k = choose|k: int| 0 <= k < prev.len() && prev[k] == p;
                    assert(cur[k] == p);
                } else if cur.contains(p) {
                    let k = choose|k: int| 0 <= k < cur.len() && cur[k] == p;
                    assert(k < prev.len());
                    assert(prev[k] == p);
                }
            }
        }
    }
}

proof fn lemma_increasing_distinct(s: Seq<usize>)
    requires
        strictly_increasing(s),
    ensures
        s.no_duplicates(),
{
    assert forall|i: int, j: int| 0 <= i < s.len() && 0 <= j < s.len() && i != j implies s[i]
        != s[j] by {
        if i < j {
            assert(s[i] < s[j]);
        } else {
            assert(s[j] < s[i]);
        }
    }
}

/// A cycle whose first edge is `cs[0]`, and whose edges are all live, is
/// that edge followed by a trail of live edges back to its start; the
/// edges of the two, as sorted positions, are the cycle again.
proof fn lemma_cycle_as_trail(
    es: Seq<Edge>,
    live: Seq<usize>,
    alive: Seq<bool>,
    len: int,
    cs: Seq<usize>,
) -> (r: (Seq<usize>, Seq<Node>))
    requires
        is_bipartite(es),
        is_cycle(es, len, cs),
        cycle_alive(alive, cs),
        alive.len() == es.len(),
        es.len() <= usize::MAX,
        forall|e: usize| e < alive.len() && alive[e as int] ==> live.contains(e),
    ensures
        r.0.len() == len - 1,
        is_trail(
            es,
            live,
            Seq::new(es.len(), |p: int| false).update(cs[0] as int, true),
            es[cs[0] as int].1,
            es[cs[0] as int].0,
            r.0,
            r.1,
        ),
        is_cycle(
            es,
            len,
            marked(
                marks_with(Seq::new(es.len(), |p: int| false).update(cs[0] as int, true), r.0),
            ),
        ),
{
    let first = es[cs[0] as int];
    let ws0 = seq![0int];
    let ns0 = seq![first.0, first.1];
    assert(selected(es, cs, 0) == first);
    assert(simple_walk(es, cs, ws0, ns0));
    let (ws, ns) = lemma_cycle_walk(es, cs, ws0, ns0);
    assert(ws[0] == ws.subrange(0, 1)[0]);
    assert(ns[0] == ns.subrange(0, 2)[0]);
    assert(ns[1] == ns.subrange(0, 2)[1]);
    let t = Seq::new((len - 1) as nat, |i: int| cs[ws[i + 1]]);
    let ms = ns.subrange(1, len + 1);
    let marks = Seq::new(es.len(), |p: int| false).update(cs[0] as int, true);
    assert(t.no_duplicates()) by {
        assert forall|a: int, b: int|
            0 <= a < t.len() && 0 <= b < t.len() && a != b implies t[a] != t[b] by {
            assert(ws[a + 1] != ws[b + 1]);
        }
    }
    assert forall|i: int| 0 <= i < t.len() implies live.contains(#[trigger] t[i]) && (t[i] as int)
        < marks.len() && !marks[t[i] as int] && links(es[t[i] as int], ms[i], ms[i + 1]) by {
        let k = ws[i + 1];
        assert(0 <= k < cs.len());
        assert(alive[cs[k] as int]);
        assert(k != ws[0]);
        assert(cs[k] != cs[0]);
        assert(links(selected(es, cs, ws[i + 1]), ns[i + 1], ns[i + 2]));
    }
    assert(is_trail(es, live, marks, first.1, first.0, t, ms));
    let m = marked(marks_with(marks, t));
    lemma_marked(marks_with(marks, t), es.len() as int);
    lemma_increasing_distinct(m);
    assert forall|p: usize| cs.contains(p) <==> m.contains(p) by {
        if cs.contains(p) {
            let i = choose|i: int| 0 <= i < cs.len() && cs[i] == p;
            assert(ws.contains(i));
            let j = choose|j: int| 0 <= j < ws.len() && ws[j] == i;
            if j > 0 {
                assert(t[j - 1] == p);
                assert(t.contains(p));
            }
            assert(marks_with(marks, t)[p as int]);
        }
        if m.contains(p) {
            assert(marks_with(marks, t)[p as int]);
            if p != cs[0] {
                assert(t.contains(p));
                let i = choose|i: int| 0 <= i < t.len() && t[i] == p;
                assert(cs[ws[i + 1]] == p);
            }
        }
    }
    lemma_cycle_reordered(es, len, cs, m);
    (t, ms)
}

/// The positions whose mark is set, in increasing order.
fn marked_positions(marks: &Vec<bool>) -> (r: Vec<usize>)
    ensures
        r@ == marked(marks@),
        strictly_increasing(r@),
{
    let mut r: Vec<usize> = Vec::new();
    let mut i: usize = 0;
    while i < marks.len()
        invariant
            i <= marks@.len(),
            r@ == marked_upto(marks@, i as int),
        decreases marks@.len() - i,
    {
        if marks[i] {
            r.push(i);
        }
        i += 1;
    }
    proof {
        lemma_marked(marks@, marks@.len() as int);
    }
    r
}

/// The positions of the live edges of `index`, in increasing order.
fn live_positions(index: &AdjacencyIndex) -> (r: Vec<usize>)
    requires
        index.wf(),
    ensures
        forall|k: int|
            0 <= k < r@.len() ==> r@[k] < index.live().len() && index.live()[r@[k] as int],
        forall|e: usize| e < index.live().len() && index.live()[e as int] ==> r@.contains(e),
{
    let mut r: Vec<usize> = Vec::new();
    let mut e: usize = 0;
    while e < index.live_len()
        invariant
            e <= index.live().len(),
            forall|k: int|
                0 <= k < r@.len() ==> r@[k] < index.live().len() && index.live()[r@[k] as int],
            forall|f: usize| f < e && index.live()[f as int] ==> r@.contains(f),
        decreases index.live().len() - e,
    {
        if index.is_live(e) {
            let ghost before = r@;
            r.push(e);
            proof {
                assert(r@[r@.len() - 1] == e);
                assert forall|f: usize| f < e && index.live()[f as int] implies r@.contains(f) by {
                    let k = choose|k: int| 0 <= k < before.len() && before[k] == f;
                    assert(r@[k] == f);
                }
            }
        }
        e += 1;
    }
    r
}

/// Continues a trail of `depth` edges that left `start` and stands at
/// `cur`, its edges marked in `on_path`, by live edges of `live`, until it
/// has `cycle_len` edges. Returns the first verified cycle it closes; where
/// it returns none, no trail that it could have taken closes a cycle.
fn extend(
    g: &Graph,
    live: &Vec<usize>,
    start: Node,
    cur: Node,
    depth: usize,
    cycle_len: usize,
    on_path: &mut Vec<bool>,
) -> (r: Option<Vec<usize>>)
    requires
        old(on_path)@.len() == g@.len(),
        depth <= cycle_len,
        forall|k: int| 0 <= k < live@.len() ==> live@[k] < g@.len(),
    ensures
        final(on_path)@ == old(on_path)@,
        r matches Some(c) ==> is_cycle(g@, cycle_len as int, c@) && strictly_increasing(c@),
        r matches Some(c) ==> forall|p: usize|
            p < old(on_path)@.len() && old(on_path)@[p as int] ==> #[trigger] c@.contains(p),
        r matches Some(c) ==> forall|k: int|
            0 <= k < c@.len() ==> live@.contains(#[trigger] c@[k]) || old(on_path)@[c@[k] as int],
        r is None ==> forall|t: Seq<usize>, ms: Seq<Node>|
            t.len() == cycle_len - depth && #[trigger] is_trail(
                g@,
                live@,
                old(on_path)@,
                cur,
                start,
                t,
                ms,
            ) ==> !is_cycle(g@, cycle_len as int, marked(marks_with(old(on_path)@, t))),
    decreases cycle_len - depth,
{
    let ghost marks = on_path@;
    if depth == cycle_len {
        if cur == start {
            let c = marked_positions(on_path);
            let n = on_path.len();
            if g.verify(cycle_len, c.as_slice()) {
                proof {
                    lemma_marked(marks, marks.len() as int);
                    assert forall|k: int| 0 <= k < c@.len() implies live@.contains(#[trigger] c@[k])
                        || marks[c@[k] as int] by {
                        assert(c@.contains(c@[k]));
                    }
                }
                return Some(c);
            }
            proof {
                assert forall|t: Seq<usize>, ms: Seq<Node>|
                    t.len() == cycle_len - depth && #[trigger] is_trail(
                        g@,
                        live@,
                        marks,
                        cur,
                        start,
                        t,
                        ms,
                    ) implies !is_cycle(g@, cycle_len as int, marked(marks_with(marks, t))) by {
                    assert(marks_with(marks, t) =~= marks);
                }
            }
        }
        return None;
    }
    let es = g.edges();
    let n = es.len();
    let mut k: usize = 0;
    while k < live.len()
        invariant
            on_path@ == marks,
            marks == old(on_path)@,
            marks.len() == g@.len(),
            g@.len() == n,
            es@ == g@,
            is_bipartite(g@),
            depth < cycle_len,
            forall|i: int| 0 <= i < live@.len() ==> live@[i] < g@.len(),
            forall|t: Seq<usize>, ms: Seq<Node>|
                t.len() == cycle_len - depth && #[trigger] is_trail(
                    g@,
                    live@,
                    marks,
                    cur,
                    start,
                    t,
                    ms,
                ) && (exists|k2: int| 0 <= k2 < k && live@[k2] == t[0]) ==> !is_cycle(
                    g@,
                    cycle_len as int,
                    marked(marks_with(marks, t)),
                ),
        decreases live@.len() - k,
    {
        let e = live[k];
        let edge: Edge = es[e];
        if !on_path[e] && (edge.0 == cur || edge.1 == cur) {
            let next = if edge.0 == cur {
                edge.1
            } else {
                edge.0
            };
            on_path.set(e, true);
            let ghost marks2 = on_path@;
            let found = extend(g, live, start, next, depth + 1, cycle_len, on_path);
            on_path.set(e, false);
            proof {
                assert(on_path@ =~= marks);
            }
            if found.is_some() {
                proof {
                    let c = found->Some_0;
                    assert forall|p: usize| p < marks.len() && marks[p as int] implies #[trigger] c@.contains(p) by {
                        assert(marks2[p as int]);
                    }
                    assert forall|j: int| 0 <= j < c@.len() implies live@.contains(#[trigger] c@[j])
                        || marks[c@[j] as int] by {
                        if c@[j] == e {
                            assert(live@[k as int] == e);
                        }
                    }
                }
                return found;
            }
            proof {
                let marks2 = marks.update(e as int, true);
                assert forall|t: Seq<usize>, ms: Seq<Node>|
                    t.len() == cycle_len - depth && #[trigger] is_trail(
                        g@,
                        live@,
                        marks,
                        cur,
                        start,
                        t,
                        ms,
                    ) && t[0] == e implies !is_cycle(
                        g@,
                        cycle_len as int,
                        marked(marks_with(marks, t)),
                    ) by {
                    let t2 = t.drop_first();
                    let ms2 = ms.drop_first();
                    assert(links(g@[t[0] as int], ms[0], ms[1]));
                    assert(edge == g@[e as int]);
                    assert(edge.0 != edge.1);
                    assert(ms2[0] == next);
                    assert forall|i: int| 0 <= i < t2.len() implies live@.contains(#[trigger] t2[i])
                        && (t2[i] as int) < marks2.len() && !marks2[t2[i] as int] && links(
                        g@[t2[i] as int],
                        ms2[i],
                        ms2[i + 1],
                    ) by {
                        assert(t2[i] == t[i + 1]);
                        assert(t[i + 1] != t[0]);
                    }
                    assert(is_trail(g@, live@, marks2, next, start, t2, ms2));
                    assert(marks_with(marks2, t2) =~= marks_with(marks, t)) by {
                        assert forall|p: int| 0 <= p < marks.len() implies marks_with(marks2, t2)[p]
                            == marks_with(marks, t)[p] by {
                            if t.contains(p as usize) && p != e as int {
                                let i = choose|i: int| 0 <= i < t.len() && t[i] == p as usize;
                                assert(t2[i - 1] == p as usize);
                            }
                            if t2.contains(p as usize) {
                                let i = choose|i: int| 0 <= i < t2.len() && t2[i] == p as usize;
                                assert(t[i + 1] == p as usize);
                            }
                            if p == e as int {
                                assert(t[0] == p as usize);
                            }
                        }
                    }
                }
            }
        }
        k += 1;
    }
    proof {
        assert forall|t: Seq<usize>, ms: Seq<Node>|
            t.len() == cycle_len - depth && #[trigger] is_trail(
                g@,
                live@,
                marks,
                cur,
                start,
                t,
                ms,
            ) implies !is_cycle(g@, cycle_len as int, marked(marks_with(marks, t))) by {
            assert(live@.contains(t[0]));
            let k2 = choose|k2: int| 0 <= k2 < live@.len() && live@[k2] == t[0];
        }
    }
    None
}

/// Looks for a cycle of `cycle_len` edges among the live edges of `index`,
/// starting from each live edge whose endpoints both have live degree two
/// or more, and trying every trail from there. What it returns is a
/// verified cycle, as sorted edge positions; it returns none only where no
/// cycle of that length has all its edges live. Finding none is no error.
pub fn search(g: &Graph, index: &AdjacencyIndex, cycle_len: usize) -> (r: Option<Vec<usize>>)
    requires
        index.wf(),
        index.graph() == g@,
    ensures
        r matches Some(c) ==> is_cycle(g@, cycle_len as int, c@) && strictly_increasing(c@),
        r matches Some(c) ==> cycle_alive(index.live(), c@),
        r is None ==> forall|cs: Seq<usize>|
            #[trigger] is_cycle(g@, cycle_len as int, cs) ==> !cycle_alive(index.live(), cs),
{
    if cycle_len == 0 {
        return None;
    }
    proof {
        index.lemma_live_len();
    }
    let es = g.edges();
    let live = live_positions(index);
    let ghost none = Seq::new(g@.len(), |p: int| false);
    let n = es.len();
    let mut on_path: Vec<bool> = Vec::new();
    let mut i: usize = 0;
    while i < es.len()
        invariant
            es@ == g@,
            i <= es@.len(),
            on_path@.len() == i,
            forall|j: int| 0 <= j < i ==> !on_path@[j],
        decreases es@.len() - i,
    {
        on_path.push(false);
        i += 1;
    }
    proof {
        assert(on_path@ =~= none);
    }
    let mut k: usize = 0;
    while k < live.len()
        invariant
            index.wf(),
            index.graph() == g@,
            index.live().len() == g@.len(),
            es@ == g@,
            g@.len() == n,
            is_bipartite(g@),
            on_path@ == none,
            none == Seq::new(g@.len(), |p: int| false),
            cycle_len > 0,
            forall|i: int|
                0 <= i < live@.len() ==> live@[i] < index.live().len() && index.live()[live@[i] as int],
            forall|e: usize| e < index.live().len() && index.live()[e as int] ==> live@.contains(e),
            forall|cs: Seq<usize>|
                #[trigger] is_cycle(g@, cycle_len as int, cs) && cycle_alive(index.live(), cs) ==> !(
                exists|k2: int| 0 <= k2 < k && live@[k2] == cs[0]),
        decreases live@.len() - k,
    {
        let s = live[k];
        let first: Edge = es[s];
        if index.degree(first.0) >= 2 && index.degree(first.1) >= 2 {
            on_path.set(s, true);
            let found = extend(g, &live, first.0, first.1, 1, cycle_len, &mut on_path);
            on_path.set(s, false);
            proof {
                assert(on_path@ =~= none);
            }
            if found.is_some() {
                proof {
                    let c = found->Some_0;
                    assert forall|j: int| 0 <= j < c@.len() implies #[trigger] index.live()[c@[j] as int] by {
                        if live@.contains(c@[j]) {
                            let i = choose|i: int| 0 <= i < live@.len() && live@[i] == c@[j];
                        } else {
                            assert(c@[j] == s);
                        }
                    }
                }
                return found;
            }
        }
        proof {
            assert forall|cs: Seq<usize>|
                #[trigger] is_cycle(g@, cycle_len as int, cs) && cycle_alive(index.live(), cs)
                    implies cs[0] != s by {
                if cs[0] == s {
                    assert(first == g@[cs[0] as int]);
                    assert(g@[cs[0] as int].0 == first.0);
                    lemma_cycle_keeps_degree(g@, index.live(), cs, 0, first.0);
                    lemma_cycle_keeps_degree(g@, index.live(), cs, 0, first.1);
                    let (t, ms) = lemma_cycle_as_trail(
                        g@,
                        live@,
                        index.live(),
                        cycle_len as int,
                        cs,
                    );
                    assert(is_trail(
                        g@,
                        live@,
                        none.update(s as int, true),
                        first.1,
                        first.0,
                        t,
                        ms,
                    ));
                }
            }
        }
        k += 1;
    }
    proof {
        assert forall|cs: Seq<usize>|
            #[trigger] is_cycle(g@, cycle_len as int, cs) implies !cycle_alive(index.live(), cs) by {
            if cycle_alive(index.live(), cs) {
                assert(index.live()[cs[0] as int]);
                assert(live@.contains(cs[0]));
                let k2 = choose|k2: int| 0 <= k2 < live@.len() && live@[k2] == cs[0];
            }
        }
    }
    None
}

} // verus!
