//! The adjacency index of a graph: which edges are still live, and the
//! live degree of every node, kept in two hash tables (one per partition).
use std::collections::HashMap;
use vstd::prelude::*;
use crate::cycle::{is_cycle, lemma_only_one_touch, selected};
use crate::graph::{is_bipartite, touches, Edge, Graph, Node};

verus! {

broadcast use vstd::std_specs::hash::group_hash_axioms;

/// How many of the first `i` edges are live and touch `x`.
pub open spec fn live_degree_upto(es: Seq<Edge>, alive: Seq<bool>, x: Node, i: int) -> nat
    decreases i,
{
    if i <= 0 {
        0
    } else {
        live_degree_upto(es, alive, x, i - 1) + if alive[i - 1] && touches(es[i - 1], x) {
            1nat
        } else {
            0nat
        }
    }
}

/// The number of live edges that touch `x`.
pub open spec fn live_degree(es: Seq<Edge>, alive: Seq<bool>, x: Node) -> nat {
    live_degree_upto(es, alive, x, es.len() as int)
}

/// How many of the first `i` entries of `alive` are set.
pub open spec fn live_count_upto(alive: Seq<bool>, i: int) -> nat
    decreases i,
{
    if i <= 0 {
        0
    } else {
        live_count_upto(alive, i - 1) + if alive[i - 1] {
            1nat
        } else {
            0nat
        }
    }
}

/// The number of live edges.
pub open spec fn live_count(alive: Seq<bool>) -> nat {
    live_count_upto(alive, alive.len() as int)
}

/// Every live edge has both endpoints of live degree two or more: trimming
/// has nothing left to remove.
pub open spec fn settled(es: Seq<Edge>, alive: Seq<bool>) -> bool {
    forall|e: int|
        0 <= e < es.len() && #[trigger] alive[e] ==> live_degree(es, alive, es[e].0) >= 2
            && live_degree(es, alive, es[e].1) >= 2
}

/// Every edge that `s` marks is marked in `alive` too.
pub open spec fn within(s: Seq<bool>, alive: Seq<bool>) -> bool {
    forall|e: int| 0 <= e < s.len() && #[trigger] s[e] ==> alive[e]
}

/// Edge `e` is live and has an endpoint of live degree under two.
pub open spec fn loose(es: Seq<Edge>, alive: Seq<bool>, e: int) -> bool {
    alive[e] && (live_degree(es, alive, es[e].0) < 2 || live_degree(es, alive, es[e].1) < 2)
}

/// Every edge that `cs` names is live.
pub open spec fn cycle_alive(alive: Seq<bool>, cs: Seq<usize>) -> bool {
    forall|k: int| 0 <= k < cs.len() ==> #[trigger] alive[cs[k] as int]
}

/// The degree that the two tables record for `x`: absent means zero.
pub open spec fn table_degree(u: Map<u64, usize>, v: Map<u64, usize>, x: Node) -> nat {
    match x {
        Node::U(a) => if u.contains_key(a) {
            u[a] as nat
        } else {
            0
        },
        Node::V(b) => if v.contains_key(b) {
            v[b] as nat
        } else {
            0
        },
    }
}

pub proof fn lemma_live_degree_bounded(es: Seq<Edge>, alive: Seq<bool>, x: Node, i: int)
    requires
        0 <= i,
    ensures
        live_degree_upto(es, alive, x, i) <= i,
    decreases i,
{
    if i > 0 {
        lemma_live_degree_bounded(es, alive, x, i - 1);
    }
}

pub proof fn lemma_live_degree_monotone(
    es: Seq<Edge>,
    alive: Seq<bool>,
    x: Node,
    i: int,
    j: int,
)
    requires
        0 <= i <= j,
    ensures
        live_degree_upto(es, alive, x, i) <= live_degree_upto(es, alive, x, j),
    decreases j - i,
{
    if i < j {
        lemma_live_degree_monotone(es, alive, x, i, j - 1);
    }
}

/// Fewer live edges never give a node a higher live degree.
pub proof fn lemma_live_degree_within(
    es: Seq<Edge>,
    s: Seq<bool>,
    alive: Seq<bool>,
    x: Node,
    i: int,
)
    requires
        s.len() == alive.len(),
        0 <= i <= s.len(),
        within(s, alive),
    ensures
        live_degree_upto(es, s, x, i) <= live_degree_upto(es, alive, x, i),
    decreases i,
{
    if i > 0 {
        lemma_live_degree_within(es, s, alive, x, i - 1);
        if s[i - 1] {
            assert(alive[i - 1]);
        }
    }
}

/// Two distinct live edges that touch `x` give it a live degree of two.
pub proof fn lemma_two_live(es: Seq<Edge>, alive: Seq<bool>, x: Node, p: int, q: int)
    requires
        0 <= p < es.len(),
        0 <= q < es.len(),
        p != q,
        alive[p],
        alive[q],
        touches(es[p], x),
        touches(es[q], x),
    ensures
        live_degree(es, alive, x) >= 2,
{
    let (a, b) = if p < q {
        (p, q)
    } else {
        (q, p)
    };
    assert(live_degree_upto(es, alive, x, a + 1) >= 1);
    lemma_live_degree_monotone(es, alive, x, a + 1, b);
    assert(live_degree_upto(es, alive, x, b + 1) >= 2);
    lemma_live_degree_monotone(es, alive, x, b + 1, es.len() as int);
}

/// Taking edge `e` out lowers the live degree of its endpoints by one and
/// leaves every other node's alone.
pub proof fn lemma_kill_degree(es: Seq<Edge>, alive: Seq<bool>, x: Node, e: int, i: int)
    requires
        0 <= e < alive.len(),
        alive.len() == es.len(),
        alive[e],
        0 <= i <= alive.len(),
    ensures
        live_degree_upto(es, alive.update(e, false), x, i) + if e < i && touches(es[e], x) {
            1nat
        } else {
            0nat
        } == live_degree_upto(es, alive, x, i),
    decreases i,
{
    if i > 0 {
        lemma_kill_degree(es, alive, x, e, i - 1);
    }
}

/// Taking edge `e` out lowers the number of live edges by one.
pub proof fn lemma_kill_count(alive: Seq<bool>, e: int, i: int)
    requires
        0 <= e < alive.len(),
        alive[e],
        0 <= i <= alive.len(),
    ensures
        live_count_upto(alive.update(e, false), i) + if e < i {
            1nat
        } else {
            0nat
        } == live_count_upto(alive, i),
    decreases i,
{
    if i > 0 {
        lemma_kill_count(alive, e, i - 1);
    }
}

pub proof fn lemma_live_count_bounded(alive: Seq<bool>, i: int)
    requires
        0 <= i,
    ensures
        live_count_upto(alive, i) <= i,
    decreases i,
{
    if i > 0 {
        lemma_live_count_bounded(alive, i - 1);
    }
}

/// A node on a cycle whose edges are all live has live degree two or more:
/// trimming never takes such an edge.
pub proof fn lemma_cycle_keeps_degree(
    es: Seq<Edge>,
    alive: Seq<bool>,
    cs: Seq<usize>,
    k: int,
    x: Node,
)
    requires
        is_cycle(es, cs.len() as int, cs),
        cycle_alive(alive, cs),
        alive.len() == es.len(),
        0 <= k < cs.len(),
        touches(es[cs[k] as int], x),
    ensures
        live_degree(es, alive, x) >= 2,
{
    assert(selected(es, cs, k) == es[cs[k] as int]);
    if !(exists|j: int| 0 <= j < cs.len() && j != k && touches(#[trigger] selected(es, cs, j), x)) {
        lemma_only_one_touch(es, cs, x, k, cs.len() as int);
    } else {
        let j = choose|j: int|
            0 <= j < cs.len() && j != k && touches(#[trigger] selected(es, cs, j), x);
        assert(alive[cs[k] as int] && alive[cs[j] as int]);
        lemma_two_live(es, alive, x, cs[k] as int, cs[j] as int);
    }
}

/// Adds one to the count that `m` holds for `k`, absent counting as zero.
fn bump(m: &mut HashMap<u64, usize>, k: u64)
    requires
        old(m)@.contains_key(k) ==> old(m)@[k] < usize::MAX,
    ensures
        final(m)@ == old(m)@.insert(
            k,
            if old(m)@.contains_key(k) {
                (old(m)@[k] + 1) as usize
            } else {
                1usize
            },
        ),
{
    let n: usize = match m.get(&k) {
        Some(c) => *c + 1,
        None => 1,
    };
    m.insert(k, n);
}

/// Takes one from the count that `m` holds for `k`.
fn drop_one(m: &mut HashMap<u64, usize>, k: u64)
    requires
        old(m)@.contains_key(k),
        old(m)@[k] >= 1,
    ensures
        final(m)@ == old(m)@.insert(k, (old(m)@[k] - 1) as usize),
{
    let n: usize = match m.get(&k) {
        Some(c) => *c - 1,
        None => 0,
    };
    m.insert(k, n);
}

/// Which edges of a graph are live, with the live degree of each node.
/// Built from a graph, then trimmed and searched; it is never the record
/// of what the graph's edges are.
pub struct AdjacencyIndex {
    alive: Vec<bool>,
    u_degree: HashMap<u64, usize>,
    v_degree: HashMap<u64, usize>,
    edges: Ghost<Seq<Edge>>,
}

impl AdjacencyIndex {
    /// The edges of the graph the index was built from.
    pub closed spec fn graph(&self) -> Seq<Edge> {
        self.edges@
    }

    /// Entry `e` says whether edge `e` is still live.
    pub closed spec fn live(&self) -> Seq<bool> {
        self.alive@
    }

    /// The tables agree with the live edges.
    pub closed spec fn wf(&self) -> bool {
        &&& self.alive@.len() == self.edges@.len()
        &&& is_bipartite(self.edges@)
        &&& forall|x: Node|
            #[trigger] table_degree(self.u_degree@, self.v_degree@, x) == live_degree(
                self.edges@,
                self.alive@,
                x,
            )
    }

    /// A well-formed index has one entry for each edge of its graph.
    pub proof fn lemma_live_len(&self)
        requires
            self.wf(),
        ensures
            self.live().len() == self.graph().len(),
    {
    }

    /// The index of `g` with every edge live.
    pub fn from_graph(g: &Graph) -> (r: Self)
        ensures
            r.wf(),
            r.graph() == g@,
            r.live() == Seq::new(g@.len(), |e: int| true),
    {
        let es = g.edges();
        let ghost all = Seq::new(g@.len(), |e: int| true);
        let mut alive: Vec<bool> = Vec::new();
        let mut u_degree: HashMap<u64, usize> = HashMap::new();
        let mut v_degree: HashMap<u64, usize> = HashMap::new();
        let mut i: usize = 0;
        while i < es.len()
            invariant
                es@ == g@,
                is_bipartite(g@),
                all == Seq::new(g@.len(), |e: int| true),
                i <= es@.len(),
                alive@ == all.subrange(0, i as int),
                forall|x: Node|
                    #[trigger] table_degree(u_degree@, v_degree@, x) == live_degree_upto(
                        g@,
                        all,
                        x,
                        i as int,
                    ),
            decreases es@.len() - i,
        {
            let e = es[i];
            proof {
                lemma_live_degree_bounded(g@, all, e.0, i as int);
                lemma_live_degree_bounded(g@, all, e.1, i as int);
                assert(table_degree(u_degree@, v_degree@, e.0) <= i);
                assert(table_degree(u_degree@, v_degree@, e.1) <= i);
            }
            let ghost u0 = u_degree@;
            let ghost v0 = v_degree@;
            match e.0 {
                Node::U(a) => bump(&mut u_degree, a),
                Node::V(b) => {},
            }
            match e.1 {
                Node::V(b) => bump(&mut v_degree, b),
                Node::U(a) => {},
            }
            alive.push(true);
            proof {
                assert(e == g@[i as int]);
                assert forall|x: Node|
                    #[trigger] table_degree(u_degree@, v_degree@, x) == live_degree_upto(
                        g@,
                        all,
                        x,
                        i + 1,
                    ) by {
                    assert(table_degree(u0, v0, x) == live_degree_upto(g@, all, x, i as int));
                }
            }
            i += 1;
            proof {
                assert(alive@ =~= all.subrange(0, i as int));
            }
        }
        proof {
            assert(alive@ =~= all);
        }
        AdjacencyIndex { alive, u_degree, v_degree, edges: Ghost(g@) }
    }

    /// The number of live edges that touch `x`.
    pub fn degree(&self, x: Node) -> (r: usize)
        requires
            self.wf(),
        ensures
            r == live_degree(self.graph(), self.live(), x),
    {
        proof {
            assert(table_degree(self.u_degree@, self.v_degree@, x) == live_degree(
                self.edges@,
                self.alive@,
                x,
            ));
        }
        match x {
            Node::U(a) => match self.u_degree.get(&a) {
                Some(c) => *c,
                None => 0,
            },
            Node::V(b) => match self.v_degree.get(&b) {
                Some(c) => *c,
                None => 0,
            },
        }
    }

    /// The number of edges, live or not.
    pub fn live_len(&self) -> (r: usize)
        ensures
            r == self.live().len(),
    {
        self.alive.len()
    }

    /// Whether edge `e` is still live.
    pub fn is_live(&self, e: usize) -> (r: bool)
        requires
            e < self.live().len(),
        ensures
            r == self.live()[e as int],
    {
        self.alive[e]
    }

    /// One pass over the edges that takes out each live edge with an
    /// endpoint of live degree under two. Says whether it took any.
    fn trim_round(&mut self, g: &Graph) -> (removed: bool)
        requires
            old(self).wf(),
            old(self).graph() == g@,
        ensures
            final(self).wf(),
            final(self).graph() == old(self).graph(),
            forall|e: int|
                0 <= e < old(self).live().len() && #[trigger] final(self).live()[e] ==> old(
                    self,
                ).live()[e],
            forall|cs: Seq<usize>|
                is_cycle(g@, cs.len() as int, cs) && #[trigger] cycle_alive(old(self).live(), cs)
                    ==> cycle_alive(final(self).live(), cs),
            forall|e: int|
                0 <= e < old(self).live().len() && #[trigger] loose(g@, old(self).live(), e)
                    ==> !final(self).live()[e],
            forall|s: Seq<bool>|
                s.len() == g@.len() && #[trigger] settled(g@, s) && within(s, old(self).live())
                    ==> within(s, final(self).live()),
            removed ==> live_count(final(self).live()) < live_count(old(self).live()),
            !removed ==> final(self).live() == old(self).live() && settled(g@, final(self).live()),
    {
        let es = g.edges();
        let ghost start = self.alive@;
        let mut removed = false;
        let mut e: usize = 0;
        while e < es.len()
            invariant
                self.wf(),
                self.graph() == g@,
                es@ == g@,
                e <= es@.len(),
                start.len() == es@.len(),
                self.alive@.len() == start.len(),
                forall|f: int| 0 <= f < start.len() && #[trigger] self.alive@[f] ==> start[f],
                forall|cs: Seq<usize>|
                    is_cycle(g@, cs.len() as int, cs) && #[trigger] cycle_alive(start, cs)
                        ==> cycle_alive(self.alive@, cs),
                removed ==> live_count(self.alive@) < live_count(start),
                !removed ==> self.alive@ == start,
                !removed ==> forall|f: int|
                    0 <= f < e && #[trigger] start[f] ==> live_degree(g@, start, g@[f].0) >= 2
                        && live_degree(g@, start, g@[f].1) >= 2,
                forall|f: int| e <= f < start.len() ==> #[trigger] self.alive@[f] == start[f],
                forall|f: int| 0 <= f < e && #[trigger] loose(g@, start, f) ==> !self.alive@[f],
                forall|s: Seq<bool>|
                    s.len() == g@.len() && #[trigger] settled(g@, s) && within(s, start)
                        ==> within(s, self.alive@),
            decreases es@.len() - e,
        {
            proof {
                assert(within(self.alive@, start));
            }
            if self.is_live(e) {
                let edge = es[e];
                proof {
                    assert(edge == g@[e as int]);
                    lemma_live_degree_within(g@, self.alive@, start, edge.0, g@.len() as int);
                    lemma_live_degree_within(g@, self.alive@, start, edge.1, g@.len() as int);
                }
                if self.degree(edge.0) < 2 || self.degree(edge.1) < 2 {
                    let ghost before = self.alive@;
                    let ghost x = if live_degree(g@, before, edge.0) < 2 {
                        edge.0
                    } else {
                        edge.1
                    };
                    self.kill(e, edge);
                    proof {
                        lemma_kill_count(before, e as int, before.len() as int);
                        assert forall|cs: Seq<usize>|
                            is_cycle(g@, cs.len() as int, cs) && #[trigger] cycle_alive(
                                start,
                                cs,
                            ) implies cycle_alive(self.alive@, cs) by {
                            assert(cycle_alive(before, cs));
                            assert forall|k: int| 0 <= k < cs.len() implies #[trigger] self.alive@[cs[k] as int] by {
                                if cs[k] == e {
                                    lemma_cycle_keeps_degree(g@, before, cs, k, x);
                                }
                            }
                        }
                        assert forall|s: Seq<bool>|
                            s.len() == g@.len() && #[trigger] settled(g@, s) && within(s, start)
                                implies within(s, self.alive@) by {
                            assert(within(s, before));
                            if s[e as int] {
                                lemma_live_degree_within(g@, s, before, x, g@.len() as int);
                            }
                            assert forall|f: int| 0 <= f < s.len() && #[trigger] s[f] implies self.alive@[f] by {
                                assert(before[f]);
                            }
                        }
                    }
                    removed = true;
                }
            }
            proof {
                assert forall|f: int| 0 <= f < e + 1 && #[trigger] loose(g@, start, f) implies !self.alive@[f] by {
                    if f == e as int {
                        assert(start[f]);
                    }
                }
            }
            e += 1;
        }
        removed
    }

    /// Trims the index: runs up to `rounds` rounds that each take out every
    /// live edge with an endpoint of live degree under two, and stops early
    /// once a round takes out nothing (which includes an empty index). An
    /// edge of a cycle of the graph is never taken out, nor any edge of a
    /// set of live edges in which every endpoint keeps degree two. Each
    /// round that does not end the trimming takes out at least one edge, so
    /// more rounds than the graph has edges always reach the point where
    /// nothing is left to take.
    pub fn trim(&mut self, g: &Graph, rounds: usize)
        requires
            old(self).wf(),
            old(self).graph() == g@,
        ensures
            final(self).wf(),
            final(self).graph() == old(self).graph(),
            forall|e: int|
                0 <= e < old(self).live().len() && #[trigger] final(self).live()[e] ==> old(
                    self,
                ).live()[e],
            forall|cs: Seq<usize>|
                is_cycle(g@, cs.len() as int, cs) && #[trigger] cycle_alive(old(self).live(), cs)
                    ==> cycle_alive(final(self).live(), cs),
            rounds > 0 ==> forall|e: int|
                0 <= e < old(self).live().len() && #[trigger] loose(g@, old(self).live(), e)
                    ==> !final(self).live()[e],
            forall|s: Seq<bool>|
                s.len() == g@.len() && #[trigger] settled(g@, s) && within(s, old(self).live())
                    ==> within(s, final(self).live()),
            !settled(g@, final(self).live()) ==> live_count(final(self).live()) + rounds
                <= live_count(old(self).live()),
            rounds > g@.len() ==> settled(g@, final(self).live()),
    {
        let ghost start = self.alive@;
        let mut r: usize = 0;
        while r < rounds
            invariant
                self.wf(),
                self.graph() == g@,
                old(self).graph() == g@,
                start == old(self).live(),
                start.len() == g@.len(),
                self.alive@.len() == start.len(),
                r <= rounds,
                forall|f: int| 0 <= f < start.len() && #[trigger] self.alive@[f] ==> start[f],
                forall|cs: Seq<usize>|
                    is_cycle(g@, cs.len() as int, cs) && #[trigger] cycle_alive(start, cs)
                        ==> cycle_alive(self.alive@, cs),
                live_count(self.alive@) + r <= live_count(start),
                r == 0 ==> self.alive@ == start,
                r > 0 ==> forall|e: int|
                    0 <= e < start.len() && #[trigger] loose(g@, start, e) ==> !self.alive@[e],
                forall|s: Seq<bool>|
                    s.len() == g@.len() && #[trigger] settled(g@, s) && within(s, start)
                        ==> within(s, self.alive@),
            decreases rounds - r,
        {
            let ghost before = self.alive@;
            let removed = self.trim_round(g);
            proof {
                assert forall|s: Seq<bool>|
                    s.len() == g@.len() && #[trigger] settled(g@, s) && within(s, start)
                        implies within(s, self.alive@) by {
                    assert(within(s, before));
                }
                assert forall|e: int|
                    0 <= e < start.len() && #[trigger] loose(g@, start, e) implies !self.alive@[e] by {
                    if r == 0 {
                        assert(before == start);
                    } else {
                        assert(!before[e]);
                    }
                }
            }
            if !removed {
                return;
            }
            proof {
                assert forall|cs: Seq<usize>|
                    is_cycle(g@, cs.len() as int, cs) && #[trigger] cycle_alive(start, cs)
                        implies cycle_alive(self.alive@, cs) by {
                    assert(cycle_alive(before, cs));
                }
            }
            r += 1;
        }
        proof {
            lemma_live_count_bounded(start, start.len() as int);
        }
    }

    /// Takes live edge `e` out of the index.
    fn kill(&mut self, e: usize, edge: Edge)
        requires
            old(self).wf(),
            e < old(self).live().len(),
            old(self).live()[e as int],
            edge == old(self).graph()[e as int],
        ensures
            final(self).wf(),
            final(self).graph() == old(self).graph(),
            final(self).live() == old(self).live().update(e as int, false),
    {
        let ghost es = self.edges@;
        let ghost before = self.alive@;
        proof {
            lemma_kill_degree(es, before, edge.0, e as int, es.len() as int);
            lemma_kill_degree(es, before, edge.1, e as int, es.len() as int);
            assert(table_degree(self.u_degree@, self.v_degree@, edge.0) >= 1);
            assert(table_degree(self.u_degree@, self.v_degree@, edge.1) >= 1);
        }
        let ghost u0 = self.u_degree@;
        let ghost v0 = self.v_degree@;
        match edge.0 {
            Node::U(a) => drop_one(&mut self.u_degree, a),
            Node::V(b) => {},
        }
        match edge.1 {
            Node::V(b) => drop_one(&mut self.v_degree, b),
            Node::U(a) => {},
        }
        self.alive.set(e, false);
        proof {
            assert forall|x: Node|
                #[trigger] table_degree(self.u_degree@, self.v_degree@, x) == live_degree(
                    es,
                    self.alive@,
                    x,
                ) by {
                assert(table_degree(u0, v0, x) == live_degree(es, before, x));
                lemma_kill_degree(es, before, x, e as int, es.len() as int);
            }
        }
    }
}

} // verus!
