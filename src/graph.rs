//! The bipartite multigraph of a puzzle instance, and the verifier of
//! claimed cycles on it.
use vstd::prelude::*;
use crate::cycle::{
    all_degrees_two, connected, degree, degree_upto, is_cycle, is_walk, lemma_closed_walk_misses,
    lemma_only_one_touch, lemma_walk_covers_connected, lemma_walk_step, links, selected,
    simple_walk,
};
use crate::adjacency::{cycle_alive, AdjacencyIndex};
use crate::search::{search, strictly_increasing};
use crate::sip::{siphash24, SipHash};

verus! {

/// How many trimming rounds `solve` runs before it searches.
pub const TRIM_ROUNDS: usize = 100;

/// A node of the graph: an index in the partition `U` or in the partition `V`.
#[derive(Debug, Hash, PartialEq, Eq, Structural, PartialOrd, Ord, Clone, Copy)]
pub enum Node {
    U(u64),
    V(u64),
}

/// An edge: its `U` endpoint, then its `V` endpoint.
pub type Edge = (Node, Node);

/// Whether `x` is an endpoint of `e`.
pub open spec fn touches(e: Edge, x: Node) -> bool {
    e.0 == x || e.1 == x
}

/// Every edge joins a `U` node to a `V` node, in that order.
pub open spec fn is_bipartite(es: Seq<Edge>) -> bool {
    forall|i: int| 0 <= i < es.len() ==> (#[trigger] es[i]).0 is U && es[i].1 is V
}

/// The index that a node carries within its partition.
pub open spec fn node_index(x: Node) -> u64 {
    match x {
        Node::U(a) => a,
        Node::V(b) => b,
    }
}

/// Edge `i` of the graph built from `key` with `n` edges:
/// `(U(hash(2i) mod n), V(hash(2i + 1) mod n))`.
pub open spec fn derived_edge(key: [u64; 4], n: u64, i: int) -> Edge {
    (
        Node::U((siphash24(key, (2 * i) as u64) % n) as u64),
        Node::V((siphash24(key, (2 * i + 1) as u64) % n) as u64),
    )
}

/// The edge list of the graph built from `key` with `n` edges.
pub open spec fn derived_edges(key: [u64; 4], n: u64) -> Seq<Edge> {
    Seq::new(n as nat, |i: int| derived_edge(key, n, i))
}

/// The edge list whose edge `i` joins `U(pairs[i].0)` and `V(pairs[i].1)`.
pub open spec fn lifted_edges(pairs: Seq<(u64, u64)>) -> Seq<Edge> {
    Seq::new(pairs.len(), |i: int| (Node::U(pairs[i].0), Node::V(pairs[i].1)))
}

/// A pair of nodes as an edge: `U` first. A pair within one partition is
/// no edge.
pub open spec fn oriented(e: Edge) -> Option<Edge> {
    match e {
        (Node::U(_), Node::V(_)) => Some(e),
        (Node::V(v), Node::U(u)) => Some((Node::U(u), Node::V(v))),
        _ => None,
    }
}

/// The edges among the first `i` pairs, each with its `U` end first, in
/// order; pairs within one partition are left out.
pub open spec fn oriented_upto(pairs: Seq<Edge>, i: int) -> Seq<Edge>
    decreases i,
{
    if i <= 0 {
        Seq::empty()
    } else {
        match oriented(pairs[i - 1]) {
            Some(e) => oriented_upto(pairs, i - 1).push(e),
            None => oriented_upto(pairs, i - 1),
        }
    }
}

/// A bipartite multigraph, given as its edges in a fixed order.
/// An edge is named by its position in that order.
pub struct Graph {
    edges: Vec<Edge>,
}

impl View for Graph {
    type V = Seq<Edge>;

    closed spec fn view(&self) -> Seq<Edge> {
        self.edges@
    }
}

impl Graph {
    /// Every edge joins a `U` node to a `V` node, in that order.
    #[verifier::type_invariant]
    spec fn bipartite(self) -> bool {
        is_bipartite(self.edges@)
    }

    /// The edges, in order.
    pub fn edges(&self) -> (r: &Vec<Edge>)
        ensures
            r@ == self@,
            is_bipartite(self@),
    {
        proof {
            use_type_invariant(self);
        }
        &self.edges
    }

    /// The graph of `n` edges derived from `key`; with `n == 0` it is the
    /// empty graph, which holds no cycle. `n` is at most `2^63`, so that the
    /// hashed words `2i` and `2i + 1` fit in 64 bits.
    pub fn new(key: [u64; 4], n: u64) -> (g: Self)
        requires
            n <= 0x8000_0000_0000_0000,
        ensures
            g@ == derived_edges(key, n),
            forall|i: int|
                0 <= i < n ==> node_index(#[trigger] g@[i].0) < n && node_index(g@[i].1) < n,
    {
        let mut edges: Vec<Edge> = Vec::new();
        let hasher = SipHash::new(key);
        let mut i: u64 = 0;
        while i < n
            invariant
                i <= n,
                n <= 0x8000_0000_0000_0000,
                hasher@ == key,
                edges@.len() == i,
                forall|j: int| 0 <= j < i ==> #[trigger] edges@[j] == derived_edge(key, n, j),
            decreases n - i,
        {
            let u: u64 = hasher.hash(2 * i) % n;
            let v: u64 = hasher.hash(2 * i + 1) % n;
            edges.push((Node::U(u), Node::V(v)));
            i += 1;
        }
        let g = Graph { edges };
        assert(g@ =~= derived_edges(key, n));
        g
    }

    /// The graph whose edge `i` joins `U(pairs[i].0)` and `V(pairs[i].1)`.
    pub fn from_pairs(pairs: Vec<(u64, u64)>) -> (g: Self)
        ensures
            g@ == lifted_edges(pairs@),
    {
        let mut edges: Vec<Edge> = Vec::new();
        let mut i: usize = 0;
        while i < pairs.len()
            invariant
                i <= pairs@.len(),
                edges@.len() == i,
                forall|j: int| 0 <= j < i ==> #[trigger] edges@[j] == (
                    Node::U(pairs@[j].0),
                    Node::V(pairs@[j].1),
                ),
            decreases pairs@.len() - i,
        {
            edges.push((Node::U(pairs[i].0), Node::V(pairs[i].1)));
            i += 1;
        }
        let g = Graph { edges };
        assert(g@ =~= lifted_edges(pairs@));
        g
    }

    /// The graph of the edges among `pairs`, each turned so that its `U`
    /// end comes first; a pair of two `U` or two `V` nodes is left out.
    pub fn from_node_pairs(pairs: Vec<Edge>) -> (g: Self)
        ensures
            g@ == oriented_upto(pairs@, pairs@.len() as int),
    {
        let mut edges: Vec<Edge> = Vec::new();
        let mut i: usize = 0;
        while i < pairs.len()
            invariant
                i <= pairs@.len(),
                edges@ == oriented_upto(pairs@, i as int),
                is_bipartite(edges@),
            decreases pairs@.len() - i,
        {
            match pairs[i] {
                (Node::U(u), Node::V(v)) => edges.push((Node::U(u), Node::V(v))),
                (Node::V(v), Node::U(u)) => edges.push((Node::U(u), Node::V(v))),
                _ => {},
            }
            i += 1;
        }
        Graph { edges }
    }

    /// The number of nodes: two for each edge.
    pub fn node_count(&self) -> (r: usize)
        requires
            2 * self@.len() <= usize::MAX,
        ensures
            r == 2 * self@.len(),
    {
        self.edges.len() * 2
    }

    /// The number of edges.
    pub fn edge_count(&self) -> (r: usize)
        ensures
            r == self@.len(),
    {
        self.edges.len()
    }

    /// Looks for a cycle of `cycle_len` edges: builds the adjacency index,
    /// trims it, and searches it. A cycle that it returns is verified and
    /// given as sorted edge positions; `None` means that the graph has no
    /// cycle of that length.
    pub fn solve(&self, cycle_len: usize) -> (r: Option<Vec<usize>>)
        ensures
            r matches Some(c) ==> is_cycle(self@, cycle_len as int, c@) && strictly_increasing(
                c@,
            ),
            r is None ==> forall|cs: Seq<usize>| !is_cycle(self@, cycle_len as int, cs),
    {
        let mut index = AdjacencyIndex::from_graph(self);
        let ghost all = index.live();
        index.trim(self, TRIM_ROUNDS);
        let r = search(self, &index, cycle_len);
        proof {
            if r is None {
                assert forall|cs: Seq<usize>| !is_cycle(self@, cycle_len as int, cs) by {
                    if is_cycle(self@, cycle_len as int, cs) {
                        assert(cycle_alive(all, cs));
                    }
                }
            }
        }
        r
    }

    /// Whether `edges` names the positions of the edges of one simple cycle
    /// of `cycle_len` edges of this graph, in any order. Checks, in turn: the
    /// length, that no position repeats, that every position is an edge,
    /// that every touched node has degree two, and that a walk along the
    /// edges comes back to its start having used them all. An empty list is
    /// never a cycle.
    pub fn verify(&self, cycle_len: usize, edges: &[usize]) -> (r: bool)
        ensures
            r == is_cycle(self@, cycle_len as int, edges@),
    {
        if edges.len() != cycle_len || cycle_len == 0 {
            return false;
        }
        if !all_distinct(edges) {
            return false;
        }
        let mut k: usize = 0;
        while k < edges.len()
            invariant
                k <= edges@.len(),
                forall|j: int| 0 <= j < k ==> edges@[j] < self@.len(),
            decreases edges@.len() - k,
        {
            if edges[k] >= self.edges.len() {
                return false;
            }
            k += 1;
        }
        if !self.degrees_are_two(edges) {
            return false;
        }
        self.traverses_all(edges)
    }

    /// The degree of `x` in the subgraph that `cs` selects.
    fn count_touching(&self, cs: &[usize], x: Node) -> (r: usize)
        requires
            forall|k: int| 0 <= k < cs@.len() ==> cs@[k] < self@.len(),
        ensures
            r == degree(self@, cs@, x),
    {
        let mut count: usize = 0;
        let mut i: usize = 0;
        while i < cs.len()
            invariant
                i <= cs@.len(),
                forall|k: int| 0 <= k < cs@.len() ==> cs@[k] < self@.len(),
                count == degree_upto(self@, cs@, x, i as int),
                count <= i,
            decreases cs@.len() - i,
        {
            let e = self.edges[cs[i]];
            if e.0 == x || e.1 == x {
                count += 1;
            }
            i += 1;
        }
        count
    }

    /// Whether every endpoint of a selected edge has degree two.
    fn degrees_are_two(&self, cs: &[usize]) -> (r: bool)
        requires
            forall|k: int| 0 <= k < cs@.len() ==> cs@[k] < self@.len(),
        ensures
            r == all_degrees_two(self@, cs@),
    {
        let mut k: usize = 0;
        while k < cs.len()
            invariant
                k <= cs@.len(),
                forall|j: int| 0 <= j < cs@.len() ==> cs@[j] < self@.len(),
                forall|j: int|
                    0 <= j < k ==> degree(self@, cs@, (#[trigger] selected(self@, cs@, j)).0) == 2
                        && degree(self@, cs@, selected(self@, cs@, j).1) == 2,
            decreases cs@.len() - k,
        {
            let e = self.edges[cs[k]];
            if self.count_touching(cs, e.0) != 2 || self.count_touching(cs, e.1) != 2 {
                assert(selected(self@, cs@, k as int) == e);
                return false;
            }
            k += 1;
        }
        true
    }

    /// The entry other than `k` whose edge touches `x`.
    fn other_edge(&self, cs: &[usize], k: usize, x: Node) -> (j: usize)
        requires
            forall|i: int| 0 <= i < cs@.len() ==> cs@[i] < self@.len(),
            k < cs@.len(),
            touches(selected(self@, cs@, k as int), x),
            degree(self@, cs@, x) == 2,
        ensures
            j < cs@.len(),
            j != k,
            touches(selected(self@, cs@, j as int), x),
    {
        let mut j: usize = 0;
        while j < cs.len()
            invariant
                j <= cs@.len(),
                forall|i: int| 0 <= i < cs@.len() ==> cs@[i] < self@.len(),
                forall|i: int|
                    0 <= i < j && i != k ==> !touches(#[trigger] selected(self@, cs@, i), x),
            decreases cs@.len() - j,
        {
            let e = self.edges[cs[j]];
            if j != k && (e.0 == x || e.1 == x) {
                return j;
            }
            j += 1;
        }
        proof {
            lemma_only_one_touch(self@, cs@, x, k as int, cs@.len() as int);
        }
        0
    }

    /// Whether the selected edges, whose endpoints all have degree two, form
    /// one cycle: a walk from the first edge that takes at each node the
    /// other edge there comes back to its start having used every edge.
    fn traverses_all(&self, cs: &[usize]) -> (r: bool)
        requires
            cs@.len() > 0,
            forall|k: int| 0 <= k < cs@.len() ==> cs@[k] < self@.len(),
            all_degrees_two(self@, cs@),
        ensures
            r == connected(self@, cs@),
    {
        proof {
            use_type_invariant(self);
        }
        let ghost es = self@;
        assert(is_bipartite(es));
        let len = cs.len();
        let first = self.edges[cs[0]];
        let start = first.0;
        let mut cur = first.1;
        let mut last: usize = 0;
        let mut visited: Vec<bool> = Vec::new();
        let mut i: usize = 0;
        while i < len
            invariant
                i <= len,
                len == cs@.len(),
                visited@.len() == i,
                forall|k: int| 0 <= k < i ==> visited@[k] == (k == 0),
            decreases len - i,
        {
            visited.push(i == 0);
            i += 1;
        }
        let ghost mut ws: Seq<int> = seq![0int];
        let ghost mut ns: Seq<Node> = seq![start, cur];
        assert(selected(es, cs@, ws[0]) == first);
        while cur != start
            invariant
                len == cs@.len(),
                len > 0,
                es == self@,
                forall|k: int| 0 <= k < len ==> cs@[k] < es.len(),
                is_bipartite(es),
                all_degrees_two(es, cs@),
                simple_walk(es, cs@, ws, ns),
                ns[0] == start,
                ns[ws.len() as int] == cur,
                ws.last() == last as int,
                visited@.len() == len,
                forall|k: int| 0 <= k < len ==> (visited@[k] <==> ws.contains(k)),
            decreases len - ws.len(),
        {
            proof {
                let s = ws.len() - 1;
                assert(links(selected(es, cs@, ws[s]), ns[s], ns[s + 1]));
                assert(degree(es, cs@, selected(es, cs@, ws[s]).0) == 2);
                assert(degree(es, cs@, cur) == 2);
            }
            let j = self.other_edge(cs, last, cur);
            let e = self.edges[cs[j]];
            let next = if e.0 == cur {
                e.1
            } else {
                e.0
            };
            proof {
                assert(e == selected(es, cs@, j as int));
                lemma_walk_step(es, cs@, ws, ns, j as int, next);
            }
            visited.set(j, true);
            proof {
                let old_ws = ws;
                ws = ws.push(j as int);
                ns = ns.push(next);
                assert forall|k: int| 0 <= k < len implies (visited@[k] <==> ws.contains(k)) by {
                    if k == j as int {
                        assert(ws[ws.len() - 1] == k);
                    } else if old_ws.contains(k) {
                        let i = choose|i: int| 0 <= i < old_ws.len() && old_ws[i] == k;
                        assert(ws[i] == k);
                    } else if ws.contains(k) {
                        let i = choose|i: int| 0 <= i < ws.len() && ws[i] == k;
                        assert(old_ws[i] == k);
                    }
                }
            }
            last = j;
            cur = next;
        }
        proof {
            let s = ws.len() as int;
            assert(links(selected(es, cs@, ws[0]), ns[0], ns[1]));
            assert(s >= 2) by {
                if s < 2 {
                    assert(selected(es, cs@, ws[0]) == first);
                }
            }
        }
        let mut k: usize = 0;
        while k < len
            invariant
                len == cs@.len(),
                es == self@,
                all_degrees_two(es, cs@),
                is_walk(es, cs@, ws, ns),
                ws.no_duplicates(),
                ws.len() >= 2,
                ns[0] == ns[ws.len() as int],
                forall|i: int| 0 <= i < len ==> (visited@[i] <==> ws.contains(i)),
                visited@.len() == len,
                k <= len,
                forall|i: int| 0 <= i < k ==> visited@[i],
            decreases len - k,
        {
            if !visited[k] {
                proof {
                    lemma_closed_walk_misses(es, cs@, ws, ns, k as int);
                }
                return false;
            }
            k += 1;
        }
        proof {
            assert forall|i: int| 0 <= i < len implies ws.contains(i) by {
                assert(visited@[i]);
            }
            lemma_walk_covers_connected(es, cs@, ws, ns);
        }
        true
    }

    /// The edge at position `index`, if there is one.
    pub fn edge_at(&self, index: usize) -> (r: Option<Edge>)
        ensures
            index < self@.len() ==> r == Some(self@[index as int]),
            index >= self@.len() ==> r is None,
    {
        if index >= self.edges.len() {
            return None;
        }
        Some(self.edges[index])
    }
}

/// The graph is a function of the key and the edge count alone: two graphs
/// built from one key with one edge count (at most `2^63`, as `Graph::new`
/// takes it) have the same edges, position by position.
pub proof fn lemma_build_deterministic(key: [u64; 4], n: u64, g1: Graph, g2: Graph)
    requires
        n <= 0x8000_0000_0000_0000,
        g1@ == derived_edges(key, n),
        g2@ == derived_edges(key, n),
    ensures
        g1@ == g2@,
        forall|i: int| 0 <= i < n ==> g1@[i] == g2@[i],
{
}

/// Whether no value occurs twice in `cs`.
fn all_distinct(cs: &[usize]) -> (r: bool)
    ensures
        r == cs@.no_duplicates(),
{
    let mut i: usize = 0;
    while i < cs.len()
        invariant
            i <= cs@.len(),
            forall|a: int, b: int| 0 <= a < b < i ==> cs@[a] != cs@[b],
        decreases cs@.len() - i,
    {
        let mut j: usize = 0;
        while j < i
            invariant
                j <= i < cs@.len(),
                forall|a: int, b: int| 0 <= a < b < i ==> cs@[a] != cs@[b],
                forall|a: int| 0 <= a < j ==> cs@[a] != cs@[i as int],
            decreases i - j,
        {
            if cs[j] == cs[i] {
                return false;
            }
            j += 1;
        }
        i += 1;
    }
    true
}

impl From<Vec<(u64, u64)>> for Graph {
    /// The same graph as `Graph::from_pairs`.
    fn from(pairs: Vec<(u64, u64)>) -> (g: Self)
        ensures
            g@ == lifted_edges(pairs@),
    {
        Graph::from_pairs(pairs)
    }
}

impl From<Vec<Edge>> for Graph {
    /// The same graph as `Graph::from_node_pairs`.
    fn from(pairs: Vec<Edge>) -> (g: Self)
        ensures
            g@ == oriented_upto(pairs@, pairs@.len() as int),
    {
        Graph::from_node_pairs(pairs)
    }
}

/// The edges of what `from` returns are stated on `from` itself; no
/// claim is made here on the value as a whole.
impl vstd::std_specs::convert::FromSpecImpl<Vec<Edge>> for Graph {
    open spec fn obeys_from_spec() -> bool {
        false
    }

    open spec fn from_spec(v: Vec<Edge>) -> Self {
        arbitrary()
    }
}

/// The edges of what `from` returns are stated on `from` itself; no
/// claim is made here on the value as a whole.
impl vstd::std_specs::convert::FromSpecImpl<Vec<(u64, u64)>> for Graph {
    open spec fn obeys_from_spec() -> bool {
        false
    }

    open spec fn from_spec(v: Vec<(u64, u64)>) -> Self {
        arbitrary()
    }
}

} // verus!
