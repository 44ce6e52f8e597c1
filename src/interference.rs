//! The interference graph of virtual registers and its minimum coloring: the
//! number of storage cells a mix schedule needs.
use vstd::prelude::*;
use vstd::set_lib::{lemma_int_range, lemma_len_subset, lemma_map_size, set_int_range};
use petgraph::graph::{NodeIndex, UnGraph};

verus! {

#[verifier::external_type_specification]
#[verifier::external_body]
#[verifier::reject_recursive_types(N)]
#[verifier::reject_recursive_types(E)]
#[verifier::reject_recursive_types(Ty)]
#[verifier::reject_recursive_types(Ix)]
pub struct ExGraph<N, E, Ty, Ix>(petgraph::graph::Graph<N, E, Ty, Ix>);

#[verifier::external_type_specification]
#[verifier::external_body]
pub struct ExUndirected(petgraph::Undirected);

/// The node weights of an undirected graph, in order of node index.
pub uninterp spec fn ungraph_nodes(g: UnGraph<usize, ()>) -> Seq<usize>;

/// The edges of an undirected graph, as pairs of node indices, in order of
/// edge index.
pub uninterp spec fn ungraph_edges(g: UnGraph<usize, ()>) -> Seq<(usize, usize)>;

/// Relies on petgraph's `Graph::default` (`with_capacity(0, 0)`): no nodes, no edges.
#[verifier::external_body]
fn new_graph() -> (g: UnGraph<usize, ()>)
    ensures
        ungraph_nodes(g) == Seq::<usize>::empty(),
        ungraph_edges(g) == Seq::<(usize, usize)>::empty(),
{
    UnGraph::default()
}

/// Relies on petgraph's `Graph::add_node`: the new node takes the next index;
/// edges are untouched. It panics when the index reaches `u32::MAX`.
#[verifier::external_body]
fn graph_add_node(g: &mut UnGraph<usize, ()>, weight: usize) -> (r: usize)
    requires
        ungraph_nodes(*old(g)).len() < u32::MAX,
    ensures
        r == ungraph_nodes(*old(g)).len(),
        ungraph_nodes(*final(g)) == ungraph_nodes(*old(g)).push(weight),
        ungraph_edges(*final(g)) == ungraph_edges(*old(g)),
{
    g.add_node(weight).index()
}

/// Relies on petgraph's `Graph::add_edge`: the edge `(a, b)` is appended, even
/// when an equal one exists; nodes are untouched. It panics on an index out of
/// bounds and when the edge index reaches `u32::MAX`.
#[verifier::external_body]
fn graph_add_edge(g: &mut UnGraph<usize, ()>, a: usize, b: usize)
    requires
        a < ungraph_nodes(*old(g)).len(),
        b < ungraph_nodes(*old(g)).len(),
        ungraph_nodes(*old(g)).len() <= u32::MAX,
        ungraph_edges(*old(g)).len() < u32::MAX,
    ensures
        ungraph_edges(*final(g)) == ungraph_edges(*old(g)).push((a, b)),
        ungraph_nodes(*final(g)) == ungraph_nodes(*old(g)),
{
    g.add_edge(NodeIndex::new(a), NodeIndex::new(b), ());
}

/// Relies on petgraph's `Graph::contains_edge`, which on an undirected graph
/// looks for an edge between `a` and `b` in either direction.
#[verifier::external_body]
fn graph_contains_edge(g: &UnGraph<usize, ()>, a: usize, b: usize) -> (r: bool)
    requires
        a < ungraph_nodes(*g).len(),
        b < ungraph_nodes(*g).len(),
        ungraph_nodes(*g).len() <= u32::MAX,
    ensures
        r == adjacent(ungraph_edges(*g), a, b),
{
    g.contains_edge(NodeIndex::new(a), NodeIndex::new(b))
}

/// Relies on petgraph's `Graph::node_count`: the length of the node list.
#[verifier::external_body]
fn graph_node_count(g: &UnGraph<usize, ()>) -> (r: usize)
    ensures
        r == ungraph_nodes(*g).len(),
{
    g.node_count()
}

/// Relies on petgraph's `Graph::edge_count`: the length of the edge list.
#[verifier::external_body]
fn graph_edge_count(g: &UnGraph<usize, ()>) -> (r: usize)
    ensures
        r == ungraph_edges(*g).len(),
{
    g.edge_count()
}

/// Some edge joins `a` and `b`.
pub open spec fn adjacent(edges: Seq<(usize, usize)>, a: usize, b: usize) -> bool {
    exists|i: int| 0 <= i < edges.len() && (edges[i] == (a, b) || edges[i] == (b, a))
}

/// `colors` gives each of the `n` nodes one of `k` colors, and the two ends of
/// every edge different colors.
pub open spec fn proper_coloring(edges: Seq<(usize, usize)>, n: nat, colors: Seq<u64>, k: nat) -> bool {
    &&& colors.len() == n
    &&& forall|v: int| 0 <= v < n ==> colors[v] < k
    &&& forall|i: int|
        0 <= i < edges.len() ==> colors[(#[trigger] edges[i]).0 as int] != colors[edges[i].1 as int]
}

pub open spec fn colorable(edges: Seq<(usize, usize)>, n: nat, k: nat) -> bool {
    exists|colors: Seq<u64>| proper_coloring(edges, n, colors, k)
}

/// The coloring of the first nodes, `p`, uses colors below `k` and gives the
/// ends of every edge among them different colors.
pub open spec fn partial_coloring(edges: Seq<(usize, usize)>, p: Seq<u64>, k: nat) -> bool {
    &&& forall|v: int| 0 <= v < p.len() ==> p[v] < k
    &&& forall|i: int|
        0 <= i < edges.len() && (#[trigger] edges[i]).0 < p.len() && edges[i].1 < p.len()
            ==> p[edges[i].0 as int] != p[edges[i].1 as int]
}

/// The smallest number of colors, at least one, that colors the graph.
pub open spec fn is_min_color_count(edges: Seq<(usize, usize)>, n: nat, k: nat) -> bool {
    &&& k >= 1
    &&& colorable(edges, n, k)
    &&& forall|j: nat| 1 <= j < k ==> !colorable(edges, n, j)
}

/// A coloring with `k` colors is also one with more.
pub proof fn lemma_colorable_monotone(edges: Seq<(usize, usize)>, n: nat, k: nat, m: nat)
    requires
        colorable(edges, n, k),
        k <= m,
    ensures
        colorable(edges, n, m),
{
    let c = choose|c: Seq<u64>| proper_coloring(edges, n, c, k);
    assert(proper_coloring(edges, n, c, m));
}

/// `clique` lists distinct nodes (in increasing order), every two of them adjacent.
pub open spec fn is_clique(edges: Seq<(usize, usize)>, n: nat, clique: Seq<usize>) -> bool {
    &&& forall|a: int| 0 <= a < clique.len() ==> clique[a] < n
    &&& forall|a: int, b: int| 0 <= a < b < clique.len() ==> clique[a] < clique[b]
    &&& forall|a: int, b: int|
        0 <= a < b < clique.len() ==> adjacent(edges, #[trigger] clique[a], #[trigger] clique[b])
}

/// A clique needs as many colors as it has nodes.
pub proof fn lemma_clique_needs_colors(edges: Seq<(usize, usize)>, n: nat, clique: Seq<usize>, k: nat)
    requires
        is_clique(edges, n, clique),
        colorable(edges, n, k),
    ensures
        clique.len() <= k,
{
    let c = choose|c: Seq<u64>| proper_coloring(edges, n, c, k);
    let x = clique.to_set();
    let f = |v: usize| c[v as int] as int;
    assert(clique.no_duplicates()) by {
        assert forall|a: int, b: int| 0 <= a < clique.len() && 0 <= b < clique.len() && a != b
            implies clique[a] != clique[b] by {
            if a < b {
                assert(clique[a] < clique[b]);
            } else {
                assert(clique[b] < clique[a]);
            }
        }
    }
    clique.unique_seq_to_set();
    assert(vstd::relations::injective_on(f, x)) by {
        assert forall|u: usize, v: usize| x.contains(u) && x.contains(v) && #[trigger] f(u) == #[trigger] f(v)
            implies u == v by {
            if u != v {
                let a = choose|a: int| 0 <= a < clique.len() && clique[a] == u;
                let b = choose|b: int| 0 <= b < clique.len() && clique[b] == v;
                let (lo, hi) = if a < b { (a, b) } else { (b, a) };
                assert(adjacent(edges, clique[lo], clique[hi]));
                let e = choose|e: int|
                    0 <= e < edges.len() && (edges[e] == (clique[lo], clique[hi]) || edges[e] == (
                        clique[hi],
                        clique[lo],
                    ));
                assert(c[edges[e].0 as int] != c[edges[e].1 as int]);
            }
        }
    }
    let y = x.map(f);
    lemma_map_size(x, y, f);
    lemma_int_range(0, k as int);
    assert(y.subset_of(set_int_range(0, k as int))) by {
        assert forall|z: int| y.contains(z) implies set_int_range(0, k as int).contains(z) by {
            let v = choose|v: usize| x.contains(v) && f(v) == z;
            let a = choose|a: int| 0 <= a < clique.len() && clique[a] == v;
            assert(c[v as int] < k);
        }
    }
    lemma_len_subset(y, set_int_range(0, k as int));
}

/// A graph whose every edge joins two consecutive registers (the interference
/// of a chain of dependent mixes), with at least one edge, needs exactly two
/// storage cells.
pub proof fn lemma_path_needs_two(edges: Seq<(usize, usize)>, n: nat)
    requires
        edges.len() > 0,
        forall|i: int|
            0 <= i < edges.len() ==> (#[trigger] edges[i]).0 < n && edges[i].1 < n && (edges[i].1
                == edges[i].0 + 1 || edges[i].0 == edges[i].1 + 1),
    ensures
        is_min_color_count(edges, n, 2),
{
    let parity = Seq::new(n, |v: int| (v % 2) as u64);
    assert forall|i: int| 0 <= i < edges.len() implies parity[(#[trigger] edges[i]).0 as int]
        != parity[edges[i].1 as int] by {
        let (x, y) = (edges[i].0 as int, edges[i].1 as int);
        assert(x % 2 != y % 2);
    }
    assert(proper_coloring(edges, n, parity, 2));
    assert forall|j: nat| 1 <= j < 2 implies !colorable(edges, n, j) by {
        if colorable(edges, n, j) {
            let c = choose|c: Seq<u64>| proper_coloring(edges, n, c, j);
            assert(c[edges[0].0 as int] < 1 && c[edges[0].1 as int] < 1);
        }
    }
}

/// Graph over virtual registers: node `v` stands for register `v`, and an
/// edge joins two registers live at the same point.
pub struct InterferenceGraph {
    pub graph: UnGraph<usize, ()>,
}

impl InterferenceGraph {
    pub open spec fn nodes(&self) -> Seq<usize> {
        ungraph_nodes(self.graph)
    }

    pub open spec fn edges(&self) -> Seq<(usize, usize)> {
        ungraph_edges(self.graph)
    }

    /// Node `v` holds `v`; every edge joins two different nodes.
    pub open spec fn wf(&self) -> bool {
        &&& self.nodes().len() <= u32::MAX
        &&& forall|v: int| 0 <= v < self.nodes().len() ==> self.nodes()[v] == v
        &&& forall|i: int|
            0 <= i < self.edges().len() ==> (#[trigger] self.edges()[i]).0 < self.nodes().len()
                && self.edges()[i].1 < self.nodes().len() && self.edges()[i].0 != self.edges()[i].1
    }

    pub fn new(graph: UnGraph<usize, ()>) -> (r: Self)
        ensures
            r.graph == graph,
    {
        Self { graph }
    }

    pub fn node_count(&self) -> (r: usize)
        ensures
            r == self.nodes().len(),
    {
        graph_node_count(&self.graph)
    }

    pub fn edge_count(&self) -> (r: usize)
        ensures
            r == self.edges().len(),
    {
        graph_edge_count(&self.graph)
    }

    /// A coloring of the graph with `number_of_colors` colors, the color of
    /// node `v` at index `v`, or `None` when there is none.
    pub fn try_coloring(&self, number_of_colors: u64) -> (r: Option<Vec<u64>>)
        requires
            self.wf(),
        ensures
            r is Some ==> proper_coloring(
                self.edges(),
                self.nodes().len(),
                r->0@,
                number_of_colors as nat,
            ),
            r is None <==> !colorable(self.edges(), self.nodes().len(), number_of_colors as nat),
    {
        let mut colors: Vec<u64> = Vec::new();
        let n = graph_node_count(&self.graph);
        if self.extend_coloring(&mut colors, n, number_of_colors) {
            Some(colors)
        } else {
            assert forall|c: Seq<u64>|
                !proper_coloring(self.edges(), self.nodes().len(), c, number_of_colors as nat) by {
                if proper_coloring(self.edges(), self.nodes().len(), c, number_of_colors as nat) {
                    assert(c.subrange(0, 0) =~= Seq::<u64>::empty());
                }
            }
            None
        }
    }

    /// Tries every color for the next node that keeps the coloring proper,
    /// and completes the coloring from there.
    fn extend_coloring(&self, colors: &mut Vec<u64>, n: usize, k: u64) -> (r: bool)
        requires
            self.wf(),
            n == self.nodes().len(),
            old(colors)@.len() <= n,
            partial_coloring(self.edges(), old(colors)@, k as nat),
        ensures
            r ==> proper_coloring(self.edges(), n as nat, final(colors)@, k as nat),
            !r ==> final(colors)@ == old(colors)@,
            !r ==> forall|c: Seq<u64>|
                #[trigger] proper_coloring(self.edges(), n as nat, c, k as nat) ==> c.subrange(
                    0,
                    old(colors)@.len() as int,
                ) != old(colors)@,
        decreases n - old(colors)@.len(),
    {
        let m = colors.len();
        let ghost edges = self.edges();
        let ghost p = colors@;
        if m == n {
            assert forall|i: int| 0 <= i < edges.len() implies colors@[(#[trigger] edges[i]).0 as int]
                != colors@[edges[i].1 as int] by {
                assert(edges[i].0 < n && edges[i].1 < n);
            }
            return true;
        }
        let mut c: u64 = 0;
        while c < k
            invariant
                self.wf(),
                edges == self.edges(),
                n == self.nodes().len(),
                m == p.len(),
                m < n,
                colors@ == p,
                old(colors)@ == p,
                c <= k,
                partial_coloring(edges, p, k as nat),
                forall|col: Seq<u64>|
                    #[trigger] proper_coloring(edges, n as nat, col, k as nat) && col.subrange(0, m as int)
                        == p ==> col[m as int] >= c,
            decreases k - c,
        {
            let fits = self.color_fits(colors, m, c);
            if fits {
                colors.push(c);
                proof {
                    assert forall|i: int|
                        0 <= i < edges.len() && (#[trigger] edges[i]).0 < colors@.len() && edges[i].1
                            < colors@.len() implies colors@[edges[i].0 as int] != colors@[edges[i].1 as int] by {
                        if edges[i].0 == m {
                            assert(adjacent(edges, m, edges[i].1));
                        } else if edges[i].1 == m {
                            assert(adjacent(edges, m, edges[i].0));
                        }
                    }
                }
                if self.extend_coloring(colors, n, k) {
                    return true;
                }
                proof {
                    assert forall|col: Seq<u64>|
                        #[trigger] proper_coloring(edges, n as nat, col, k as nat) && col.subrange(
                            0,
                            m as int,
                        ) == p implies col[m as int] >= c + 1 by {
                        if col[m as int] == c {
                            assert(col.subrange(0, m + 1) =~= p.push(c));
                        }
                    }
                }
                colors.pop();
                assert(colors@ =~= p);
            } else {
                proof {
                    assert forall|col: Seq<u64>|
                        #[trigger] proper_coloring(edges, n as nat, col, k as nat) && col.subrange(
                            0,
                            m as int,
                        ) == p implies col[m as int] >= c + 1 by {
                        if col[m as int] == c {
                            let u = choose|u: int|
                                0 <= u < m && p[u] == c && adjacent(edges, m as usize, u as usize);
                            let i = choose|i: int|
                                0 <= i < edges.len() && (edges[i] == (m as usize, u as usize)
                                    || edges[i] == (u as usize, m as usize));
                            assert(col[u] == p[u]);
                        }
                    }
                }
            }
            c = c + 1;
        }
        false
    }

    /// Whether node `m` can take color `c` next to the colors of the nodes before it.
    fn color_fits(&self, colors: &Vec<u64>, m: usize, c: u64) -> (r: bool)
        requires
            self.wf(),
            m == colors@.len(),
            m < self.nodes().len(),
        ensures
            r <==> !exists|u: int|
                0 <= u < m && colors@[u] == c && adjacent(self.edges(), m, u as usize),
    {
        let mut u: usize = 0;
        while u < m
            invariant
                self.wf(),
                m == colors@.len(),
                m < self.nodes().len(),
                u <= m,
                forall|w: int|
                    0 <= w < u ==> !(colors@[w] == c && adjacent(self.edges(), m, w as usize)),
            decreases m - u,
        {
            if colors[u] == c && graph_contains_edge(&self.graph, m, u) {
                return false;
            }
            u = u + 1;
        }
        true
    }

    /// The chromatic number of the graph (at least one): the number of storage
    /// cells needed.
    pub fn find_min_color_count(&self) -> (r: u64)
        requires
            self.wf(),
        ensures
            is_min_color_count(self.edges(), self.nodes().len(), r as nat),
    {
        self.find_min_color_count_above(&Vec::new())
    }

    /// The chromatic number of the graph (at least one), knowing a clique of
    /// it: binary search between the size of the clique and one color per node.
    pub fn find_min_color_count_above(&self, clique: &Vec<usize>) -> (r: u64)
        requires
            self.wf(),
            is_clique(self.edges(), self.nodes().len(), clique@),
        ensures
            is_min_color_count(self.edges(), self.nodes().len(), r as nat),
    {
        let n = graph_node_count(&self.graph);
        let ghost edges = self.edges();
        let mut hi: u64 = if n == 0 { 1 } else { n as u64 };
        proof {
            let ident = Seq::new(n as nat, |v: int| v as u64);
            assert(proper_coloring(edges, n as nat, ident, hi as nat));
            lemma_clique_needs_colors(edges, n as nat, clique@, hi as nat);
        }
        let mut lo: u64 = if clique.len() == 0 { 1 } else { clique.len() as u64 };
        proof {
            if lo > 1 {
                if colorable(edges, n as nat, (lo - 1) as nat) {
                    lemma_clique_needs_colors(edges, n as nat, clique@, (lo - 1) as nat);
                }
            }
        }
        while lo < hi
            invariant
                edges == self.edges(),
                n == self.nodes().len(),
                self.wf(),
                1 <= lo <= hi,
                colorable(edges, n as nat, hi as nat),
                lo == 1 || !colorable(edges, n as nat, (lo - 1) as nat),
            decreases hi - lo,
        {
            let mid = lo + (hi - lo) / 2;
            if self.try_coloring(mid).is_some() {
                hi = mid;
            } else {
                lo = mid + 1;
            }
        }
        proof {
            assert forall|j: nat| 1 <= j < lo implies !colorable(edges, n as nat, j) by {
                if colorable(edges, n as nat, j) {
                    lemma_colorable_monotone(edges, n as nat, j, (lo - 1) as nat);
                }
            }
        }
        lo
    }
}

/// Builds the interference graph from the live sets of each operation.
pub struct InterferenceGraphBuilder<'a> {
    pub liveness_analysis: &'a [Vec<usize>],
}

/// Number of registers: one per operation, and any register a live set names.
pub open spec fn register_count(sets: Seq<Vec<usize>>) -> nat
    decreases sets.len(),
{
    if sets.len() == 0 {
        0
    } else {
        let rest = register_count(sets.drop_last());
        let here = max_plus_one(sets.last()@);
        let c = if rest >= sets.len() { rest } else { sets.len() };
        if here > c {
            here
        } else {
            c
        }
    }
}

/// One more than the largest element, or zero.
pub open spec fn max_plus_one(s: Seq<usize>) -> nat
    decreases s.len(),
{
    if s.len() == 0 {
        0
    } else {
        let rest = max_plus_one(s.drop_last());
        if s.last() + 1 > rest {
            (s.last() + 1) as nat
        } else {
            rest
        }
    }
}

/// Number of ordered pairs of the live sets of `sets`.
pub open spec fn pair_total(sets: Seq<Vec<usize>>) -> nat
    decreases sets.len(),
{
    if sets.len() == 0 {
        0
    } else {
        pair_total(sets.drop_last()) + sets.last()@.len() * sets.last()@.len()
    }
}

proof fn lemma_max_plus_one(s: Seq<usize>)
    ensures
        forall|i: int| 0 <= i < s.len() ==> s[i] < max_plus_one(s),
        s.len() == 0 ==> max_plus_one(s) == 0,
        s.len() > 0 ==> exists|i: int| 0 <= i < s.len() && max_plus_one(s) == s[i] + 1,
    decreases s.len(),
{
    if s.len() > 0 {
        lemma_max_plus_one(s.drop_last());
        assert forall|i: int| 0 <= i < s.len() implies s[i] < max_plus_one(s) by {
            if i < s.len() - 1 {
                assert(s[i] == s.drop_last()[i]);
            }
        }
        if max_plus_one(s) == s.last() + 1 {
            assert(max_plus_one(s) == s[s.len() - 1] + 1);
        } else {
            assert(s.drop_last().len() > 0);
            let i = choose|i: int|
                0 <= i < s.drop_last().len() && max_plus_one(s.drop_last()) == s.drop_last()[i] + 1;
            assert(s[i] == s.drop_last()[i]);
        }
    }
}

pub proof fn lemma_register_count(sets: Seq<Vec<usize>>)
    ensures
        register_count(sets) >= sets.len(),
        forall|t: int, i: int|
            0 <= t < sets.len() && 0 <= i < sets[t]@.len() ==> #[trigger] sets[t]@[i]
                < register_count(sets),
    decreases sets.len(),
{
    if sets.len() > 0 {
        lemma_register_count(sets.drop_last());
        lemma_max_plus_one(sets.last()@);
        assert forall|t: int, i: int|
            0 <= t < sets.len() && 0 <= i < sets[t]@.len() implies #[trigger] sets[t]@[i]
                < register_count(sets) by {
            if t < sets.len() - 1 {
                assert(sets[t] == sets.drop_last()[t]);
            }
        }
    }
}

impl<'a> InterferenceGraphBuilder<'a> {
    pub fn new(liveness_analysis: &'a [Vec<usize>]) -> (r: Self)
        ensures
            r.liveness_analysis@ == liveness_analysis@,
    {
        Self { liveness_analysis }
    }

    /// Number of registers: one per operation, and every register a live set
    /// names.
    pub fn number_of_variables_used(&self) -> (r: usize)
        requires
            forall|t: int, i: int|
                0 <= t < self.liveness_analysis@.len() && 0 <= i < self.liveness_analysis@[t]@.len()
                    ==> #[trigger] self.liveness_analysis@[t]@[i] < usize::MAX,
        ensures
            r == register_count(self.liveness_analysis@),
    {
        let sets = self.liveness_analysis;
        let mut count: usize = 0;
        let mut t: usize = 0;
        while t < sets.len()
            invariant
                sets@ == self.liveness_analysis@,
                t <= sets@.len(),
                count == register_count(sets@.subrange(0, t as int)),
                forall|t2: int, i: int|
                    0 <= t2 < sets@.len() && 0 <= i < sets@[t2]@.len() ==> #[trigger] sets@[t2]@[i]
                        < usize::MAX,
            decreases sets@.len() - t,
        {
            let set = &sets[t];
            let mut here: usize = 0;
            let mut i: usize = 0;
            while i < set.len()
                invariant
                    i <= set@.len(),
                    here == max_plus_one(set@.subrange(0, i as int)),
                    forall|j: int| 0 <= j < set@.len() ==> set@[j] < usize::MAX,
                decreases set@.len() - i,
            {
                proof {
                    assert(set@.subrange(0, i + 1).drop_last() =~= set@.subrange(0, i as int));
                }
                if set[i] + 1 > here {
                    here = set[i] + 1;
                }
                i = i + 1;
            }
            assert(set@.subrange(0, set@.len() as int) =~= set@);
            proof {
                assert(sets@.subrange(0, t + 1).drop_last() =~= sets@.subrange(0, t as int));
                assert(sets@.subrange(0, t + 1).last() == sets@[t as int]);
            }
            let len = t + 1;
            if count < len {
                count = len;
            }
            if here > count {
                count = here;
            }
            t = t + 1;
        }
        assert(sets@.subrange(0, sets@.len() as int) =~= sets@);
        count
    }

    /// The graph with one node per register and an edge between every two
    /// different registers of each live set.
    pub fn build(&self) -> (r: InterferenceGraph)
        requires
            register_count(self.liveness_analysis@) < u32::MAX,
            pair_total(self.liveness_analysis@) < u32::MAX,
        ensures
            r.wf(),
            r.nodes().len() == register_count(self.liveness_analysis@),
            forall|i: int|
                0 <= i < r.edges().len() ==> exists|t: int|
                    0 <= t < self.liveness_analysis@.len() && self.liveness_analysis@[t]@.contains(
                        (#[trigger] r.edges()[i]).0,
                    ) && self.liveness_analysis@[t]@.contains(r.edges()[i].1),
            forall|t: int, a: int, b: int|
                0 <= t < self.liveness_analysis@.len() && 0 <= a < self.liveness_analysis@[t]@.len()
                    && 0 <= b < self.liveness_analysis@[t]@.len()
                    && self.liveness_analysis@[t]@[a] != self.liveness_analysis@[t]@[b] ==> adjacent(
                    r.edges(),
                    #[trigger] self.liveness_analysis@[t]@[a],
                    #[trigger] self.liveness_analysis@[t]@[b],
                ),
    {
        let sets = self.liveness_analysis;
        proof {
            lemma_register_count(sets@);
        }
        let count = self.number_of_variables_used();
        let mut graph = new_graph();
        let mut v: usize = 0;
        while v < count
            invariant
                count < u32::MAX,
                v <= count,
                ungraph_nodes(graph).len() == v,
                forall|w: int| 0 <= w < v ==> ungraph_nodes(graph)[w] == w,
                ungraph_edges(graph).len() == 0,
            decreases count - v,
        {
            graph_add_node(&mut graph, v);
            v = v + 1;
        }
        let mut t: usize = 0;
        while t < sets.len()
            invariant
                sets@ == self.liveness_analysis@,
                count == register_count(sets@),
                count < u32::MAX,
                pair_total(sets@) < u32::MAX,
                t <= sets@.len(),
                forall|t2: int, i: int|
                    0 <= t2 < sets@.len() && 0 <= i < sets@[t2]@.len() ==> #[trigger] sets@[t2]@[i]
                        < count,
                ungraph_nodes(graph).len() == count,
                forall|w: int| 0 <= w < count ==> ungraph_nodes(graph)[w] == w,
                ungraph_edges(graph).len() <= pair_total(sets@.subrange(0, t as int)),
                forall|i: int|
                    0 <= i < ungraph_edges(graph).len() ==> (#[trigger] ungraph_edges(graph)[i]).0
                        < count && ungraph_edges(graph)[i].1 < count && ungraph_edges(graph)[i].0
                        != ungraph_edges(graph)[i].1 && exists|t2: int|
                        0 <= t2 < sets@.len() && sets@[t2]@.contains(ungraph_edges(graph)[i].0)
                            && sets@[t2]@.contains(ungraph_edges(graph)[i].1),
                forall|t2: int, a: int, b: int|
                    0 <= t2 < t && 0 <= a < sets@[t2]@.len() && 0 <= b < sets@[t2]@.len()
                        && sets@[t2]@[a] != sets@[t2]@[b] ==> adjacent(
                        ungraph_edges(graph),
                        #[trigger] sets@[t2]@[a],
                        #[trigger] sets@[t2]@[b],
                    ),
            decreases sets@.len() - t,
        {
            proof {
                lemma_pair_total_prefix(sets@, t as int);
            }
            let ghost before = ungraph_edges(graph);
            self.add_clique(&mut graph, t, count);
            proof {
                let after = ungraph_edges(graph);
                assert forall|t2: int, a: int, b: int|
                    0 <= t2 < t + 1 && 0 <= a < sets@[t2]@.len() && 0 <= b < sets@[t2]@.len()
                        && sets@[t2]@[a] != sets@[t2]@[b] implies adjacent(
                        after,
                        #[trigger] sets@[t2]@[a],
                        #[trigger] sets@[t2]@[b],
                    ) by {
                    if t2 < t {
                        assert(adjacent(before, sets@[t2]@[a], sets@[t2]@[b]));
                        let e = choose|e: int|
                            0 <= e < before.len() && (before[e] == (sets@[t2]@[a], sets@[t2]@[b])
                                || before[e] == (sets@[t2]@[b], sets@[t2]@[a]));
                        assert(after[e] == before[e]);
                        assert(0 <= e < after.len() && (after[e] == (sets@[t2]@[a], sets@[t2]@[b])
                            || after[e] == (sets@[t2]@[b], sets@[t2]@[a])));
                    } else {
                        assert(t2 == t);
                        assert(self.liveness_analysis@[t as int]@[a] == sets@[t2]@[a]);
                        assert(self.liveness_analysis@[t as int]@[b] == sets@[t2]@[b]);
                        assert(adjacent(
                            after,
                            self.liveness_analysis@[t as int]@[a],
                            self.liveness_analysis@[t as int]@[b],
                        ));
                    }
                }
                assert forall|i: int| 0 <= i < after.len() implies (#[trigger] after[i]).0 < count
                    && after[i].1 < count && after[i].0 != after[i].1 && exists|t2: int|
                    0 <= t2 < sets@.len() && sets@[t2]@.contains(after[i].0) && sets@[t2]@.contains(
                        after[i].1,
                    ) by {
                    if i < before.len() {
                        assert(after[i] == before[i]);
                    } else {
                        assert(sets@[t as int]@.contains(after[i].0));
                        assert(sets@[t as int]@.contains(after[i].1));
                        let x = choose|x: int| 0 <= x < sets@[t as int]@.len() && sets@[t as int]@[x] == after[i].0;
                        let y = choose|y: int| 0 <= y < sets@[t as int]@.len() && sets@[t as int]@[y] == after[i].1;
                        assert(sets@[t as int]@[x] < count);
                        assert(sets@[t as int]@[y] < count);
                    }
                }
            }
            t = t + 1;
        }
        assert(sets@.subrange(0, sets@.len() as int) =~= sets@);
        InterferenceGraph::new(graph)
    }

    /// Joins every two different registers of live set `t`.
    fn add_clique(&self, graph: &mut UnGraph<usize, ()>, t: usize, count: usize)
        requires
            t < self.liveness_analysis@.len(),
            count < u32::MAX,
            ungraph_nodes(*old(graph)).len() == count,
            forall|i: int|
                0 <= i < self.liveness_analysis@[t as int]@.len() ==> #[trigger] self.liveness_analysis@[t as int]@[i]
                    < count,
            ungraph_edges(*old(graph)).len() + self.liveness_analysis@[t as int]@.len()
                * self.liveness_analysis@[t as int]@.len() < u32::MAX,
        ensures
            ungraph_nodes(*final(graph)) == ungraph_nodes(*old(graph)),
            ungraph_edges(*final(graph)).len() >= ungraph_edges(*old(graph)).len(),
            ungraph_edges(*final(graph)).len() <= ungraph_edges(*old(graph)).len()
                + self.liveness_analysis@[t as int]@.len() * self.liveness_analysis@[t as int]@.len(),
            forall|i: int|
                ungraph_edges(*old(graph)).len() <= i < ungraph_edges(*final(graph)).len()
                    ==> self.liveness_analysis@[t as int]@.contains(
                    (#[trigger] ungraph_edges(*final(graph))[i]).0,
                ) && self.liveness_analysis@[t as int]@.contains(ungraph_edges(*final(graph))[i].1)
                    && ungraph_edges(*final(graph))[i].0 != ungraph_edges(*final(graph))[i].1,
            forall|i: int| 0 <= i < ungraph_edges(*old(graph)).len() ==> #[trigger] ungraph_edges(*final(graph))[i]
                    == ungraph_edges(*old(graph))[i],
            forall|a: int, b: int|
                0 <= a < self.liveness_analysis@[t as int]@.len() && 0 <= b
                    < self.liveness_analysis@[t as int]@.len() && self.liveness_analysis@[t as int]@[a]
                    != self.liveness_analysis@[t as int]@[b] ==> adjacent(
                    ungraph_edges(*final(graph)),
                    #[trigger] self.liveness_analysis@[t as int]@[a],
                    #[trigger] self.liveness_analysis@[t as int]@[b],
                ),
    {
        let set = &self.liveness_analysis[t];
        let len = set.len();
        let ghost start = ungraph_edges(*graph);
        let mut i: usize = 0;
        while i < len
            invariant
                len == set@.len(),
                set@ == self.liveness_analysis@[t as int]@,
                i <= len,
                count < u32::MAX,
                ungraph_nodes(*graph) == ungraph_nodes(*old(graph)),
                ungraph_nodes(*graph).len() == count,
                forall|w: int| 0 <= w < len ==> #[trigger] set@[w] < count,
                start == ungraph_edges(*old(graph)),
                ungraph_edges(*graph).len() >= start.len(),
                start.len() + len * len < u32::MAX,
                ungraph_edges(*graph).len() <= start.len() + i * len,
                forall|e: int|
                    start.len() <= e < ungraph_edges(*graph).len() ==> set@.contains(
                        (#[trigger] ungraph_edges(*graph)[e]).0,
                    ) && set@.contains(ungraph_edges(*graph)[e].1) && ungraph_edges(*graph)[e].0
                        != ungraph_edges(*graph)[e].1,
                forall|e: int| 0 <= e < start.len() ==> #[trigger] ungraph_edges(*graph)[e] == start[e],
                forall|a: int, b: int|
                    0 <= a < i && a < b < len && set@[a] != set@[b] ==> adjacent(
                        ungraph_edges(*graph),
                        #[trigger] set@[a],
                        #[trigger] set@[b],
                    ),
            decreases len - i,
        {
            let mut j: usize = i + 1;
            while j < len
                invariant
                    len == set@.len(),
                    set@ == self.liveness_analysis@[t as int]@,
                    i < len,
                    i + 1 <= j <= len,
                    count < u32::MAX,
                    ungraph_nodes(*graph) == ungraph_nodes(*old(graph)),
                    ungraph_nodes(*graph).len() == count,
                    forall|w: int| 0 <= w < len ==> #[trigger] set@[w] < count,
                    start == ungraph_edges(*old(graph)),
                    ungraph_edges(*graph).len() >= start.len(),
                    start.len() + len * len < u32::MAX,
                    ungraph_edges(*graph).len() <= start.len() + i * len + j,
                    forall|e: int|
                        start.len() <= e < ungraph_edges(*graph).len() ==> set@.contains(
                            (#[trigger] ungraph_edges(*graph)[e]).0,
                        ) && set@.contains(ungraph_edges(*graph)[e].1) && ungraph_edges(*graph)[e].0
                            != ungraph_edges(*graph)[e].1,
                    forall|e: int| 0 <= e < start.len() ==> #[trigger] ungraph_edges(*graph)[e] == start[e],
                    forall|a: int, b: int|
                        0 <= a < i && a < b < len && set@[a] != set@[b] ==> adjacent(
                            ungraph_edges(*graph),
                            #[trigger] set@[a],
                            #[trigger] set@[b],
                        ),
                    forall|b: int|
                        i < b < j && set@[i as int] != set@[b] ==> adjacent(
                            ungraph_edges(*graph),
                            set@[i as int],
                            #[trigger] set@[b],
                        ),
                decreases len - j,
            {
                if set[i] != set[j] {
                    proof {
                        assert(i * len + j < len * len) by (nonlinear_arith)
                            requires i < len, j < len;
                    }
                    let ghost before = ungraph_edges(*graph);
                    graph_add_edge(graph, set[i], set[j]);
                    proof {
                        let after = ungraph_edges(*graph);
                        assert forall|e: int| 0 <= e < before.len() implies after[e] == before[e] by {}
                        assert forall|e: int| 0 <= e < start.len() implies #[trigger] after[e] == start[e] by {
                            assert(after[e] == before[e]);
                        }
                        assert forall|e: int| start.len() <= e < after.len() implies set@.contains(
                            (#[trigger] after[e]).0,
                        ) && set@.contains(after[e].1) && after[e].0 != after[e].1 by {
                            if e < before.len() {
                                assert(after[e] == before[e]);
                            } else {
                                assert(set@.contains(set@[i as int]));
                                assert(set@.contains(set@[j as int]));
                            }
                        }
                        assert(after[before.len() as int] == (set@[i as int], set@[j as int]));
                        assert(adjacent(after, set@[i as int], set@[j as int]));
                        assert forall|a: int, b: int|
                            0 <= a < i && a < b < len && set@[a] != set@[b] implies adjacent(
                                after,
                                #[trigger] set@[a],
                                #[trigger] set@[b],
                            ) by {
                            assert(adjacent(before, set@[a], set@[b]));
                            let e = choose|e: int|
                                0 <= e < before.len() && (before[e] == (set@[a], set@[b])
                                    || before[e] == (set@[b], set@[a]));
                            assert(after[e] == before[e]);
                        }
                        assert forall|b: int|
                            i < b < j && set@[i as int] != set@[b] implies adjacent(
                                after,
                                set@[i as int],
                                #[trigger] set@[b],
                            ) by {
                            assert(adjacent(before, set@[i as int], set@[b]));
                            let e = choose|e: int|
                                0 <= e < before.len() && (before[e] == (set@[i as int], set@[b])
                                    || before[e] == (set@[b], set@[i as int]));
                            assert(after[e] == before[e]);
                        }
                        assert(set@.contains(set@[i as int]));
                        assert(set@.contains(set@[j as int]));
                    }
                }
                j = j + 1;
            }
            proof {
                assert((i + 1) * len == i * len + len) by (nonlinear_arith);
            }
            i = i + 1;
        }
        proof {
            assert forall|a: int, b: int|
                0 <= a < len && 0 <= b < len && set@[a] != set@[b] implies adjacent(
                    ungraph_edges(*graph),
                    #[trigger] set@[a],
                    #[trigger] set@[b],
                ) by {
                if b < a {
                    assert(adjacent(ungraph_edges(*graph), set@[b], set@[a]));
                    let e = choose|e: int|
                        0 <= e < ungraph_edges(*graph).len() && (ungraph_edges(*graph)[e] == (
                            set@[b],
                            set@[a],
                        ) || ungraph_edges(*graph)[e] == (set@[a], set@[b]));
                    assert(ungraph_edges(*graph)[e] == (set@[b], set@[a]) || ungraph_edges(*graph)[e]
                        == (set@[a], set@[b]));
                }
            }
        }
    }
}

proof fn lemma_pair_total_prefix(sets: Seq<Vec<usize>>, t: int)
    requires
        0 <= t < sets.len(),
    ensures
        pair_total(sets.subrange(0, t + 1)) == pair_total(sets.subrange(0, t)) + sets[t]@.len()
            * sets[t]@.len(),
        pair_total(sets.subrange(0, t + 1)) <= pair_total(sets),
    decreases sets.len() - t,
{
    assert(sets.subrange(0, t + 1).drop_last() =~= sets.subrange(0, t));
    if t + 1 < sets.len() {
        lemma_pair_total_prefix(sets, t + 1);
    } else {
        assert(sets.subrange(0, t + 1) =~= sets);
    }
}

} // verus!
