use std::collections::HashMap;
use vstd::prelude::*;
use vstd::relations::{sorted_by, total_ordering};
use vstd::seq_lib::{lemma_multiset_commutative, lemma_sorted_unique};

verus! {

broadcast use vstd::std_specs::hash::group_hash_axioms, vstd::seq_lib::group_to_multiset_ensures;

/// A directed arc `(u, v)` from node `u` to node `v`.
pub type Edge = (usize, usize);

pub type ListOfEdges = Vec<Edge>;

/// The ascending order on node ids that adjacency sequences are sorted by.
pub open spec fn id_leq() -> spec_fn(usize, usize) -> bool {
    |a: usize, b: usize| a <= b
}

/// Each id is at most the next one.
pub open spec fn is_ascending(s: Seq<usize>) -> bool {
    forall|i: int, j: int| 0 <= i < j < s.len() ==> s[i] <= s[j]
}

/// The heads of the arcs in `edges` whose tail is `u`, in input order.
pub open spec fn targets(edges: Seq<Edge>, u: int) -> Seq<usize>
    decreases edges.len(),
{
    if edges.len() == 0 {
        Seq::empty()
    } else {
        let rest = targets(edges.drop_last(), u);
        if edges.last().0 == u {
            rest.push(edges.last().1)
        } else {
            rest
        }
    }
}

/// Every arc in `edges` has both endpoints in `[0, n)`.
pub open spec fn edges_within(edges: Seq<Edge>, n: nat) -> bool {
    forall|i: int| 0 <= i < edges.len() ==> (#[trigger] edges[i]).0 < n && edges[i].1 < n
}

/// Every arc of `edges` turned around.
pub open spec fn reversed(edges: Seq<Edge>) -> Seq<Edge> {
    edges.map_values(|e: Edge| (e.1, e.0))
}

/// The adjacency sequences of the directed graph on `n` nodes with arcs
/// `edges`: node `u` lists the heads of its arcs in ascending order,
/// duplicates kept.
pub open spec fn directed_adjacency(n: nat, edges: Seq<Edge>) -> Seq<Seq<usize>> {
    Seq::new(n, |u: int| targets(edges, u).sort_by(id_leq()))
}

/// The adjacency sequences of the undirected graph: the directed one over
/// `edges` together with every arc reversed.
pub open spec fn undirected_adjacency(n: nat, edges: Seq<Edge>) -> Seq<Seq<usize>> {
    directed_adjacency(n, edges + reversed(edges))
}

/// Node id to out-degree, for every node of the adjacency sequences `adj`.
pub open spec fn degree_map(adj: Seq<Seq<usize>>) -> Map<usize, usize> {
    Map::new(|i: usize| (i as int) < adj.len(), |i: usize| adj[i as int].len() as usize)
}

/// A graph on the nodes `0..n`, each with its sequence of successors.
#[derive(Debug)]
pub struct Graph {
    pub n: usize,
    pub outedges: Vec<Vec<usize>>,
}

impl View for Graph {
    type V = Seq<Seq<usize>>;

    open spec fn view(&self) -> Seq<Seq<usize>> {
        self.outedges@.map_values(|l: Vec<usize>| l@)
    }
}

/// Ascending order on ids is a total order.
pub proof fn lemma_id_leq_total()
    ensures
        total_ordering(id_leq()),
{
}

/// A sequence that is ascending and holds the same ids as `s` is the sorted `s`.
pub proof fn lemma_ascending_is_sorted(s: Seq<usize>, t: Seq<usize>)
    requires
        is_ascending(t),
        t.to_multiset() == s.to_multiset(),
    ensures
        t == s.sort_by(id_leq()),
{
    lemma_id_leq_total();
    s.lemma_sort_by_ensures(id_leq());
    assert(sorted_by(t, id_leq())) by {
        assert forall|i: int, j: int| 0 <= i < j < t.len() implies #[trigger] (id_leq())(
            t[i],
            t[j],
        ) by {}
    }
    lemma_sorted_unique(t, s.sort_by(id_leq()), id_leq());
}

/// Sorting depends only on the multiset of ids.
pub proof fn lemma_sort_by_multiset(s: Seq<usize>, t: Seq<usize>)
    requires
        s.to_multiset() == t.to_multiset(),
    ensures
        s.sort_by(id_leq()) == t.sort_by(id_leq()),
{
    lemma_id_leq_total();
    s.lemma_sort_by_ensures(id_leq());
    t.lemma_sort_by_ensures(id_leq());
    lemma_sorted_unique(s.sort_by(id_leq()), t.sort_by(id_leq()), id_leq());
}

/// Each occurrence of `v` among the targets of `u` is one arc `(u, v)`.
pub proof fn lemma_targets_count(edges: Seq<Edge>, u: usize, v: usize)
    ensures
        targets(edges, u as int).to_multiset().count(v) == edges.to_multiset().count((u, v)),
    decreases edges.len(),
{
    if edges.len() > 0 {
        lemma_targets_count(edges.drop_last(), u, v);
        assert(edges == edges.drop_last().push(edges.last()));
    }
}

/// The targets over two concatenated arc sequences are those of the first,
/// then those of the second.
pub proof fn lemma_targets_concat(a: Seq<Edge>, b: Seq<Edge>, u: int)
    ensures
        targets(a + b, u) == targets(a, u) + targets(b, u),
    decreases b.len(),
{
    if b.len() == 0 {
        assert(a + b == a);
        assert(targets(a, u) + targets(b, u) == targets(a, u));
    } else {
        lemma_targets_concat(a, b.drop_last(), u);
        assert((a + b).drop_last() == a + b.drop_last());
    }
}

/// Turning every arc around swaps the two endpoints in each count.
pub proof fn lemma_reversed_count(edges: Seq<Edge>, u: usize, v: usize)
    ensures
        reversed(edges).to_multiset().count((u, v)) == edges.to_multiset().count((v, u)),
    decreases edges.len(),
{
    if edges.len() > 0 {
        let init = edges.drop_last();
        lemma_reversed_count(init, u, v);
        assert(edges == init.push(edges.last()));
        assert(reversed(edges) == reversed(init).push((edges.last().1, edges.last().0)));
    }
}

/// `v` is listed for `u` exactly when some arc goes from `u` to `v`.
pub proof fn lemma_adjacent_iff_arc(n: nat, edges: Seq<Edge>, u: usize, v: usize)
    requires
        (u as int) < n,
    ensures
        directed_adjacency(n, edges)[u as int].contains(v) <==> edges.to_multiset().count((u, v))
            > 0,
{
    let t = targets(edges, u as int);
    lemma_id_leq_total();
    t.lemma_sort_by_ensures(id_leq());
    lemma_targets_count(edges, u, v);
    assert(t.sort_by(id_leq()).to_multiset().count(v) > 0 <==> t.sort_by(id_leq()).contains(v));
}

/// A node past every `usize` is the tail of no arc.
pub proof fn lemma_no_targets(edges: Seq<Edge>, u: int)
    requires
        u > usize::MAX,
    ensures
        targets(edges, u) == Seq::<usize>::empty(),
    decreases edges.len(),
{
    if edges.len() > 0 {
        lemma_no_targets(edges.drop_last(), u);
    }
}

/// Determinism of the directed build: the adjacency sequences depend only on
/// the multiset of arcs, not on the order in which they are given.
pub proof fn lemma_directed_depends_on_edge_multiset(n: nat, e1: Seq<Edge>, e2: Seq<Edge>)
    requires
        e1.to_multiset() == e2.to_multiset(),
    ensures
        directed_adjacency(n, e1) == directed_adjacency(n, e2),
{
    assert forall|u: int| 0 <= u < n implies #[trigger] directed_adjacency(n, e1)[u]
        == directed_adjacency(n, e2)[u] by {
        if u <= usize::MAX {
            assert forall|v: usize| #[trigger]
                targets(e1, u).to_multiset().count(v) == targets(e2, u).to_multiset().count(v) by {
                lemma_targets_count(e1, u as usize, v);
                lemma_targets_count(e2, u as usize, v);
            }
        } else {
            lemma_no_targets(e1, u);
            lemma_no_targets(e2, u);
        }
        assert(targets(e1, u).to_multiset() =~= targets(e2, u).to_multiset());
        lemma_sort_by_multiset(targets(e1, u), targets(e2, u));
    }
    assert(directed_adjacency(n, e1) =~= directed_adjacency(n, e2));
}

/// Symmetry of the undirected build: `v` is a neighbour of `u` exactly when
/// `u` is a neighbour of `v`.
pub proof fn lemma_undirected_symmetric(n: nat, edges: Seq<Edge>, u: usize, v: usize)
    requires
        (u as int) < n,
        (v as int) < n,
    ensures
        undirected_adjacency(n, edges)[u as int].contains(v) <==> undirected_adjacency(
            n,
            edges,
        )[v as int].contains(u),
{
    let all = edges + reversed(edges);
    lemma_adjacent_iff_arc(n, all, u, v);
    lemma_adjacent_iff_arc(n, all, v, u);
    lemma_multiset_commutative(edges, reversed(edges));
    lemma_reversed_count(edges, u, v);
    lemma_reversed_count(edges, v, u);
}

/// Each id is below the next one.
pub open spec fn is_strictly_ascending(s: Seq<usize>) -> bool {
    forall|i: int, j: int| 0 <= i < j < s.len() ==> s[i] < s[j]
}

/// The ids of the ascending `l`, each once.
fn distinct_copy(l: &Vec<usize>) -> (r: Vec<usize>)
    requires
        is_ascending(l@),
    ensures
        is_strictly_ascending(r@),
        r@.to_set() == l@.to_set(),
{
    let mut r: Vec<usize> = Vec::new();
    let mut i: usize = 0;
    while i < l.len()
        invariant
            0 <= i <= l.len(),
            is_ascending(l@),
            is_strictly_ascending(r@),
            r@.to_set() == l@.take(i as int).to_set(),
            i > 0 ==> r@.len() > 0 && r@.last() == l@[i - 1],
            i == 0 ==> r@.len() == 0,
        decreases l.len() - i,
    {
        let x = l[i];
        let ghost before = r@;
        if r.len() == 0 || r[r.len() - 1] != x {
            r.push(x);
        }
        proof {
            assert(l@.take(i + 1) == l@.take(i as int).push(x));
            assert(r@.to_set() =~= l@.take(i + 1).to_set()) by {
                assert forall|y: usize| r@.contains(y) <==> l@.take(i + 1).contains(y) by {
                    if r@.contains(y) && y != x {
                        let k = choose|k: int| 0 <= k < r@.len() && r@[k] == y;
                        assert(before[k] == y);
                        assert(before.to_set().contains(y));
                    }
                    if l@.take(i + 1).contains(y) && y != x {
                        assert(l@.take(i as int).to_set().contains(y));
                        let k = choose|k: int| 0 <= k < before.len() && before[k] == y;
                        assert(r@[k] == y);
                    }
                    if y == x {
                        assert(r@[r@.len() - 1] == x);
                        assert(l@.take(i + 1)[i as int] == x);
                    }
                }
            }
            if before.len() > 0 {
                assert(before.last() <= x) by {
                    assert(l@[i - 1] <= l@[i as int]);
                }
            }
        }
        i = i + 1;
    }
    proof {
        assert(l@.take(l@.len() as int) == l@);
    }
    r
}

/// The ids in `l`, in ascending order; duplicates are kept.
fn sorted_copy(l: &Vec<usize>) -> (r: Vec<usize>)
    ensures
        is_ascending(r@),
        r@.to_multiset() == l@.to_multiset(),
{
    let mut r: Vec<usize> = Vec::new();
    let mut i: usize = 0;
    while i < l.len()
        invariant
            0 <= i <= l.len(),
            is_ascending(r@),
            r@.to_multiset() == l@.subrange(0, i as int).to_multiset(),
        decreases l.len() - i,
    {
        let x = l[i];
        let mut pos: usize = r.len();
        while pos > 0 && r[pos - 1] > x
            invariant
                0 <= pos <= r.len(),
                forall|j: int| pos <= j < r.len() ==> r@[j] > x,
            decreases pos,
        {
            pos = pos - 1;
        }
        proof {
            assert(pos == 0 || r@[pos - 1] <= x);
        }
        let ghost prev = r@;
        r.insert(pos, x);
        proof {
            assert(l@.subrange(0, i + 1) == l@.subrange(0, i as int).push(x));
            assert forall|a: int, b: int| 0 <= a < b < r@.len() implies r@[a] <= r@[b] by {
                if b < pos {
                } else if a < pos && b == pos {
                    assert(prev[a] <= prev[pos - 1]);
                } else if a < pos {
                    assert(r@[b] == prev[b - 1]);
                } else if a == pos {
                    assert(r@[b] == prev[b - 1]);
                } else {
                    assert(r@[a] == prev[a - 1] && r@[b] == prev[b - 1]);
                }
            }
        }
        i = i + 1;
    }
    proof {
        assert(l@.subrange(0, l@.len() as int) == l@);
    }
    r
}

impl Graph {
    /// Every node has an adjacency sequence and every successor is a node.
    pub open spec fn wf(&self) -> bool {
        &&& self.outedges@.len() == self.n
        &&& forall|u: int, j: int|
            0 <= u < self@.len() && 0 <= j < self@[u].len() ==> #[trigger] self@[u][j] < self.n
    }

    /// Appends `v` to the sequence of `u`, for each arc `(u, v)` of `edges` in order.
    pub fn add_directed_edges(&mut self, edges: &ListOfEdges)
        requires
            old(self).wf(),
            edges_within(edges@, old(self).n as nat),
        ensures
            final(self).wf(),
            final(self).n == old(self).n,
            final(self)@.len() == old(self)@.len(),
            forall|u: int|
                0 <= u < old(self)@.len() ==> #[trigger] final(self)@[u] == old(self)@[u]
                    + targets(edges@, u),
    {
        let mut i: usize = 0;
        while i < edges.len()
            invariant
                0 <= i <= edges.len(),
                self.wf(),
                self.n == old(self).n,
                self@.len() == old(self)@.len(),
                edges_within(edges@, self.n as nat),
                forall|u: int|
                    0 <= u < old(self)@.len() ==> #[trigger] self@[u] == old(self)@[u] + targets(
                        edges@.subrange(0, i as int),
                        u,
                    ),
            decreases edges.len() - i,
        {
            let (u, v) = edges[i];
            let ghost before = self@;
            self.outedges[u].push(v);
            proof {
                let prefix = edges@.subrange(0, i + 1);
                assert(prefix.drop_last() == edges@.subrange(0, i as int));
                assert(prefix.last() == (u, v));
                assert forall|w: int| 0 <= w < old(self)@.len() implies #[trigger] self@[w]
                    == old(self)@[w] + targets(prefix, w) by {
                    if w == u {
                        assert(self@[w] == before[w].push(v));
                    } else {
                        assert(self@[w] == before[w]);
                    }
                }
                assert forall|a: int, j: int|
                    0 <= a < self@.len() && 0 <= j < self@[a].len() implies #[trigger] self@[a][j]
                    < self.n by {
                    if a == u && j == before[a].len() {
                    } else {
                        assert(self@[a][j] == before[a][j]);
                    }
                }
            }
            i = i + 1;
        }
        proof {
            assert(edges@.subrange(0, edges@.len() as int) == edges@);
        }
    }

    /// Sorts every adjacency sequence in ascending order, keeping duplicates.
    pub fn sort_graph_lists(&mut self)
        requires
            old(self).wf(),
        ensures
            final(self).wf(),
            final(self).n == old(self).n,
            final(self)@.len() == old(self)@.len(),
            forall|u: int|
                0 <= u < old(self)@.len() ==> #[trigger] final(self)@[u] == old(self)@[u].sort_by(
                    id_leq(),
                ),
            forall|u: int| 0 <= u < old(self)@.len() ==> is_ascending(#[trigger] final(self)@[u]),
    {
        let mut u: usize = 0;
        while u < self.outedges.len()
            invariant
                0 <= u <= self@.len(),
                self.wf(),
                self.n == old(self).n,
                self@.len() == old(self)@.len(),
                forall|w: int|
                    0 <= w < u ==> #[trigger] self@[w] == old(self)@[w].sort_by(id_leq())
                        && is_ascending(self@[w]),
                forall|w: int| u <= w < self@.len() ==> #[trigger] self@[w] == old(self)@[w],
            decreases self@.len() - u,
        {
            let sorted = sorted_copy(&self.outedges[u]);
            let ghost before = self@;
            proof {
                lemma_ascending_is_sorted(before[u as int], sorted@);
                assert forall|j: int| 0 <= j < sorted@.len() implies sorted@[j] < self.n by {
                    assert(sorted@.to_multiset().count(sorted@[j]) > 0);
                    assert(before[u as int].contains(sorted@[j]));
                }
            }
            self.outedges.set(u, sorted);
            proof {
                assert(self@ =~= before.update(u as int, sorted@));
                assert forall|a: int, j: int|
                    0 <= a < self@.len() && 0 <= j < self@[a].len() implies #[trigger] self@[a][j]
                    < self.n by {
                    if a != u {
                        assert(self@[a] == before[a]);
                    }
                }
            }
            u = u + 1;
        }
    }

    /// Keeps one copy of each repeated arc: every sorted adjacency sequence
    /// loses its duplicates.
    pub fn dedup_graph_lists(&mut self)
        requires
            old(self).wf(),
            forall|u: int| 0 <= u < old(self)@.len() ==> is_ascending(#[trigger] old(self)@[u]),
        ensures
            final(self).wf(),
            final(self).n == old(self).n,
            final(self)@.len() == old(self)@.len(),
            forall|u: int|
                0 <= u < old(self)@.len() ==> is_strictly_ascending(#[trigger] final(self)@[u])
                    && final(self)@[u].to_set() == old(self)@[u].to_set(),
    {
        let mut u: usize = 0;
        while u < self.outedges.len()
            invariant
                0 <= u <= self@.len(),
                self.wf(),
                self.n == old(self).n,
                self@.len() == old(self)@.len(),
                forall|w: int|
                    0 <= w < u ==> is_strictly_ascending(#[trigger] self@[w]) && self@[w].to_set()
                        == old(self)@[w].to_set(),
                forall|w: int| u <= w < self@.len() ==> #[trigger] self@[w] == old(self)@[w],
                forall|w: int| 0 <= w < old(self)@.len() ==> is_ascending(#[trigger] old(self)@[w]),
            decreases self@.len() - u,
        {
            let ghost before = self@;
            assert(is_ascending(old(self)@[u as int]));
            assert(self.outedges@[u as int]@ == self@[u as int]);
            let distinct = distinct_copy(&self.outedges[u]);
            proof {
                assert forall|j: int| 0 <= j < distinct@.len() implies distinct@[j] < self.n by {
                    assert(distinct@.to_set().contains(distinct@[j]));
                    assert(before[u as int].to_set().contains(distinct@[j]));
                }
            }
            self.outedges.set(u, distinct);
            proof {
                assert(self@ =~= before.update(u as int, distinct@));
                assert forall|a: int, j: int|
                    0 <= a < self@.len() && 0 <= j < self@[a].len() implies #[trigger] self@[a][j]
                    < self.n by {
                    if a != u {
                        assert(self@[a] == before[a]);
                    }
                }
            }
            u = u + 1;
        }
    }

    /// The graph on `n` nodes with the arcs `edges`, each adjacency sequence
    /// in ascending order.
    pub fn create_directed(n: usize, edges: &ListOfEdges) -> (g: Graph)
        requires
            edges_within(edges@, n as nat),
        ensures
            g.wf(),
            g.n == n,
            g@ == directed_adjacency(n as nat, edges@),
            forall|u: int| 0 <= u < n ==> is_ascending(#[trigger] g@[u]),
    {
        let mut outedges: Vec<Vec<usize>> = Vec::new();
        let mut i: usize = 0;
        while i < n
            invariant
                0 <= i <= n,
                outedges@.len() == i,
                forall|j: int| 0 <= j < i ==> (#[trigger] outedges@[j])@.len() == 0,
            decreases n - i,
        {
            outedges.push(Vec::new());
            i = i + 1;
        }
        let mut g = Graph { n, outedges };
        g.add_directed_edges(edges);
        let ghost filled = g@;
        g.sort_graph_lists();
        proof {
            assert forall|u: int| 0 <= u < n implies #[trigger] g@[u] == directed_adjacency(
                n as nat,
                edges@,
            )[u] by {
                assert(filled[u] == targets(edges@, u));
            }
        }
        g
    }

    /// The undirected graph on `n` nodes: `edges` and their reverses, each
    /// adjacency sequence in ascending order.
    pub fn create_undirected(n: usize, edges: &ListOfEdges) -> (g: Graph)
        requires
            edges_within(edges@, n as nat),
        ensures
            g.wf(),
            g.n == n,
            g@ == undirected_adjacency(n as nat, edges@),
            forall|u: int| 0 <= u < n ==> is_ascending(#[trigger] g@[u]),
    {
        let mut g = Graph::create_directed(n, edges);
        let back = reverse_edges(edges);
        assert(edges_within(back@, n as nat)) by {
            assert forall|i: int| 0 <= i < back@.len() implies (#[trigger] back@[i]).0 < n
                && back@[i].1 < n by {
                assert(edges@[i].0 < n);
            }
        }
        g.add_directed_edges(&back);
        let ghost filled = g@;
        g.sort_graph_lists();
        proof {
            assert forall|u: int| 0 <= u < n implies #[trigger] g@[u] == undirected_adjacency(
                n as nat,
                edges@,
            )[u] by {
                let fwd = targets(edges@, u);
                let bwd = targets(back@, u);
                lemma_targets_concat(edges@, back@, u);
                lemma_id_leq_total();
                fwd.lemma_sort_by_ensures(id_leq());
                lemma_multiset_commutative(fwd.sort_by(id_leq()), bwd);
                lemma_multiset_commutative(fwd, bwd);
                lemma_sort_by_multiset(filled[u], fwd + bwd);
            }
        }
        g
    }

    /// Node id to the length of its adjacency sequence, for every node.
    pub fn compute_degree_centrality(&self) -> (r: HashMap<usize, usize>)
        ensures
            r@ == degree_map(self@),
            forall|i: usize|
                (i as int) < self@.len() ==> r@.contains_key(i) && #[trigger] r@[i]
                    == self@[i as int].len(),
    {
        let mut centrality: HashMap<usize, usize> = HashMap::new();
        let mut i: usize = 0;
        while i < self.outedges.len()
            invariant
                0 <= i <= self@.len(),
                forall|k: usize| #[trigger] centrality@.contains_key(k) <==> k < i,
                forall|k: usize| k < i ==> #[trigger] centrality@[k] == self@[k as int].len(),
            decreases self@.len() - i,
        {
            let d = self.outedges[i].len();
            centrality.insert(i, d);
            i = i + 1;
        }
        proof {
            assert(centrality@ =~= degree_map(self@));
        }
        centrality
    }
}

/// The position of the first arc of `edges` with an endpoint outside `[0, n)`,
/// or `None` when every arc lies within the `n` nodes.
pub fn first_invalid_edge(n: usize, edges: &ListOfEdges) -> (r: Option<usize>)
    ensures
        r is None <==> edges_within(edges@, n as nat),
        r matches Some(i) ==> {
            &&& (i as int) < edges@.len()
            &&& !(edges@[i as int].0 < n && edges@[i as int].1 < n)
            &&& edges_within(edges@.subrange(0, i as int), n as nat)
        },
{
    let mut i: usize = 0;
    while i < edges.len()
        invariant
            0 <= i <= edges.len(),
            edges_within(edges@.subrange(0, i as int), n as nat),
        decreases edges.len() - i,
    {
        let (u, v) = edges[i];
        if u >= n || v >= n {
            return Some(i);
        }
        proof {
            let next = edges@.subrange(0, i + 1);
            assert forall|j: int| 0 <= j < next.len() implies (#[trigger] next[j]).0 < n
                && next[j].1 < n by {
                if j < i {
                    assert(next[j] == edges@.subrange(0, i as int)[j]);
                }
            }
        }
        i = i + 1;
    }
    proof {
        assert(edges@.subrange(0, edges@.len() as int) == edges@);
    }
    None
}

/// Every arc of `edges` turned around, in the same order.
pub fn reverse_edges(edges: &ListOfEdges) -> (r: ListOfEdges)
    ensures
        r@ == reversed(edges@),
{
    let mut r: ListOfEdges = Vec::new();
    let mut i: usize = 0;
    while i < edges.len()
        invariant
            0 <= i <= edges.len(),
            r@ == reversed(edges@.subrange(0, i as int)),
        decreases edges.len() - i,
    {
        let (u, v) = edges[i];
        r.push((v, u));
        proof {
            assert(edges@.subrange(0, i + 1) == edges@.subrange(0, i as int).push((u, v)));
        }
        i = i + 1;
    }
    proof {
        assert(edges@.subrange(0, edges@.len() as int) == edges@);
    }
    r
}

} // verus!
