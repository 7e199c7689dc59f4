//! Undirected simple graphs stored as adjacency lists.

use vstd::prelude::*;

verus! {

/// An undirected graph on the vertices `0..n`; `adj[u]` lists the neighbours
/// of `u`.
pub struct Graph {
    pub n: usize,
    pub adj: Vec<Vec<usize>>,
}

/// The neighbour sets of an adjacency-list table.
pub open spec fn nbr_sets(adj: Seq<Vec<usize>>) -> Seq<Set<usize>> {
    Seq::new(adj.len(), |u: int| adj[u]@.to_set())
}

/// The sum of the lengths of the lists in `adj`.
pub open spec fn total_degree(adj: Seq<Vec<usize>>) -> int
    decreases adj.len(),
{
    if adj.len() == 0 {
        0
    } else {
        total_degree(adj.drop_last()) + adj.last()@.len()
    }
}

/// The undirected edges that `edges` names between two different vertices
/// below `n`, each written with its smaller end first.
pub open spec fn edge_pairs(n: usize, edges: Seq<(usize, usize)>) -> Set<(usize, usize)> {
    Set::new(
        |p: (usize, usize)|
            p.0 < p.1 && p.1 < n && exists|k: int|
                0 <= k < edges.len() && (#[trigger] edges[k] == (p.0, p.1) || edges[k] == (p.1, p.0)),
    )
}

/// `edges` names the undirected edge between `u` and `w`.
pub open spec fn names_edge(edges: Seq<(usize, usize)>, u: usize, w: usize) -> bool {
    exists|k: int| 0 <= k < edges.len() && (#[trigger] edges[k] == (u, w) || edges[k] == (w, u))
}

/// Entry `k` of `edges` joins `u` and `w`, in either direction.
pub open spec fn joins_at(edges: Seq<(usize, usize)>, k: int, u: usize, w: usize) -> bool {
    edges[k] == (u, w) || edges[k] == (w, u)
}

/// The neighbours of `u` in `list` come in the order in which `edges` first
/// joins them to `u`: wherever an entry of `edges` joins `u` to a neighbour,
/// an earlier entry joins `u` to each neighbour listed before it.
pub open spec fn in_mention_order(list: Seq<usize>, edges: Seq<(usize, usize)>, u: usize) -> bool {
    forall|i: int, j: int, k: int|
        #![trigger list[i], joins_at(edges, k, u, list[j])]
        0 <= i < j < list.len() && 0 <= k < edges.len() && joins_at(edges, k, u, list[j])
            ==> joined_before(edges, k, u, list[i])
}

/// Some entry of `edges` before entry `k` joins `u` and `w`.
pub open spec fn joined_before(edges: Seq<(usize, usize)>, k: int, u: usize, w: usize) -> bool {
    exists|k2: int| 0 <= k2 < k && #[trigger] joins_at(edges, k2, u, w)
}

impl Graph {
    /// Adjacency lists that describe a simple undirected graph on `0..n`:
    /// entries in range, no self-loops, no repeated neighbour, every edge
    /// listed at both ends, and a total list length that fits in `usize`.
    pub open spec fn wf(&self) -> bool {
        &&& self.adj@.len() == self.n
        &&& forall|u: int, i: int|
            0 <= u < self.n && 0 <= i < self.adj@[u]@.len() ==> {
                &&& #[trigger] self.adj@[u]@[i] < self.n
                &&& self.adj@[u]@[i] != u
                &&& self.adj@[self.adj@[u]@[i] as int]@.contains(u as usize)
            }
        &&& forall|u: int| 0 <= u < self.n ==> (#[trigger] self.adj@[u]@).no_duplicates()
        &&& total_degree(self.adj@) <= usize::MAX
    }

    /// The neighbour sets of the graph.
    pub open spec fn nbrs(&self) -> Seq<Set<usize>> {
        nbr_sets(self.adj@)
    }

    /// No vertex has a neighbour.
    pub open spec fn edgeless(&self) -> bool {
        forall|u: int| 0 <= u < self.n ==> (#[trigger] self.adj@[u]@).len() == 0
    }

    /// The number of undirected edges: half the total list length.
    pub open spec fn spec_edge_count(&self) -> int {
        total_degree(self.adj@) / 2
    }

    /// The graph on `n` vertices without edges.
    pub fn new(n: usize) -> (g: Self)
        ensures
            g.wf(),
            g.n == n,
            forall|u: int| 0 <= u < n ==> (#[trigger] g.adj@[u]@).len() == 0,
            total_degree(g.adj@) == 0,
            g.spec_edge_count() == 0,
    {
        let mut adj: Vec<Vec<usize>> = Vec::new();
        let mut i: usize = 0;
        while i < n
            invariant
                i <= n,
                adj@.len() == i,
                forall|u: int| 0 <= u < i ==> (#[trigger] adj@[u]@).len() == 0,
                total_degree(adj@) == 0,
            decreases n - i,
        {
            let ghost before = adj@;
            adj.push(Vec::new());
            assert(adj@.drop_last() == before);
            i += 1;
        }
        Graph { n, adj }
    }

    /// Builds the graph on `n` vertices with the given edges. Self-loops,
    /// edges with an end outside `0..n` and repeated edges (in either
    /// direction) are ignored.
    pub fn from_edges(n: usize, edges: &[(usize, usize)]) -> (g: Self)
        requires
            edges@.len() <= usize::MAX / 2,
        ensures
            g.wf(),
            g.n == n,
            forall|u: usize, w: usize|
                u < n ==> (#[trigger] g.adj@[u as int]@.contains(w) <==> (u != w && w < n
                    && names_edge(edges@, u, w))),
            total_degree(g.adj@) == 2 * edge_pairs(n, edges@).len(),
            g.spec_edge_count() == edge_pairs(n, edges@).len(),
            edge_pairs(n, edges@).finite(),
            forall|u: usize| u < n ==> in_mention_order(#[trigger] g.adj@[u as int]@, edges@, u),
    {
        let mut g = Self::new(n);
        let ghost mut pairs: Set<(usize, usize)> = Set::empty();
        let mut i: usize = 0;
        while i < edges.len()
            invariant
                i <= edges@.len(),
                edges@.len() <= usize::MAX / 2,
                g.n == n,
                g.adj@.len() == n,
                forall|u: int, k: int|
                    0 <= u < n && 0 <= k < g.adj@[u]@.len() ==> {
                        &&& #[trigger] g.adj@[u]@[k] < n
                        &&& g.adj@[u]@[k] != u
                        &&& g.adj@[g.adj@[u]@[k] as int]@.contains(u as usize)
                    },
                forall|u: int| 0 <= u < n ==> (#[trigger] g.adj@[u]@).no_duplicates(),
                forall|u: usize, w: usize|
                    u < n ==> (#[trigger] g.adj@[u as int]@.contains(w) <==> (u != w && w < n
                        && names_edge(edges@.take(i as int), u, w))),
                pairs.finite(),
                pairs == edge_pairs(n, edges@.take(i as int)),
                total_degree(g.adj@) == 2 * pairs.len(),
                pairs.len() <= i,
                forall|a: usize| a < n ==> in_mention_order(#[trigger] g.adj@[a as int]@, edges@.take(i as int), a),
            decreases edges@.len() - i,
        {
            let (u, v) = edges[i];
            let ghost old_adj = g.adj@;
            let ghost old_pairs = pairs;
            let ghost lo: usize = if u < v { u } else { v };
            let ghost hi: usize = if u < v { v } else { u };
            assert(edges@.take(i + 1) == edges@.take(i as int).push((u, v)));
            if u != v && u < n && v < n {
                if !list_contains(&g.adj[u], v) {
                    g.adj[u].push(v);
                    g.adj[v].push(u);
                    proof {
                        assert(g.adj@[u as int]@ == old_adj[u as int]@.push(v));
                        assert(g.adj@[v as int]@ == old_adj[v as int]@.push(u));
                        assert(forall|w: int| 0 <= w < n && w != u && w != v ==> g.adj@[w] == old_adj[w]);
                        assert(!old_adj[v as int]@.contains(u)) by {
                            if old_adj[v as int]@.contains(u) {
                                let k = choose|k: int| 0 <= k < old_adj[v as int]@.len() && old_adj[v as int]@[k] == u;
                                assert(old_adj[u as int]@.contains(v));
                            }
                        }
                        assert forall|a: int, k: int|
                            0 <= a < n && 0 <= k < g.adj@[a]@.len() implies {
                                &&& #[trigger] g.adj@[a]@[k] < n
                                &&& g.adj@[a]@[k] != a
                                &&& g.adj@[g.adj@[a]@[k] as int]@.contains(a as usize)
                            } by {
                            let b = g.adj@[a]@[k];
                            if a != u && a != v || k < old_adj[a]@.len() {
                                assert(b == old_adj[a]@[k]);
                                let j = choose|j: int| 0 <= j < old_adj[b as int]@.len() && old_adj[b as int]@[j] == a;
                                assert(g.adj@[b as int]@[j] == a);
                            } else if a == u {
                                assert(b == v);
                                assert(g.adj@[v as int]@[old_adj[v as int]@.len() as int] == u);
                            } else {
                                assert(b == u);
                                assert(g.adj@[u as int]@[old_adj[u as int]@.len() as int] == v);
                            }
                        }
                        assert forall|a: int| 0 <= a < n implies (#[trigger] g.adj@[a]@).no_duplicates() by {
                            if a == u {
                                assert(!old_adj[u as int]@.contains(v));
                            } else if a == v {
                                assert(!old_adj[v as int]@.contains(u));
                            }
                        }
                        pairs = pairs.insert((lo, hi));
                        lemma_push_twice_total(old_adj, g.adj@, u as int, v as int);
                        assert(!old_pairs.contains((lo, hi))) by {
                            if old_pairs.contains((lo, hi)) {
                                let k = choose|k: int|
                                    0 <= k < i && (#[trigger] edges@.take(i as int)[k] == (lo, hi)
                                        || edges@.take(i as int)[k] == (hi, lo));
                                assert(names_edge(edges@.take(i as int), u, v));
                            }
                        }
                    }
                } else {
                    proof {
                        assert(names_edge(edges@.take(i as int), u, v));
                    }
                }
            }
            proof {
                let es = edges@.take(i + 1);
                let pushed = u != v && u < n && v < n && !old_adj[u as int]@.contains(v);
                assert forall|a: usize, w: usize| a < n implies (#[trigger] g.adj@[a as int]@.contains(w)
                    <==> (a != w && w < n && names_edge(es, a, w))) by {
                    lemma_names_edge_push(edges@.take(i as int), (u, v), a, w);
                    assert(old_adj[a as int]@.contains(w) <==> (a != w && w < n && names_edge(
                        edges@.take(i as int),
                        a,
                        w,
                    )));
                    if pushed {
                        if a == u {
                            assert(g.adj@[a as int]@ == old_adj[a as int]@.push(v));
                            lemma_push_contains(old_adj[a as int]@, v, w);
                        } else if a == v {
                            assert(g.adj@[a as int]@ == old_adj[a as int]@.push(u));
                            lemma_push_contains(old_adj[a as int]@, u, w);
                        } else {
                            assert(g.adj@[a as int] == old_adj[a as int]);
                        }
                    } else {
                        assert(g.adj@ == old_adj);
                        if u != v && u < n && v < n {
                            assert(old_adj[u as int]@.contains(v));
                            assert(old_adj[v as int]@.contains(u)) by {
                                let k = choose|k: int| 0 <= k < old_adj[u as int]@.len() && old_adj[u as int]@[k] == v;
                                assert(old_adj[v as int]@.contains(u));
                            }
                        }
                    }
                }
                if pushed {
                    assert(!names_edge(edges@.take(i as int), v, u)) by {
                        if names_edge(edges@.take(i as int), v, u) {
                            let k = choose|k: int|
                                0 <= k < i && (#[trigger] edges@.take(i as int)[k] == (v, u)
                                    || edges@.take(i as int)[k] == (u, v));
                            assert(names_edge(edges@.take(i as int), u, v));
                        }
                    }
                }
                lemma_mention_order_step(old_adj, g.adj@, edges@.take(i as int), (u, v), pushed);
                assert(pairs =~= edge_pairs(n, es)) by {
                    assert forall|p: (usize, usize)| #[trigger] edge_pairs(n, es).contains(p)
                        implies pairs.contains(p) by {
                        let k = choose|k: int|
                            0 <= k < es.len() && (#[trigger] es[k] == (p.0, p.1) || es[k] == (p.1, p.0));
                        if k < i {
                            assert(edges@.take(i as int)[k] == es[k]);
                        }
                    }
                    assert forall|p: (usize, usize)| pairs.contains(p)
                        implies #[trigger] edge_pairs(n, es).contains(p) by {
                        if old_pairs.contains(p) {
                            let k = choose|k: int|
                                0 <= k < i && (#[trigger] edges@.take(i as int)[k] == (p.0, p.1)
                                    || edges@.take(i as int)[k] == (p.1, p.0));
                            assert(es[k] == edges@.take(i as int)[k]);
                        } else {
                            assert(es[i as int] == (u, v));
                        }
                    }
                }
            }
            i += 1;
        }
        assert(edges@.take(edges@.len() as int) == edges@);
        proof {
            assert(total_degree(g.adj@) <= usize::MAX);
        }
        g
    }

    /// The number of undirected edges.
    pub fn edge_count(&self) -> (count: usize)
        requires
            self.wf(),
        ensures
            count == self.spec_edge_count(),
    {
        let mut sum: usize = 0;
        let mut u: usize = 0;
        while u < self.n
            invariant
                self.wf(),
                u <= self.n,
                sum == total_degree(self.adj@.take(u as int)),
            decreases self.n - u,
        {
            proof {
                lemma_total_degree_prefix(self.adj@, u + 1);
                assert(self.adj@.take(u + 1).drop_last() == self.adj@.take(u as int));
            }
            sum = sum + self.adj[u].len();
            u += 1;
        }
        assert(self.adj@.take(self.n as int) == self.adj@);
        sum / 2
    }
}

/// Whether `x` occurs in `list`.
pub fn list_contains(list: &Vec<usize>, x: usize) -> (found: bool)
    ensures
        found == list@.contains(x),
{
    let mut i: usize = 0;
    while i < list.len()
        invariant
            i <= list@.len(),
            forall|j: int| 0 <= j < i ==> list@[j] != x,
        decreases list@.len() - i,
    {
        if list[i] == x {
            return true;
        }
        i += 1;
    }
    false
}

/// `es.push(e)` names an edge exactly when `es` or `e` does.
pub proof fn lemma_names_edge_push(es: Seq<(usize, usize)>, e: (usize, usize), a: usize, w: usize)
    ensures
        names_edge(es.push(e), a, w) <==> (names_edge(es, a, w) || e == (a, w) || e == (w, a)),
{
    let t = es.push(e);
    if names_edge(t, a, w) {
        let k = choose|k: int| 0 <= k < t.len() && (#[trigger] t[k] == (a, w) || t[k] == (w, a));
        if k < es.len() {
            assert(es[k] == t[k]);
        }
    }
    if names_edge(es, a, w) {
        let k = choose|k: int| 0 <= k < es.len() && (#[trigger] es[k] == (a, w) || es[k] == (w, a));
        assert(t[k] == es[k]);
    }
    if e == (a, w) || e == (w, a) {
        assert(t[es.len() as int] == e);
    }
}

/// What a sequence holds after a push.
pub proof fn lemma_push_contains(s: Seq<usize>, x: usize, w: usize)
    ensures
        s.push(x).contains(w) <==> (s.contains(w) || w == x),
{
    if s.contains(w) {
        let k = choose|k: int| 0 <= k < s.len() && s[k] == w;
        assert(s.push(x)[k] == w);
    }
    assert(s.push(x)[s.len() as int] == x);
    if s.push(x).contains(w) {
        let k = choose|k: int| 0 <= k < s.len() + 1 && s.push(x)[k] == w;
        if k < s.len() {
            assert(s[k] == w);
        }
    }
}

/// The total length is zero exactly when every list is empty.
pub proof fn lemma_total_degree_zero(adj: Seq<Vec<usize>>)
    ensures
        total_degree(adj) == 0 <==> forall|u: int| 0 <= u < adj.len() ==> (#[trigger] adj[u]@).len() == 0,
    decreases adj.len(),
{
    if adj.len() > 0 {
        lemma_total_degree_zero(adj.drop_last());
        lemma_total_degree_nonneg(adj.drop_last());
        if total_degree(adj) == 0 {
            assert forall|u: int| 0 <= u < adj.len() implies (#[trigger] adj[u]@).len() == 0 by {
                if u < adj.len() - 1 {
                    assert(adj.drop_last()[u] == adj[u]);
                }
            }
        }
        if forall|u: int| 0 <= u < adj.len() ==> (#[trigger] adj[u]@).len() == 0 {
            assert forall|u: int| 0 <= u < adj.drop_last().len() implies (#[trigger] adj.drop_last()[u]@).len() == 0 by {
                assert(adj.drop_last()[u] == adj[u]);
            }
            assert(adj.last()@.len() == 0);
        }
    }
}

/// The total length is at least the sum of any two of the lengths.
pub proof fn lemma_total_degree_two(adj: Seq<Vec<usize>>, a: int, b: int)
    requires
        0 <= a < adj.len(),
        0 <= b < adj.len(),
        a != b,
    ensures
        total_degree(adj) >= adj[a]@.len() + adj[b]@.len(),
    decreases adj.len(),
{
    let last = adj.len() - 1;
    lemma_total_degree_nonneg(adj.drop_last());
    if a == last {
        lemma_total_degree_one(adj.drop_last(), b);
        assert(adj.drop_last()[b] == adj[b]);
    } else if b == last {
        lemma_total_degree_one(adj.drop_last(), a);
        assert(adj.drop_last()[a] == adj[a]);
    } else {
        lemma_total_degree_two(adj.drop_last(), a, b);
        assert(adj.drop_last()[a] == adj[a]);
        assert(adj.drop_last()[b] == adj[b]);
    }
}

/// The total length is at least any one of the lengths.
pub proof fn lemma_total_degree_one(adj: Seq<Vec<usize>>, a: int)
    requires
        0 <= a < adj.len(),
    ensures
        total_degree(adj) >= adj[a]@.len(),
    decreases adj.len(),
{
    lemma_total_degree_nonneg(adj.drop_last());
    if a < adj.len() - 1 {
        lemma_total_degree_one(adj.drop_last(), a);
        assert(adj.drop_last()[a] == adj[a]);
    }
}

/// In a well-formed graph, fewer than two list entries, or at most one
/// vertex, means no edge at all; and no edge means an edge count of zero.
pub proof fn lemma_edgeless(g: &Graph)
    requires
        g.wf(),
    ensures
        g.edgeless() <==> g.spec_edge_count() == 0,
        g.n <= 1 ==> g.edgeless(),
{
    lemma_total_degree_zero(g.adj@);
    lemma_total_degree_nonneg(g.adj@);
    if !g.edgeless() {
        let u = choose|u: int| 0 <= u < g.n && (#[trigger] g.adj@[u]@).len() != 0;
        let b = g.adj@[u]@[0];
        assert(g.adj@[b as int]@.contains(u as usize));
        assert(b as int != u);
        lemma_total_degree_two(g.adj@, u, b as int);
    }
    if g.n <= 1 {
        assert forall|u: int| 0 <= u < g.n implies (#[trigger] g.adj@[u]@).len() == 0 by {
            if g.adj@[u]@.len() > 0 {
                assert(g.adj@[u]@[0] < g.n);
                assert(g.adj@[u]@[0] != u);
            }
        }
    }
}

/// The total length is at least that of every prefix.
pub proof fn lemma_total_degree_prefix(adj: Seq<Vec<usize>>, k: int)
    requires
        0 <= k <= adj.len(),
    ensures
        total_degree(adj.take(k)) <= total_degree(adj),
        total_degree(adj.take(k)) >= 0,
    decreases adj.len(),
{
    if k == adj.len() {
        assert(adj.take(k) == adj);
        lemma_total_degree_nonneg(adj);
    } else {
        assert(adj.drop_last().take(k) == adj.take(k));
        lemma_total_degree_prefix(adj.drop_last(), k);
    }
}

/// Total lengths are not negative.
pub proof fn lemma_total_degree_nonneg(adj: Seq<Vec<usize>>)
    ensures
        total_degree(adj) >= 0,
    decreases adj.len(),
{
    if adj.len() > 0 {
        lemma_total_degree_nonneg(adj.drop_last());
    }
}

/// Replacing one list changes the total by the difference of the lengths.
pub proof fn lemma_total_degree_update(adj: Seq<Vec<usize>>, i: int, l: Vec<usize>)
    requires
        0 <= i < adj.len(),
    ensures
        total_degree(adj.update(i, l)) == total_degree(adj) - adj[i]@.len() + l@.len(),
    decreases adj.len(),
{
    let a2 = adj.update(i, l);
    if i == adj.len() - 1 {
        assert(a2.drop_last() == adj.drop_last());
        assert(a2.last() == l);
    } else {
        lemma_total_degree_update(adj.drop_last(), i, l);
        assert(a2.drop_last() == adj.drop_last().update(i, l));
        assert(a2.last() == adj.last());
        assert(adj.drop_last()[i] == adj[i]);
    }
}

/// Appending one entry to each of two different lists adds two to the total.
pub proof fn lemma_push_twice_total(before: Seq<Vec<usize>>, after: Seq<Vec<usize>>, u: int, v: int)
    requires
        0 <= u < before.len(),
        0 <= v < before.len(),
        u != v,
        after.len() == before.len(),
        after[u]@.len() == before[u]@.len() + 1,
        after[v]@.len() == before[v]@.len() + 1,
        forall|w: int| 0 <= w < before.len() && w != u && w != v ==> after[w] == before[w],
    ensures
        total_degree(after) == total_degree(before) + 2,
{
    let mid = before.update(u, after[u]);
    lemma_total_degree_update(before, u, after[u]);
    assert(total_degree(mid) == total_degree(before) + 1);
    lemma_total_degree_update(mid, v, after[v]);
    assert(mid.update(v, after[v]) == after);
}

/// Appending one edge keeps every list in mention order, whether or not the
/// edge was new and so appended at both of its ends.
pub proof fn lemma_mention_order_step(
    before: Seq<Vec<usize>>,
    after: Seq<Vec<usize>>,
    es: Seq<(usize, usize)>,
    e: (usize, usize),
    pushed: bool,
)
    requires
        after.len() == before.len(),
        forall|a: usize| a < before.len() ==> in_mention_order(#[trigger] before[a as int]@, es, a),
        forall|a: usize, w: usize|
            a < before.len() && #[trigger] before[a as int]@.contains(w) ==> names_edge(es, a, w),
        pushed ==> {
            &&& e.0 != e.1
            &&& e.0 < before.len()
            &&& e.1 < before.len()
            &&& !names_edge(es, e.0, e.1)
            &&& !names_edge(es, e.1, e.0)
            &&& after[e.0 as int]@ == before[e.0 as int]@.push(e.1)
            &&& after[e.1 as int]@ == before[e.1 as int]@.push(e.0)
            &&& forall|a: int| 0 <= a < before.len() && a != e.0 && a != e.1 ==> after[a] == before[a]
        },
        !pushed ==> after == before,
    ensures
        forall|a: usize| a < after.len() ==> in_mention_order(#[trigger] after[a as int]@, es.push(e), a),
{
    let es2 = es.push(e);
    assert forall|a: usize| a < after.len() implies in_mention_order(#[trigger] after[a as int]@, es2, a) by {
        let old_list = before[a as int]@;
        let list = after[a as int]@;
        assert(forall|x: int| 0 <= x < old_list.len() ==> list[x] == old_list[x]);
        assert forall|i: int, j: int, k: int|
            #![trigger list[i], joins_at(es2, k, a, list[j])]
            0 <= i < j < list.len() && 0 <= k < es2.len() && joins_at(es2, k, a, list[j])
                implies joined_before(es2, k, a, list[i]) by {
            assert(i < old_list.len());
            assert(old_list.contains(list[i]));
            assert(names_edge(es, a, list[i]));
            let k1 = choose|k1: int| 0 <= k1 < es.len() && (#[trigger] es[k1] == (a, list[i]) || es[k1] == (list[i], a));
            assert(es2[k1] == es[k1]);
            assert(joins_at(es2, k1, a, list[i]));
            if k < es.len() {
                assert(es2[k] == es[k]);
                if j < old_list.len() {
                    assert(old_list[i] == list[i]);
                    assert(joins_at(es, k, a, old_list[j]));
                    assert(joined_before(es, k, a, old_list[i]));
                    let k2 = choose|k2: int| 0 <= k2 < k && #[trigger] joins_at(es, k2, a, old_list[i]);
                    assert(es2[k2] == es[k2]);
                    assert(joins_at(es2, k2, a, list[i]));
                } else {
                    assert(pushed);
                    if a == e.0 {
                        assert(list[j] == e.1);
                        assert(names_edge(es, e.0, e.1));
                    } else {
                        assert(a == e.1);
                        assert(list[j] == e.0);
                        assert(names_edge(es, e.1, e.0));
                    }
                }
            }
        }
        assert(in_mention_order(list, es2, a));
    }
}

} // verus!
