//! Forests and cycles under the elimination game. A graph without cycles
//! always has a vertex with at most one neighbour, and eliminating such a
//! vertex leaves a graph without cycles: so the min-degree heuristic never
//! eliminates a vertex with two neighbours, and on a forest with an edge it
//! gives 1. A cycle, on the other hand, forces every elimination order to
//! width 2 or more, and a graph made of paths and cycles never goes above 2.

use vstd::prelude::*;
use crate::graph::Graph;
use crate::seq_lemmas::{all_below, lemma_distinct_below_len};
use crate::treewidth::elimination::{
    eliminate, follows_stored_keys, initial_keys, is_elimination_order, lemma_eliminate_simple, order_width,
    simple_nbrs,
};
use crate::treewidth::native::{heap_greedy_width, lemma_min_degree_picks_least_degree, native_bound, picks_min_degree};
use crate::treewidth::scan::{active_set, all_active, lemma_scan_picks_least_degree, scan_bound, scan_order};

verus! {

/// Entries `t` and `t + 1` of `c` are adjacent in `nb`.
pub open spec fn adjacent_at(nb: Seq<Set<usize>>, c: Seq<usize>, t: int) -> bool {
    nb[c[t] as int].contains(c[t + 1])
}

/// `c` is a cycle of `nb`: at least three different vertices, each adjacent
/// to the next, and the last adjacent to the first.
pub open spec fn is_cycle(nb: Seq<Set<usize>>, c: Seq<usize>) -> bool {
    &&& c.len() >= 3
    &&& c.no_duplicates()
    &&& all_below(c, nb.len())
    &&& forall|t: int| 0 <= t < c.len() - 1 ==> #[trigger] adjacent_at(nb, c, t)
    &&& nb[c.last() as int].contains(c[0])
}

/// `nb` has no cycle.
pub open spec fn is_acyclic(nb: Seq<Set<usize>>) -> bool {
    forall|c: Seq<usize>| !#[trigger] is_cycle(nb, c)
}

/// A neighbour of `cur` other than `prev`.
spec fn turn_from(nb: Seq<Set<usize>>, prev: usize, cur: usize) -> usize {
    choose|y: usize| nb[cur as int].contains(y) && y != prev
}

/// The walk of `k + 2` vertices that starts along the edge from `u0` to
/// `u1` and then, at each vertex, moves on to a neighbour other than the
/// one it came from.
spec fn walk(nb: Seq<Set<usize>>, u0: usize, u1: usize, k: nat) -> Seq<usize>
    decreases k,
{
    if k == 0 {
        seq![u0, u1]
    } else {
        let w = walk(nb, u0, u1, (k - 1) as nat);
        w.push(turn_from(nb, w[w.len() - 2], w.last()))
    }
}

/// Every vertex with a neighbour has at least two.
spec fn no_leaf(nb: Seq<Set<usize>>) -> bool {
    forall|x: int| 0 <= x < nb.len() && (#[trigger] nb[x]).len() >= 1 ==> nb[x].len() >= 2
}

/// A finite set with at least two elements has one other than `a`.
proof fn lemma_other_element(s: Set<usize>, a: usize)
    requires
        s.finite(),
        s.len() >= 2,
    ensures
        exists|y: usize| s.contains(y) && y != a,
{
    let r = s.remove(a);
    assert(r.len() >= 1);
    if forall|y: usize| !r.contains(y) {
        assert(r =~= Set::<usize>::empty());
    }
    let y = choose|y: usize| r.contains(y);
    assert(s.contains(y) && y != a);
}

/// Where no vertex is a leaf, the walk goes on for ever along edges and never
/// turns straight back.
proof fn lemma_walk(nb: Seq<Set<usize>>, u0: usize, u1: usize, k: nat)
    requires
        simple_nbrs(nb),
        no_leaf(nb),
        u0 < nb.len(),
        nb[u0 as int].contains(u1),
    ensures
        walk(nb, u0, u1, k).len() == k + 2,
        all_below(walk(nb, u0, u1, k), nb.len()),
        forall|t: int| 0 <= t < k + 1 ==> #[trigger] adjacent_at(nb, walk(nb, u0, u1, k), t),
        forall|t: int| 2 <= t < k + 2 ==> #[trigger] walk(nb, u0, u1, k)[t] != walk(nb, u0, u1, k)[t - 2],
    decreases k,
{
    let w = walk(nb, u0, u1, k);
    if k == 0 {
        assert(adjacent_at(nb, w, 0));
    } else {
        let p = walk(nb, u0, u1, (k - 1) as nat);
        lemma_walk(nb, u0, u1, (k - 1) as nat);
        let prev = p[p.len() - 2];
        let cur = p.last();
        assert(adjacent_at(nb, p, p.len() - 2));
        assert(nb[prev as int].contains(cur));
        assert(nb[cur as int].contains(prev));
        assert(nb[cur as int].len() >= 1) by {
            if nb[cur as int].len() == 0 {
                assert(nb[cur as int] =~= Set::<usize>::empty());
            }
        }
        lemma_other_element(nb[cur as int], prev);
        let y = turn_from(nb, prev, cur);
        assert(nb[cur as int].contains(y) && y != prev);
        assert(w == p.push(y));
        assert forall|t: int| 0 <= t < k + 1 implies #[trigger] adjacent_at(nb, w, t) by {
            if t < k {
                assert(adjacent_at(nb, p, t));
            }
        }
        assert forall|t: int| 2 <= t < k + 2 implies #[trigger] w[t] != w[t - 2] by {
            if t < k + 1 {
                assert(p[t] != p[t - 2]);
            }
        }
    }
}

/// The first entry of `s` that repeats an earlier one, where the first `m`
/// entries hold a repeat.
proof fn lemma_first_repeat(s: Seq<usize>, m: int) -> (j: int)
    requires
        0 <= m <= s.len(),
        !s.take(m).no_duplicates(),
    ensures
        0 < j < m,
        s.take(j).no_duplicates(),
        s.take(j).contains(s[j]),
    decreases m,
{
    if !s.take(m - 1).no_duplicates() {
        assert(m - 1 >= 0) by {
            if m == 0 {
                assert(s.take(0).no_duplicates());
            }
        }
        let j = lemma_first_repeat(s, m - 1);
        j
    } else {
        let j = m - 1;
        if !s.take(j).contains(s[j]) {
            assert(s.take(m).no_duplicates()) by {
                assert forall|a: int, b: int| 0 <= a < m && 0 <= b < m && a != b implies s.take(m)[a] != s.take(m)[b] by {
                    if a < j && b < j {
                        assert(s.take(j)[a] != s.take(j)[b]);
                    } else if a == j {
                        assert(s.take(j)[b] == s[b]);
                    } else {
                        assert(s.take(j)[a] == s[a]);
                    }
                }
            }
        }
        assert(j > 0) by {
            if j == 0 {
                assert(s.take(0).len() == 0);
            }
        }
        j
    }
}

/// A graph in which every vertex with a neighbour has at least two has a
/// cycle, as soon as it has an edge.
proof fn lemma_no_leaf_cycle(nb: Seq<Set<usize>>, u0: usize, u1: usize)
    requires
        simple_nbrs(nb),
        no_leaf(nb),
        u0 < nb.len(),
        nb[u0 as int].contains(u1),
    ensures
        !is_acyclic(nb),
{
    let n = nb.len();
    let w = walk(nb, u0, u1, n);
    lemma_walk(nb, u0, u1, n);
    if w.no_duplicates() {
        lemma_distinct_below_len(w, n);
    }
    assert(w.take(w.len() as int) == w);
    let j = lemma_first_repeat(w, w.len() as int);
    let i = choose|i: int| 0 <= i < j && w.take(j)[i] == w[j];
    assert(w[i] == w[j]);
    let c = w.subrange(i, j);
    assert(j - i != 1) by {
        if j - i == 1 {
            assert(adjacent_at(nb, w, i));
        }
    }
    assert(j - i != 2) by {
        if j - i == 2 {
            assert(w[j] != w[j - 2]);
        }
    }
    assert(c.no_duplicates()) by {
        assert forall|a: int, b: int| 0 <= a < c.len() && 0 <= b < c.len() && a != b implies c[a] != c[b] by {
            assert(w.take(j)[i + a] != w.take(j)[i + b]);
        }
    }
    assert(all_below(c, n)) by {
        assert forall|t: int| 0 <= t < c.len() implies #[trigger] c[t] < n by {
            assert(w[i + t] < n);
        }
    }
    assert forall|t: int| 0 <= t < c.len() - 1 implies #[trigger] adjacent_at(nb, c, t) by {
        assert(adjacent_at(nb, w, i + t));
    }
    assert(nb[c.last() as int].contains(c[0])) by {
        assert(adjacent_at(nb, w, j - 1));
    }
    assert(is_cycle(nb, c));
}

/// A set with at most one element that holds `x` and `y` has `x == y`.
proof fn lemma_at_most_one(s: Set<usize>, x: usize, y: usize)
    requires
        s.finite(),
        s.len() <= 1,
        s.contains(x),
        s.contains(y),
    ensures
        x == y,
{
    if x != y {
        let r = s.remove(x);
        assert(r.contains(y));
        assert(r.remove(y).len() == r.len() - 1);
    }
}

/// Eliminating a vertex with at most one neighbour adds no edge, so a graph
/// without cycles stays without cycles.
pub proof fn lemma_eliminate_leaf_acyclic(nb: Seq<Set<usize>>, v: usize)
    requires
        simple_nbrs(nb),
        v < nb.len(),
        nb[v as int].len() <= 1,
        is_acyclic(nb),
    ensures
        is_acyclic(eliminate(nb, v)),
{
    let e = eliminate(nb, v);
    assert forall|x: int, y: usize| 0 <= x < nb.len() && #[trigger] e[x].contains(y) implies nb[x].contains(y) by {
        if x != v as int && nb[v as int].contains(x as usize) && !nb[x].contains(y) {
            assert(nb[v as int].contains(y));
            lemma_at_most_one(nb[v as int], x as usize, y);
        }
    }
    assert forall|c: Seq<usize>| !#[trigger] is_cycle(e, c) by {
        if is_cycle(e, c) {
            assert forall|t: int| 0 <= t < c.len() - 1 implies #[trigger] adjacent_at(nb, c, t) by {
                assert(adjacent_at(e, c, t));
                assert(c[t] < nb.len());
            }
            assert(c.last() < nb.len()) by {
                assert(c[c.len() - 1] < nb.len());
            }
            assert(is_cycle(nb, c));
        }
    }
}

/// An order that always eliminates a remaining vertex of least current
/// degree never meets a vertex with two neighbours in a graph without
/// cycles: its width is at most 1.
pub proof fn lemma_min_degree_width_acyclic(nb: Seq<Set<usize>>, ord: Seq<usize>, remaining: Set<usize>)
    requires
        simple_nbrs(nb),
        is_acyclic(nb),
        picks_min_degree(nb, ord, remaining),
        forall|u: usize| #[trigger] remaining.contains(u) ==> u < nb.len(),
        forall|x: usize| x < nb.len() && !remaining.contains(x) ==> #[trigger] nb[x as int] == Set::<usize>::empty(),
    ensures
        order_width(nb, ord) <= 1,
    decreases ord.len(),
{
    if ord.len() > 0 {
        let v = ord[0];
        let after = eliminate(nb, v);
        assert(nb[v as int].len() <= 1) by {
            if nb[v as int].len() >= 2 {
                assert(no_leaf(nb)) by {
                    assert forall|x: int| 0 <= x < nb.len() && (#[trigger] nb[x]).len() >= 1 implies nb[x].len() >= 2 by {
                        if !remaining.contains(x as usize) {
                            assert(nb[x as int] == Set::<usize>::empty());
                        }
                    }
                }
                lemma_other_element(nb[v as int], v);
                let u1 = choose|y: usize| nb[v as int].contains(y) && y != v;
                lemma_no_leaf_cycle(nb, v, u1);
            }
        }
        lemma_eliminate_simple(nb, v);
        lemma_eliminate_leaf_acyclic(nb, v);
        let rest = remaining.remove(v);
        assert forall|x: usize| x < after.len() && !rest.contains(x) implies #[trigger] after[x as int] == Set::<usize>::empty() by {
            if x != v {
                assert(nb[x as int] == Set::<usize>::empty());
                assert(!nb[v as int].contains(x)) by {
                    if nb[v as int].contains(x) {
                        assert(nb[x as int].contains(v));
                    }
                }
            }
        }
        lemma_min_degree_width_acyclic(after, ord.drop_first(), rest);
    }
}

/// On a graph without cycles that has an edge (a forest that is not
/// edgeless), the heap-driven heuristics give width exactly 1: a path or a
/// tree gets 1.
pub proof fn lemma_forest_width_one(g: &Graph, tw: u32)
    requires
        g.wf(),
        is_acyclic(g.nbrs()),
        !g.edgeless(),
        native_bound(g, tw),
    ensures
        tw == 1,
{
    let nb = g.nbrs();
    crate::treewidth::adjacency::lemma_graph_simple(g);
    crate::graph::lemma_edgeless(g);
    let (d, f) = choose|d: nat, f: nat|
        heap_greedy_width(nb, d, false) && heap_greedy_width(nb, f, true) && tw as nat == (if d <= f {
            d
        } else {
            f
        });
    let o = choose|o: Seq<usize>|
        follows_stored_keys(nb, initial_keys(nb, false), o, false) && #[trigger] order_width(nb, o) == d;
    lemma_min_degree_picks_least_degree(g, o);
    lemma_min_degree_width_acyclic(nb, o, Set::new(|u: usize| u < nb.len()));
}

/// On a graph without cycles that has an edge, the scanning heuristics give
/// width exactly 1.
pub proof fn lemma_forest_width_one_scan(g: &Graph, tw: u32)
    requires
        g.wf(),
        is_acyclic(g.nbrs()),
        !g.edgeless(),
        scan_bound(g, tw),
    ensures
        tw == 1,
{
    let nb = g.nbrs();
    let n = g.n as nat;
    crate::treewidth::adjacency::lemma_graph_simple(g);
    crate::graph::lemma_edgeless(g);
    let active = all_active(n);
    let all = active_set(n, active);
    vstd::set_lib::range_set_properties::<usize>(0, g.n);
    assert(all =~= Set::<usize>::range(0, g.n));
    lemma_scan_picks_least_degree(nb, active, n);
    lemma_min_degree_width_acyclic(nb, scan_order(nb, active, n, false), all);
}

/// Eliminating a vertex keeps every edge between two other vertices.
proof fn lemma_eliminate_keeps_edges(nb: Seq<Set<usize>>, v: usize, x: usize, y: usize)
    requires
        simple_nbrs(nb),
        x < nb.len(),
        x != v,
        y != v,
        nb[x as int].contains(y),
    ensures
        eliminate(nb, v)[x as int].contains(y),
{
    assert(y != x);
    if nb[v as int].contains(x) {
        assert(nb[x as int].union(nb[v as int]).contains(y));
    }
}

/// A cycle makes every elimination order that names its vertices reach
/// width 2: the first of its vertices to go still has its two cycle
/// neighbours.
pub proof fn lemma_cycle_width_at_least_two(nb: Seq<Set<usize>>, o: Seq<usize>, c: Seq<usize>)
    requires
        simple_nbrs(nb),
        is_cycle(nb, c),
        all_below(o, nb.len()),
        forall|t: int| 0 <= t < c.len() ==> o.contains(#[trigger] c[t]),
    ensures
        order_width(nb, o) >= 2,
    decreases o.len(),
{
    assert(o.contains(c[0]));
    let v = o[0];
    if c.contains(v) {
        let t = choose|t: int| 0 <= t < c.len() && c[t] == v;
        let last = c.len() - 1;
        let before = if t == 0 { c[last] } else { c[t - 1] };
        let after = if t == last { c[0] } else { c[t + 1] };
        if t == 0 {
            assert(nb[c[last] as int].contains(c[0]));
            assert(adjacent_at(nb, c, 0));
        } else if t == last {
            assert(adjacent_at(nb, c, t - 1));
            assert(nb[c[last] as int].contains(c[0]));
        } else {
            assert(adjacent_at(nb, c, t - 1));
            assert(adjacent_at(nb, c, t));
        }
        assert(nb[before as int].contains(v));
        assert(nb[v as int].contains(before));
        assert(nb[v as int].contains(after));
        assert(before != after) by {
            if t == 0 {
                assert(c[last] != c[1]);
            } else if t == last {
                assert(c[t - 1] != c[0]);
            } else {
                assert(c[t - 1] != c[t + 1]);
            }
        }
        let pair = set![before, after];
        assert(pair.subset_of(nb[v as int]));
        assert(pair.len() == 2) by {
            assert(set![before].len() == 1);
            assert(!set![before].contains(after));
        }
        vstd::set_lib::lemma_len_subset(pair, nb[v as int]);
    } else {
        let e = eliminate(nb, v);
        let rest = o.drop_first();
        lemma_eliminate_simple(nb, v);
        assert(is_cycle(e, c)) by {
            assert forall|t: int| 0 <= t < c.len() - 1 implies #[trigger] adjacent_at(e, c, t) by {
                assert(adjacent_at(nb, c, t));
                assert(c[t] != v && c[t + 1] != v) by {
                    assert(c.contains(c[t]) && c.contains(c[t + 1])) by {
                        assert(c[t] == c[t]);
                    }
                }
                lemma_eliminate_keeps_edges(nb, v, c[t], c[t + 1]);
            }
            assert(c.last() != v && c[0] != v) by {
                assert(c.contains(c[c.len() - 1]) && c.contains(c[0]));
            }
            lemma_eliminate_keeps_edges(nb, v, c.last(), c[0]);
        }
        assert(all_below(rest, e.len())) by {
            assert forall|i: int| 0 <= i < rest.len() implies #[trigger] rest[i] < e.len() by {
                assert(rest[i] == o[i + 1]);
            }
        }
        assert forall|t: int| 0 <= t < c.len() implies rest.contains(#[trigger] c[t]) by {
            assert(o.contains(c[t]));
            let i = choose|i: int| 0 <= i < o.len() && o[i] == c[t];
            assert(c.contains(c[t]));
            assert(i != 0);
            assert(rest[i - 1] == c[t]);
        }
        lemma_cycle_width_at_least_two(e, rest, c);
    }
}

/// Where no vertex has more than two neighbours, eliminating a vertex keeps
/// it so: a neighbour trades the eliminated vertex for at most one other.
/// So every elimination order has width at most 2.
pub proof fn lemma_degree_two_width(nb: Seq<Set<usize>>, o: Seq<usize>)
    requires
        simple_nbrs(nb),
        all_below(o, nb.len()),
        forall|x: int| 0 <= x < nb.len() ==> (#[trigger] nb[x]).len() <= 2,
    ensures
        order_width(nb, o) <= 2,
    decreases o.len(),
{
    if o.len() > 0 {
        let v = o[0];
        assert(v < nb.len());
        let e = eliminate(nb, v);
        let rest = o.drop_first();
        lemma_eliminate_simple(nb, v);
        assert forall|x: int| 0 <= x < e.len() implies (#[trigger] e[x]).len() <= 2 by {
            if x != v as int && nb[v as int].contains(x as usize) {
                let xs = nb[x].remove(v);
                let vs = nb[v as int].remove(x as usize);
                assert(nb[x].contains(v));
                assert(xs.len() == nb[x].len() - 1);
                assert(vs.len() == nb[v as int].len() - 1);
                assert(e[x].subset_of(xs.union(vs)));
                vstd::set_lib::lemma_len_union(xs, vs);
                vstd::set_lib::lemma_len_subset(e[x], xs.union(vs));
            }
        }
        assert(all_below(rest, e.len())) by {
            assert forall|i: int| 0 <= i < rest.len() implies #[trigger] rest[i] < e.len() by {
                assert(rest[i] == o[i + 1]);
            }
        }
        lemma_degree_two_width(e, rest);
    }
}

/// The elimination orders of a well-formed graph name every cycle vertex.
proof fn lemma_order_covers_cycle(g: &Graph, o: Seq<usize>, c: Seq<usize>)
    requires
        g.wf(),
        is_elimination_order(o, g.n as nat),
        is_cycle(g.nbrs(), c),
    ensures
        all_below(o, g.nbrs().len()),
        forall|t: int| 0 <= t < c.len() ==> o.contains(#[trigger] c[t]),
{
    assert forall|t: int| 0 <= t < c.len() implies o.contains(#[trigger] c[t]) by {
        assert(c[t] < g.n);
    }
}

/// On a well-formed graph the heap-driven heuristics give 1 exactly when the
/// graph is a forest with an edge: a cycle forces 2 or more.
pub proof fn lemma_width_one_iff_forest(g: &Graph, tw: u32)
    requires
        g.wf(),
        native_bound(g, tw),
    ensures
        tw == 1 <==> (is_acyclic(g.nbrs()) && !g.edgeless()),
{
    crate::treewidth::adjacency::lemma_graph_simple(g);
    if is_acyclic(g.nbrs()) && !g.edgeless() {
        lemma_forest_width_one(g, tw);
    }
    if !is_acyclic(g.nbrs()) {
        let c = choose|c: Seq<usize>| is_cycle(g.nbrs(), c);
        let o = choose|o: Seq<usize>| is_elimination_order(o, g.n as nat) && order_width(g.nbrs(), o) == tw as nat;
        lemma_order_covers_cycle(g, o, c);
        lemma_cycle_width_at_least_two(g.nbrs(), o, c);
    }
}

/// On a well-formed graph the scanning heuristics give 1 exactly when the
/// graph is a forest with an edge.
pub proof fn lemma_width_one_iff_forest_scan(g: &Graph, tw: u32)
    requires
        g.wf(),
        scan_bound(g, tw),
    ensures
        tw == 1 <==> (is_acyclic(g.nbrs()) && !g.edgeless()),
{
    crate::treewidth::adjacency::lemma_graph_simple(g);
    if is_acyclic(g.nbrs()) && !g.edgeless() {
        lemma_forest_width_one_scan(g, tw);
    }
    if !is_acyclic(g.nbrs()) {
        let c = choose|c: Seq<usize>| is_cycle(g.nbrs(), c);
        let o = choose|o: Seq<usize>| is_elimination_order(o, g.n as nat) && order_width(g.nbrs(), o) == tw as nat;
        lemma_order_covers_cycle(g, o, c);
        lemma_cycle_width_at_least_two(g.nbrs(), o, c);
    }
}

/// No vertex of `g` has more than two neighbours: `g` is made of paths and
/// cycles.
pub open spec fn degree_at_most_two(g: &Graph) -> bool {
    forall|u: int| 0 <= u < g.n ==> (#[trigger] g.adj@[u]@).len() <= 2
}

/// A graph made of paths and cycles with at least one cycle has width 2
/// under every elimination order.
proof fn lemma_paths_and_cycles_order_width(g: &Graph, o: Seq<usize>)
    requires
        g.wf(),
        degree_at_most_two(g),
        !is_acyclic(g.nbrs()),
        is_elimination_order(o, g.n as nat),
    ensures
        order_width(g.nbrs(), o) == 2,
{
    let nb = g.nbrs();
    crate::treewidth::adjacency::lemma_graph_simple(g);
    let c = choose|c: Seq<usize>| is_cycle(nb, c);
    lemma_order_covers_cycle(g, o, c);
    lemma_cycle_width_at_least_two(nb, o, c);
    assert forall|x: int| 0 <= x < nb.len() implies (#[trigger] nb[x]).len() <= 2 by {
        g.adj@[x]@.unique_seq_to_set();
    }
    lemma_degree_two_width(nb, o);
}

/// On a graph made of paths and cycles with at least one cycle (a cycle
/// such as C4, say) the heap-driven heuristics give 2.
pub proof fn lemma_cycle_width_two(g: &Graph, tw: u32)
    requires
        g.wf(),
        degree_at_most_two(g),
        !is_acyclic(g.nbrs()),
        native_bound(g, tw),
    ensures
        tw == 2,
{
    let o = choose|o: Seq<usize>| is_elimination_order(o, g.n as nat) && order_width(g.nbrs(), o) == tw as nat;
    lemma_paths_and_cycles_order_width(g, o);
}

/// On a graph made of paths and cycles with at least one cycle the scanning
/// heuristics give 2.
pub proof fn lemma_cycle_width_two_scan(g: &Graph, tw: u32)
    requires
        g.wf(),
        degree_at_most_two(g),
        !is_acyclic(g.nbrs()),
        scan_bound(g, tw),
    ensures
        tw == 2,
{
    let o = choose|o: Seq<usize>| is_elimination_order(o, g.n as nat) && order_width(g.nbrs(), o) == tw as nat;
    lemma_paths_and_cycles_order_width(g, o);
}

} // verus!
