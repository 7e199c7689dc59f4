//! Treewidth upper bound from the min-degree and min-fill elimination
//! heuristics, choosing each vertex by a linear scan with fresh priorities.

use vstd::prelude::*;
use crate::graph::{Graph, nbr_sets};
use crate::seq_lemmas::{all_below, lemma_covering_means_long, lemma_missing_means_short};
use crate::treewidth::adjacency::{
    contract, degree_key, lemma_graph_simple, lemma_sorted_list_len, lemma_strictly_sorted_distinct,
    shortcut_key, sorted_adj, sorted_lists,
};
use crate::treewidth::elimination::{
    eliminate, elimination_key, fill_in, is_elimination_order, lemma_eliminate_simple, nat_max, order_width,
    simple_nbrs,
};
use crate::treewidth::native::lemma_order_facts;

verus! {

/// `v` is what a left-to-right scan over the active vertices picks: an active
/// vertex of least priority, and the first one among equals.
pub open spec fn is_scan_pick(nb: Seq<Set<usize>>, active: Seq<bool>, by_fill: bool, v: usize) -> bool {
    &&& v < nb.len()
    &&& active[v as int]
    &&& forall|u: usize|
        u < nb.len() && #[trigger] active[u as int] ==> elimination_key(nb, v, by_fill) <= elimination_key(
            nb,
            u,
            by_fill,
        )
    &&& forall|u: usize|
        u < v && #[trigger] active[u as int] ==> elimination_key(nb, v, by_fill) < elimination_key(
            nb,
            u,
            by_fill,
        )
}

/// The vertex that the scan picks.
pub open spec fn scan_pick(nb: Seq<Set<usize>>, active: Seq<bool>, by_fill: bool) -> usize {
    choose|v: usize| is_scan_pick(nb, active, by_fill, v)
}

/// The next `steps` vertices that the scanning elimination picks, starting
/// from the graph `nb` with the vertices flagged in `active` still present.
pub open spec fn scan_order(nb: Seq<Set<usize>>, active: Seq<bool>, steps: nat, by_fill: bool) -> Seq<usize>
    decreases steps,
{
    if steps == 0 {
        Seq::empty()
    } else {
        let v = scan_pick(nb, active, by_fill);
        seq![v] + scan_order(eliminate(nb, v), active.update(v as int, false), (steps - 1) as nat, by_fill)
    }
}

/// Every vertex of `0..n` active.
pub open spec fn all_active(n: nat) -> Seq<bool> {
    Seq::new(n, |i: int| true)
}

/// At most one vertex is the scan's pick.
proof fn lemma_scan_pick_unique(nb: Seq<Set<usize>>, active: Seq<bool>, by_fill: bool, v: usize)
    requires
        is_scan_pick(nb, active, by_fill, v),
    ensures
        scan_pick(nb, active, by_fill) == v,
{
    let w = scan_pick(nb, active, by_fill);
    assert(is_scan_pick(nb, active, by_fill, w));
    if w < v {
        assert(active[w as int]);
    } else if v < w {
        assert(active[v as int]);
    }
}

/// Eliminates every vertex of `g`, each time taking the first active vertex
/// of least priority; returns the width of that order.
fn scan_elimination(g: &Graph, by_fill: bool) -> (tw: u32)
    requires
        g.wf(),
        g.n <= u32::MAX,
    ensures
        is_elimination_order(scan_order(g.nbrs(), all_active(g.n as nat), g.n as nat, by_fill), g.n as nat),
        tw as nat == order_width(g.nbrs(), scan_order(g.nbrs(), all_active(g.n as nat), g.n as nat, by_fill)),
{
    let n = g.n;
    let mut adj = sorted_adj(g);
    let ghost nb0 = nbr_sets(adj@);
    let ghost full = scan_order(nb0, all_active(n as nat), n as nat, by_fill);
    proof {
        lemma_graph_simple(g);
    }
    let mut active: Vec<bool> = Vec::new();
    let mut i: usize = 0;
    while i < n
        invariant
            i <= n,
            active@ == Seq::new(i as nat, |j: int| true),
        decreases n - i,
    {
        active.push(true);
        proof {
            assert(active@ =~= Seq::new((i + 1) as nat, |j: int| true));
        }
        i += 1;
    }
    let mut tw: u32 = 0;
    let ghost mut prefix: Seq<usize> = Seq::empty();
    let ghost mut cur = nb0;
    let mut step: usize = 0;
    proof {
        assert(prefix + full == full);
        assert forall|s: Seq<usize>| #[trigger] order_width(nb0, prefix + s) == nat_max(tw as nat, order_width(cur, s)) by {
            assert(prefix + s == s);
        }
    }
    while step < n
        invariant
            n == g.n,
            n <= u32::MAX,
            nb0 == g.nbrs(),
            full == scan_order(nb0, all_active(n as nat), n as nat, by_fill),
            sorted_lists(adj@, n as nat),
            nbr_sets(adj@) == cur,
            simple_nbrs(cur),
            cur.len() == n,
            active@.len() == n,
            step <= n,
            prefix.len() == step,
            prefix.no_duplicates(),
            all_below(prefix, n as nat),
            forall|x: usize| x < n ==> (prefix.contains(x) <==> !(#[trigger] active@[x as int])),
            forall|x: usize| x < n && !(#[trigger] active@[x as int]) ==> cur[x as int] == Set::<usize>::empty(),
            full == prefix + scan_order(cur, active@, (n - step) as nat, by_fill),
            forall|s: Seq<usize>| #[trigger] order_width(nb0, prefix + s) == nat_max(tw as nat, order_width(cur, s)),
        decreases n - step,
    {
        let mut found = false;
        let mut best: usize = 0;
        let mut best_key: u128 = 0;
        let mut u: usize = 0;
        while u < n
            invariant
                n == g.n,
                n <= u32::MAX,
                sorted_lists(adj@, n as nat),
                nbr_sets(adj@) == cur,
                active@.len() == n,
                u <= n,
                found ==> best < u && active@[best as int] && best_key == elimination_key(cur, best, by_fill),
                found ==> forall|w: usize| w < u && #[trigger] active@[w as int] ==> best_key <= elimination_key(cur, w, by_fill),
                found ==> forall|w: usize| w < best && #[trigger] active@[w as int] ==> best_key < elimination_key(cur, w, by_fill),
                !found ==> forall|w: usize| w < u ==> !(#[trigger] active@[w as int]),
            decreases n - u,
        {
            if active[u] {
                proof {
                    lemma_sorted_list_len(adj@[u as int]@, n as nat);
                }
                let key = if by_fill { shortcut_key(u, &adj) } else { degree_key(u, &adj) };
                if !found || key < best_key {
                    best = u;
                    best_key = key;
                    found = true;
                }
            }
            u += 1;
        }
        proof {
            if !found {
                assert forall|x: usize| x < n implies prefix.contains(x) by {
                    assert(!active@[x as int]);
                }
                lemma_covering_means_long(prefix, n as nat);
            }
        }
        let v = best;
        proof {
            assert(is_scan_pick(cur, active@, by_fill, v));
            lemma_scan_pick_unique(cur, active@, by_fill, v);
            lemma_strictly_sorted_distinct(adj@[v as int]@);
            adj@[v as int]@.unique_seq_to_set();
            lemma_sorted_list_len(adj@[v as int]@, n as nat);
            assert(cur[v as int] == adj@[v as int]@.to_set());
            assert(!adj@[v as int]@.contains(v)) by {
                if adj@[v as int]@.contains(v) {
                    assert(cur[v as int].contains(v));
                }
            }
        }
        let deg = adj[v].len() as u32;
        if deg > tw {
            tw = deg;
        }
        let ghost old_cur = cur;
        let ghost old_active = active@;
        let ghost old_prefix = prefix;
        let ghost old_tw = tw;
        contract(&mut adj, v);
        active.set(v, false);
        proof {
            cur = eliminate(old_cur, v);
            lemma_eliminate_simple(old_cur, v);
            prefix = old_prefix.push(v);
            let m = (n - step) as nat;
            let rest = scan_order(cur, active@, (m - 1) as nat, by_fill);
            assert(old_active.update(v as int, false) == active@);
            assert(scan_order(old_cur, old_active, m, by_fill) == seq![v] + rest);
            assert(full == prefix + rest) by {
                assert(old_prefix + (seq![v] + rest) == prefix + rest);
            }
            assert(!old_prefix.contains(v));
            assert(prefix.no_duplicates()) by {
                assert forall|a: int, b: int| 0 <= a < prefix.len() && 0 <= b < prefix.len() && a != b implies prefix[a] != prefix[b] by {
                    if a < old_prefix.len() && b < old_prefix.len() {
                        assert(old_prefix[a] != old_prefix[b]);
                    } else if a < old_prefix.len() {
                        assert(old_prefix.contains(prefix[a]));
                    } else {
                        assert(old_prefix.contains(prefix[b]));
                    }
                }
            }
            assert forall|x: usize| x < n implies (prefix.contains(x) <==> !(#[trigger] active@[x as int])) by {
                if prefix.contains(x) && x != v {
                    let j = choose|j: int| 0 <= j < prefix.len() && prefix[j] == x;
                    assert(old_prefix[j] == x);
                }
                if old_prefix.contains(x) {
                    let j = choose|j: int| 0 <= j < old_prefix.len() && old_prefix[j] == x;
                    assert(prefix[j] == x);
                }
                assert(prefix[prefix.len() - 1] == v);
            }
            assert forall|x: usize| x < n && !(#[trigger] active@[x as int]) implies cur[x as int] == Set::<usize>::empty() by {
                if x != v {
                    assert(!old_active[x as int]);
                    assert(!old_cur[v as int].contains(x)) by {
                        if old_cur[v as int].contains(x) {
                            assert(old_cur[x as int].contains(v));
                        }
                    }
                }
            }
            assert forall|s: Seq<usize>| #[trigger] order_width(nb0, prefix + s) == nat_max(tw as nat, order_width(cur, s)) by {
                let s2 = seq![v] + s;
                assert(s2[0] == v);
                assert(s2.drop_first() == s);
                assert(old_prefix + s2 == prefix + s);
                assert(order_width(nb0, old_prefix + s2) == nat_max(old_tw as nat, order_width(old_cur, s2)));
            }
        }
        step += 1;
    }
    proof {
        assert(prefix + Seq::<usize>::empty() == prefix);
        assert(full == prefix);
        assert(order_width(nb0, prefix + Seq::<usize>::empty()) == nat_max(tw as nat, 0));
        assert forall|x: usize| x < n as nat implies prefix.contains(x) by {
            if !prefix.contains(x) {
                lemma_missing_means_short(prefix, n as nat, x);
            }
        }
    }
    tw
}

/// The width of the min-degree elimination order that the scan picks.
fn min_degree(g: &Graph) -> (tw: u32)
    requires
        g.wf(),
        g.n <= u32::MAX,
    ensures
        is_elimination_order(scan_order(g.nbrs(), all_active(g.n as nat), g.n as nat, false), g.n as nat),
        tw as nat == order_width(g.nbrs(), scan_order(g.nbrs(), all_active(g.n as nat), g.n as nat, false)),
{
    scan_elimination(g, false)
}

/// The width of the min-fill elimination order that the scan picks.
fn min_fill(g: &Graph) -> (tw: u32)
    requires
        g.wf(),
        g.n <= u32::MAX,
    ensures
        is_elimination_order(scan_order(g.nbrs(), all_active(g.n as nat), g.n as nat, true), g.n as nat),
        tw as nat == order_width(g.nbrs(), scan_order(g.nbrs(), all_active(g.n as nat), g.n as nat, true)),
{
    scan_elimination(g, true)
}

/// What the scanning heuristics return for `g`:
/// - 0 for a graph with at most one vertex or without edges;
/// - otherwise the smaller of the widths of the min-degree and the min-fill
///   orders that the scan picks;
/// - in every case the width of some elimination order of all vertices (so
///   an upper bound on the treewidth), 0 exactly when there is no edge, and
///   below the number of vertices.
pub open spec fn scan_bound(g: &Graph, tw: u32) -> bool {
    &&& (g.n <= 1 || g.spec_edge_count() == 0) ==> tw == 0
    &&& !(g.n <= 1 || g.spec_edge_count() == 0) ==> {
        let d = order_width(g.nbrs(), scan_order(g.nbrs(), all_active(g.n as nat), g.n as nat, false));
        let f = order_width(g.nbrs(), scan_order(g.nbrs(), all_active(g.n as nat), g.n as nat, true));
        tw as nat == (if d <= f {
            d
        } else {
            f
        })
    }
    &&& exists|o: Seq<usize>| is_elimination_order(o, g.n as nat) && order_width(g.nbrs(), o) == tw as nat
    &&& tw == 0 <==> g.edgeless()
    &&& g.n >= 1 ==> tw < g.n
}

/// An upper bound on the treewidth of `g`: the smaller of the widths of the
/// min-degree and the min-fill elimination orders, each vertex chosen as the
/// first active vertex of least priority (min-fill priority: fill-in times
/// 100 plus degree). A graph with at most one vertex, or without edges, gets
/// 0.
pub fn compute(g: &Graph) -> (tw: u32)
    requires
        g.wf(),
        g.n <= u32::MAX,
    ensures
        scan_bound(g, tw),
{
    proof {
        crate::graph::lemma_edgeless(g);
    }
    if g.n <= 1 || g.edge_count() == 0 {
        proof {
            let o = Seq::new(g.n as nat, |i: int| i as usize);
            assert(is_elimination_order(o, g.n as nat)) by {
                assert forall|u: usize| u < g.n as nat implies o.contains(u) by {
                    assert(o[u as int] == u);
                }
            }
            lemma_order_facts(g, o);
        }
        return 0;
    }
    let d = min_degree(g);
    let f = min_fill(g);
    proof {
        lemma_order_facts(g, scan_order(g.nbrs(), all_active(g.n as nat), g.n as nat, false));
        lemma_order_facts(g, scan_order(g.nbrs(), all_active(g.n as nat), g.n as nat, true));
    }
    if d <= f {
        d
    } else {
        f
    }
}

/// The vertices below `n` that `active` flags.
pub open spec fn active_set(n: nat, active: Seq<bool>) -> Set<usize> {
    Set::new(|u: usize| u < n && active[u as int])
}

/// The first active vertex of least priority among the vertices below `m`,
/// if one of them is active.
proof fn lemma_scan_prefix(nb: Seq<Set<usize>>, active: Seq<bool>, by_fill: bool, m: nat) -> (r: Option<usize>)
    requires
        m <= nb.len(),
        nb.len() <= usize::MAX,
    ensures
        r is None ==> forall|u: usize| u < m ==> !(#[trigger] active[u as int]),
        r matches Some(v) ==> {
            &&& v < m
            &&& active[v as int]
            &&& forall|u: usize|
                u < m && #[trigger] active[u as int] ==> elimination_key(nb, v, by_fill) <= elimination_key(
                    nb,
                    u,
                    by_fill,
                )
            &&& forall|u: usize|
                u < v && #[trigger] active[u as int] ==> elimination_key(nb, v, by_fill) < elimination_key(
                    nb,
                    u,
                    by_fill,
                )
        },
    decreases m,
{
    if m == 0 {
        None
    } else {
        let last = (m - 1) as usize;
        let r = lemma_scan_prefix(nb, active, by_fill, (m - 1) as nat);
        if !active[last as int] {
            r
        } else {
            match r {
                None => Some(last),
                Some(v) => {
                    if elimination_key(nb, last, by_fill) < elimination_key(nb, v, by_fill) {
                        Some(last)
                    } else {
                        Some(v)
                    }
                },
            }
        }
    }
}

/// While some vertex is active, the scan has a pick.
proof fn lemma_scan_pick_exists(nb: Seq<Set<usize>>, active: Seq<bool>, by_fill: bool, x: usize)
    requires
        nb.len() <= usize::MAX,
        x < nb.len(),
        active[x as int],
    ensures
        is_scan_pick(nb, active, by_fill, scan_pick(nb, active, by_fill)),
{
    let r = lemma_scan_prefix(nb, active, by_fill, nb.len());
    let v = r->0;
    assert(is_scan_pick(nb, active, by_fill, v));
}

/// The scanning min-degree elimination eliminates, at every step, an active
/// vertex of least current degree, and eliminates all active vertices.
pub proof fn lemma_scan_picks_least_degree(nb: Seq<Set<usize>>, active: Seq<bool>, steps: nat)
    requires
        simple_nbrs(nb),
        active.len() == nb.len(),
        steps == active_set(nb.len(), active).len(),
    ensures
        crate::treewidth::native::picks_min_degree(
            nb,
            scan_order(nb, active, steps, false),
            active_set(nb.len(), active),
        ),
    decreases steps,
{
    let n = nb.len();
    let s = active_set(n, active);
    let range = Set::<usize>::range(0, n as usize);
    vstd::set_lib::range_set_properties::<usize>(0, n as usize);
    assert(s.subset_of(range));
    vstd::set_lib::lemma_set_subset_finite(range, s);
    if steps == 0 {
        assert(s =~= Set::<usize>::empty()) by {
            if exists|u: usize| s.contains(u) {
                let u = choose|u: usize| s.contains(u);
                assert(s.remove(u).len() == s.len() - 1);
            }
        }
    } else {
        assert(exists|u: usize| s.contains(u)) by {
            if forall|u: usize| !s.contains(u) {
                assert(s =~= Set::<usize>::empty());
            }
        }
        let x = choose|u: usize| s.contains(u);
        lemma_scan_pick_exists(nb, active, false, x);
        let v = scan_pick(nb, active, false);
        let after = eliminate(nb, v);
        let next = active.update(v as int, false);
        lemma_eliminate_simple(nb, v);
        assert(active_set(n, next) =~= s.remove(v));
        let rest = scan_order(after, next, (steps - 1) as nat, false);
        lemma_scan_picks_least_degree(after, next, (steps - 1) as nat);
        let ord = scan_order(nb, active, steps, false);
        assert(ord == seq![v] + rest);
        assert(ord[0] == v);
        assert(ord.drop_first() == rest);
        assert forall|u: usize| #[trigger] s.contains(u) implies nb[v as int].len() <= nb[u as int].len() by {
            assert(active[u as int]);
        }
    }
}

/// `ord` eliminates, at every step, a remaining vertex whose elimination adds
/// the fewest fill-in edges, and among those one of least current degree; and
/// it eliminates all of the remaining vertices.
pub open spec fn picks_min_fill(nb: Seq<Set<usize>>, ord: Seq<usize>, remaining: Set<usize>) -> bool
    decreases ord.len(),
{
    if ord.len() == 0 {
        remaining == Set::<usize>::empty()
    } else {
        let v = ord[0];
        &&& remaining.contains(v)
        &&& forall|u: usize| #[trigger] remaining.contains(u) ==> fill_in(nb, v) <= fill_in(nb, u)
        &&& forall|u: usize|
            #[trigger] remaining.contains(u) && fill_in(nb, u) == fill_in(nb, v) ==> nb[v as int].len()
                <= nb[u as int].len()
        &&& picks_min_fill(eliminate(nb, v), ord.drop_first(), remaining.remove(v))
    }
}

/// A vertex of a simple graph has fewer neighbours than the graph has
/// vertices.
pub proof fn lemma_degree_below_order(nb: Seq<Set<usize>>, x: usize)
    requires
        simple_nbrs(nb),
        x < nb.len(),
    ensures
        nb[x as int].len() < nb.len(),
{
    let others = Set::<usize>::range(0, nb.len() as usize).remove(x);
    vstd::set_lib::range_set_properties::<usize>(0, nb.len() as usize);
    assert(nb[x as int].subset_of(others));
    vstd::set_lib::lemma_len_subset(nb[x as int], others);
}

/// On graphs with at most 100 vertices, where no degree reaches the weight
/// 100 of the fill-in, the scanning min-fill elimination eliminates at every
/// step a vertex that adds the fewest fill-in edges, ties going to the least
/// degree.
pub proof fn lemma_scan_picks_least_fill(nb: Seq<Set<usize>>, active: Seq<bool>, steps: nat)
    requires
        simple_nbrs(nb),
        nb.len() <= 100,
        active.len() == nb.len(),
        steps == active_set(nb.len(), active).len(),
    ensures
        picks_min_fill(nb, scan_order(nb, active, steps, true), active_set(nb.len(), active)),
    decreases steps,
{
    let n = nb.len();
    let s = active_set(n, active);
    let range = Set::<usize>::range(0, n as usize);
    vstd::set_lib::range_set_properties::<usize>(0, n as usize);
    assert(s.subset_of(range));
    vstd::set_lib::lemma_set_subset_finite(range, s);
    if steps == 0 {
        assert(s =~= Set::<usize>::empty()) by {
            if exists|u: usize| s.contains(u) {
                let u = choose|u: usize| s.contains(u);
                assert(s.remove(u).len() == s.len() - 1);
            }
        }
    } else {
        assert(exists|u: usize| s.contains(u)) by {
            if forall|u: usize| !s.contains(u) {
                assert(s =~= Set::<usize>::empty());
            }
        }
        let x = choose|u: usize| s.contains(u);
        lemma_scan_pick_exists(nb, active, true, x);
        let v = scan_pick(nb, active, true);
        let after = eliminate(nb, v);
        let next = active.update(v as int, false);
        lemma_eliminate_simple(nb, v);
        assert(active_set(n, next) =~= s.remove(v));
        let rest = scan_order(after, next, (steps - 1) as nat, true);
        lemma_scan_picks_least_fill(after, next, (steps - 1) as nat);
        let ord = scan_order(nb, active, steps, true);
        assert(ord == seq![v] + rest);
        assert(ord[0] == v);
        assert(ord.drop_first() == rest);
        assert forall|u: usize| #[trigger] s.contains(u) implies fill_in(nb, v) <= fill_in(nb, u) && (fill_in(
            nb,
            u,
        ) == fill_in(nb, v) ==> nb[v as int].len() <= nb[u as int].len()) by {
            assert(active[u as int]);
            lemma_degree_below_order(nb, u);
            lemma_degree_below_order(nb, v);
            assert(elimination_key(nb, v, true) <= elimination_key(nb, u, true));
        }
    }
}

/// The scanning heuristics' result depends on the edges alone: graphs on the
/// same vertices with the same edges, listed in any order, get the same
/// result.
pub proof fn lemma_scan_result_depends_on_edges(g1: &Graph, g2: &Graph, t1: u32, t2: u32)
    requires
        g1.wf(),
        g2.wf(),
        g1.n == g2.n,
        forall|u: usize, w: usize|
            u < g1.n ==> (#[trigger] g1.adj@[u as int]@.contains(w) <==> g2.adj@[u as int]@.contains(w)),
        scan_bound(g1, t1),
        scan_bound(g2, t2),
    ensures
        t1 == t2,
{
    crate::treewidth::native::lemma_same_edges_same_nbrs(g1, g2);
    crate::graph::lemma_edgeless(g1);
    crate::graph::lemma_edgeless(g2);
    assert forall|u: int| 0 <= u < g1.n implies (#[trigger] g1.adj@[u]@).len() == g2.adj@[u]@.len() by {
        g1.adj@[u]@.unique_seq_to_set();
        g2.adj@[u]@.unique_seq_to_set();
        assert(g1.nbrs()[u] == g2.nbrs()[u]);
    }
    if g1.edgeless() {
        assert forall|u: int| 0 <= u < g2.n implies (#[trigger] g2.adj@[u]@).len() == 0 by {
            assert(g1.adj@[u]@.len() == 0);
        }
    }
    if g2.edgeless() {
        assert forall|u: int| 0 <= u < g1.n implies (#[trigger] g1.adj@[u]@).len() == 0 by {
            assert(g2.adj@[u]@.len() == 0);
        }
    }
}

} // verus!
