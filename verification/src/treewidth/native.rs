//! Treewidth upper bound from the min-degree and min-fill elimination
//! heuristics, each driven by an indexed min-heap of priorities.

use vstd::prelude::*;
use crate::graph::{Graph, nbr_sets};
use crate::seq_lemmas::{all_below, lemma_distinct_below_len};
use crate::treewidth::adjacency::{
    contract, degree_key, lemma_graph_simple, lemma_sorted_list_len, lemma_strictly_sorted_distinct,
    shortcut_key, sorted_adj, sorted_lists,
};
use crate::treewidth::elimination::{
    eliminate, elimination_key, follows_stored_keys, initial_keys, is_elimination_order,
    lemma_eliminate_simple, lemma_stored_key_order_is_permutation, lemma_width_bound,
    lemma_width_zero_iff, nat_max, order_width, refreshed_keys, simple_nbrs,
};
use crate::treewidth::adjacency::{lemma_sorted_eq, strictly_sorted};
use crate::treewidth::min_heap::{holds_id, pop_entries, push_entries, set_key_entries, HeapEntry, MinIdHeap};

verus! {

/// The elements of `s` in increasing order.
pub open spec fn sorted_seq(s: Set<usize>) -> Seq<usize> {
    choose|q: Seq<usize>| strictly_sorted(q) && q.to_set() == s
}

/// An increasing sequence is the sorted sequence of its elements.
proof fn lemma_sorted_seq_of(q: Seq<usize>)
    requires
        strictly_sorted(q),
    ensures
        sorted_seq(q.to_set()) == q,
{
    let r = sorted_seq(q.to_set());
    assert(strictly_sorted(r) && r.to_set() == q.to_set());
    lemma_sorted_eq(r, q);
}

/// The priority of `u` as the heap stores it.
pub open spec fn heap_key(nb: Seq<Set<usize>>, u: usize, by_fill: bool) -> u128 {
    elimination_key(nb, u, by_fill) as u128
}

/// The heap slots after the vertices `0..k` are pushed in order with their
/// priorities.
pub open spec fn initial_entries(nb: Seq<Set<usize>>, by_fill: bool, k: nat) -> Seq<HeapEntry>
    decreases k,
{
    if k == 0 {
        Seq::empty()
    } else {
        push_entries(
            initial_entries(nb, by_fill, (k - 1) as nat),
            (k - 1) as usize,
            heap_key(nb, (k - 1) as usize, by_fill),
        )
    }
}

/// The heap slots after the vertices `ys` get, in order, their priorities in
/// the graph `nb`.
pub open spec fn reprice(h: Seq<HeapEntry>, nb: Seq<Set<usize>>, ys: Seq<usize>, by_fill: bool) -> Seq<HeapEntry>
    decreases ys.len(),
{
    if ys.len() == 0 {
        h
    } else {
        set_key_entries(reprice(h, nb, ys.drop_last(), by_fill), ys.last(), heap_key(nb, ys.last(), by_fill))
    }
}

/// The width that the heap-driven elimination reaches from the graph `cur`
/// and the heap slots `h`, popping at most `fuel` times: the vertex in the
/// root slot goes, and its neighbours, in increasing order, get their
/// priorities in the graph that remains.
pub open spec fn heap_width_from(cur: Seq<Set<usize>>, h: Seq<HeapEntry>, by_fill: bool, fuel: nat) -> nat
    decreases fuel,
{
    if fuel == 0 || h.len() == 0 {
        0
    } else {
        let v = h[0].id;
        let after = eliminate(cur, v);
        nat_max(
            cur[v as int].len(),
            heap_width_from(after, reprice(pop_entries(h), after, sorted_seq(cur[v as int]), by_fill), by_fill, (fuel - 1) as nat),
        )
    }
}

/// The width of the heap-driven elimination of the graph `nb` under the
/// min-degree rule (`by_fill == false`) or the min-fill rule.
pub open spec fn heap_width(nb: Seq<Set<usize>>, by_fill: bool) -> nat {
    heap_width_from(nb, initial_entries(nb, by_fill, nb.len()), by_fill, nb.len())
}

/// What the heap-driven heuristics return for the graph `nb`: 0 for at most
/// one vertex or no edge, otherwise the smaller of the two heap widths.
pub open spec fn native_value(nb: Seq<Set<usize>>) -> nat {
    if nb.len() <= 1 || forall|u: int| 0 <= u < nb.len() ==> (#[trigger] nb[u]).len() == 0 {
        0
    } else if heap_width(nb, false) <= heap_width(nb, true) {
        heap_width(nb, false)
    } else {
        heap_width(nb, true)
    }
}

/// `w` is the width of an order that the heap-driven greedy elimination can
/// produce under the min-degree rule (`by_fill == false`) or the min-fill
/// rule (`by_fill == true`).
pub open spec fn heap_greedy_width(nb: Seq<Set<usize>>, w: nat, by_fill: bool) -> bool {
    exists|o: Seq<usize>|
        follows_stored_keys(nb, initial_keys(nb, by_fill), o, by_fill) && #[trigger] order_width(nb, o) == w
}

/// `ord` eliminates, at every step, a vertex of least current degree among
/// the vertices in `remaining`, and eliminates all of them.
pub open spec fn picks_min_degree(nb: Seq<Set<usize>>, ord: Seq<usize>, remaining: Set<usize>) -> bool
    decreases ord.len(),
{
    if ord.len() == 0 {
        remaining == Set::<usize>::empty()
    } else {
        let v = ord[0];
        &&& remaining.contains(v)
        &&& forall|u: usize| #[trigger] remaining.contains(u) ==> nb[v as int].len() <= nb[u as int].len()
        &&& picks_min_degree(eliminate(nb, v), ord.drop_first(), remaining.remove(v))
    }
}

/// The current degree of every vertex in `dom`.
pub open spec fn degree_keys(nb: Seq<Set<usize>>, dom: Set<usize>) -> Map<usize, int> {
    Map::new(|u: usize| dom.contains(u), |u: usize| nb[u as int].len() as int)
}

/// Under the min-degree rule the stored priorities stay the current degrees,
/// so an order that follows them picks a vertex of least current degree at
/// every step.
pub proof fn lemma_stored_degrees_are_current(nb: Seq<Set<usize>>, dom: Set<usize>, ord: Seq<usize>)
    requires
        follows_stored_keys(nb, degree_keys(nb, dom), ord, false),
        forall|u: usize| #[trigger] dom.contains(u) ==> u < nb.len(),
    ensures
        picks_min_degree(nb, ord, dom),
    decreases ord.len(),
{
    let keys = degree_keys(nb, dom);
    if ord.len() == 0 {
        assert(dom =~= keys.dom());
    } else {
        let v = ord[0];
        let after = eliminate(nb, v);
        let next = refreshed_keys(after, keys, v, nb[v as int], false);
        assert(next =~= degree_keys(after, dom.remove(v))) by {
            assert forall|u: usize| #[trigger] next.dom().contains(u) implies next[u] == degree_keys(after, dom.remove(v))[u] by {
                if !nb[v as int].contains(u) {
                    assert(after[u as int] == nb[u as int]);
                }
            }
        }
        assert forall|u: usize| #[trigger] dom.contains(u) implies nb[v as int].len() <= nb[u as int].len() by {
            assert(keys.dom().contains(u));
        }
        lemma_stored_degrees_are_current(after, dom.remove(v), ord.drop_first());
    }
}

/// The heap-driven min-degree elimination of a graph eliminates, at every
/// step, a remaining vertex of least current degree.
pub proof fn lemma_min_degree_picks_least_degree(g: &Graph, ord: Seq<usize>)
    requires
        follows_stored_keys(g.nbrs(), initial_keys(g.nbrs(), false), ord, false),
    ensures
        picks_min_degree(g.nbrs(), ord, Set::new(|u: usize| u < g.nbrs().len())),
{
    let nb = g.nbrs();
    let dom = Set::new(|u: usize| u < nb.len());
    assert(initial_keys(nb, false) =~= degree_keys(nb, dom));
    lemma_stored_degrees_are_current(nb, dom, ord);
}

/// The facts about one elimination order of a well-formed graph: its width
/// is zero exactly when the graph has no edge, and it is below the number of
/// vertices.
pub proof fn lemma_order_facts(g: &Graph, o: Seq<usize>)
    requires
        g.wf(),
        is_elimination_order(o, g.n as nat),
    ensures
        order_width(g.nbrs(), o) == 0 <==> g.edgeless(),
        g.n >= 1 ==> order_width(g.nbrs(), o) <= g.n - 1,
        g.n == 0 ==> order_width(g.nbrs(), o) == 0,
{
    let nb = g.nbrs();
    lemma_graph_simple(g);
    lemma_width_zero_iff(nb, o);
    lemma_distinct_below_len(o, g.n as nat);
    assert forall|u: int| 0 <= u < g.n implies (#[trigger] nb[u]).len() == g.adj@[u]@.len() by {
        g.adj@[u]@.unique_seq_to_set();
    }
    if order_width(nb, o) == 0 {
        assert forall|u: int| 0 <= u < g.n implies (#[trigger] g.adj@[u]@).len() == 0 by {
            assert(o.contains(u as usize));
            let i = choose|i: int| 0 <= i < o.len() && o[i] == u as usize;
            assert(nb[o[i] as int].len() == 0);
        }
    }
    if g.edgeless() {
        assert forall|i: int| 0 <= i < o.len() implies (#[trigger] nb[o[i] as int]).len() == 0 by {
            assert(o[i] < g.n);
            assert(g.adj@[o[i] as int]@.len() == 0);
        }
    }
    assert forall|a: int, b: usize| 0 <= a < nb.len() && #[trigger] nb[a].contains(b) implies o.contains(b) by {}
    lemma_width_bound(nb, o);
}

/// Eliminates every vertex of `g`, always taking a vertex of least stored
/// priority from the heap and re-pricing only the neighbours of the vertex
/// it eliminates; returns the width of the order it produced.
fn heap_elimination(g: &Graph, by_fill: bool) -> (tw: u32)
    requires
        g.wf(),
        g.n <= u32::MAX,
    ensures
        heap_greedy_width(g.nbrs(), tw as nat, by_fill),
        tw as nat == heap_width(g.nbrs(), by_fill),
{
    let n = g.n;
    let mut adj = sorted_adj(g);
    let ghost nb0 = nbr_sets(adj@);
    let ghost keys0 = initial_keys(nb0, by_fill);
    proof {
        lemma_graph_simple(g);
    }
    let mut heap = MinIdHeap::with_capacity(n);
    let mut v: usize = 0;
    while v < n
        invariant
            n == g.n,
            n <= u32::MAX,
            sorted_lists(adj@, n as nat),
            nbr_sets(adj@) == nb0,
            heap.wf(),
            heap.capacity() == n,
            heap.size() == v,
            v <= n,
            heap.view() == Map::new(|u: usize| u < v, |u: usize| elimination_key(nb0, u, by_fill)),
            heap.entries() == initial_entries(nb0, by_fill, v as nat),
        decreases n - v,
    {
        proof {
            lemma_sorted_list_len(adj@[v as int]@, n as nat);
        }
        let key = if by_fill { shortcut_key(v, &adj) } else { degree_key(v, &adj) };
        let ghost before = heap.view();
        proof {
            assert(!before.dom().contains(v));
        }
        proof {
            assert(heap_key(nb0, v, by_fill) == key);
        }
        heap.push(v, key);
        proof {
            assert(heap.view() =~= Map::new(|u: usize| u < v + 1, |u: usize| elimination_key(nb0, u, by_fill)));
        }
        v += 1;
    }
    proof {
        assert(heap.view() =~= keys0);
    }
    let mut tw: u32 = 0;
    let ghost mut prefix: Seq<usize> = Seq::empty();
    let ghost mut cur = nb0;
    let ghost mut fuel: nat = n as nat;
    proof {
        heap.lemma_entries();
        assert(nb0.len() == n);
    }
    loop
        invariant
            n == g.n,
            n <= u32::MAX,
            nb0 == g.nbrs(),
            keys0 == initial_keys(nb0, by_fill),
            sorted_lists(adj@, n as nat),
            nbr_sets(adj@) == cur,
            simple_nbrs(cur),
            cur.len() == n,
            heap.wf(),
            heap.capacity() == n,
            forall|x: usize| x < n && !heap.view().dom().contains(x) ==> (#[trigger] cur[x as int]) == Set::<usize>::empty(),
            forall|s: Seq<usize>|
                #[trigger] follows_stored_keys(cur, heap.view(), s, by_fill) ==> follows_stored_keys(nb0, keys0, prefix + s, by_fill)
                    && order_width(nb0, prefix + s) == nat_max(tw as nat, order_width(cur, s)),
            heap.entries().len() <= fuel,
            heap_width(nb0, by_fill) == nat_max(tw as nat, heap_width_from(cur, heap.entries(), by_fill, fuel)),
        ensures
            heap_greedy_width(nb0, tw as nat, by_fill),
            tw as nat == heap_width(nb0, by_fill),
        decreases heap.size(),
    {
        let ghost keys = heap.view();
        let ghost ents = heap.entries();
        let ghost size_before = heap.size();
        proof {
            heap.lemma_entries();
            if ents.len() > 0 {
                assert(holds_id(ents, ents[0].id));
                assert(keys.dom().contains(ents[0].id));
            }
        }
        let popped = heap.pop();
        let v = match popped {
            Some(v) => v,
            None => {
                proof {
                    assert(follows_stored_keys(cur, keys, Seq::<usize>::empty(), by_fill));
                    assert(prefix + Seq::<usize>::empty() == prefix);
                    assert(follows_stored_keys(nb0, keys0, prefix, by_fill));
                    assert(order_width(nb0, prefix) == tw as nat);
                    assert(ents.len() == 0);
                }
                break;
            },
        };
        proof {
            assert(v < n);
            lemma_strictly_sorted_distinct(adj@[v as int]@);
            adj@[v as int]@.unique_seq_to_set();
            lemma_sorted_list_len(adj@[v as int]@, n as nat);
            assert(cur[v as int] == adj@[v as int]@.to_set());
            assert(!adj@[v as int]@.contains(v)) by {
                if adj@[v as int]@.contains(v) {
                    assert(cur[v as int].contains(v));
                }
            }
        }
        let deg = adj[v].len() as u32;
        if deg > tw {
            tw = deg;
        }
        let ghost old_cur = cur;
        let ghost old_adj = adj@;
        let v_nb = contract(&mut adj, v);
        proof {
            cur = eliminate(old_cur, v);
            lemma_eliminate_simple(old_cur, v);
        }
        let ghost vs = v_nb@;
        proof {
            assert(ents.len() > 0);
            assert(v == ents[0].id);
            assert(strictly_sorted(vs));
            assert(vs.to_set() == old_cur[v as int]);
            lemma_sorted_seq_of(vs);
            heap.lemma_entries();
        }
        let ghost popped_ents = heap.entries();
        let ghost after_pop = heap.view();
        let ghost size_after_pop = heap.size();
        let mut k: usize = 0;
        while k < v_nb.len()
            invariant
                n == g.n,
                n <= u32::MAX,
                sorted_lists(adj@, n as nat),
                nbr_sets(adj@) == cur,
                simple_nbrs(old_cur),
                old_cur.len() == n,
                cur == eliminate(old_cur, v),
                v < n,
                v_nb@ == vs,
                vs.to_set() == old_cur[v as int],
                all_below(vs, n as nat),
                vs.no_duplicates(),
                keys.dom().contains(v),
                after_pop == keys.remove(v),
                forall|x: usize| x < n && !keys.dom().contains(x) ==> (#[trigger] old_cur[x as int]) == Set::<usize>::empty(),
                heap.wf(),
                heap.capacity() == n,
                k <= vs.len(),
                heap.size() == size_after_pop,
                heap.view() == Map::new(
                    |u: usize| keys.dom().contains(u) && u != v,
                    |u: usize| if vs.take(k as int).contains(u) { elimination_key(cur, u, by_fill) } else { keys[u] },
                ),
                heap.entries() == reprice(popped_ents, cur, vs.take(k as int), by_fill),
            decreases vs.len() - k,
        {
            let y = v_nb[k];
            proof {
                assert(vs.contains(y));
                assert(old_cur[v as int].contains(y));
                assert(old_cur[y as int].contains(v));
                assert(y < n);
                assert(keys.dom().contains(y));
                assert(y != v);
                assert(heap.view().dom().contains(y));
            }
            proof {
                lemma_sorted_list_len(adj@[y as int]@, n as nat);
            }
            let key = if by_fill { shortcut_key(y, &adj) } else { degree_key(y, &adj) };
            let ghost before_set = heap.entries();
            proof {
                assert(heap_key(cur, y, by_fill) == key);
            }
            heap.push_or_set_key(y, key);
            proof {
                let t1 = vs.take(k + 1);
                let t0 = vs.take(k as int);
                assert(t1.drop_last() == t0);
                assert(t1.last() == y);
                assert forall|u: usize| t1.contains(u) <==> (t0.contains(u) || u == y) by {
                    if t1.contains(u) {
                        let j = choose|j: int| 0 <= j < t1.len() && t1[j] == u;
                        if j < k {
                            assert(t0[j] == u);
                        }
                    }
                    if t0.contains(u) {
                        let j = choose|j: int| 0 <= j < t0.len() && t0[j] == u;
                        assert(t1[j] == u);
                    }
                    if u == y {
                        assert(t1[k as int] == u);
                    }
                }
                assert(heap.view() =~= Map::new(
                    |u: usize| keys.dom().contains(u) && u != v,
                    |u: usize| if t1.contains(u) { elimination_key(cur, u, by_fill) } else { keys[u] },
                ));
            }
            k += 1;
        }
        proof {
            assert(vs.take(vs.len() as int) == vs);
            heap.lemma_entries();
            assert(heap.entries() == reprice(pop_entries(ents), cur, sorted_seq(old_cur[v as int]), by_fill));
            assert(old_cur[v as int].len() == deg);
            assert(heap_width_from(old_cur, ents, by_fill, fuel) == nat_max(
                deg as nat,
                heap_width_from(cur, heap.entries(), by_fill, (fuel - 1) as nat),
            ));
            fuel = (fuel - 1) as nat;
            let new_keys = refreshed_keys(cur, keys, v, old_cur[v as int], by_fill);
            assert forall|u: usize| vs.contains(u) <==> old_cur[v as int].contains(u) by {}
            assert(heap.view() =~= new_keys);
            let old_prefix = prefix;
            prefix = prefix.push(v);
            assert forall|s: Seq<usize>|
                #[trigger] follows_stored_keys(cur, heap.view(), s, by_fill) implies follows_stored_keys(nb0, keys0, prefix + s, by_fill)
                    && order_width(nb0, prefix + s) == nat_max(tw as nat, order_width(cur, s)) by {
                let s2 = seq![v] + s;
                assert(s2[0] == v);
                assert(s2.drop_first() == s);
                assert(forall|u: usize| #[trigger] keys.dom().contains(u) ==> keys[v] <= keys[u]);
                assert(follows_stored_keys(old_cur, keys, s2, by_fill));
                assert(old_prefix + s2 == prefix + s);
                assert(order_width(old_cur, s2) == nat_max(old_cur[v as int].len(), order_width(cur, s)));
            }
            assert forall|x: usize| x < n && !heap.view().dom().contains(x) implies (#[trigger] cur[x as int]) == Set::<usize>::empty() by {
                if x != v {
                    assert(!keys.dom().contains(x));
                    assert(old_cur[x as int] == Set::<usize>::empty());
                    assert(!old_cur[v as int].contains(x)) by {
                        if old_cur[v as int].contains(x) {
                            assert(old_cur[x as int].contains(v));
                        }
                    }
                }
            }
        }
    }
    tw
}

/// The width of a min-degree elimination order of `g`.
fn min_degree(g: &Graph) -> (tw: u32)
    requires
        g.wf(),
        g.n <= u32::MAX,
    ensures
        heap_greedy_width(g.nbrs(), tw as nat, false),
        tw as nat == heap_width(g.nbrs(), false),
{
    heap_elimination(g, false)
}

/// The width of a min-fill elimination order of `g`.
fn min_fill(g: &Graph) -> (tw: u32)
    requires
        g.wf(),
        g.n <= u32::MAX,
    ensures
        heap_greedy_width(g.nbrs(), tw as nat, true),
        tw as nat == heap_width(g.nbrs(), true),
{
    heap_elimination(g, true)
}

/// Turns a heap-greedy width into an elimination order of that width.
proof fn lemma_heap_greedy_order(g: &Graph, w: nat, by_fill: bool) -> (o: Seq<usize>)
    requires
        g.wf(),
        heap_greedy_width(g.nbrs(), w, by_fill),
    ensures
        is_elimination_order(o, g.n as nat),
        order_width(g.nbrs(), o) == w,
{
    let nb = g.nbrs();
    let o = choose|o: Seq<usize>|
        follows_stored_keys(nb, initial_keys(nb, by_fill), o, by_fill) && #[trigger] order_width(nb, o) == w;
    lemma_stored_key_order_is_permutation(nb, initial_keys(nb, by_fill), o, by_fill);
    assert forall|i: int| 0 <= i < o.len() implies #[trigger] o[i] < g.n as nat by {
        assert(o.contains(o[i]));
        assert(initial_keys(nb, by_fill).dom().contains(o[i]));
    }
    assert forall|u: usize| u < g.n as nat implies o.contains(u) by {
        assert(initial_keys(nb, by_fill).dom().contains(u));
    }
    o
}

/// What the heap-driven heuristics return for `g`:
/// - exactly `native_value` of its neighbour sets, so a function of its
///   edges alone;
/// - 0 for a graph with at most one vertex or without edges;
/// - otherwise the smaller of the widths of a min-degree and a min-fill order
///   that the heap-driven greedy elimination can produce;
/// - in every case the width of some elimination order of all vertices (so
///   an upper bound on the treewidth), 0 exactly when there is no edge, and
///   below the number of vertices.
pub open spec fn native_bound(g: &Graph, tw: u32) -> bool {
    &&& tw as nat == native_value(g.nbrs())
    &&& (g.n <= 1 || g.spec_edge_count() == 0) ==> tw == 0
    &&& !(g.n <= 1 || g.spec_edge_count() == 0) ==> exists|d: nat, f: nat|
        heap_greedy_width(g.nbrs(), d, false) && heap_greedy_width(g.nbrs(), f, true) && tw as nat == (if d
            <= f {
            d
        } else {
            f
        })
    &&& exists|o: Seq<usize>| is_elimination_order(o, g.n as nat) && order_width(g.nbrs(), o) == tw as nat
    &&& tw == 0 <==> g.edgeless()
    &&& g.n >= 1 ==> tw < g.n
}

/// An upper bound on the treewidth of `g`: the smaller of the widths of a
/// min-degree and a min-fill elimination order. A graph with at most one
/// vertex, or without edges, gets 0.
pub fn compute(g: &Graph) -> (tw: u32)
    requires
        g.wf(),
        g.n <= u32::MAX,
    ensures
        native_bound(g, tw),
{
    proof {
        crate::graph::lemma_edgeless(g);
        lemma_graph_simple(g);
        let nb = g.nbrs();
        assert forall|u: int| 0 <= u < g.n implies (#[trigger] nb[u]).len() == g.adj@[u]@.len() by {
            g.adj@[u]@.unique_seq_to_set();
        }
        if g.edgeless() {
            assert forall|u: int| 0 <= u < nb.len() implies (#[trigger] nb[u]).len() == 0 by {
                assert(g.adj@[u]@.len() == 0);
            }
        }
        if forall|u: int| 0 <= u < nb.len() ==> (#[trigger] nb[u]).len() == 0 {
            assert forall|u: int| 0 <= u < g.n implies (#[trigger] g.adj@[u]@).len() == 0 by {
                assert(nb[u].len() == 0);
            }
        }
    }
    if g.n <= 1 || g.edge_count() == 0 {
        proof {
            let o = Seq::new(g.n as nat, |i: int| i as usize);
            assert(is_elimination_order(o, g.n as nat)) by {
                assert forall|u: usize| u < g.n as nat implies o.contains(u) by {
                    assert(o[u as int] == u);
                }
            }
            lemma_order_facts(g, o);
        }
        return 0;
    }
    let d = min_degree(g);
    let f = min_fill(g);
    proof {
        let od = lemma_heap_greedy_order(g, d as nat, false);
        let of = lemma_heap_greedy_order(g, f as nat, true);
        lemma_order_facts(g, od);
        lemma_order_facts(g, of);
    }
    if d <= f {
        d
    } else {
        f
    }
}

/// Two well-formed graphs on the same vertices with the same edges have the
/// same neighbour sets, whatever the order of their adjacency lists.
pub proof fn lemma_same_edges_same_nbrs(g1: &Graph, g2: &Graph)
    requires
        g1.wf(),
        g2.wf(),
        g1.n == g2.n,
        forall|u: usize, w: usize|
            u < g1.n ==> (#[trigger] g1.adj@[u as int]@.contains(w) <==> g2.adj@[u as int]@.contains(w)),
    ensures
        g1.nbrs() == g2.nbrs(),
{
    assert forall|u: int| 0 <= u < g1.n implies #[trigger] g1.nbrs()[u] == g2.nbrs()[u] by {
        assert forall|w: usize| g1.nbrs()[u].contains(w) <==> g2.nbrs()[u].contains(w) by {
            assert(g1.adj@[u as usize as int]@.contains(w) <==> g2.adj@[u as usize as int]@.contains(w));
        }
        assert(g1.nbrs()[u] =~= g2.nbrs()[u]);
    }
    assert(g1.nbrs() =~= g2.nbrs());
}

/// The heap-driven heuristics' result depends on the edges alone: graphs on
/// the same vertices with the same edges, listed in any order, get the same
/// result.
pub proof fn lemma_result_depends_on_edges(g1: &Graph, g2: &Graph, t1: u32, t2: u32)
    requires
        g1.wf(),
        g2.wf(),
        g1.n == g2.n,
        forall|u: usize, w: usize|
            u < g1.n ==> (#[trigger] g1.adj@[u as int]@.contains(w) <==> g2.adj@[u as int]@.contains(w)),
        native_bound(g1, t1),
        native_bound(g2, t2),
    ensures
        t1 == t2,
{
    lemma_same_edges_same_nbrs(g1, g2);
}

} // verus!
