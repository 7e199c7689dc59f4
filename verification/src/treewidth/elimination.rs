//! The vertex-elimination game that the greedy treewidth heuristics play,
//! stated over neighbour sets, and the facts about it that the heuristics'
//! contracts rest on.

use vstd::prelude::*;
use crate::seq_lemmas::all_below;

verus! {

/// Neighbour sets of a simple undirected graph on `0..nb.len()`: finite,
/// in range, without self-loops, and symmetric.
pub open spec fn simple_nbrs(nb: Seq<Set<usize>>) -> bool {
    &&& nb.len() <= usize::MAX
    &&& forall|a: int| 0 <= a < nb.len() ==> (#[trigger] nb[a]).finite()
    &&& forall|a: int, b: usize|
        0 <= a < nb.len() && #[trigger] nb[a].contains(b) ==> {
            &&& b < nb.len()
            &&& b as int != a
            &&& nb[b as int].contains(a as usize)
        }
}

/// Eliminating `v`: its neighbours become pairwise adjacent and `v` leaves
/// the graph (its own set becomes empty, and it leaves its neighbours' sets).
pub open spec fn eliminate(nb: Seq<Set<usize>>, v: usize) -> Seq<Set<usize>> {
    Seq::new(
        nb.len(),
        |x: int|
            if x == v as int {
                Set::empty()
            } else if nb[v as int].contains(x as usize) {
                nb[x].union(nb[v as int]).remove(v).remove(x as usize)
            } else {
                nb[x]
            },
    )
}

pub open spec fn nat_max(a: nat, b: nat) -> nat {
    if a >= b {
        a
    } else {
        b
    }
}

/// The width of eliminating the vertices in the order `ord`: the largest
/// number of neighbours that a vertex has at the moment it is eliminated.
pub open spec fn order_width(nb: Seq<Set<usize>>, ord: Seq<usize>) -> nat
    decreases ord.len(),
{
    if ord.len() == 0 {
        0
    } else {
        nat_max(nb[ord[0] as int].len(), order_width(eliminate(nb, ord[0]), ord.drop_first()))
    }
}

/// `ord` names each vertex of `0..n` exactly once.
pub open spec fn is_elimination_order(ord: Seq<usize>, n: nat) -> bool {
    &&& ord.no_duplicates()
    &&& all_below(ord, n)
    &&& forall|u: usize| u < n ==> ord.contains(u)
}

/// The pairs of neighbours of `u` that are not adjacent to each other: the
/// edges that eliminating `u` would add.
pub open spec fn missing_pairs(nb: Seq<Set<usize>>, u: usize) -> Set<(usize, usize)> {
    Set::new(
        |p: (usize, usize)|
            nb[u as int].contains(p.0) && nb[u as int].contains(p.1) && p.0 < p.1 && !nb[p.0 as int].contains(
                p.1,
            ),
    )
}

/// The number of fill-in edges that eliminating `u` adds.
pub open spec fn fill_in(nb: Seq<Set<usize>>, u: usize) -> nat {
    missing_pairs(nb, u).len()
}

/// The priority of `u` under the min-degree rule (`by_fill == false`) or
/// under the min-fill rule (`by_fill == true`): fill-in weighted by 100, with
/// the degree added.
pub open spec fn elimination_key(nb: Seq<Set<usize>>, u: usize, by_fill: bool) -> int {
    if by_fill {
        (fill_in(nb, u) * 100 + nb[u as int].len()) as int
    } else {
        nb[u as int].len() as int
    }
}

/// The priority of every vertex before any elimination.
pub open spec fn initial_keys(nb: Seq<Set<usize>>, by_fill: bool) -> Map<usize, int> {
    Map::new(|u: usize| u < nb.len(), |u: usize| elimination_key(nb, u, by_fill))
}

/// The stored priorities after `v` is eliminated: `v` leaves, and each vertex
/// in `touched` (the neighbours of `v`) gets its priority in the new graph;
/// the others keep the priority they had.
pub open spec fn refreshed_keys(
    after: Seq<Set<usize>>,
    keys: Map<usize, int>,
    v: usize,
    touched: Set<usize>,
    by_fill: bool,
) -> Map<usize, int> {
    Map::new(
        |u: usize| keys.dom().contains(u) && u != v,
        |u: usize|
            if touched.contains(u) {
                elimination_key(after, u, by_fill)
            } else {
                keys[u]
            },
    )
}

/// `ord` is an order in which a greedy elimination can pick its vertices
/// when it always takes a remaining vertex of least stored priority (ties in
/// any way) and re-prices only the neighbours of the vertex it eliminates.
pub open spec fn follows_stored_keys(
    nb: Seq<Set<usize>>,
    keys: Map<usize, int>,
    ord: Seq<usize>,
    by_fill: bool,
) -> bool
    decreases ord.len(),
{
    if ord.len() == 0 {
        keys.dom() == Set::<usize>::empty()
    } else {
        let v = ord[0];
        let after = eliminate(nb, v);
        &&& keys.dom().contains(v)
        &&& forall|u: usize| #[trigger] keys.dom().contains(u) ==> keys[v] <= keys[u]
        &&& follows_stored_keys(
            after,
            refreshed_keys(after, keys, v, nb[v as int], by_fill),
            ord.drop_first(),
            by_fill,
        )
    }
}

/// Eliminating a vertex keeps the neighbour sets simple.
pub proof fn lemma_eliminate_simple(nb: Seq<Set<usize>>, v: usize)
    requires
        simple_nbrs(nb),
        v < nb.len(),
    ensures
        simple_nbrs(eliminate(nb, v)),
        forall|b: usize| b < nb.len() ==> !(#[trigger] eliminate(nb, v)[b as int].contains(v)),
{
    let e = eliminate(nb, v);
    assert forall|a: int| 0 <= a < e.len() implies (#[trigger] e[a]).finite() by {
        if a != v as int && nb[v as int].contains(a as usize) {
            assert(nb[a].finite());
            assert(nb[v as int].finite());
        }
    }
    assert forall|a: int, b: usize| 0 <= a < e.len() && #[trigger] e[a].contains(b) implies {
        &&& b < e.len()
        &&& b as int != a
        &&& e[b as int].contains(a as usize)
    } by {
        let av = a as usize;
        assert(a != v as int);
        if nb[v as int].contains(av) {
            assert(e[a] == nb[a].union(nb[v as int]).remove(v).remove(av));
            assert(b != v && b != av);
            if nb[v as int].contains(b) {
                assert(e[b as int] == nb[b as int].union(nb[v as int]).remove(v).remove(b));
            } else {
                assert(nb[a].contains(b));
                assert(e[b as int] == nb[b as int]);
            }
        } else {
            assert(e[a] == nb[a]);
            assert(nb[a].contains(b));
            if b == v {
                assert(nb[v as int].contains(av));
            }
            if nb[v as int].contains(b) {
                assert(e[b as int] == nb[b as int].union(nb[v as int]).remove(v).remove(b));
            } else {
                assert(e[b as int] == nb[b as int]);
            }
        }
    }
    assert forall|b: usize| b < nb.len() implies !(#[trigger] e[b as int].contains(v)) by {
        if e[b as int].contains(v) {
            assert(b != v);
            assert(!nb[v as int].contains(b));
            assert(nb[b as int].contains(v));
        }
    }
}

/// Eliminating a vertex without neighbours changes no other set.
pub proof fn lemma_eliminate_isolated(nb: Seq<Set<usize>>, v: usize)
    requires
        v < nb.len(),
        nb[v as int] == Set::<usize>::empty(),
    ensures
        forall|x: int| 0 <= x < nb.len() && x != v as int ==> #[trigger] eliminate(nb, v)[x] == nb[x],
{
}

/// An elimination order has width zero exactly when the vertices it names
/// have no neighbours.
pub proof fn lemma_width_zero_iff(nb: Seq<Set<usize>>, ord: Seq<usize>)
    requires
        simple_nbrs(nb),
        ord.no_duplicates(),
        all_below(ord, nb.len()),
    ensures
        order_width(nb, ord) == 0 <==> forall|i: int| 0 <= i < ord.len() ==> (#[trigger] nb[ord[i] as int]).len() == 0,
    decreases ord.len(),
{
    if ord.len() > 0 {
        let v = ord[0];
        let rest = ord.drop_first();
        let e = eliminate(nb, v);
        lemma_eliminate_simple(nb, v);
        assert(rest.no_duplicates());
        assert(all_below(rest, e.len())) by {
            assert forall|i: int| 0 <= i < rest.len() implies #[trigger] rest[i] < e.len() by {
                assert(rest[i] == ord[i + 1]);
                assert(ord[i + 1] < nb.len());
            }
        }
        lemma_width_zero_iff(e, rest);
        if order_width(nb, ord) == 0 {
            assert(nb[v as int].len() == 0);
            assert(nb[v as int] =~= Set::<usize>::empty()) by {
                if exists|b: usize| nb[v as int].contains(b) {
                    let b = choose|b: usize| nb[v as int].contains(b);
                    assert(nb[v as int].remove(b).len() + 1 == nb[v as int].len());
                }
            }
            lemma_eliminate_isolated(nb, v);
            assert forall|i: int| 0 <= i < ord.len() implies (#[trigger] nb[ord[i] as int]).len() == 0 by {
                if i > 0 {
                    assert(rest[i - 1] == ord[i]);
                    assert(ord[i] != ord[0]);
                    assert(e[rest[i - 1] as int] == nb[ord[i] as int]);
                }
            }
        }
        if forall|i: int| 0 <= i < ord.len() ==> (#[trigger] nb[ord[i] as int]).len() == 0 {
            assert(nb[ord[0] as int].len() == 0);
            assert(nb[v as int] =~= Set::<usize>::empty()) by {
                if exists|b: usize| nb[v as int].contains(b) {
                    let b = choose|b: usize| nb[v as int].contains(b);
                    assert(nb[v as int].remove(b).len() + 1 == nb[v as int].len());
                }
            }
            lemma_eliminate_isolated(nb, v);
            assert forall|i: int| 0 <= i < rest.len() implies (#[trigger] e[rest[i] as int]).len() == 0 by {
                assert(rest[i] == ord[i + 1]);
                assert(ord[i + 1] != ord[0]);
                assert(nb[ord[i + 1] as int].len() == 0);
            }
        }
    }
}

/// When every edge runs between vertices that `ord` still has to eliminate,
/// a vertex has at most `ord.len() - 1` neighbours when it is eliminated.
pub proof fn lemma_width_bound(nb: Seq<Set<usize>>, ord: Seq<usize>)
    requires
        simple_nbrs(nb),
        ord.no_duplicates(),
        all_below(ord, nb.len()),
        forall|a: int, b: usize| 0 <= a < nb.len() && #[trigger] nb[a].contains(b) ==> ord.contains(b),
    ensures
        ord.len() == 0 ==> order_width(nb, ord) == 0,
        ord.len() > 0 ==> order_width(nb, ord) <= ord.len() - 1,
    decreases ord.len(),
{
    if ord.len() > 0 {
        let v = ord[0];
        let rest = ord.drop_first();
        let e = eliminate(nb, v);
        lemma_eliminate_simple(nb, v);
        assert(rest.no_duplicates());
        assert(all_below(rest, e.len())) by {
            assert forall|i: int| 0 <= i < rest.len() implies #[trigger] rest[i] < e.len() by {
                assert(rest[i] == ord[i + 1]);
                assert(ord[i + 1] < nb.len());
            }
        }
        assert forall|a: int, b: usize| 0 <= a < e.len() && #[trigger] e[a].contains(b) implies rest.contains(b) by {
            assert(b != v);
            if nb[v as int].contains(a as usize) && a != v as int {
                if nb[a].contains(b) {
                    assert(ord.contains(b));
                } else {
                    assert(nb[v as int].contains(b));
                    assert(ord.contains(b));
                }
            } else {
                assert(nb[a].contains(b));
                assert(ord.contains(b));
            }
            let k = choose|k: int| 0 <= k < ord.len() && ord[k] == b;
            assert(k != 0);
            assert(rest[k - 1] == b);
        }
        lemma_width_bound(e, rest);
        assert(nb[v as int].subset_of(ord.to_set().remove(v))) by {
            assert forall|b: usize| nb[v as int].contains(b) implies ord.to_set().remove(v).contains(b) by {
                assert(ord.contains(b));
                assert(b != v);
            }
        }
        ord.unique_seq_to_set();
        vstd::set_lib::lemma_len_subset(nb[v as int], ord.to_set().remove(v));
    }
}

/// A greedy order that follows stored priorities names each vertex of the
/// priority table exactly once.
pub proof fn lemma_stored_key_order_is_permutation(
    nb: Seq<Set<usize>>,
    keys: Map<usize, int>,
    ord: Seq<usize>,
    by_fill: bool,
)
    requires
        follows_stored_keys(nb, keys, ord, by_fill),
    ensures
        ord.no_duplicates(),
        forall|u: usize|
            #![trigger keys.dom().contains(u)]
            #![trigger ord.contains(u)]
            keys.dom().contains(u) <==> ord.contains(u),
    decreases ord.len(),
{
    if ord.len() > 0 {
        let v = ord[0];
        let after = eliminate(nb, v);
        let k2 = refreshed_keys(after, keys, v, nb[v as int], by_fill);
        let rest = ord.drop_first();
        lemma_stored_key_order_is_permutation(after, k2, rest, by_fill);
        assert forall|u: usize| keys.dom().contains(u) <==> ord.contains(u) by {
            if keys.dom().contains(u) && u != v {
                assert(k2.dom().contains(u));
                assert(rest.contains(u));
                let j = choose|j: int| 0 <= j < rest.len() && rest[j] == u;
                assert(ord[j + 1] == u);
            }
            if u == v {
                assert(ord[0] == u);
            }
            if ord.contains(u) && u != v {
                let j = choose|j: int| 0 <= j < ord.len() && ord[j] == u;
                assert(j != 0);
                assert(rest[j - 1] == u);
                assert(k2.dom().contains(u));
            }
        }
        assert(ord.no_duplicates()) by {
            assert forall|i: int, j: int| 0 <= i < ord.len() && 0 <= j < ord.len() && i != j implies ord[i] != ord[j] by {
                if i > 0 && j > 0 {
                    assert(rest[i - 1] != rest[j - 1]);
                } else if i == 0 {
                    assert(rest[j - 1] == ord[j]);
                    assert(k2.dom().contains(ord[j]));
                } else {
                    assert(rest[i - 1] == ord[i]);
                    assert(k2.dom().contains(ord[i]));
                }
            }
        }
    }
}

} // verus!
