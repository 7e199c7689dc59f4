//! Complete graphs: whatever order the vertices are eliminated in, the first
//! one has all the others as neighbours, so both heuristics give `n - 1`.

use vstd::prelude::*;
use crate::graph::Graph;
use crate::treewidth::elimination::{is_elimination_order, order_width};
use crate::treewidth::native::{lemma_order_facts, native_bound};
use crate::treewidth::scan::scan_bound;

verus! {

/// Every two different vertices of `g` are adjacent.
pub open spec fn is_complete(g: &Graph) -> bool {
    forall|u: int, w: usize| 0 <= u < g.n && w < g.n && u != w ==> #[trigger] g.adj@[u]@.contains(w)
}

/// Every elimination order of a complete graph on `n >= 1` vertices has
/// width `n - 1`.
pub proof fn lemma_complete_order_width(g: &Graph, o: Seq<usize>)
    requires
        g.wf(),
        is_complete(g),
        g.n >= 1,
        is_elimination_order(o, g.n as nat),
    ensures
        order_width(g.nbrs(), o) == g.n - 1,
{
    let nb = g.nbrs();
    lemma_order_facts(g, o);
    assert(o.contains(0usize));
    let v = o[0];
    let others = Set::<usize>::range(0, g.n).remove(v);
    vstd::set_lib::range_set_properties::<usize>(0, g.n);
    assert(nb[v as int] =~= others) by {
        assert forall|w: usize| nb[v as int].contains(w) implies others.contains(w) by {
            let i = choose|i: int| 0 <= i < g.adj@[v as int]@.len() && g.adj@[v as int]@[i] == w;
            assert(g.adj@[v as int]@[i] < g.n);
        }
        assert forall|w: usize| others.contains(w) implies nb[v as int].contains(w) by {
            assert(g.adj@[v as int]@.contains(w));
        }
    }
    assert(order_width(nb, o) >= nb[v as int].len());
}

/// On a complete graph with at least one vertex the heap-driven heuristics
/// give `n - 1`.
pub proof fn lemma_complete_width(g: &Graph, tw: u32)
    requires
        g.wf(),
        is_complete(g),
        g.n >= 1,
        native_bound(g, tw),
    ensures
        tw == g.n - 1,
{
    let o = choose|o: Seq<usize>| is_elimination_order(o, g.n as nat) && order_width(g.nbrs(), o) == tw as nat;
    lemma_complete_order_width(g, o);
}

/// On a complete graph with at least one vertex the scanning heuristics give
/// `n - 1`.
pub proof fn lemma_complete_width_scan(g: &Graph, tw: u32)
    requires
        g.wf(),
        is_complete(g),
        g.n >= 1,
        scan_bound(g, tw),
    ensures
        tw == g.n - 1,
{
    let o = choose|o: Seq<usize>| is_elimination_order(o, g.n as nat) && order_width(g.nbrs(), o) == tw as nat;
    lemma_complete_order_width(g, o);
}

} // verus!
