//! The FlowCutter treewidth oracle, linked in-process through a C interface
//! when the library is built with it. This library carries no such build:
//! the oracle reports itself unavailable. The parts of the call that do not
//! cross the C interface (the edge arrays handed over, and the reading of the
//! status code that comes back) are here for the code that makes the call.

use vstd::prelude::*;
use crate::graph::{Graph, total_degree};
use crate::text::{push_signed_decimal, signed_decimal, string_of};

verus! {

/// Why the oracle could not give a treewidth.
pub enum TwError {
    OracleUnavailable(String),
    SolverFailed(String),
}

impl TwError {
    /// The text the error displays.
    pub open spec fn spec_message(&self) -> Seq<char> {
        match self {
            TwError::OracleUnavailable(msg) => "oracle unavailable: "@ + msg@,
            TwError::SolverFailed(msg) => "solver failed: "@ + msg@,
        }
    }

    /// The text the error displays.
    pub fn message(&self) -> (m: String)
        ensures
            m@ == self.spec_message(),
    {
        match self {
            TwError::OracleUnavailable(msg) => {
                let mut m = string_of("oracle unavailable: ");
                m.append(msg.as_str());
                m
            },
            TwError::SolverFailed(msg) => {
                let mut m = string_of("solver failed: ");
                m.append(msg.as_str());
                m
            },
        }
    }
}

/// The explanation that comes with an unavailable oracle.
pub open spec fn unavailable_reason() -> Seq<char> {
    "FlowCutter FFI is not built; initialise the flow-cutter-pace17 submodule before compiling analyzer"@
}

/// Reports whether the oracle can be called. This library is built without
/// the FlowCutter C interface, so the answer is always that it cannot.
pub fn ensure_oracle_available() -> (r: Result<(), TwError>)
    ensures
        r matches Err(TwError::OracleUnavailable(msg)) && msg@ == unavailable_reason(),
{
    Err(TwError::OracleUnavailable(string_of(
        "FlowCutter FFI is not built; initialise the flow-cutter-pace17 submodule before compiling analyzer",
    )))
}

/// The treewidth that the oracle computes for `g`. The availability check
/// comes first; in this library it fails, and that error is returned.
pub fn compute_oracle(g: &Graph) -> (r: Result<u32, TwError>)
    ensures
        r matches Err(TwError::OracleUnavailable(msg)) && msg@ == unavailable_reason(),
{
    match ensure_oracle_available() {
        Err(e) => Err(e),
        // Only a build with the C interface gets past the check; this one
        // has no interface to hand the graph to.
        Ok(()) => {
            if g.n <= 1 || g.edge_count() == 0 {
                Ok(0)
            } else {
                Err(TwError::OracleUnavailable(string_of(
                    "FlowCutter FFI is not built; initialise the flow-cutter-pace17 submodule before compiling analyzer",
                )))
            }
        },
    }
}

/// The edges `(u, v)` with `u < v` of row `u`, in the order of the row.
pub open spec fn upper_row(u: usize, row: Seq<usize>) -> Seq<(usize, usize)>
    decreases row.len(),
{
    if row.len() == 0 {
        Seq::empty()
    } else if u < row.last() {
        upper_row(u, row.drop_last()).push((u, row.last()))
    } else {
        upper_row(u, row.drop_last())
    }
}

/// Every undirected edge once, as `(u, v)` with `u < v`, row by row.
pub open spec fn upper_edges(adj: Seq<Vec<usize>>) -> Seq<(usize, usize)>
    decreases adj.len(),
{
    if adj.len() == 0 {
        Seq::empty()
    } else {
        upper_edges(adj.drop_last()) + upper_row((adj.len() - 1) as usize, adj.last()@)
    }
}

/// The directed adjacency entries `(u, v)` of the first `k` lists.
pub open spec fn entries(adj: Seq<Vec<usize>>, k: int) -> Set<(usize, usize)> {
    Set::new(|p: (usize, usize)| p.0 < k && adj[p.0 as int]@.contains(p.1))
}

/// The entries of list `u`, as pairs.
pub open spec fn row_pairs(u: usize, row: Seq<usize>) -> Set<(usize, usize)> {
    row.to_set().map(|v: usize| (u, v))
}

/// The entries of one list, as pairs with the list's index.
proof fn lemma_row_entries(u: usize, row: Seq<usize>)
    requires
        row.no_duplicates(),
    ensures
        row_pairs(u, row).finite(),
        row_pairs(u, row).len() == row.len(),
        forall|p: (usize, usize)| #[trigger] row_pairs(u, row).contains(p) <==> (p.0 == u && row.contains(p.1)),
{
    let f = |v: usize| (u, v);
    row.unique_seq_to_set();
    assert(vstd::relations::injective_on(f, row.to_set()));
    vstd::set_lib::lemma_map_size(row.to_set(), row.to_set().map(f), f);
    assert forall|p: (usize, usize)| #[trigger] row.to_set().map(f).contains(p) <==> (p.0 == u && row.contains(p.1)) by {
        if p.0 == u && row.contains(p.1) {
            assert(row.to_set().contains(p.1));
            assert(f(p.1) == p);
        }
    }
}

/// The entries of the first `k` lists number as many as their total length.
proof fn lemma_entries_len(adj: Seq<Vec<usize>>, k: int)
    requires
        0 <= k <= adj.len(),
        adj.len() <= usize::MAX,
        forall|u: int| 0 <= u < adj.len() ==> (#[trigger] adj[u]@).no_duplicates(),
    ensures
        entries(adj, k).finite(),
        entries(adj, k).len() == total_degree(adj.take(k)),
    decreases k,
{
    if k == 0 {
        assert(entries(adj, 0) =~= Set::<(usize, usize)>::empty());
        assert(adj.take(0).len() == 0);
    } else {
        lemma_entries_len(adj, k - 1);
        let u = (k - 1) as usize;
        let row = adj[k - 1]@;
        lemma_row_entries(u, row);
        let r = row_pairs(u, row);
        assert(entries(adj, k) =~= entries(adj, k - 1) + r);
        assert(entries(adj, k - 1).disjoint(r));
        vstd::set_lib::lemma_set_disjoint_lens(entries(adj, k - 1), r);
        assert(adj.take(k).drop_last() == adj.take(k - 1));
        assert(adj.take(k).last() == adj[k - 1]);
    }
}

/// The pairs that `upper_row` lists: those of the row above `u`, each once.
proof fn lemma_upper_row(u: usize, row: Seq<usize>)
    requires
        row.no_duplicates(),
    ensures
        upper_row(u, row).no_duplicates(),
        forall|p: (usize, usize)| #[trigger] upper_row(u, row).contains(p) <==> (p.0 == u && u < p.1 && row.contains(p.1)),
    decreases row.len(),
{
    if row.len() > 0 {
        let q = row.drop_last();
        assert(q.no_duplicates());
        lemma_upper_row(u, q);
        assert forall|p: (usize, usize)| #[trigger] upper_row(u, row).contains(p) <==> (p.0 == u && u < p.1 && row.contains(p.1)) by {
            if row.contains(p.1) && p.1 != row.last() {
                let j = choose|j: int| 0 <= j < row.len() && row[j] == p.1;
                assert(q[j] == p.1);
            }
            if q.contains(p.1) {
                let j = choose|j: int| 0 <= j < q.len() && q[j] == p.1;
                assert(row[j] == p.1);
            }
            assert(row[row.len() - 1] == row.last());
            if u < row.last() {
                let t = upper_row(u, q).push((u, row.last()));
                if t.contains(p) {
                    let j = choose|j: int| 0 <= j < t.len() && t[j] == p;
                    if j < t.len() - 1 {
                        assert(upper_row(u, q)[j] == p);
                    }
                }
                if upper_row(u, q).contains(p) {
                    let j = choose|j: int| 0 <= j < upper_row(u, q).len() && upper_row(u, q)[j] == p;
                    assert(t[j] == p);
                }
                if p == (u, row.last()) {
                    assert(t[t.len() - 1] == p);
                }
            }
        }
        if u < row.last() {
            assert(!q.contains(row.last())) by {
                if q.contains(row.last()) {
                    let j = choose|j: int| 0 <= j < q.len() && q[j] == row.last();
                    assert(row[j] == row[row.len() - 1]);
                }
            }
            assert(!upper_row(u, q).contains((u, row.last())));
        }
    }
}

/// The pairs that `upper_edges` lists over the first `k` lists: each entry
/// `(u, v)` with `u < v`, once.
proof fn lemma_upper_edges(adj: Seq<Vec<usize>>, k: int)
    requires
        0 <= k <= adj.len(),
        adj.len() <= usize::MAX,
        forall|u: int| 0 <= u < adj.len() ==> (#[trigger] adj[u]@).no_duplicates(),
    ensures
        upper_edges(adj.take(k)).no_duplicates(),
        forall|p: (usize, usize)| #[trigger] upper_edges(adj.take(k)).contains(p) <==> (entries(adj, k).contains(p) && p.0 < p.1),
    decreases k,
{
    if k == 0 {
        assert(adj.take(0).len() == 0);
    } else {
        lemma_upper_edges(adj, k - 1);
        let u = (k - 1) as usize;
        let row = adj[k - 1]@;
        lemma_upper_row(u, row);
        let a = upper_edges(adj.take(k - 1));
        let b = upper_row(u, row);
        assert(adj.take(k).drop_last() == adj.take(k - 1));
        assert(adj.take(k).last() == adj[k - 1]);
        assert(upper_edges(adj.take(k)) == a + b);
        assert forall|p: (usize, usize)| #[trigger] (a + b).contains(p) <==> (a.contains(p) || b.contains(p)) by {
            if (a + b).contains(p) {
                let j = choose|j: int| 0 <= j < (a + b).len() && (a + b)[j] == p;
                if j < a.len() {
                    assert(a[j] == p);
                } else {
                    assert(b[j - a.len()] == p);
                }
            }
            if a.contains(p) {
                let j = choose|j: int| 0 <= j < a.len() && a[j] == p;
                assert((a + b)[j] == p);
            }
            if b.contains(p) {
                let j = choose|j: int| 0 <= j < b.len() && b[j] == p;
                assert((a + b)[a.len() + j] == p);
            }
        }
        assert((a + b).no_duplicates()) by {
            assert forall|i: int, j: int| 0 <= i < (a + b).len() && 0 <= j < (a + b).len() && i != j implies (a + b)[i] != (a + b)[j] by {
                if i < a.len() && j < a.len() {
                    assert(a[i] != a[j]);
                } else if i >= a.len() && j >= a.len() {
                    assert(b[i - a.len()] != b[j - a.len()]);
                } else if i < a.len() {
                    assert(a.contains(a[i]));
                    assert(b.contains(b[j - a.len()]));
                } else {
                    assert(a.contains(a[j]));
                    assert(b.contains(b[i - a.len()]));
                }
            }
        }
    }
}

/// Every undirected edge of a well-formed graph appears once in
/// `upper_edges`, so there are as many entries there as edges.
pub proof fn lemma_upper_edges_count(g: &Graph)
    requires
        g.wf(),
    ensures
        upper_edges(g.adj@).len() == g.spec_edge_count(),
        total_degree(g.adj@) == 2 * upper_edges(g.adj@).len(),
{
    let adj = g.adj@;
    let n = g.n as int;
    assert(adj.take(n) == adj);
    lemma_entries_len(adj, n);
    lemma_upper_edges(adj, n);
    let all = entries(adj, n);
    let up = all.filter(|p: (usize, usize)| p.0 < p.1);
    let down = all.filter(|p: (usize, usize)| p.0 > p.1);
    let swap = |p: (usize, usize)| (p.1, p.0);
    assert(up.finite() && down.finite());
    assert(all =~= up + down) by {
        assert forall|p: (usize, usize)| all.contains(p) implies p.0 != p.1 by {
            let j = choose|j: int| 0 <= j < adj[p.0 as int]@.len() && adj[p.0 as int]@[j] == p.1;
        }
    }
    assert(up.disjoint(down));
    vstd::set_lib::lemma_set_disjoint_lens(up, down);
    assert(up.map(swap) =~= down) by {
        assert forall|p: (usize, usize)| down.contains(p) implies up.map(swap).contains(p) by {
            let j = choose|j: int| 0 <= j < adj[p.0 as int]@.len() && adj[p.0 as int]@[j] == p.1;
            assert(adj[p.1 as int]@.contains(p.0));
            assert(up.contains((p.1, p.0)));
            assert(swap((p.1, p.0)) == p);
        }
        assert forall|p: (usize, usize)| up.map(swap).contains(p) implies down.contains(p) by {
            let q = choose|q: (usize, usize)| up.contains(q) && swap(q) == p;
            let j = choose|j: int| 0 <= j < adj[q.0 as int]@.len() && adj[q.0 as int]@[j] == q.1;
            assert(adj[q.1 as int]@.contains(q.0));
        }
    }
    assert(vstd::relations::injective_on(swap, up));
    vstd::set_lib::lemma_map_size(up, down, swap);
    let es = upper_edges(adj);
    es.unique_seq_to_set();
    assert(es.to_set() =~= up);
}

/// What the C interface is handed: the vertex count and the edge list as two
/// parallel arrays of 32-bit endpoints.
pub struct FfiEdges {
    pub node_count: u32,
    pub edge_u: Vec<u32>,
    pub edge_v: Vec<u32>,
}

/// The edge arrays `e` list exactly `edges`.
pub open spec fn lists_edges(e: FfiEdges, edges: Seq<(usize, usize)>) -> bool {
    &&& e.edge_u@.len() == edges.len()
    &&& e.edge_v@.len() == edges.len()
    &&& forall|i: int|
        0 <= i < edges.len() ==> e.edge_u@[i] as usize == (#[trigger] edges[i]).0 && e.edge_v@[i] as usize
            == edges[i].1
}

/// The input of the C interface for `g`, or the error when the vertex or the
/// edge count does not fit in 32 bits.
pub fn ffi_edges(g: &Graph) -> (r: Result<FfiEdges, TwError>)
    requires
        g.wf(),
    ensures
        g.n > u32::MAX ==> (r matches Err(TwError::SolverFailed(msg)) && msg@
            == "graph too large for flowcutter ffi node count"@),
        g.n <= u32::MAX && g.spec_edge_count() > u32::MAX ==> (r matches Err(TwError::SolverFailed(msg))
            && msg@ == "graph too large for flowcutter ffi edge count"@),
        g.n <= u32::MAX && g.spec_edge_count() <= u32::MAX ==> (r matches Ok(e) && e.node_count == g.n
            && lists_edges(e, upper_edges(g.adj@)) && e.edge_u@.len() == g.spec_edge_count()),
{
    if g.n > 0xffff_ffff {
        return Err(TwError::SolverFailed(string_of("graph too large for flowcutter ffi node count")));
    }
    let m = g.edge_count();
    if m > 0xffff_ffff {
        return Err(TwError::SolverFailed(string_of("graph too large for flowcutter ffi edge count")));
    }
    let mut edge_u: Vec<u32> = Vec::new();
    let mut edge_v: Vec<u32> = Vec::new();
    let mut u: usize = 0;
    while u < g.n
        invariant
            g.wf(),
            g.n <= u32::MAX,
            u <= g.n,
            lists_edges(FfiEdges { node_count: 0, edge_u, edge_v }, upper_edges(g.adj@.take(u as int))),
        decreases g.n - u,
    {
        let row = &g.adj[u];
        let ghost base = upper_edges(g.adj@.take(u as int));
        let mut k: usize = 0;
        while k < row.len()
            invariant
                g.wf(),
                g.n <= u32::MAX,
                u < g.n,
                row@ == g.adj@[u as int]@,
                k <= row@.len(),
                lists_edges(FfiEdges { node_count: 0, edge_u, edge_v }, base + upper_row(u, row@.take(k as int))),
            decreases row@.len() - k,
        {
            let v = row[k];
            proof {
                assert(row@.take(k + 1).drop_last() == row@.take(k as int));
                assert(row@.take(k + 1).last() == v);
                assert(v < g.n);
            }
            if u < v {
                edge_u.push(u as u32);
                edge_v.push(v as u32);
                proof {
                    assert(base + upper_row(u, row@.take(k + 1)) == (base + upper_row(u, row@.take(k as int))).push((u, v)));
                }
            }
            k += 1;
        }
        proof {
            assert(row@.take(row@.len() as int) == row@);
            assert(g.adj@.take(u + 1).drop_last() == g.adj@.take(u as int));
            assert(g.adj@.take(u + 1).last() == g.adj@[u as int]);
        }
        u += 1;
    }
    proof {
        assert(g.adj@.take(g.n as int) == g.adj@);
        lemma_upper_edges_count(g);
    }
    Ok(FfiEdges { node_count: g.n as u32, edge_u, edge_v })
}

/// The message for a failure status of the C interface.
pub open spec fn ffi_failure_text(rc: i32) -> Seq<char> {
    if rc == -1 {
        "flowcutter ffi failed: null output pointer"@
    } else if rc == -2 {
        "flowcutter ffi failed: null edge arrays"@
    } else if rc == -3 {
        "flowcutter ffi failed: edge endpoint out of range"@
    } else if rc == -4 {
        "flowcutter ffi failed with C++ exception"@
    } else {
        "flowcutter ffi failed with status code "@ + signed_decimal(rc as int)
    }
}

/// The message for the failure status `rc` (not 0) of the C interface.
pub fn ffi_failure_message(rc: i32) -> (m: String)
    ensures
        m@ == ffi_failure_text(rc),
{
    if rc == -1 {
        string_of("flowcutter ffi failed: null output pointer")
    } else if rc == -2 {
        string_of("flowcutter ffi failed: null edge arrays")
    } else if rc == -3 {
        string_of("flowcutter ffi failed: edge endpoint out of range")
    } else if rc == -4 {
        string_of("flowcutter ffi failed with C++ exception")
    } else {
        let mut m = string_of("flowcutter ffi failed with status code ");
        push_signed_decimal(&mut m, rc as i64);
        m
    }
}

/// Reads the answer of the C interface: status 0 means `out_tw` is the
/// treewidth; any other status is a failure of the solver.
pub fn ffi_result(rc: i32, out_tw: u32) -> (r: Result<u32, TwError>)
    ensures
        rc == 0 ==> r == Ok::<u32, TwError>(out_tw),
        rc != 0 ==> (r matches Err(TwError::SolverFailed(msg)) && msg@ == ffi_failure_text(rc)),
{
    if rc == 0 {
        Ok(out_tw)
    } else {
        Err(TwError::SolverFailed(ffi_failure_message(rc)))
    }
}

/// The treewidth of a graph that needs no oracle: 0 for at most one vertex
/// or no edge; `None` when the oracle has to be asked.
pub fn trivial_treewidth(g: &Graph) -> (r: Option<u32>)
    requires
        g.wf(),
    ensures
        r == (if g.n <= 1 || g.spec_edge_count() == 0 {
            Some(0u32)
        } else {
            None
        }),
{
    if g.n <= 1 || g.edge_count() == 0 {
        Some(0)
    } else {
        None
    }
}

/// The input of the C interface for `g`, or `None` when the graph is too
/// large for it (so that the caller can run the solver program instead).
pub fn ffi_edges_if_fit(g: &Graph) -> (r: Option<FfiEdges>)
    requires
        g.wf(),
    ensures
        r is None <==> (g.n > u32::MAX || g.spec_edge_count() > u32::MAX),
        r matches Some(e) ==> e.node_count == g.n && lists_edges(e, upper_edges(g.adj@)),
{
    match ffi_edges(g) {
        Ok(e) => Some(e),
        Err(_) => None,
    }
}

} // verus!
