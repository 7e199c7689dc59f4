//! Sorted adjacency lists and the elimination step on them.

use vstd::prelude::*;
use crate::graph::{Graph, nbr_sets};
use crate::seq_lemmas::{all_below, lemma_distinct_below_len};
use crate::treewidth::elimination::{eliminate, fill_in, missing_pairs, elimination_key, simple_nbrs};

verus! {

/// The entries of `s` increase strictly.
pub open spec fn strictly_sorted(s: Seq<usize>) -> bool {
    forall|i: int, j: int| 0 <= i < j < s.len() ==> s[i] < s[j]
}

/// `adj` holds `n` strictly increasing lists of vertices below `n`.
pub open spec fn sorted_lists(adj: Seq<Vec<usize>>, n: nat) -> bool {
    &&& adj.len() == n
    &&& n <= usize::MAX
    &&& forall|u: int|
        #![trigger adj[u]]
        0 <= u < n ==> strictly_sorted(adj[u]@) && all_below(adj[u]@, n)
}

/// Sorts `v` in place with the standard library's `slice::sort_unstable`.
/// Claimed of it: the result is a rearrangement of the input (the same
/// multiset of entries) in non-decreasing order.
#[verifier::external_body]
fn sort_unstable_usize(v: &mut Vec<usize>)
    ensures
        final(v)@.to_multiset() == old(v)@.to_multiset(),
        forall|i: int, j: int| 0 <= i <= j < final(v)@.len() ==> final(v)@[i] <= final(v)@[j],
{
    v.sort_unstable();
}

/// A strictly increasing sequence holds no entry twice.
pub proof fn lemma_strictly_sorted_distinct(s: Seq<usize>)
    requires
        strictly_sorted(s),
    ensures
        s.no_duplicates(),
{
    assert forall|i: int, j: int| 0 <= i < s.len() && 0 <= j < s.len() && i != j implies s[i] != s[j] by {
        if i < j {
            assert(s[i] < s[j]);
        } else {
            assert(s[j] < s[i]);
        }
    }
}

/// A strictly increasing list of vertices below `n` has at most `n` entries.
pub proof fn lemma_sorted_list_len(s: Seq<usize>, n: nat)
    requires
        strictly_sorted(s),
        all_below(s, n),
        n <= usize::MAX,
    ensures
        s.len() <= n,
{
    lemma_strictly_sorted_distinct(s);
    lemma_distinct_below_len(s, n);
}

/// Whether `x` occurs in the sorted list `list` (binary search).
pub fn sorted_contains(list: &Vec<usize>, x: usize) -> (found: bool)
    requires
        strictly_sorted(list@),
    ensures
        found == list@.contains(x),
{
    let mut lo: usize = 0;
    let mut hi: usize = list.len();
    while lo < hi
        invariant
            lo <= hi <= list@.len(),
            strictly_sorted(list@),
            forall|i: int| 0 <= i < lo ==> list@[i] < x,
            forall|i: int| hi <= i < list@.len() ==> list@[i] > x,
        decreases hi - lo,
    {
        let mid = lo + (hi - lo) / 2;
        if list[mid] == x {
            return true;
        } else if list[mid] < x {
            lo = mid + 1;
        } else {
            hi = mid;
        }
    }
    false
}

/// Merges two strictly increasing lists into the strictly increasing list of
/// their union, leaving out `exclude1` and `exclude2`. Adjacency lists of a
/// simple graph list no vertex twice, so the lists taken here have no
/// repeated entries.
pub fn sorted_union(a: &Vec<usize>, b: &Vec<usize>, exclude1: usize, exclude2: usize) -> (out: Vec<usize>)
    requires
        strictly_sorted(a@),
        strictly_sorted(b@),
    ensures
        strictly_sorted(out@),
        out@.to_set() == a@.to_set().union(b@.to_set()).remove(exclude1).remove(exclude2),
{
    let mut out: Vec<usize> = Vec::new();
    let mut ai: usize = 0;
    let mut bi: usize = 0;
    while ai < a.len() || bi < b.len()
        invariant
            ai <= a@.len(),
            bi <= b@.len(),
            strictly_sorted(a@),
            strictly_sorted(b@),
            strictly_sorted(out@),
            out@.to_set() == a@.take(ai as int).to_set().union(b@.take(bi as int).to_set()).remove(
                exclude1,
            ).remove(exclude2),
            forall|k: int| 0 <= k < out@.len() && ai < a@.len() ==> out@[k] < a@[ai as int],
            forall|k: int| 0 <= k < out@.len() && bi < b@.len() ==> out@[k] < b@[bi as int],
        decreases a@.len() + b@.len() - ai - bi,
    {
        let ghost old_out = out@;
        let ghost old_ai = ai;
        let ghost old_bi = bi;
        let pick;
        if ai < a.len() && (bi >= b.len() || a[ai] < b[bi]) {
            pick = a[ai];
            ai += 1;
        } else if bi < b.len() && (ai >= a.len() || b[bi] < a[ai]) {
            pick = b[bi];
            bi += 1;
        } else {
            pick = a[ai];
            ai += 1;
            bi += 1;
        }
        proof {
            assert(a@.take(ai as int).to_set() =~= if ai == old_ai { a@.take(old_ai as int).to_set() } else {
                a@.take(old_ai as int).to_set().insert(pick)
            }) by {
                if ai != old_ai {
                    assert(a@.take(ai as int) == a@.take(old_ai as int).push(pick));
                    a@.take(old_ai as int).lemma_push_to_set_commute(pick);
                }
            }
            assert(b@.take(bi as int).to_set() =~= if bi == old_bi { b@.take(old_bi as int).to_set() } else {
                b@.take(old_bi as int).to_set().insert(pick)
            }) by {
                if bi != old_bi {
                    assert(b@.take(bi as int) == b@.take(old_bi as int).push(pick));
                    b@.take(old_bi as int).lemma_push_to_set_commute(pick);
                }
            }
        }
        if pick != exclude1 && pick != exclude2 {
            out.push(pick);
            proof {
                old_out.lemma_push_to_set_commute(pick);
            }
        }
        proof {
            assert(out@.to_set() =~= a@.take(ai as int).to_set().union(b@.take(bi as int).to_set()).remove(
                exclude1,
            ).remove(exclude2));
            assert forall|k: int| 0 <= k < out@.len() && ai < a@.len() implies out@[k] < a@[ai as int] by {
                if k < old_out.len() {
                    if old_ai < ai {
                        assert(a@[old_ai as int] < a@[ai as int]);
                    }
                } else {
                    if old_ai < ai {
                        assert(a@[old_ai as int] < a@[ai as int]);
                    }
                }
            }
            assert forall|k: int| 0 <= k < out@.len() && bi < b@.len() implies out@[k] < b@[bi as int] by {
                if k < old_out.len() {
                    if old_bi < bi {
                        assert(b@[old_bi as int] < b@[bi as int]);
                    }
                } else {
                    if old_bi < bi {
                        assert(b@[old_bi as int] < b@[bi as int]);
                    }
                }
            }
        }
    }
    assert(a@.take(a@.len() as int) == a@);
    assert(b@.take(b@.len() as int) == b@);
    out
}

/// Eliminates `v`: empties its list, joins the lists of its neighbours with
/// its own, and returns the neighbours it had.
pub fn contract(adj: &mut Vec<Vec<usize>>, v: usize) -> (v_nb: Vec<usize>)
    requires
        sorted_lists(old(adj)@, old(adj)@.len()),
        v < old(adj)@.len(),
        !old(adj)@[v as int]@.contains(v),
    ensures
        v_nb@ == old(adj)@[v as int]@,
        sorted_lists(final(adj)@, old(adj)@.len()),
        nbr_sets(final(adj)@) == eliminate(nbr_sets(old(adj)@), v),
{
    let ghost n = adj@.len();
    let ghost orig = adj@;
    let mut v_nb: Vec<usize> = Vec::new();
    std::mem::swap(&mut v_nb, &mut adj[v]);
    let ghost vs = v_nb@;
    proof {
        lemma_strictly_sorted_distinct(vs);
    }
    let mut k: usize = 0;
    while k < v_nb.len()
        invariant
            n == orig.len(),
            sorted_lists(orig, n),
            v < n,
            vs == orig[v as int]@,
            v_nb@ == vs,
            !vs.contains(v),
            vs.no_duplicates(),
            k <= vs.len(),
            adj@.len() == n,
            adj@[v as int]@.len() == 0,
            forall|x: int|
                0 <= x < n && x != v && !vs.take(k as int).contains(x as usize) ==> #[trigger] adj@[x] == orig[x],
            forall|x: int|
                0 <= x < n && vs.take(k as int).contains(x as usize) ==> {
                    &&& strictly_sorted(#[trigger] adj@[x]@)
                    &&& adj@[x]@.to_set() == vs.to_set().union(orig[x]@.to_set()).remove(v).remove(
                        x as usize,
                    )
                },
        decreases vs.len() - k,
    {
        let x = v_nb[k];
        proof {
            assert(vs.contains(x));
            assert(all_below(orig[v as int]@, n));
            assert(vs[k as int] < n);
            assert(x != v);
            assert(!vs.take(k as int).contains(x)) by {
                let t0 = vs.take(k as int);
                if t0.contains(x) {
                    let j = choose|j: int| 0 <= j < t0.len() && t0[j] == x;
                    assert(vs[j] == vs[k as int]);
                }
            }
        }
        let mut x_nb: Vec<usize> = Vec::new();
        std::mem::swap(&mut x_nb, &mut adj[x]);
        proof {
            assert(x_nb@ == orig[x as int]@);
            assert(strictly_sorted(orig[x as int]@));
        }
        let merged = sorted_union(&v_nb, &x_nb, v, x);
        adj[x] = merged;
        proof {
            assert(vs.take(k + 1) == vs.take(k as int).push(x));
            let t1 = vs.take(k + 1);
            let t0 = vs.take(k as int);
            assert forall|y: usize| t1.contains(y) <==> (t0.contains(y) || y == x) by {
                if t1.contains(y) {
                    let j = choose|j: int| 0 <= j < t1.len() && t1[j] == y;
                    if j < k {
                        assert(t0[j] == y);
                    }
                }
                if t0.contains(y) {
                    let j = choose|j: int| 0 <= j < t0.len() && t0[j] == y;
                    assert(t1[j] == y);
                }
                if y == x {
                    assert(t1[k as int] == y);
                }
            }
        }
        k += 1;
    }
    proof {
        assert(vs.take(vs.len() as int) == vs);
        let before = nbr_sets(orig);
        let after = nbr_sets(adj@);
        let expect = eliminate(before, v);
        assert forall|x: int| 0 <= x < n implies #[trigger] after[x] == expect[x] by {
            if x == v as int {
                assert(adj@[x]@ =~= Seq::<usize>::empty());
                assert(after[x] =~= Set::<usize>::empty());
            } else if vs.contains(x as usize) {
                assert(before[v as int] == vs.to_set());
                assert(after[x] =~= before[x].union(before[v as int]).remove(v).remove(x as usize));
            } else {
                assert(!before[v as int].contains(x as usize));
                assert(adj@[x] == orig[x]);
            }
        }
        assert(after =~= expect);
        assert forall|x: int| 0 <= x < n implies #[trigger] strictly_sorted(adj@[x]@) && all_below(adj@[x]@, n) by {
            if x == v as int {
            } else if vs.contains(x as usize) {
                assert forall|i: int| 0 <= i < adj@[x]@.len() implies #[trigger] adj@[x]@[i] < n by {
                    let y = adj@[x]@[i];
                    assert(adj@[x]@.to_set().contains(y));
                    if vs.contains(y) {
                        let j = choose|j: int| 0 <= j < vs.len() && vs[j] == y;
                    } else {
                        assert(orig[x]@.contains(y));
                        let j = choose|j: int| 0 <= j < orig[x]@.len() && orig[x]@[j] == y;
                        assert(all_below(orig[x]@, n));
                    }
                }
            } else {
                assert(adj@[x] == orig[x]);
            }
        }
    }
    v_nb
}

/// The number of pairs of neighbours of `v` that are not adjacent. The
/// lists are those of a simple graph, strictly increasing: no vertex is
/// listed twice, so pairs of positions and pairs of neighbours are the same.
pub fn fill_count(v: usize, adj: &Vec<Vec<usize>>) -> (count: u128)
    requires
        sorted_lists(adj@, adj@.len()),
        v < adj@.len(),
    ensures
        count == fill_in(nbr_sets(adj@), v),
        count <= adj@[v as int]@.len() * adj@[v as int]@.len(),
{
    let ghost n = adj@.len();
    let ghost model = nbr_sets(adj@);
    let nb = &adj[v];
    let ghost l = nb@;
    proof {
        lemma_sorted_list_len(l, n);
    }
    let len = nb.len();
    let ghost mut found: Set<(usize, usize)> = Set::empty();
    let mut count: u128 = 0;
    let mut i: usize = 0;
    while i < len
        invariant
            sorted_lists(adj@, n),
            n == adj@.len(),
            model == nbr_sets(adj@),
            v < n,
            l == adj@[v as int]@,
            nb@ == l,
            len == l.len(),
            len <= n,
            i <= len,
            found.finite(),
            count == found.len(),
            count <= i * len,
            forall|p: (usize, usize)| #[trigger] found.contains(p) <==> exists|a: int, b: int|
                0 <= a < b < len && a < i && p == (l[a], l[b]) && !model[l[a] as int].contains(l[b]),
        decreases len - i,
    {
        let mut j: usize = i + 1;
        while j < len
            invariant
                sorted_lists(adj@, n),
                n == adj@.len(),
                    model == nbr_sets(adj@),
                v < n,
                l == adj@[v as int]@,
                nb@ == l,
                len == l.len(),
                len <= n,
                i < len,
                i + 1 <= j <= len,
                found.finite(),
                count == found.len(),
                count <= i * len + j,
                forall|p: (usize, usize)| #[trigger] found.contains(p) <==> exists|a: int, b: int|
                    0 <= a < b < len && (a < i || (a == i && b < j)) && p == (l[a], l[b])
                        && !model[l[a] as int].contains(l[b]),
            decreases len - j,
        {
            proof {
                assert(all_below(l, n));
                assert(l[i as int] < n);
                assert(strictly_sorted(adj@[l[i as int] as int]@));
            }
            let present = sorted_contains(&adj[nb[i]], nb[j]);
            let ghost old_found = found;
            let ghost pair = (l[i as int], l[j as int]);
            if !present {
                proof {
                    assert(count < u128::MAX) by {
                        assert(i * len + j < len * len) by (nonlinear_arith)
                            requires
                                i < len,
                                j < len,
                        ;
                        assert(len * len <= 0xffff_ffff_ffff_ffff * 0xffff_ffff_ffff_ffffint) by (nonlinear_arith)
                            requires
                                len <= 0xffff_ffff_ffff_ffff,
                        ;
                    }
                    assert(!old_found.contains(pair)) by {
                        if old_found.contains(pair) {
                            let (a, b) = choose|a: int, b: int|
                                0 <= a < b < len && (a < i || (a == i && b < j)) && pair == (l[a], l[b])
                                    && !model[l[a] as int].contains(l[b]);
                            if a < i {
                                assert(l[a] < l[i as int]);
                            } else {
                                assert(l[b] < l[j as int]);
                            }
                        }
                    }
                    found = found.insert(pair);
                }
                count = count + 1;
            }
            proof {
                assert(model[l[i as int] as int] == adj@[l[i as int] as int]@.to_set());
                assert forall|p: (usize, usize)| #[trigger] found.contains(p) <==> exists|a: int, b: int|
                    0 <= a < b < len && (a < i || (a == i && b < j + 1)) && p == (l[a], l[b])
                        && !model[l[a] as int].contains(l[b]) by {
                    if found.contains(p) && p != pair {
                        assert(old_found.contains(p));
                    }
                    if found.contains(p) && p == pair {
                        assert(!model[l[i as int] as int].contains(l[j as int]));
                        assert(0 <= i < j < len && p == (l[i as int], l[j as int]));
                    }
                    if exists|a: int, b: int|
                        0 <= a < b < len && (a < i || (a == i && b < j + 1)) && p == (l[a], l[b])
                            && !model[l[a] as int].contains(l[b]) {
                        let (a, b) = choose|a: int, b: int|
                            0 <= a < b < len && (a < i || (a == i && b < j + 1)) && p == (l[a], l[b])
                                && !model[l[a] as int].contains(l[b]);
                        if a == i && b == j {
                        } else {
                            assert(old_found.contains(p));
                        }
                    }
                }
            }
            j += 1;
        }
        proof {
            assert(i * len + len == (i + 1) * len) by (nonlinear_arith);
        }
        i += 1;
    }
    proof {
        assert(found =~= missing_pairs(model, v)) by {
            assert(model[v as int] == l.to_set());
            assert forall|p: (usize, usize)| found.contains(p) implies #[trigger] missing_pairs(model, v).contains(p) by {
                let (a, b) = choose|a: int, b: int|
                    0 <= a < b < len && a < i && p == (l[a], l[b]) && !model[l[a] as int].contains(l[b]);
                assert(l.contains(l[a]));
                assert(l.contains(l[b]));
            }
            assert forall|p: (usize, usize)| #[trigger] missing_pairs(model, v).contains(p) implies found.contains(p) by {
                assert(l.contains(p.0));
                assert(l.contains(p.1));
                let a = choose|a: int| 0 <= a < len && l[a] == p.0;
                let b = choose|b: int| 0 <= b < len && l[b] == p.1;
                if b <= a {
                    if b < a {
                        assert(l[b] < l[a]);
                    }
                }
                assert(0 <= a < b < len && a < i && p == (l[a], l[b]) && !model[l[a] as int].contains(l[b]));
            }
        }
    }
    count
}

/// The min-fill priority of `v`: fill-in count times 100 plus degree.
pub fn shortcut_key(v: usize, adj: &Vec<Vec<usize>>) -> (key: u128)
    requires
        sorted_lists(adj@, adj@.len()),
        v < adj@.len(),
        adj@[v as int]@.len() <= u32::MAX,
    ensures
        key == elimination_key(nbr_sets(adj@), v, true),
{
    let fill = fill_count(v, adj);
    proof {
        lemma_sorted_list_len(adj@[v as int]@, adj@.len());
        lemma_strictly_sorted_distinct(adj@[v as int]@);
        adj@[v as int]@.unique_seq_to_set();
        assert(nbr_sets(adj@)[v as int] == adj@[v as int]@.to_set());
    }
    proof {
        let d = adj@[v as int]@.len();
        assert(fill * 100 + d <= 0xffff_ffff * 0xffff_ffff * 100 + 0xffff_ffff) by (nonlinear_arith)
            requires
                fill <= d * d,
                d <= 0xffff_ffff,
        ;
    }
    fill * 100 + adj[v].len() as u128
}

/// The min-degree priority of `v`: its degree.
pub fn degree_key(v: usize, adj: &Vec<Vec<usize>>) -> (key: u128)
    requires
        sorted_lists(adj@, adj@.len()),
        v < adj@.len(),
    ensures
        key == elimination_key(nbr_sets(adj@), v, false),
        key == adj@[v as int]@.len(),
{
    proof {
        lemma_strictly_sorted_distinct(adj@[v as int]@);
        adj@[v as int]@.unique_seq_to_set();
        assert(nbr_sets(adj@)[v as int] == adj@[v as int]@.to_set());
    }
    adj[v].len() as u128
}

/// The adjacency lists of `g`, each sorted increasingly.
pub fn sorted_adj(g: &Graph) -> (adj: Vec<Vec<usize>>)
    requires
        g.wf(),
    ensures
        sorted_lists(adj@, g.n as nat),
        nbr_sets(adj@) == g.nbrs(),
        forall|u: int| 0 <= u < g.n ==> !(#[trigger] adj@[u]@).contains(u as usize),
{
    let mut out: Vec<Vec<usize>> = Vec::new();
    let mut u: usize = 0;
    while u < g.n
        invariant
            g.wf(),
            u <= g.n,
            out@.len() == u,
            forall|w: int| 0 <= w < u ==> #[trigger] strictly_sorted(out@[w]@) && all_below(out@[w]@, g.n as nat),
            forall|w: int| 0 <= w < u ==> (#[trigger] out@[w]@).to_set() == g.adj@[w]@.to_set(),
        decreases g.n - u,
    {
        let src = &g.adj[u];
        let mut copy: Vec<usize> = Vec::new();
        let mut i: usize = 0;
        while i < src.len()
            invariant
                i <= src@.len(),
                copy@ == src@.take(i as int),
            decreases src@.len() - i,
        {
            copy.push(src[i]);
            proof {
                assert(src@.take(i + 1) == src@.take(i as int).push(src@[i as int]));
            }
            i += 1;
        }
        proof {
            assert(src@.take(src@.len() as int) == src@);
        }
        sort_unstable_usize(&mut copy);
        proof {
            let s = copy@;
            assert(src@.no_duplicates());
            src@.lemma_multiset_has_no_duplicates();
            assert(s.to_multiset() == src@.to_multiset());
            assert forall|x: usize| s.to_multiset().contains(x) implies s.to_multiset().count(x) == 1 by {}
            s.lemma_multiset_has_no_duplicates_conv();
            assert(strictly_sorted(s)) by {
                assert forall|a: int, b: int| 0 <= a < b < s.len() implies s[a] < s[b] by {
                    assert(s[a] <= s[b]);
                    assert(s[a] != s[b]);
                }
            }
            assert forall|x: usize| s.contains(x) <==> src@.contains(x) by {
                vstd::seq_lib::to_multiset_contains(s, x);
                vstd::seq_lib::to_multiset_contains(src@, x);
            }
            assert(s.to_set() =~= src@.to_set());
            assert(all_below(s, g.n as nat)) by {
                assert forall|k: int| 0 <= k < s.len() implies #[trigger] s[k] < g.n by {
                    assert(s.contains(s[k]));
                    assert(src@.contains(s[k]));
                    let j = choose|j: int| 0 <= j < src@.len() && src@[j] == s[k];
                }
            }
        }
        let ghost before = out@;
        out.push(copy);
        proof {
            assert forall|w: int| 0 <= w < u + 1 implies #[trigger] strictly_sorted(out@[w]@) && all_below(out@[w]@, g.n as nat) by {
                if w < u {
                    assert(out@[w] == before[w]);
                }
            }
            assert forall|w: int| 0 <= w < u + 1 implies (#[trigger] out@[w]@).to_set() == g.adj@[w]@.to_set() by {
                if w < u {
                    assert(out@[w] == before[w]);
                }
            }
        }
        u += 1;
    }
    proof {
        assert forall|w: int| #![trigger out@[w]] 0 <= w < g.n implies strictly_sorted(out@[w]@) && all_below(
            out@[w]@,
            g.n as nat,
        ) by {}
        assert(sorted_lists(out@, g.n as nat));
        assert(nbr_sets(out@) =~= g.nbrs());
        assert forall|w: int| 0 <= w < g.n implies !(#[trigger] out@[w]@).contains(w as usize) by {
            if out@[w]@.contains(w as usize) {
                assert(out@[w]@.to_set().contains(w as usize));
                assert(g.adj@[w]@.to_set().contains(w as usize));
                let j = choose|j: int| 0 <= j < g.adj@[w]@.len() && g.adj@[w]@[j] == w as usize;
            }
        }
    }
    out
}

/// The neighbour sets of a well-formed graph are simple.
pub proof fn lemma_graph_simple(g: &Graph)
    requires
        g.wf(),
    ensures
        simple_nbrs(g.nbrs()),
        g.nbrs().len() == g.n,
{
    let nb = g.nbrs();
    assert forall|a: int, b: usize| 0 <= a < nb.len() && #[trigger] nb[a].contains(b) implies {
        &&& b < nb.len()
        &&& b as int != a
        &&& nb[b as int].contains(a as usize)
    } by {
        assert(g.adj@[a]@.contains(b));
        let i = choose|i: int| 0 <= i < g.adj@[a]@.len() && g.adj@[a]@[i] == b;
        assert(g.adj@[b as int]@.contains(a as usize));
    }
}

/// Two increasing sequences with the same elements are equal.
pub proof fn lemma_sorted_eq(a: Seq<usize>, b: Seq<usize>)
    requires
        strictly_sorted(a),
        strictly_sorted(b),
        a.to_set() == b.to_set(),
    ensures
        a == b,
    decreases a.len(),
{
    lemma_strictly_sorted_distinct(a);
    lemma_strictly_sorted_distinct(b);
    a.unique_seq_to_set();
    b.unique_seq_to_set();
    if a.len() > 0 {
        let la = a.last();
        let lb = b.last();
        assert(a.to_set().contains(la));
        assert(b.to_set().contains(lb));
        assert(b.contains(la));
        assert(a.contains(lb));
        let j = choose|j: int| 0 <= j < b.len() && b[j] == la;
        let i = choose|i: int| 0 <= i < a.len() && a[i] == lb;
        assert(la <= lb) by {
            if j < b.len() - 1 {
                assert(b[j] < b[b.len() - 1]);
            }
        }
        assert(lb <= la) by {
            if i < a.len() - 1 {
                assert(a[i] < a[a.len() - 1]);
            }
        }
        let a2 = a.drop_last();
        let b2 = b.drop_last();
        assert(a2.to_set() =~= b2.to_set()) by {
            assert forall|x: usize| a2.to_set().contains(x) implies b2.to_set().contains(x) by {
                let k = choose|k: int| 0 <= k < a2.len() && a2[k] == x;
                assert(a[k] < la);
                assert(a[k] == x);
                assert(a.to_set().contains(x));
                assert(b.to_set().contains(x));
                assert(b.contains(x));
                let m = choose|m: int| 0 <= m < b.len() && b[m] == x;
                assert(m != b.len() - 1);
                assert(b2[m] == x);
            }
            assert forall|x: usize| b2.to_set().contains(x) implies a2.to_set().contains(x) by {
                let k = choose|k: int| 0 <= k < b2.len() && b2[k] == x;
                assert(b[k] < lb);
                assert(b[k] == x);
                assert(b.to_set().contains(x));
                assert(a.to_set().contains(x));
                assert(a.contains(x));
                let m = choose|m: int| 0 <= m < a.len() && a[m] == x;
                assert(m != a.len() - 1);
                assert(a2[m] == x);
            }
        }
        lemma_sorted_eq(a2, b2);
        assert(a == a2.push(la));
        assert(b == b2.push(lb));
    } else {
        assert(b.len() == 0);
    }
}

/// Merging is symmetric: swapping the two lists, or the two vertices left
/// out, gives the same list.
pub proof fn lemma_sorted_union_symmetric(
    a: Seq<usize>,
    b: Seq<usize>,
    exclude1: usize,
    exclude2: usize,
    out1: Seq<usize>,
    out2: Seq<usize>,
)
    requires
        strictly_sorted(out1),
        out1.to_set() == a.to_set().union(b.to_set()).remove(exclude1).remove(exclude2),
        strictly_sorted(out2),
        out2.to_set() == b.to_set().union(a.to_set()).remove(exclude2).remove(exclude1),
    ensures
        out1 == out2,
{
    assert(out1.to_set() =~= out2.to_set());
    lemma_sorted_eq(out1, out2);
}

} // verus!
