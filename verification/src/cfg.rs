//! Control-flow graphs of compiled function bodies: the basic blocks that
//! are not cleanup (unwinding) blocks, renumbered densely, and the jumps
//! between them.

use vstd::prelude::*;

verus! {

/// What the extraction reads of one basic block.
pub struct BlockData {
    /// The block only runs while unwinding.
    pub is_cleanup: bool,
    /// Number of statements in the block.
    pub statement_count: usize,
    /// Indices of the blocks its terminator can jump to.
    pub successors: Vec<usize>,
}

/// A function's control-flow graph.
pub struct Cfg {
    /// Number of blocks that are not cleanup blocks.
    pub blocks: usize,
    /// Jumps between those blocks, in their new numbering, each listed once.
    pub edges: Vec<(usize, usize)>,
    /// Number of statements in those blocks.
    pub stmt_count: usize,
}

/// Every successor of every block names a block of the body.
pub open spec fn successors_in_range(body: Seq<BlockData>) -> bool {
    forall|b: int, j: int|
        0 <= b < body.len() && 0 <= j < body[b].successors@.len() ==> #[trigger] body[b].successors@[j]
            < body.len()
}

/// The number of blocks before `i` that are not cleanup blocks: the new
/// index of block `i` when it is kept.
pub open spec fn rank(body: Seq<BlockData>, i: int) -> nat
    decreases i,
{
    if i <= 0 {
        0
    } else {
        rank(body, i - 1) + if body[i - 1].is_cleanup {
            0nat
        } else {
            1nat
        }
    }
}

/// The number of statements in the blocks before `i` that are not cleanup
/// blocks.
pub open spec fn statements_before(body: Seq<BlockData>, i: int) -> nat
    decreases i,
{
    if i <= 0 {
        0
    } else {
        statements_before(body, i - 1) + if body[i - 1].is_cleanup {
            0nat
        } else {
            body[i - 1].statement_count as nat
        }
    }
}

/// The jumps out of block `b` through its first `j` successors, skipping
/// those into cleanup blocks, renumbered.
pub open spec fn jumps_from(body: Seq<BlockData>, b: int, j: int) -> Seq<(usize, usize)>
    decreases j,
{
    if j <= 0 {
        Seq::empty()
    } else {
        let t = body[b].successors@[j - 1] as int;
        if body[t].is_cleanup {
            jumps_from(body, b, j - 1)
        } else {
            jumps_from(body, b, j - 1).push((rank(body, b) as usize, rank(body, t) as usize))
        }
    }
}

/// The jumps out of the blocks before `i` that are not cleanup blocks, in
/// order, repetitions included.
pub open spec fn jumps_before(body: Seq<BlockData>, i: int) -> Seq<(usize, usize)>
    decreases i,
{
    if i <= 0 {
        Seq::empty()
    } else if body[i - 1].is_cleanup {
        jumps_before(body, i - 1)
    } else {
        jumps_before(body, i - 1) + jumps_from(body, i - 1, body[i - 1].successors@.len() as int)
    }
}

/// `s` without repetitions, each entry kept where it first occurs.
pub open spec fn first_occurrences(s: Seq<(usize, usize)>) -> Seq<(usize, usize)>
    decreases s.len(),
{
    if s.len() == 0 {
        s
    } else {
        let d = first_occurrences(s.drop_last());
        if d.contains(s.last()) {
            d
        } else {
            d.push(s.last())
        }
    }
}

/// `x` occurs in `s` before position `k`.
pub open spec fn occurs_before(s: Seq<(usize, usize)>, x: (usize, usize), k: int) -> bool {
    exists|k2: int| 0 <= k2 < k && s[k2] == x
}

/// The entries kept by dropping repetitions come in the order of their first
/// occurrences: wherever a later kept entry occurs in `s`, every earlier kept
/// entry has occurred before.
pub proof fn lemma_first_occurrences_order(s: Seq<(usize, usize)>)
    ensures
        forall|a: int, b: int, k: int|
            #![trigger first_occurrences(s)[a], first_occurrences(s)[b], s[k]]
            0 <= a < b < first_occurrences(s).len() && 0 <= k < s.len() && s[k] == first_occurrences(s)[b]
                ==> occurs_before(s, first_occurrences(s)[a], k),
    decreases s.len(),
{
    if s.len() > 0 {
        let p = s.drop_last();
        let d = first_occurrences(p);
        lemma_first_occurrences_order(p);
        lemma_first_occurrences(p);
        let out = first_occurrences(s);
        assert forall|a: int, b: int, k: int|
            #![trigger out[a], out[b], s[k]]
            0 <= a < b < out.len() && 0 <= k < s.len() && s[k] == out[b] implies occurs_before(s, out[a], k) by {
            assert(out[a] == d[a]);
            assert(d.contains(d[a]));
            assert(p.contains(d[a]));
            let ka = choose|ka: int| 0 <= ka < p.len() && p[ka] == d[a];
            assert(s[ka] == d[a]);
            if k < s.len() - 1 {
                assert(p[k] == s[k]);
                if b < d.len() {
                    assert(occurs_before(p, d[a], k));
                    let k2 = choose|k2: int| 0 <= k2 < k && p[k2] == d[a];
                    assert(s[k2] == d[a]);
                } else {
                    assert(out[b] == s.last());
                    assert(!d.contains(s.last()));
                    assert(p.contains(s[k]));
                }
            } else {
                assert(ka < k);
            }
        }
    }
}

/// Successor `j` of block `b` is a jump between two blocks that are not
/// cleanup blocks, and `e` is that jump renumbered.
pub open spec fn kept_jump(body: Seq<BlockData>, b: int, j: int, e: (usize, usize)) -> bool {
    &&& 0 <= j < body[b].successors@.len()
    &&& !body[b].is_cleanup
    &&& !body[body[b].successors@[j] as int].is_cleanup
    &&& e == (rank(body, b) as usize, rank(body, body[b].successors@[j] as int) as usize)
}

/// Some block of the body has a kept jump that renumbers to `e`.
pub open spec fn is_jump(body: Seq<BlockData>, e: (usize, usize)) -> bool {
    exists|b: int, j: int| 0 <= b < body.len() && #[trigger] kept_jump(body, b, j, e)
}

/// Dropping repetitions leaves each entry once, and exactly the entries of
/// `s`.
pub proof fn lemma_first_occurrences(s: Seq<(usize, usize)>)
    ensures
        first_occurrences(s).no_duplicates(),
        forall|e: (usize, usize)| #[trigger] first_occurrences(s).contains(e) <==> s.contains(e),
    decreases s.len(),
{
    if s.len() > 0 {
        let p = s.drop_last();
        let d = first_occurrences(p);
        lemma_first_occurrences(p);
        assert forall|e: (usize, usize)| #[trigger] first_occurrences(s).contains(e) <==> s.contains(e) by {
            if p.contains(e) {
                let k = choose|k: int| 0 <= k < p.len() && p[k] == e;
                assert(s[k] == e);
            }
            if s.contains(e) {
                let k = choose|k: int| 0 <= k < s.len() && s[k] == e;
                if k < s.len() - 1 {
                    assert(p[k] == e);
                }
            }
            if !d.contains(s.last()) {
                if d.push(s.last()).contains(e) && e != s.last() {
                    let k = choose|k: int| 0 <= k < d.len() + 1 && d.push(s.last())[k] == e;
                    assert(d[k] == e);
                }
                if d.contains(e) {
                    let k = choose|k: int| 0 <= k < d.len() && d[k] == e;
                    assert(d.push(s.last())[k] == e);
                }
                assert(d.push(s.last())[d.len() as int] == s.last());
            }
            assert(s[s.len() - 1] == s.last());
        }
        if !d.contains(s.last()) {
            let q = d.push(s.last());
            assert forall|a: int, b: int| 0 <= a < q.len() && 0 <= b < q.len() && a != b implies q[a] != q[b] by {
                if a < d.len() && b < d.len() {
                    assert(d[a] != d[b]);
                } else if a < d.len() {
                    assert(d.contains(q[a]));
                } else {
                    assert(d.contains(q[b]));
                }
            }
        }
    }
}

/// The jumps listed out of block `b` through its first `j` successors are
/// its kept jumps among them.
proof fn lemma_jumps_from(body: Seq<BlockData>, b: int, j: int, e: (usize, usize))
    requires
        0 <= b < body.len(),
        !body[b].is_cleanup,
        j <= body[b].successors@.len(),
    ensures
        jumps_from(body, b, j).contains(e) <==> exists|k: int| k < j && #[trigger] kept_jump(body, b, k, e),
    decreases j,
{
    if j > 0 {
        lemma_jumps_from(body, b, j - 1, e);
        let p = jumps_from(body, b, j - 1);
        let t = body[b].successors@[j - 1] as int;
        if !body[t].is_cleanup {
            let x = (rank(body, b) as usize, rank(body, t) as usize);
            assert(p.push(x)[p.len() as int] == x);
            if p.push(x).contains(e) && e != x {
                let k = choose|k: int| 0 <= k < p.len() + 1 && p.push(x)[k] == e;
                assert(p[k] == e);
            }
            if p.contains(e) {
                let k = choose|k: int| 0 <= k < p.len() && p[k] == e;
                assert(p.push(x)[k] == e);
            }
            if e == x {
                assert(kept_jump(body, b, j - 1, e));
            }
        }
        if exists|k: int| k < j && #[trigger] kept_jump(body, b, k, e) {
            let k = choose|k: int| k < j && #[trigger] kept_jump(body, b, k, e);
            if k == j - 1 {
                assert(!body[t].is_cleanup);
            }
        }
    } else {
        if exists|k: int| k < j && #[trigger] kept_jump(body, b, k, e) {
            let k = choose|k: int| k < j && #[trigger] kept_jump(body, b, k, e);
        }
    }
}

/// The jumps listed out of the blocks before `i` are the kept jumps of
/// those blocks.
pub proof fn lemma_jumps_before(body: Seq<BlockData>, i: int, e: (usize, usize))
    requires
        0 <= i <= body.len(),
    ensures
        jumps_before(body, i).contains(e) <==> exists|b: int, j: int| 0 <= b < i && #[trigger] kept_jump(body, b, j, e),
    decreases i,
{
    if i > 0 {
        lemma_jumps_before(body, i - 1, e);
        let p = jumps_before(body, i - 1);
        let b = i - 1;
        if !body[b].is_cleanup {
            let q = jumps_from(body, b, body[b].successors@.len() as int);
            lemma_jumps_from(body, b, body[b].successors@.len() as int, e);
            if (p + q).contains(e) {
                let k = choose|k: int| 0 <= k < (p + q).len() && (p + q)[k] == e;
                if k < p.len() {
                    assert(p[k] == e);
                } else {
                    assert(q[k - p.len()] == e);
                }
            }
            if p.contains(e) {
                let k = choose|k: int| 0 <= k < p.len() && p[k] == e;
                assert((p + q)[k] == e);
            }
            if q.contains(e) {
                let k = choose|k: int| 0 <= k < q.len() && q[k] == e;
                assert((p + q)[p.len() + k] == e);
            }
            if exists|c: int, j: int| 0 <= c < i && #[trigger] kept_jump(body, c, j, e) {
                let (c, j) = choose|c: int, j: int| 0 <= c < i && #[trigger] kept_jump(body, c, j, e);
                if c == b {
                    assert(exists|k: int| k < body[b].successors@.len() && #[trigger] kept_jump(body, b, k, e));
                }
            }
        } else {
            if exists|c: int, j: int| 0 <= c < i && #[trigger] kept_jump(body, c, j, e) {
                let (c, j) = choose|c: int, j: int| 0 <= c < i && #[trigger] kept_jump(body, c, j, e);
                assert(c != b);
            }
        }
    } else {
        if exists|c: int, j: int| 0 <= c < i && #[trigger] kept_jump(body, c, j, e) {
            let (c, j) = choose|c: int, j: int| 0 <= c < i && #[trigger] kept_jump(body, c, j, e);
        }
    }
}

/// The blocks before `i` that are not cleanup blocks.
pub open spec fn kept_before(body: Seq<BlockData>, i: int) -> Set<int> {
    Set::new(|k: int| 0 <= k < i && !body[k].is_cleanup)
}

/// A kept block's new index is the number of kept blocks before it, and the
/// block count is the number of kept blocks.
pub proof fn lemma_rank_counts(body: Seq<BlockData>, i: int)
    requires
        0 <= i <= body.len(),
    ensures
        kept_before(body, i).finite(),
        rank(body, i) == kept_before(body, i).len(),
    decreases i,
{
    if i == 0 {
        assert(kept_before(body, 0) =~= Set::<int>::empty());
    } else {
        lemma_rank_counts(body, i - 1);
        if body[i - 1].is_cleanup {
            assert(kept_before(body, i) =~= kept_before(body, i - 1));
        } else {
            assert(kept_before(body, i) =~= kept_before(body, i - 1).insert(i - 1));
            assert(!kept_before(body, i - 1).contains(i - 1));
        }
    }
}

/// Kept blocks keep their order under the renumbering: a kept block gets a
/// smaller index than every block after it, so no two kept blocks share an
/// index.
pub proof fn lemma_rank_increasing(body: Seq<BlockData>, i: int, j: int)
    requires
        0 <= i < j,
        !body[i].is_cleanup,
    ensures
        rank(body, i) < rank(body, j),
    decreases j,
{
    if j - 1 > i {
        lemma_rank_increasing(body, i, j - 1);
    }
    lemma_rank_monotone(body, i + 1, j);
}

/// The renumbering never decreases.
proof fn lemma_rank_monotone(body: Seq<BlockData>, i: int, j: int)
    requires
        0 <= i <= j,
    ensures
        rank(body, i) <= rank(body, j),
    decreases j - i,
{
    if i < j {
        lemma_rank_monotone(body, i, j - 1);
    }
}

proof fn lemma_rank_le(body: Seq<BlockData>, i: int)
    ensures
        rank(body, i) <= if i <= 0 {
            0
        } else {
            i
        },
    decreases i,
{
    if i > 0 {
        lemma_rank_le(body, i - 1);
    }
}

/// Whether `edges` lists `e`.
fn edge_listed(edges: &Vec<(usize, usize)>, e: (usize, usize)) -> (found: bool)
    ensures
        found == edges@.contains(e),
{
    let mut k: usize = 0;
    while k < edges.len()
        invariant
            k <= edges@.len(),
            forall|i: int| 0 <= i < k ==> edges@[i] != e,
        decreases edges@.len() - k,
    {
        let x = edges[k];
        if x.0 == e.0 && x.1 == e.1 {
            assert(edges@[k as int] == e);
            return true;
        }
        k += 1;
    }
    false
}

/// The control-flow graph of a body: cleanup blocks are dropped, the other
/// blocks are numbered in order from 0, jumps into cleanup blocks are
/// dropped, and each remaining jump is listed once, where it first occurs.
pub fn extract_cfg(body: &Vec<BlockData>) -> (cfg: Cfg)
    requires
        successors_in_range(body@),
        statements_before(body@, body@.len() as int) <= usize::MAX,
    ensures
        cfg.blocks == rank(body@, body@.len() as int),
        cfg.stmt_count == statements_before(body@, body@.len() as int),
        cfg.edges@ == first_occurrences(jumps_before(body@, body@.len() as int)),
        cfg.edges@.no_duplicates(),
        forall|e: (usize, usize)| #[trigger] cfg.edges@.contains(e) <==> is_jump(body@, e),
{
    let n_raw = body.len();
    let mut is_cleanup: Vec<bool> = Vec::new();
    let mut remap: Vec<Option<usize>> = Vec::new();
    let mut next: usize = 0;
    let mut i: usize = 0;
    while i < n_raw
        invariant
            n_raw == body@.len(),
            i <= n_raw,
            is_cleanup@.len() == i,
            remap@.len() == i,
            next == rank(body@, i as int),
            forall|k: int| 0 <= k < i ==> #[trigger] is_cleanup@[k] == body@[k].is_cleanup,
            forall|k: int|
                0 <= k < i ==> #[trigger] remap@[k] == if body@[k].is_cleanup {
                    None
                } else {
                    Some(rank(body@, k) as usize)
                },
        decreases n_raw - i,
    {
        let cleanup = body[i].is_cleanup;
        is_cleanup.push(cleanup);
        proof {
            lemma_rank_le(body@, i as int);
        }
        if !cleanup {
            remap.push(Some(next));
            next += 1;
        } else {
            remap.push(None);
        }
        i += 1;
    }
    let blocks = next;
    let mut edges: Vec<(usize, usize)> = Vec::new();
    let mut stmt_count: usize = 0;
    let mut b: usize = 0;
    while b < n_raw
        invariant
            n_raw == body@.len(),
            successors_in_range(body@),
            statements_before(body@, n_raw as int) <= usize::MAX,
            b <= n_raw,
            is_cleanup@.len() == n_raw,
            remap@.len() == n_raw,
            forall|k: int| 0 <= k < n_raw ==> #[trigger] is_cleanup@[k] == body@[k].is_cleanup,
            forall|k: int|
                0 <= k < n_raw ==> #[trigger] remap@[k] == if body@[k].is_cleanup {
                    None
                } else {
                    Some(rank(body@, k) as usize)
                },
            stmt_count == statements_before(body@, b as int),
            edges@ == first_occurrences(jumps_before(body@, b as int)),
        decreases n_raw - b,
    {
        proof {
            lemma_statements_monotone(body@, b + 1, n_raw as int);
        }
        if is_cleanup[b] {
            b += 1;
            continue;
        }
        let src = match remap[b] {
            Some(x) => x,
            None => 0,
        };
        stmt_count = stmt_count + body[b].statement_count;
        let succs = &body[b].successors;
        let ghost base = jumps_before(body@, b as int);
        let mut j: usize = 0;
        while j < succs.len()
            invariant
                n_raw == body@.len(),
                successors_in_range(body@),
                b < n_raw,
                !body@[b as int].is_cleanup,
                src == rank(body@, b as int) as usize,
                succs@ == body@[b as int].successors@,
                j <= succs@.len(),
                is_cleanup@.len() == n_raw,
                remap@.len() == n_raw,
                forall|k: int| 0 <= k < n_raw ==> #[trigger] is_cleanup@[k] == body@[k].is_cleanup,
                forall|k: int|
                    0 <= k < n_raw ==> #[trigger] remap@[k] == if body@[k].is_cleanup {
                        None
                    } else {
                        Some(rank(body@, k) as usize)
                    },
                edges@ == first_occurrences(base + jumps_from(body@, b as int, j as int)),
            decreases succs@.len() - j,
        {
            let tgt_raw = succs[j];
            proof {
                assert(tgt_raw < n_raw);
            }
            if !is_cleanup[tgt_raw] {
                if let Some(tgt) = remap[tgt_raw] {
                    let edge = (src, tgt);
                    let ghost before = base + jumps_from(body@, b as int, j as int);
                    proof {
                        assert(base + jumps_from(body@, b as int, j + 1) == before.push(edge));
                        assert(before.push(edge).drop_last() == before);
                    }
                    if !edge_listed(&edges, edge) {
                        edges.push(edge);
                    }
                }
            } else {
                proof {
                    assert(jumps_from(body@, b as int, j + 1) == jumps_from(body@, b as int, j as int));
                }
            }
            j += 1;
        }
        proof {
            assert(jumps_before(body@, b + 1) == base + jumps_from(body@, b as int, succs@.len() as int));
        }
        b += 1;
    }
    proof {
        let all = jumps_before(body@, body@.len() as int);
        lemma_first_occurrences(all);
        assert forall|e: (usize, usize)| #[trigger] edges@.contains(e) <==> is_jump(body@, e) by {
            lemma_jumps_before(body@, body@.len() as int, e);
        }
    }
    Cfg { blocks, edges, stmt_count }
}

proof fn lemma_statements_monotone(body: Seq<BlockData>, i: int, j: int)
    requires
        i <= j,
    ensures
        statements_before(body, i) <= statements_before(body, j),
    decreases j - i,
{
    if i < j {
        lemma_statements_monotone(body, i, j - 1);
    }
}

} // verus!
