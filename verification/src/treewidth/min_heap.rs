//! An indexed 4-ary min-heap over the identifiers `0..capacity`, whose keys
//! can be raised or lowered in place.

use vstd::prelude::*;
use vstd::multiset::Multiset;

verus! {

#[derive(Clone, Copy)]
pub struct HeapEntry {
    pub id: usize,
    pub key: u128,
}

pub struct MinIdHeap {
    heap: Vec<HeapEntry>,
    id_pos: Vec<usize>,
    contained: Vec<bool>,
}

/// The parent slot of slot `i` in a 4-ary heap.
pub open spec fn parent(i: int) -> int {
    (i - 1) / 4
}

/// Every slot except `hole` holds a key no smaller than its parent's, where
/// neither the slot nor its parent is the hole.
pub open spec fn ordered_except(h: Seq<HeapEntry>, hole: int) -> bool {
    forall|i: int|
        0 < i < h.len() && i != hole && parent(i) != hole ==> h[parent(i)].key <= #[trigger] h[i].key
}

/// The hole's parent key is no larger than the keys of the hole's children.
pub open spec fn bridged(h: Seq<HeapEntry>, hole: int) -> bool {
    forall|i: int|
        0 < i < h.len() && parent(i) == hole && hole > 0 ==> h[parent(hole)].key <= #[trigger] h[i].key
}

/// `key` is no larger than the keys of the hole's children.
pub open spec fn below_children(h: Seq<HeapEntry>, hole: int, key: u128) -> bool {
    forall|i: int| 0 < i < h.len() && parent(i) == hole ==> key <= #[trigger] h[i].key
}

/// `key` is no smaller than the key of the hole's parent.
pub open spec fn above_parent(h: Seq<HeapEntry>, hole: int, key: u128) -> bool {
    hole > 0 ==> h[parent(hole)].key <= key
}

/// The heap order over the whole array.
pub open spec fn heap_ordered(h: Seq<HeapEntry>) -> bool {
    forall|i: int| 0 < i < h.len() ==> h[parent(i)].key <= #[trigger] h[i].key
}

/// Under the heap order the first slot holds a least key.
proof fn lemma_root_is_min(h: Seq<HeapEntry>, i: int)
    requires
        heap_ordered(h),
        0 <= i < h.len(),
    ensures
        h[0].key <= h[i].key,
    decreases i,
{
    if i > 0 {
        assert(0 <= parent(i) < i);
        lemma_root_is_min(h, parent(i));
    }
}

/// The slots after the entry in slot `pos` moves towards the root, trading
/// places with its parent while its key is smaller.
pub open spec fn sift_up(h: Seq<HeapEntry>, pos: int) -> Seq<HeapEntry>
    decreases pos,
{
    if pos <= 0 || pos >= h.len() || !(h[pos].key < h[parent(pos)].key) {
        h
    } else {
        sift_up(h.update(pos, h[parent(pos)]).update(parent(pos), h[pos]), parent(pos))
    }
}

/// The first slot of least key among `best` and the slots `i..end`, a later
/// slot winning only with a strictly smaller key.
pub open spec fn min_child_from(h: Seq<HeapEntry>, best: int, i: int, end: int) -> int
    decreases end - i,
{
    if i >= end {
        best
    } else if h[i].key < h[best].key {
        min_child_from(h, i, i + 1, end)
    } else {
        min_child_from(h, best, i + 1, end)
    }
}

/// The first least slot is `best` or one of `i..end`.
pub proof fn lemma_min_child_range(h: Seq<HeapEntry>, best: int, i: int, end: int)
    requires
        best < i,
    ensures
        min_child_from(h, best, i, end) == best || i <= min_child_from(h, best, i, end) < end,
    decreases end - i,
{
    if i < end {
        if h[i].key < h[best].key {
            lemma_min_child_range(h, i, i + 1, end);
        } else {
            lemma_min_child_range(h, best, i + 1, end);
        }
    }
}

/// The slots after the entry in slot `pos` moves away from the root, trading
/// places with its first child of least key while that key is smaller.
pub open spec fn sift_down(h: Seq<HeapEntry>, pos: int) -> Seq<HeapEntry>
    decreases h.len() - pos,
{
    let begin = 4 * pos + 1;
    if pos < 0 || begin >= h.len() {
        h
    } else {
        let end = if h.len() - begin > 4 {
            begin + 4
        } else {
            h.len() as int
        };
        let c = min_child_from(h, begin, begin + 1, end);
        proof {
            lemma_min_child_range(h, begin, begin + 1, end);
        }
        if h[c].key < h[pos].key {
            sift_down(h.update(pos, h[c]).update(c, h[pos]), c)
        } else {
            h
        }
    }
}

/// The slots after pushing `id` with `key`: a new last slot, sifted up.
pub open spec fn push_entries(h: Seq<HeapEntry>, id: usize, key: u128) -> Seq<HeapEntry> {
    sift_up(h.push(HeapEntry { id, key }), h.len() as int)
}

/// The slots after popping the root: the last slot moves to the root and is
/// sifted down.
pub open spec fn pop_entries(h: Seq<HeapEntry>) -> Seq<HeapEntry> {
    if h.len() <= 1 {
        Seq::empty()
    } else {
        sift_down(h.drop_last().update(0, h.last()), 0)
    }
}

/// Some slot holds `id`.
pub open spec fn holds_id(h: Seq<HeapEntry>, id: usize) -> bool {
    exists|p: int| 0 <= p < h.len() && h[p].id == id
}

/// The slot that holds `id`.
pub open spec fn slot_of(h: Seq<HeapEntry>, id: usize) -> int {
    choose|p: int| 0 <= p < h.len() && h[p].id == id
}

/// The slots after the key in slot `p` becomes `key`: sifted down when it
/// grew, up when it shrank, left alone when it is the same.
pub open spec fn rekey_entries(h: Seq<HeapEntry>, p: int, key: u128) -> Seq<HeapEntry> {
    let h2 = h.update(p, HeapEntry { id: h[p].id, key });
    if h[p].key < key {
        sift_down(h2, p)
    } else if key < h[p].key {
        sift_up(h2, p)
    } else {
        h
    }
}

/// The slots after `id` gets `key`: its slot is re-keyed when it is in the
/// heap, otherwise it is pushed.
pub open spec fn set_key_entries(h: Seq<HeapEntry>, id: usize, key: u128) -> Seq<HeapEntry> {
    if holds_id(h, id) {
        rekey_entries(h, slot_of(h, id), key)
    } else {
        push_entries(h, id, key)
    }
}

/// `ids` is what repeated pops can return from a heap whose identifiers and
/// keys are `m`: each time an identifier of least key, which then leaves,
/// until none is left.
pub open spec fn pops_in_order(m: Map<usize, int>, ids: Seq<usize>) -> bool
    decreases ids.len(),
{
    if ids.len() == 0 {
        m.dom() == Set::<usize>::empty()
    } else {
        &&& m.dom().contains(ids[0])
        &&& forall|u: usize| #[trigger] m.dom().contains(u) ==> m[ids[0]] <= m[u]
        &&& pops_in_order(m.remove(ids[0]), ids.drop_first())
    }
}

/// Popping until the heap is empty returns every identifier it held exactly
/// once, in order of non-decreasing key.
pub proof fn lemma_pops_in_order(m: Map<usize, int>, ids: Seq<usize>)
    requires
        pops_in_order(m, ids),
    ensures
        ids.no_duplicates(),
        forall|u: usize| #[trigger] m.dom().contains(u) <==> ids.contains(u),
        forall|i: int, j: int| 0 <= i <= j < ids.len() ==> m[ids[i]] <= m[ids[j]],
    decreases ids.len(),
{
    if ids.len() > 0 {
        let v = ids[0];
        let rest = ids.drop_first();
        let m2 = m.remove(v);
        lemma_pops_in_order(m2, rest);
        assert forall|u: usize| #[trigger] m.dom().contains(u) <==> ids.contains(u) by {
            if m.dom().contains(u) && u != v {
                assert(m2.dom().contains(u));
                let k = choose|k: int| 0 <= k < rest.len() && rest[k] == u;
                assert(ids[k + 1] == u);
            }
            if ids.contains(u) && u != v {
                let k = choose|k: int| 0 <= k < ids.len() && ids[k] == u;
                assert(rest[k - 1] == u);
                assert(m2.dom().contains(u));
            }
            if u == v {
                assert(ids[0] == u);
            }
        }
        assert forall|i: int, j: int| 0 <= i < ids.len() && 0 <= j < ids.len() && i != j implies ids[i] != ids[j] by {
            if i > 0 && j > 0 {
                assert(rest[i - 1] != rest[j - 1]);
            } else if i == 0 {
                assert(rest.contains(ids[j])) by {
                    assert(rest[j - 1] == ids[j]);
                }
                assert(m2.dom().contains(ids[j]));
            } else {
                assert(rest.contains(ids[i])) by {
                    assert(rest[i - 1] == ids[i]);
                }
                assert(m2.dom().contains(ids[i]));
            }
        }
        assert forall|i: int, j: int| 0 <= i <= j < ids.len() implies m[ids[i]] <= m[ids[j]] by {
            if i > 0 {
                assert(rest[i - 1] == ids[i] && rest[j - 1] == ids[j]);
                assert(m2[rest[i - 1]] <= m2[rest[j - 1]]);
                assert(rest.contains(ids[i]) && rest.contains(ids[j]));
                assert(m2.dom().contains(ids[i]) && m2.dom().contains(ids[j]));
                assert(m2[ids[i]] == m[ids[i]] && m2[ids[j]] == m[ids[j]]);
            } else {
                assert(ids.contains(ids[j]));
                assert(m.dom().contains(ids[j]));
            }
        }
    }
}

/// Every identifier not flagged has position `usize::MAX`.
#[verifier::opaque]
closed spec fn unplaced_in(flags: Seq<bool>, pos: Seq<usize>) -> bool {
    forall|id: int| 0 <= id < pos.len() && !(#[trigger] flags[id]) ==> pos[id] == usize::MAX
}

/// The positions of the identifiers not flagged are those of `pos0`.
#[verifier::opaque]
closed spec fn kept_absent(flags: Seq<bool>, pos: Seq<usize>, pos0: Seq<usize>) -> bool {
    &&& pos.len() == pos0.len()
    &&& forall|id: int| 0 <= id < pos.len() && !(#[trigger] flags[id]) ==> pos[id] == pos0[id]
}

/// Moving a flagged identifier keeps the positions of the others.
proof fn lemma_move_flagged(flags: Seq<bool>, pos: Seq<usize>, pos0: Seq<usize>, i: int, p: usize)
    requires
        kept_absent(flags, pos, pos0),
        0 <= i < flags.len(),
        i < pos.len(),
        flags[i],
    ensures
        kept_absent(flags, pos.update(i, p), pos0),
{
    reveal(kept_absent);
}

/// Positions kept for the unflagged identifiers stay unplaced.
proof fn lemma_kept_unplaced(flags: Seq<bool>, pos: Seq<usize>, pos0: Seq<usize>)
    requires
        kept_absent(flags, pos, pos0),
        unplaced_in(flags, pos0),
    ensures
        unplaced_in(flags, pos),
{
    reveal(kept_absent);
    reveal(unplaced_in);
}

/// Flagging an identifier and giving it a position keeps the others
/// unplaced; so does moving a flagged one.
proof fn lemma_place(flags: Seq<bool>, pos: Seq<usize>, i: int, p: usize)
    requires
        unplaced_in(flags, pos),
        0 <= i < pos.len(),
        flags.len() == pos.len(),
    ensures
        unplaced_in(flags.update(i, true), pos.update(i, p)),
        flags[i] ==> unplaced_in(flags, pos.update(i, p)),
{
    reveal(unplaced_in);
}

/// Unflagging an identifier and giving it position `usize::MAX` keeps all
/// unflagged identifiers unplaced.
proof fn lemma_unplace(flags: Seq<bool>, pos: Seq<usize>, i: int)
    requires
        unplaced_in(flags, pos),
        0 <= i < pos.len(),
        flags.len() == pos.len(),
    ensures
        unplaced_in(flags.update(i, false), pos.update(i, usize::MAX)),
{
    reveal(unplaced_in);
}

/// The first least slot among `best` and `i..end` has a key no larger than
/// any of them.
proof fn lemma_min_child_least(h: Seq<HeapEntry>, best: int, i: int, end: int)
    requires
        0 <= best < i,
        end <= h.len(),
    ensures
        h[min_child_from(h, best, i, end)].key <= h[best].key,
        forall|k: int| i <= k < end ==> h[min_child_from(h, best, i, end)].key <= #[trigger] h[k].key,
    decreases end - i,
{
    if i < end {
        if h[i].key < h[best].key {
            lemma_min_child_least(h, i, i + 1, end);
        } else {
            lemma_min_child_least(h, best, i + 1, end);
        }
    }
}

/// Trading the contents of two slots keeps the multiset of entries.
proof fn lemma_swap_multiset(h: Seq<HeapEntry>, i: int, j: int)
    requires
        0 <= i < h.len(),
        0 <= j < h.len(),
    ensures
        h.update(i, h[j]).update(j, h[i]).to_multiset() == h.to_multiset(),
{
    broadcast use {vstd::seq_lib::to_multiset_update, vstd::multiset::group_multiset_axioms};

    let h1 = h.update(i, h[j]);
    assert(h1.to_multiset() == h.to_multiset().insert(h[j]).remove(h[i]));
    if i == j {
        assert(h.update(i, h[j]).update(j, h[i]) == h);
    } else {
        assert(h1[j] == h[j]);
        assert(h1.update(j, h[i]).to_multiset() == h1.to_multiset().insert(h[i]).remove(h[j]));
        let m = h.to_multiset();
        vstd::seq_lib::to_multiset_contains(h, h[i]);
        vstd::seq_lib::to_multiset_contains(h, h[j]);
        assert(h.contains(h[i]) && h.contains(h[j]));
        assert(m.count(h[i]) > 0 && m.count(h[j]) > 0);
        let m1 = m.insert(h[j]).remove(h[i]);
        let m2 = m1.insert(h[i]).remove(h[j]);
        assert forall|x: HeapEntry| #[trigger] m2.count(x) == m.count(x) by {
            if x == h[i] && x == h[j] {
            } else if x == h[i] {
            } else if x == h[j] {
            } else {
            }
        }
        assert(m2 =~= m);
    }
}

/// Sifting down a slot whose key may be too large for its children, in an
/// array otherwise in heap order, gives an array in heap order with the same
/// entries.
pub proof fn lemma_sift_down_ordered(h: Seq<HeapEntry>, pos: int)
    requires
        0 <= pos < h.len(),
        ordered_except(h, pos),
        bridged(h, pos),
        above_parent(h, pos, h[pos].key),
    ensures
        heap_ordered(sift_down(h, pos)),
        sift_down(h, pos).to_multiset() == h.to_multiset(),
        sift_down(h, pos).len() == h.len(),
    decreases h.len() - pos,
{
    let begin = 4 * pos + 1;
    if begin >= h.len() {
        assert forall|i: int| 0 < i < h.len() implies h[parent(i)].key <= #[trigger] h[i].key by {
            if i == pos {
            } else {
                assert(parent(i) != pos);
            }
        }
    } else {
        let end = if h.len() - begin > 4 {
            begin + 4
        } else {
            h.len() as int
        };
        let c = min_child_from(h, begin, begin + 1, end);
        lemma_min_child_range(h, begin, begin + 1, end);
        lemma_min_child_least(h, begin, begin + 1, end);
        assert forall|k: int| 0 < k < h.len() && parent(k) == pos implies h[c].key <= #[trigger] h[k].key by {
            assert(begin <= k < end);
            if k > begin {
                assert(begin + 1 <= k);
            }
        }
        if h[c].key < h[pos].key {
            let h2 = h.update(pos, h[c]).update(c, h[pos]);
            assert(parent(c) == pos);
            assert(ordered_except(h2, c)) by {
                assert forall|i: int| 0 < i < h2.len() && i != c && parent(i) != c
                    implies h2[parent(i)].key <= #[trigger] h2[i].key by {
                    if i == pos {
                        assert(h[parent(pos)].key <= h[c].key);
                    } else if parent(i) == pos {
                        assert(h[c].key <= h[i].key);
                    } else {
                        assert(h[parent(i)].key <= h[i].key);
                    }
                }
            }
            assert(bridged(h2, c)) by {
                assert forall|k: int| 0 < k < h2.len() && parent(k) == c && c > 0
                    implies h2[parent(c)].key <= #[trigger] h2[k].key by {
                    assert(k != pos && k != c);
                    assert(h[c].key <= h[k].key);
                }
            }
            lemma_swap_multiset(h, pos, c);
            lemma_sift_down_ordered(h2, c);
        } else {
            assert forall|i: int| 0 < i < h.len() implies h[parent(i)].key <= #[trigger] h[i].key by {
                if i == pos {
                } else if parent(i) == pos {
                    assert(h[c].key <= h[i].key);
                } else {
                }
            }
        }
    }
}

/// Popping the root of an array in heap order leaves an array in heap
/// order holding the other entries.
pub proof fn lemma_pop_entries_ordered(h: Seq<HeapEntry>)
    requires
        heap_ordered(h),
        h.len() > 0,
    ensures
        heap_ordered(pop_entries(h)),
        pop_entries(h).to_multiset() == h.to_multiset().remove(h[0]),
        pop_entries(h).len() + 1 == h.len(),
{
    broadcast use {
        vstd::seq_lib::to_multiset_update,
        vstd::seq_lib::to_multiset_build,
        vstd::multiset::group_multiset_axioms,
    };

    if h.len() == 1 {
        assert(h == seq![h[0]]);
        assert(h.to_multiset() == Seq::<HeapEntry>::empty().push(h[0]).to_multiset());
        assert(pop_entries(h).to_multiset() =~= h.to_multiset().remove(h[0]));
    } else {
        let d = h.drop_last();
        let h2 = d.update(0, h.last());
        assert(h == d.push(h.last()));
        assert(h.to_multiset() == d.to_multiset().insert(h.last()));
        assert(h2.to_multiset() == d.to_multiset().insert(h.last()).remove(d[0]));
        assert(h2.to_multiset() =~= h.to_multiset().remove(h[0]));
        assert(ordered_except(h2, 0)) by {
            assert forall|i: int| 0 < i < h2.len() && i != 0 && parent(i) != 0
                implies h2[parent(i)].key <= #[trigger] h2[i].key by {
                assert(h[parent(i)].key <= h[i].key);
            }
        }
        lemma_sift_down_ordered(h2, 0);
    }
}

/// The entries that popping until the heap is empty returns, in order.
pub open spec fn drain(h: Seq<HeapEntry>, fuel: nat) -> Seq<HeapEntry>
    decreases fuel,
{
    if fuel == 0 || h.len() == 0 {
        Seq::empty()
    } else {
        seq![h[0]] + drain(pop_entries(h), (fuel - 1) as nat)
    }
}

/// Popping until the heap is empty returns every entry exactly once, in
/// order of non-decreasing key. (`pop` returns the identifier of the root
/// slot and leaves `pop_entries` of the slots; a well-formed heap's slots are
/// in heap order with distinct identifiers, so the identifiers come out each
/// once.)
pub proof fn lemma_drain(h: Seq<HeapEntry>)
    requires
        heap_ordered(h),
    ensures
        drain(h, h.len()).to_multiset() == h.to_multiset(),
        drain(h, h.len()).len() == h.len(),
        forall|i: int, j: int|
            0 <= i <= j < h.len() ==> (#[trigger] drain(h, h.len())[i]).key <= (#[trigger] drain(h, h.len())[j]).key,
    decreases h.len(),
{
    broadcast use {vstd::seq_lib::group_to_multiset_ensures, vstd::multiset::group_multiset_axioms};

    if h.len() == 0 {
        assert(h.to_multiset() =~= Multiset::<HeapEntry>::empty());
    } else {
        let p = pop_entries(h);
        lemma_pop_entries_ordered(h);
        lemma_drain(p);
        let rest = drain(p, p.len());
        let d = drain(h, h.len());
        assert(d == seq![h[0]] + rest);
        assert(d.to_multiset() =~= rest.to_multiset().insert(h[0])) by {
            assert(d =~= rest.insert(0, h[0]));
        }
        assert(h.to_multiset().contains(h[0]));
        assert forall|i: int, j: int| 0 <= i <= j < h.len() implies (#[trigger] d[i]).key <= (#[trigger] d[j]).key by {
            if i == 0 {
                let x = d[j];
                if j > 0 {
                    assert(x == rest[j - 1]);
                    assert(rest.to_multiset().contains(x));
                    assert(h.to_multiset().contains(x));
                    assert(h.contains(x));
                    let k = choose|k: int| 0 <= k < h.len() && h[k] == x;
                    lemma_root_is_min(h, k);
                }
            } else {
                assert(d[i] == rest[i - 1] && d[j] == rest[j - 1]);
            }
        }
    }
}

/// Sifting up moves the entry only past parents of strictly larger key:
/// every slot whose content changed holds either the sifted entry or an
/// entry of larger key. So an entry never passes one of equal key, and
/// entries of equal key keep their order.
pub proof fn lemma_sift_up_passes_larger(h: Seq<HeapEntry>, pos: int)
    requires
        0 <= pos < h.len(),
    ensures
        sift_up(h, pos).len() == h.len(),
        forall|i: int|
            0 <= i < h.len() && #[trigger] sift_up(h, pos)[i] != h[i] ==> sift_up(h, pos)[i] == h[pos]
                || sift_up(h, pos)[i].key > h[pos].key,
    decreases pos,
{
    if pos > 0 && h[pos].key < h[parent(pos)].key {
        let par = parent(pos);
        let h2 = h.update(pos, h[par]).update(par, h[pos]);
        lemma_sift_up_passes_larger(h2, par);
        let r = sift_up(h, pos);
        assert(r == sift_up(h2, par));
        assert forall|i: int| 0 <= i < h.len() && #[trigger] r[i] != h[i] implies r[i] == h[pos] || r[i].key
            > h[pos].key by {
            if r[i] == h2[i] {
                assert(i == pos || i == par);
            }
        }
    }
}

/// Sifting down moves the entry only past children of strictly smaller key:
/// every slot whose content changed holds either the sifted entry or an
/// entry of smaller key.
pub proof fn lemma_sift_down_passes_smaller(h: Seq<HeapEntry>, pos: int)
    requires
        0 <= pos < h.len(),
    ensures
        sift_down(h, pos).len() == h.len(),
        forall|i: int|
            0 <= i < h.len() && #[trigger] sift_down(h, pos)[i] != h[i] ==> sift_down(h, pos)[i] == h[pos]
                || sift_down(h, pos)[i].key < h[pos].key,
    decreases h.len() - pos,
{
    let begin = 4 * pos + 1;
    if begin < h.len() {
        let end = if h.len() - begin > 4 {
            begin + 4
        } else {
            h.len() as int
        };
        let c = min_child_from(h, begin, begin + 1, end);
        lemma_min_child_range(h, begin, begin + 1, end);
        if h[c].key < h[pos].key {
            let h2 = h.update(pos, h[c]).update(c, h[pos]);
            lemma_sift_down_passes_smaller(h2, c);
            let r = sift_down(h, pos);
            assert(r == sift_down(h2, c));
            assert forall|i: int| 0 <= i < h.len() && #[trigger] r[i] != h[i] implies r[i] == h[pos] || r[i].key
                < h[pos].key by {
                if r[i] == h2[i] {
                    assert(i == pos || i == c);
                }
            }
        }
    }
}

/// The child that sifting down compares with is the first slot of least key
/// among the children `begin..end`: none before it has a key as small, none
/// after it a smaller one.
pub proof fn lemma_min_child_first(h: Seq<HeapEntry>, begin: int, end: int)
    requires
        0 <= begin < end <= h.len(),
    ensures
        begin <= min_child_from(h, begin, begin + 1, end) < end,
        forall|k: int| begin <= k < end ==> h[min_child_from(h, begin, begin + 1, end)].key <= #[trigger] h[k].key,
        forall|k: int| begin <= k < min_child_from(h, begin, begin + 1, end) ==> h[min_child_from(h, begin, begin + 1, end)].key < #[trigger] h[k].key,
{
    lemma_min_child_range(h, begin, begin + 1, end);
    lemma_min_child_least(h, begin, begin + 1, end);
    lemma_min_child_strict(h, begin, begin, begin + 1, end);
}

/// While scanning from `i`, the slots before the current best have larger
/// keys and those from it on have keys no smaller; the scan's result keeps
/// the first property.
proof fn lemma_min_child_strict(h: Seq<HeapEntry>, lo: int, best: int, i: int, end: int)
    requires
        lo <= best < i,
        0 <= lo,
        end <= h.len(),
        forall|k: int| lo <= k < best ==> h[best].key < #[trigger] h[k].key,
        forall|k: int| best <= k < i ==> h[best].key <= #[trigger] h[k].key,
    ensures
        forall|k: int| lo <= k < min_child_from(h, best, i, end) ==> h[min_child_from(h, best, i, end)].key < #[trigger] h[k].key,
    decreases end - i,
{
    if i < end {
        if h[i].key < h[best].key {
            assert forall|k: int| lo <= k < i implies h[i].key < #[trigger] h[k].key by {
                if k < best {
                    assert(h[best].key < h[k].key);
                } else {
                    assert(h[best].key <= h[k].key);
                }
            }
            lemma_min_child_strict(h, lo, i, i + 1, end);
        } else {
            lemma_min_child_strict(h, lo, best, i + 1, end);
        }
    }
}

/// Sifting up a slot whose key may be too small for its parent, in an array
/// otherwise in heap order, gives an array in heap order with the same
/// entries.
pub proof fn lemma_sift_up_ordered(h: Seq<HeapEntry>, pos: int)
    requires
        0 <= pos < h.len(),
        ordered_except(h, pos),
        bridged(h, pos),
        below_children(h, pos, h[pos].key),
    ensures
        heap_ordered(sift_up(h, pos)),
        sift_up(h, pos).to_multiset() == h.to_multiset(),
        sift_up(h, pos).len() == h.len(),
    decreases pos,
{
    if pos > 0 && h[pos].key < h[parent(pos)].key {
        let par = parent(pos);
        let h2 = h.update(pos, h[par]).update(par, h[pos]);
        assert(0 <= par < pos);
        assert(ordered_except(h2, par)) by {
            assert forall|i: int| 0 < i < h2.len() && i != par && parent(i) != par
                implies h2[parent(i)].key <= #[trigger] h2[i].key by {
                if parent(i) == pos {
                    assert(h[parent(pos)].key <= h[i].key);
                } else {
                    assert(h[parent(i)].key <= h[i].key);
                }
            }
        }
        assert(bridged(h2, par)) by {
            assert forall|k: int| 0 < k < h2.len() && parent(k) == par && par > 0
                implies h2[parent(par)].key <= #[trigger] h2[k].key by {
                assert(parent(par) != pos);
                assert(h[parent(par)].key <= h[par].key);
                if k != pos {
                    assert(h[par].key <= h[k].key);
                }
            }
        }
        assert(below_children(h2, par, h2[par].key)) by {
            assert forall|k: int| 0 < k < h2.len() && parent(k) == par implies h2[par].key <= #[trigger] h2[k].key by {
                if k != pos {
                    assert(h[par].key <= h[k].key);
                }
            }
        }
        lemma_swap_multiset(h, pos, par);
        lemma_sift_up_ordered(h2, par);
    } else {
        assert forall|i: int| 0 < i < h.len() implies h[parent(i)].key <= #[trigger] h[i].key by {
            if i == pos {
            } else if parent(i) == pos {
            } else {
            }
        }
    }
}

/// Pushing onto an array in heap order keeps it in heap order and adds the
/// new entry.
pub proof fn lemma_push_entries_ordered(h: Seq<HeapEntry>, id: usize, key: u128)
    requires
        heap_ordered(h),
    ensures
        heap_ordered(push_entries(h, id, key)),
        push_entries(h, id, key).to_multiset() == h.to_multiset().insert(HeapEntry { id, key }),
        push_entries(h, id, key).len() == h.len() + 1,
{
    broadcast use vstd::seq_lib::to_multiset_build;

    let e = HeapEntry { id, key };
    let h2 = h.push(e);
    let pos = h.len() as int;
    assert(ordered_except(h2, pos)) by {
        assert forall|i: int| 0 < i < h2.len() && i != pos && parent(i) != pos
            implies h2[parent(i)].key <= #[trigger] h2[i].key by {
            assert(h[parent(i)].key <= h[i].key);
        }
    }
    assert(bridged(h2, pos));
    assert(below_children(h2, pos, key));
    lemma_sift_up_ordered(h2, pos);
}

/// Changing the key of slot `p` of an array in heap order and sifting the
/// slot the right way keeps heap order, with that one entry re-keyed.
pub proof fn lemma_rekey_entries_ordered(h: Seq<HeapEntry>, p: int, key: u128)
    requires
        heap_ordered(h),
        0 <= p < h.len(),
    ensures
        heap_ordered(rekey_entries(h, p, key)),
        rekey_entries(h, p, key).to_multiset() == h.to_multiset().remove(h[p]).insert(
            HeapEntry { id: h[p].id, key },
        ),
        rekey_entries(h, p, key).len() == h.len(),
{
    broadcast use {vstd::seq_lib::to_multiset_update, vstd::seq_lib::to_multiset_contains, vstd::multiset::group_multiset_axioms};

    let e = HeapEntry { id: h[p].id, key };
    let h2 = h.update(p, e);
    assert(h2.to_multiset() == h.to_multiset().insert(e).remove(h[p]));
    assert(h.contains(h[p]));
    assert(h.to_multiset().count(h[p]) > 0);
    assert(h2.to_multiset() =~= h.to_multiset().remove(h[p]).insert(e)) by {
        assert forall|x: HeapEntry| #[trigger] h2.to_multiset().count(x) == h.to_multiset().remove(h[p]).insert(e).count(x) by {
        }
    }
    assert(ordered_except(h2, p)) by {
        assert forall|i: int| 0 < i < h2.len() && i != p && parent(i) != p
            implies h2[parent(i)].key <= #[trigger] h2[i].key by {
            assert(h[parent(i)].key <= h[i].key);
        }
    }
    assert(bridged(h2, p)) by {
        assert forall|k: int| 0 < k < h2.len() && parent(k) == p && p > 0
            implies h2[parent(p)].key <= #[trigger] h2[k].key by {
            assert(h[parent(p)].key <= h[p].key);
            assert(h[p].key <= h[k].key);
        }
    }
    if h[p].key < key {
        assert(above_parent(h2, p, key)) by {
            if p > 0 {
                assert(h[parent(p)].key <= h[p].key);
            }
        }
        lemma_sift_down_ordered(h2, p);
    } else if key < h[p].key {
        assert(below_children(h2, p, key)) by {
            assert forall|k: int| 0 < k < h2.len() && parent(k) == p implies key <= #[trigger] h2[k].key by {
                assert(h[p].key <= h[k].key);
            }
        }
        lemma_sift_up_ordered(h2, p);
    } else {
        assert(e == h[p]);
        assert(h.to_multiset().remove(h[p]).insert(e) =~= h.to_multiset());
    }
}

/// Giving `id` a key keeps an array in heap order: its slot is re-keyed
/// when it has one, otherwise the entry is added.
pub proof fn lemma_set_key_entries_ordered(h: Seq<HeapEntry>, id: usize, key: u128)
    requires
        heap_ordered(h),
    ensures
        heap_ordered(set_key_entries(h, id, key)),
        holds_id(h, id) ==> set_key_entries(h, id, key).to_multiset() == h.to_multiset().remove(h[slot_of(h, id)]).insert(
            HeapEntry { id, key },
        ),
        !holds_id(h, id) ==> set_key_entries(h, id, key).to_multiset() == h.to_multiset().insert(HeapEntry { id, key }),
{
    if holds_id(h, id) {
        let p = slot_of(h, id);
        assert(0 <= p < h.len() && h[p].id == id);
        lemma_rekey_entries_ordered(h, p, key);
    } else {
        lemma_push_entries_ordered(h, id, key);
    }
}

impl MinIdHeap {
    /// The number of identifiers the heap can hold.
    pub(crate) closed spec fn capacity(&self) -> nat {
        self.id_pos@.len()
    }

    /// The number of entries in the heap.
    pub(crate) closed spec fn size(&self) -> nat {
        self.heap@.len()
    }

    /// The slots of the heap, root first.
    pub closed spec fn entries(&self) -> Seq<HeapEntry> {
        self.heap@
    }

    /// The identifiers in the heap, each with its key.
    pub(crate) closed spec fn view(&self) -> Map<usize, int> {
        Map::new(
            |id: usize| id < self.id_pos@.len() && self.contained@[id as int],
            |id: usize| self.heap@[self.id_pos@[id as int] as int].key as int,
        )
    }

    /// The map of keys while `e` is held outside the array.
    closed spec fn view_with(&self, e: HeapEntry) -> Map<usize, int> {
        Map::new(
            |id: usize| id < self.id_pos@.len() && self.contained@[id as int],
            |id: usize|
                if id == e.id {
                    e.key as int
                } else {
                    self.heap@[self.id_pos@[id as int] as int].key as int
                },
        )
    }

    /// Slots and positions agree.
    closed spec fn positions_ok(&self) -> bool {
        &&& self.id_pos@.len() == self.contained@.len()
        &&& forall|i: int|
            0 <= i < self.heap@.len() ==> {
                &&& (#[trigger] self.heap@[i]).id < self.id_pos@.len()
                &&& self.contained@[self.heap@[i].id as int]
                &&& self.id_pos@[self.heap@[i].id as int] == i
            }
        &&& forall|id: int|
            0 <= id < self.id_pos@.len() && #[trigger] self.contained@[id] ==> {
                &&& self.id_pos@[id] < self.heap@.len()
                &&& self.heap@[self.id_pos@[id] as int].id == id
            }
    }

    /// Slots and positions agree, except that slot `hole` is stale and `e`
    /// is held outside the array.
    closed spec fn positions_ok_except(&self, hole: int, e: HeapEntry) -> bool {
        &&& self.id_pos@.len() == self.contained@.len()
        &&& 0 <= hole < self.heap@.len()
        &&& e.id < self.id_pos@.len()
        &&& self.contained@[e.id as int]
        &&& forall|i: int|
            0 <= i < self.heap@.len() && i != hole ==> {
                &&& (#[trigger] self.heap@[i]).id < self.id_pos@.len()
                &&& self.contained@[self.heap@[i].id as int]
                &&& self.id_pos@[self.heap@[i].id as int] == i
                &&& self.heap@[i].id != e.id
            }
        &&& forall|id: int|
            0 <= id < self.id_pos@.len() && #[trigger] self.contained@[id] && id != e.id ==> {
                &&& self.id_pos@[id] < self.heap@.len()
                &&& self.id_pos@[id] != hole
                &&& self.heap@[self.id_pos@[id] as int].id == id
            }
    }

    /// The position table, indexed by identifier.
    pub closed spec fn positions(&self) -> Seq<usize> {
        self.id_pos@
    }

    /// Which identifiers are in the heap, indexed by identifier.
    pub closed spec fn flags(&self) -> Seq<bool> {
        self.contained@
    }

    /// An identifier that is not in the heap has no position: `usize::MAX`.
    pub open spec fn absent_unplaced(&self) -> bool {
        forall|id: int| 0 <= id < self.positions().len() && !(#[trigger] self.flags()[id]) ==> self.positions()[id] == usize::MAX
    }

    /// Flags, and positions of the identifiers not in the heap, are those of
    /// `other`.
    pub open spec fn same_absent(&self, other: &Self) -> bool {
        &&& self.flags() == other.flags()
        &&& self.positions().len() == other.positions().len()
        &&& forall|id: int| 0 <= id < self.positions().len() && !(#[trigger] other.flags()[id]) ==> self.positions()[id] == other.positions()[id]
    }

    pub(crate) closed spec fn wf(&self) -> bool {
        &&& self.positions_ok()
        &&& heap_ordered(self.heap@)
        &&& unplaced_in(self.contained@, self.id_pos@)
    }

    /// The keyed identifiers are the identifiers in the slots, each in one
    /// slot.
    pub(crate) proof fn lemma_entries(&self)
        requires
            self.wf(),
        ensures
            self.size() == self.entries().len(),
            forall|id: usize| #[trigger] self.view().dom().contains(id) <==> holds_id(self.entries(), id),
            forall|id: usize| #[trigger] self.view().dom().contains(id) <==> id < self.capacity() && self.flags()[id as int],
            self.flags().len() == self.capacity(),
            self.positions().len() == self.capacity(),
            self.absent_unplaced(),
            heap_ordered(self.entries()),
            forall|i: int, j: int|
                0 <= i < j < self.entries().len() ==> (#[trigger] self.entries()[i]).id != (#[trigger] self.entries()[j]).id,
            forall|p: int| 0 <= p < self.entries().len() ==> (#[trigger] self.entries()[p]).id < self.capacity(),
    {
        reveal(unplaced_in);
        assert forall|i: int, j: int|
            0 <= i < j < self.entries().len() implies (#[trigger] self.entries()[i]).id != (#[trigger] self.entries()[j]).id by {
            assert(self.id_pos@[self.heap@[i].id as int] == i);
            assert(self.id_pos@[self.heap@[j].id as int] == j);
        }
        assert forall|id: usize| #[trigger] self.view().dom().contains(id) <==> holds_id(self.entries(), id) by {
            if holds_id(self.entries(), id) {
                let p = choose|p: int| 0 <= p < self.heap@.len() && self.heap@[p].id == id;
                assert(self.heap@[p].id < self.id_pos@.len());
            }
            if self.view().dom().contains(id) {
                assert(self.heap@[self.id_pos@[id as int] as int].id == id);
            }
        }
    }

    /// An identifier is in some slot exactly when it is flagged.
    proof fn lemma_holds(&self, id: usize)
        requires
            self.positions_ok(),
            id < self.id_pos@.len(),
        ensures
            holds_id(self.heap@, id) == self.contained@[id as int],
    {
        if holds_id(self.heap@, id) {
            let p = choose|p: int| 0 <= p < self.heap@.len() && self.heap@[p].id == id;
            assert(self.contained@[self.heap@[p].id as int]);
        }
        if self.contained@[id as int] {
            assert(self.heap@[self.id_pos@[id as int] as int].id == id);
        }
    }

    /// In a well-formed heap the slot of a contained id is its recorded
    /// position.
    proof fn lemma_slot_of(&self, id: usize)
        requires
            self.positions_ok(),
            id < self.id_pos@.len(),
            self.contained@[id as int],
        ensures
            slot_of(self.heap@, id) == self.id_pos@[id as int],
            holds_id(self.heap@, id),
    {
        assert(self.heap@[self.id_pos@[id as int] as int].id == id);
        let p = slot_of(self.heap@, id);
        assert(self.heap@[p].id == id);
    }

    /// An empty heap for the identifiers `0..id_count`.
    pub(crate) fn with_capacity(id_count: usize) -> (h: Self)
        ensures
            h.wf(),
            h.capacity() == id_count,
            h.size() == 0,
            h.view() == Map::<usize, int>::empty(),
            h.entries() == Seq::<HeapEntry>::empty(),
            h.flags() == Seq::new(id_count as nat, |i: int| false),
            h.positions() == Seq::new(id_count as nat, |i: int| usize::MAX),
    {
        let mut id_pos: Vec<usize> = Vec::new();
        let mut contained: Vec<bool> = Vec::new();
        let mut i: usize = 0;
        while i < id_count
            invariant
                i <= id_count,
                id_pos@.len() == i,
                contained@.len() == i,
                forall|j: int| 0 <= j < i ==> !(#[trigger] contained@[j]),
                forall|j: int| 0 <= j < i ==> #[trigger] id_pos@[j] == usize::MAX,
            decreases id_count - i,
        {
            id_pos.push(usize::MAX);
            contained.push(false);
            i += 1;
        }
        let h = MinIdHeap { heap: Vec::new(), id_pos, contained };
        assert(h.view() =~= Map::<usize, int>::empty());
        assert(h.flags() =~= Seq::new(id_count as nat, |i: int| false));
        assert(h.positions() =~= Seq::new(id_count as nat, |i: int| usize::MAX));
        reveal(unplaced_in);
        h
    }

    /// Inserts `id`, which is not in the heap, with `key`.
    #[verifier::spinoff_prover]
    pub(crate) fn push(&mut self, id: usize, key: u128)
        requires
            old(self).wf(),
            id < old(self).capacity(),
            !old(self).view().dom().contains(id),
        ensures
            final(self).wf(),
            final(self).capacity() == old(self).capacity(),
            final(self).size() == old(self).size() + 1,
            final(self).view() == old(self).view().insert(id, key as int),
            final(self).entries() == push_entries(old(self).entries(), id, key),
            final(self).flags() == old(self).flags().update(id as int, true),
            final(self).absent_unplaced(),
    {
        let ghost before = self.view();
        let ghost h0 = self.heap@;
        let ghost f0 = self.contained@;
        let ghost p0 = self.id_pos@;
        self.contained.set(id, true);
        let entry = HeapEntry { id, key };
        self.heap.push(entry);
        let pos = self.heap.len() - 1;
        self.id_pos.set(id, pos);
        proof {
            assert(self.positions_ok());
            assert(self.view() =~= before.insert(id, key as int));
            assert(ordered_except(self.heap@, pos as int));
            assert(bridged(self.heap@, pos as int));
            assert(below_children(self.heap@, pos as int, key));
            assert(self.heap@ == h0.push(entry));
            lemma_place(f0, p0, id as int, pos);
        }
        self.move_up(pos);
        proof {
            reveal(unplaced_in);
        }
    }

    /// Removes and returns an identifier of least key, if there is one.
    pub(crate) fn pop(&mut self) -> (r: Option<usize>)
        requires
            old(self).wf(),
        ensures
            final(self).wf(),
            final(self).capacity() == old(self).capacity(),
            r is None <==> old(self).view().dom() == Set::<usize>::empty(),
            r is None ==> final(self).size() == old(self).size() && final(self).view() == old(self).view(),
            r matches Some(id) ==> {
                &&& id < old(self).capacity()
                &&& old(self).view().dom().contains(id)
                &&& forall|u: usize| #[trigger] old(self).view().dom().contains(u) ==> old(self).view()[id] <= old(self).view()[u]
                &&& final(self).view() == old(self).view().remove(id)
                &&& final(self).size() + 1 == old(self).size()
            },
            old(self).entries().len() > 0 ==> r == Some(old(self).entries()[0].id),
            final(self).entries() == pop_entries(old(self).entries()),
            r is None ==> final(self).flags() == old(self).flags(),
            r matches Some(id) ==> final(self).flags() == old(self).flags().update(id as int, false)
                && final(self).positions()[id as int] == usize::MAX,
            final(self).absent_unplaced(),
    {
        let ghost before = self.view();
        if self.heap.len() == 0 {
            proof {
                assert forall|u: usize| !before.dom().contains(u) by {
                    if before.dom().contains(u) {
                        assert(self.contained@[u as int]);
                    }
                }
                assert(before.dom() =~= Set::<usize>::empty());
                reveal(unplaced_in);
            }
            return None;
        }
        let ret = self.heap[0].id;
        proof {
            assert(before.dom().contains(ret));
            assert forall|u: usize| #[trigger] before.dom().contains(u) implies before[ret] <= before[u] by {
                lemma_root_is_min(self.heap@, self.id_pos@[u as int] as int);
            }
        }
        let ghost f0 = self.contained@;
        let ghost p0 = self.id_pos@;
        self.contained.set(ret, false);
        self.id_pos.set(ret, usize::MAX);
        proof {
            lemma_unplace(f0, p0, ret as int);
        }
        if self.heap.len() == 1 {
            self.heap.pop();
            proof {
                assert(self.positions_ok()) by {
                    assert forall|id: int| 0 <= id < self.id_pos@.len() && #[trigger] self.contained@[id] implies {
                        &&& self.id_pos@[id] < self.heap@.len()
                        &&& self.heap@[self.id_pos@[id] as int].id == id
                    } by {
                        assert(id != ret);
                    }
                }
                assert(self.view() =~= before.remove(ret));
                reveal(unplaced_in);
            }
            return Some(ret);
        }
        let ghost h0 = self.heap@;
        let last = self.heap.pop().unwrap();
        self.heap.set(0, last);
        let ghost p1 = self.id_pos@;
        self.id_pos.set(last.id, 0);
        proof {
            assert(self.contained@[last.id as int]);
            lemma_place(self.contained@, p1, last.id as int, 0);
            let n0 = h0.len();
            assert(last == h0[n0 - 1]);
            assert(last.id != ret);
            assert(self.heap@ == h0.drop_last().update(0, last));
            assert(h0.last() == last);
            assert(self.positions_ok()) by {
                assert forall|i: int| 0 <= i < self.heap@.len() implies {
                    &&& (#[trigger] self.heap@[i]).id < self.id_pos@.len()
                    &&& self.contained@[self.heap@[i].id as int]
                    &&& self.id_pos@[self.heap@[i].id as int] == i
                } by {
                    if i > 0 {
                        assert(self.heap@[i] == h0[i]);
                        assert(h0[i].id != h0[0].id);
                        assert(h0[i].id != h0[n0 - 1].id);
                    }
                }
                assert forall|id: int| 0 <= id < self.id_pos@.len() && #[trigger] self.contained@[id] implies {
                    &&& self.id_pos@[id] < self.heap@.len()
                    &&& self.heap@[self.id_pos@[id] as int].id == id
                } by {
                    assert(id != ret);
                    if id != last.id {
                        assert(self.id_pos@[id] != n0 - 1);
                        assert(self.id_pos@[id] != 0);
                    }
                }
            }
            assert(self.view() =~= before.remove(ret)) by {
                assert forall|id: usize| #[trigger] self.view().dom().contains(id) implies self.view()[id] == before.remove(ret)[id] by {
                    if id != last.id {
                        assert(self.id_pos@[id as int] != 0);
                    }
                }
            }
            assert(ordered_except(self.heap@, 0)) by {
                assert forall|i: int| 0 < i < self.heap@.len() && i != 0 && parent(i) != 0
                    implies self.heap@[parent(i)].key <= #[trigger] self.heap@[i].key by {
                    assert(self.heap@[i] == h0[i]);
                    assert(self.heap@[parent(i)] == h0[parent(i)]);
                    assert(h0[parent(i)].key <= h0[i].key);
                }
            }
        }
        self.move_down(0);
        proof {
            reveal(unplaced_in);
            assert(self.contained@ == f0.update(ret as int, false));
            assert(!self.contained@[ret as int]);
            assert(ret < self.id_pos@.len());
        }
        Some(ret)
    }

    /// Inserts `id` with `key`, or changes its key when it is in the heap.
    pub(crate) fn push_or_set_key(&mut self, id: usize, key: u128)
        requires
            old(self).wf(),
            id < old(self).capacity(),
        ensures
            final(self).wf(),
            final(self).capacity() == old(self).capacity(),
            final(self).view() == old(self).view().insert(id, key as int),
            old(self).view().dom().contains(id) ==> final(self).size() == old(self).size(),
            !old(self).view().dom().contains(id) ==> final(self).size() == old(self).size() + 1,
            final(self).entries() == set_key_entries(old(self).entries(), id, key),
            final(self).flags() == old(self).flags().update(id as int, true),
            final(self).absent_unplaced(),
    {
        proof {
            self.lemma_holds(id);
        }
        if !self.contained[id] {
            self.push(id, key);
            return;
        }
        proof {
            self.lemma_slot_of(id);
        }
        let ghost before = self.view();
        let pos = self.id_pos[id];
        let old_key = self.heap[pos].key;
        let ghost h0 = self.heap@;
        if old_key < key {
            self.heap.set(pos, HeapEntry { id, key });
            proof {
                assert(self.heap@ == h0.update(pos as int, HeapEntry { id, key }));
                assert(self.positions_ok());
                assert(self.view() =~= before.insert(id, key as int));
                assert(ordered_except(self.heap@, pos as int));
                assert(bridged(self.heap@, pos as int)) by {
                    assert forall|i: int| 0 < i < self.heap@.len() && parent(i) == pos && pos > 0
                        implies self.heap@[parent(pos as int)].key <= #[trigger] self.heap@[i].key by {
                        assert(h0[parent(pos as int)].key <= h0[pos as int].key);
                        assert(h0[pos as int].key <= h0[i].key);
                    }
                }
                assert(above_parent(self.heap@, pos as int, key)) by {
                    if pos > 0 {
                        assert(h0[parent(pos as int)].key <= h0[pos as int].key);
                    }
                }
            }
            self.move_down(pos);
            proof {
                reveal(unplaced_in);
                assert(self.contained@ =~= old(self).contained@.update(id as int, true));
            }
        } else if key < old_key {
            self.heap.set(pos, HeapEntry { id, key });
            proof {
                assert(self.heap@ == h0.update(pos as int, HeapEntry { id, key }));
                assert(self.positions_ok());
                assert(self.view() =~= before.insert(id, key as int));
                assert(ordered_except(self.heap@, pos as int));
                assert(bridged(self.heap@, pos as int)) by {
                    assert forall|i: int| 0 < i < self.heap@.len() && parent(i) == pos && pos > 0
                        implies self.heap@[parent(pos as int)].key <= #[trigger] self.heap@[i].key by {
                        assert(h0[parent(pos as int)].key <= h0[pos as int].key);
                        assert(h0[pos as int].key <= h0[i].key);
                    }
                }
                assert(below_children(self.heap@, pos as int, key)) by {
                    assert forall|i: int| 0 < i < self.heap@.len() && parent(i) == pos
                        implies key <= #[trigger] self.heap@[i].key by {
                        assert(h0[pos as int].key <= h0[i].key);
                    }
                }
            }
            self.move_up(pos);
            proof {
                reveal(unplaced_in);
                assert(self.contained@ =~= old(self).contained@.update(id as int, true));
            }
        } else {
            proof {
                reveal(unplaced_in);
                assert(self.contained@ =~= old(self).contained@.update(id as int, true));
                assert(self.view() =~= before.insert(id, key as int));
            }
        }
    }

    /// Moves the entry in slot `pos` towards the root until its parent's key
    /// is no larger.
    fn move_up(&mut self, pos: usize)
        requires
            old(self).positions_ok(),
            unplaced_in(old(self).contained@, old(self).id_pos@),
            pos < old(self).heap@.len(),
            ordered_except(old(self).heap@, pos as int),
            bridged(old(self).heap@, pos as int),
            below_children(old(self).heap@, pos as int, old(self).heap@[pos as int].key),
        ensures
            final(self).wf(),
            final(self).view() == old(self).view(),
            final(self).size() == old(self).size(),
            final(self).capacity() == old(self).capacity(),
            final(self).same_absent(old(self)),
            final(self).entries() == sift_up(old(self).entries(), pos as int),
    {
        let ghost before = self.view();
        let ghost target = sift_up(self.heap@, pos as int);
        let entry = self.heap[pos];
        proof {
            reveal(kept_absent);
        }
        proof {
            assert(self.heap@.update(pos as int, entry) == self.heap@);
        }
        let mut pos = pos;
        proof {
            assert(self.positions_ok_except(pos as int, entry));
            assert(self.view_with(entry) =~= before);
        }
        while pos != 0
            invariant
                self.positions_ok_except(pos as int, entry),
                self.view_with(entry) == before,
                self.heap@.len() == old(self).heap@.len(),
                self.id_pos@.len() == old(self).id_pos@.len(),
                self.contained@ == old(self).contained@,
                kept_absent(self.contained@, self.id_pos@, old(self).id_pos@),
                ordered_except(self.heap@, pos as int),
                bridged(self.heap@, pos as int),
                below_children(self.heap@, pos as int, entry.key),
                sift_up(self.heap@.update(pos as int, entry), pos as int) == target,
            ensures
                self.positions_ok_except(pos as int, entry),
                self.view_with(entry) == before,
                self.heap@.len() == old(self).heap@.len(),
                self.id_pos@.len() == old(self).id_pos@.len(),
                self.contained@ == old(self).contained@,
                kept_absent(self.contained@, self.id_pos@, old(self).id_pos@),
                ordered_except(self.heap@, pos as int),
                bridged(self.heap@, pos as int),
                below_children(self.heap@, pos as int, entry.key),
                above_parent(self.heap@, pos as int, entry.key),
                sift_up(self.heap@.update(pos as int, entry), pos as int) == target,
            decreases pos,
        {
            let par = (pos - 1) / 4;
            if !(entry.key < self.heap[par].key) {
                break;
            }
            let ghost h0 = self.heap@;
            let ghost hole = pos as int;
            let moved = self.heap[par];
            self.heap.set(pos, moved);
            let ghost p0 = self.id_pos@;
            self.id_pos.set(moved.id, pos);
            proof {
                assert(self.contained@[moved.id as int]);
                lemma_move_flagged(self.contained@, p0, old(self).id_pos@, moved.id as int, pos);
                assert(self.id_pos@ == p0.update(moved.id as int, pos));
            }
            pos = par;
            proof {
                assert(self.heap@ == h0.update(hole, moved));
                assert(par < hole);
                assert(parent(hole) == par);
                assert(h0.update(hole, entry).update(hole, h0.update(hole, entry)[par as int]).update(
                    par as int,
                    h0.update(hole, entry)[hole],
                ) == self.heap@.update(par as int, entry));
                assert(self.positions_ok_except(par as int, entry)) by {
                    assert forall|i: int| 0 <= i < self.heap@.len() && i != par implies {
                        &&& (#[trigger] self.heap@[i]).id < self.id_pos@.len()
                        &&& self.contained@[self.heap@[i].id as int]
                        &&& self.id_pos@[self.heap@[i].id as int] == i
                        &&& self.heap@[i].id != entry.id
                    } by {
                        if i != hole {
                            assert(h0[i].id != h0[par as int].id);
                        }
                    }
                    assert forall|id: int| 0 <= id < self.id_pos@.len() && #[trigger] self.contained@[id] && id != entry.id implies {
                        &&& self.id_pos@[id] < self.heap@.len()
                        &&& self.id_pos@[id] != par
                        &&& self.heap@[self.id_pos@[id] as int].id == id
                    } by {
                        if id != moved.id {
                            assert(self.id_pos@[id] != par);
                        }
                    }
                }
                assert(self.view_with(entry) =~= before) by {
                    assert forall|id: usize| #[trigger] self.view_with(entry).dom().contains(id)
                        implies self.view_with(entry)[id] == before[id] by {
                        if id != entry.id && id != moved.id {
                            assert(self.id_pos@[id as int] != hole);
                        }
                    }
                }
                assert(ordered_except(self.heap@, par as int)) by {
                    assert forall|i: int| 0 < i < self.heap@.len() && i != par && parent(i) != par
                        implies self.heap@[parent(i)].key <= #[trigger] self.heap@[i].key by {
                        if parent(i) == hole {
                            assert(h0[parent(hole)].key <= h0[i].key);
                        } else if i == hole {
                        } else {
                            assert(h0[parent(i)].key <= h0[i].key);
                        }
                    }
                }
                assert(bridged(self.heap@, par as int)) by {
                    assert forall|i: int| 0 < i < self.heap@.len() && parent(i) == par && par > 0
                        implies self.heap@[parent(par as int)].key <= #[trigger] self.heap@[i].key by {
                        assert(parent(par as int) != hole);
                        assert(h0[parent(par as int)].key <= h0[par as int].key);
                        if i != hole {
                            assert(h0[par as int].key <= h0[i].key);
                        }
                    }
                }
                assert(below_children(self.heap@, par as int, entry.key)) by {
                    assert forall|i: int| 0 < i < self.heap@.len() && parent(i) == par
                        implies entry.key <= #[trigger] self.heap@[i].key by {
                        if i != hole {
                            assert(h0[par as int].key <= h0[i].key);
                        }
                    }
                }
            }
        }
        let ghost h1 = self.heap@;
        self.heap.set(pos, entry);
        let ghost p0 = self.id_pos@;
        self.id_pos.set(entry.id, pos);
        proof {
            assert(self.contained@[entry.id as int]);
            lemma_move_flagged(self.contained@, p0, old(self).id_pos@, entry.id as int, pos);
            assert(self.id_pos@ == p0.update(entry.id as int, pos));
            lemma_kept_unplaced(self.contained@, self.id_pos@, old(self).id_pos@);
            reveal(kept_absent);
        }
        proof {
            assert(self.heap@ == h1.update(pos as int, entry));
            assert(sift_up(self.heap@, pos as int) == self.heap@);
            assert(self.positions_ok()) by {
                assert forall|id: int| 0 <= id < self.id_pos@.len() && #[trigger] self.contained@[id] implies {
                    &&& self.id_pos@[id] < self.heap@.len()
                    &&& self.heap@[self.id_pos@[id] as int].id == id
                } by {
                    if id != entry.id {
                        assert(self.id_pos@[id] != pos);
                    }
                }
            }
            assert(self.view() =~= before) by {
                assert forall|id: usize| #[trigger] self.view().dom().contains(id) implies self.view()[id] == before[id] by {
                    if id != entry.id {
                        assert(self.id_pos@[id as int] != pos);
                    }
                }
            }
            assert(heap_ordered(self.heap@)) by {
                assert forall|i: int| 0 < i < self.heap@.len() implies self.heap@[parent(i)].key <= #[trigger] self.heap@[i].key by {
                    if i == pos {
                    } else if parent(i) == pos {
                        assert(entry.key <= h1[i].key);
                    } else {
                        assert(h1[parent(i)].key <= h1[i].key);
                    }
                }
            }
        }
    }

    /// Moves the entry in slot `pos` away from the root until no child has a
    /// smaller key.
    fn move_down(&mut self, pos: usize)
        requires
            old(self).positions_ok(),
            unplaced_in(old(self).contained@, old(self).id_pos@),
            pos < old(self).heap@.len(),
            ordered_except(old(self).heap@, pos as int),
            bridged(old(self).heap@, pos as int),
            above_parent(old(self).heap@, pos as int, old(self).heap@[pos as int].key),
        ensures
            final(self).wf(),
            final(self).view() == old(self).view(),
            final(self).size() == old(self).size(),
            final(self).capacity() == old(self).capacity(),
            final(self).same_absent(old(self)),
            final(self).entries() == sift_down(old(self).entries(), pos as int),
    {
        let ghost before = self.view();
        let ghost target = sift_down(self.heap@, pos as int);
        let entry = self.heap[pos];
        proof {
            reveal(kept_absent);
        }
        proof {
            assert(self.heap@.update(pos as int, entry) == self.heap@);
        }
        let mut pos = pos;
        let len = self.heap.len();
        proof {
            assert(self.positions_ok_except(pos as int, entry));
            assert(self.view_with(entry) =~= before);
        }
        loop
            invariant
                len == self.heap@.len(),
                pos < len,
                self.positions_ok_except(pos as int, entry),
                self.view_with(entry) == before,
                self.heap@.len() == old(self).heap@.len(),
                self.id_pos@.len() == old(self).id_pos@.len(),
                self.contained@ == old(self).contained@,
                kept_absent(self.contained@, self.id_pos@, old(self).id_pos@),
                ordered_except(self.heap@, pos as int),
                bridged(self.heap@, pos as int),
                above_parent(self.heap@, pos as int, entry.key),
                sift_down(self.heap@.update(pos as int, entry), pos as int) == target,
            ensures
                pos < len,
                self.positions_ok_except(pos as int, entry),
                self.view_with(entry) == before,
                self.heap@.len() == old(self).heap@.len(),
                self.id_pos@.len() == old(self).id_pos@.len(),
                self.contained@ == old(self).contained@,
                kept_absent(self.contained@, self.id_pos@, old(self).id_pos@),
                ordered_except(self.heap@, pos as int),
                bridged(self.heap@, pos as int),
                above_parent(self.heap@, pos as int, entry.key),
                below_children(self.heap@, pos as int, entry.key),
                sift_down(self.heap@.update(pos as int, entry), pos as int) == target,
                sift_down(self.heap@.update(pos as int, entry), pos as int) == self.heap@.update(pos as int, entry),
            decreases len - pos,
        {
            if pos > (usize::MAX - 1) / 4 {
                break;
            }
            let begin = 4 * pos + 1;
            if begin >= len {
                break;
            }
            let end = if len - begin > 4 { begin + 4 } else { len };
            let ghost lg = self.heap@.update(pos as int, entry);
            let mut min_child = begin;
            let mut i = begin + 1;
            while i < end
                invariant
                    len == self.heap@.len(),
                    begin < end <= len,
                    begin == 4 * pos + 1,
                    lg == self.heap@.update(pos as int, entry),
                    min_child_from(lg, min_child as int, i as int, end as int) == min_child_from(
                        lg,
                        begin as int,
                        begin + 1,
                        end as int,
                    ),
                    begin + 1 <= i <= end,
                    begin <= min_child < i,
                    forall|k: int| begin <= k < i ==> self.heap@[min_child as int].key <= #[trigger] self.heap@[k].key,
                decreases end - i,
            {
                if self.heap[i].key < self.heap[min_child].key {
                    min_child = i;
                }
                i += 1;
            }
            proof {
                assert forall|k: int| 0 < k < len && parent(k) == pos implies begin <= k < end by {}
                assert(min_child as int == min_child_from(lg, begin as int, begin + 1, end as int));
                assert(lg[min_child as int] == self.heap@[min_child as int]);
                assert(lg[pos as int] == entry);
            }
            if !(self.heap[min_child].key < entry.key) {
                break;
            }
            let ghost h0 = self.heap@;
            let ghost hole = pos as int;
            let c = min_child;
            let moved = self.heap[c];
            self.heap.set(pos, moved);
            let ghost p0 = self.id_pos@;
            self.id_pos.set(moved.id, pos);
            proof {
                assert(self.contained@[moved.id as int]);
                lemma_move_flagged(self.contained@, p0, old(self).id_pos@, moved.id as int, pos);
                assert(self.id_pos@ == p0.update(moved.id as int, pos));
            }
            pos = c;
            proof {
                assert(self.heap@ == h0.update(hole, moved));
                assert(parent(c as int) == hole);
                assert(c as int > hole);
                assert(lg.update(hole, lg[c as int]).update(c as int, lg[hole]) == self.heap@.update(c as int, entry));
                assert(self.positions_ok_except(c as int, entry)) by {
                    assert forall|i: int| 0 <= i < self.heap@.len() && i != c implies {
                        &&& (#[trigger] self.heap@[i]).id < self.id_pos@.len()
                        &&& self.contained@[self.heap@[i].id as int]
                        &&& self.id_pos@[self.heap@[i].id as int] == i
                        &&& self.heap@[i].id != entry.id
                    } by {
                        if i != hole {
                            assert(h0[i].id != h0[c as int].id);
                        }
                    }
                    assert forall|id: int| 0 <= id < self.id_pos@.len() && #[trigger] self.contained@[id] && id != entry.id implies {
                        &&& self.id_pos@[id] < self.heap@.len()
                        &&& self.id_pos@[id] != c
                        &&& self.heap@[self.id_pos@[id] as int].id == id
                    } by {
                        if id != moved.id {
                            assert(self.id_pos@[id] != c);
                        }
                    }
                }
                assert(self.view_with(entry) =~= before) by {
                    assert forall|id: usize| #[trigger] self.view_with(entry).dom().contains(id)
                        implies self.view_with(entry)[id] == before[id] by {
                        if id != entry.id && id != moved.id {
                            assert(self.id_pos@[id as int] != hole);
                        }
                    }
                }
                assert(ordered_except(self.heap@, c as int)) by {
                    assert forall|k: int| 0 < k < self.heap@.len() && k != c && parent(k) != c
                        implies self.heap@[parent(k)].key <= #[trigger] self.heap@[k].key by {
                        if k == hole {
                            assert(h0[parent(hole)].key <= h0[c as int].key);
                        } else if parent(k) == hole {
                            assert(h0[c as int].key <= h0[k].key);
                        } else {
                            assert(h0[parent(k)].key <= h0[k].key);
                        }
                    }
                }
                assert(bridged(self.heap@, c as int)) by {
                    assert forall|k: int| 0 < k < self.heap@.len() && parent(k) == c && c > 0
                        implies self.heap@[parent(c as int)].key <= #[trigger] self.heap@[k].key by {
                        assert(k != hole);
                        assert(h0[c as int].key <= h0[k].key);
                    }
                }
            }
        }
        let ghost h1 = self.heap@;
        self.heap.set(pos, entry);
        let ghost p0 = self.id_pos@;
        self.id_pos.set(entry.id, pos);
        proof {
            assert(self.contained@[entry.id as int]);
            lemma_move_flagged(self.contained@, p0, old(self).id_pos@, entry.id as int, pos);
            assert(self.id_pos@ == p0.update(entry.id as int, pos));
            lemma_kept_unplaced(self.contained@, self.id_pos@, old(self).id_pos@);
            reveal(kept_absent);
        }
        proof {
            assert(self.heap@ == h1.update(pos as int, entry));
            assert(self.heap@ == target);
            assert(self.positions_ok()) by {
                assert forall|id: int| 0 <= id < self.id_pos@.len() && #[trigger] self.contained@[id] implies {
                    &&& self.id_pos@[id] < self.heap@.len()
                    &&& self.heap@[self.id_pos@[id] as int].id == id
                } by {
                    if id != entry.id {
                        assert(self.id_pos@[id] != pos);
                    }
                }
            }
            assert(self.view() =~= before) by {
                assert forall|id: usize| #[trigger] self.view().dom().contains(id) implies self.view()[id] == before[id] by {
                    if id != entry.id {
                        assert(self.id_pos@[id as int] != pos);
                    }
                }
            }
            assert(heap_ordered(self.heap@)) by {
                assert forall|i: int| 0 < i < self.heap@.len() implies self.heap@[parent(i)].key <= #[trigger] self.heap@[i].key by {
                    if i == pos {
                    } else if parent(i) == pos {
                        assert(entry.key <= h1[i].key);
                    } else {
                        assert(h1[parent(i)].key <= h1[i].key);
                    }
                }
            }
        }
    }
}

} // verus!
