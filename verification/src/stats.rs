//! Summary statistics over the treewidths of many functions, split into
//! safe and unsafe functions.

use vstd::prelude::*;
use vstd::multiset::Multiset;

verus! {

broadcast use vstd::seq_lib::group_to_multiset_ensures;

/// The number of values in `ms` that are at most `t`.
pub open spec fn count_upto(ms: Multiset<u32>, t: int) -> nat
    decreases t + 1,
{
    if t < 0 {
        0
    } else {
        count_upto(ms, t - 1) + ms.count(t as u32)
    }
}

/// The sum of the values in `ms` that are at most `t`.
pub open spec fn sum_upto(ms: Multiset<u32>, t: int) -> nat
    decreases t + 1,
{
    if t < 0 {
        0
    } else {
        sum_upto(ms, t - 1) + (t as nat) * ms.count(t as u32)
    }
}

/// The sum of all values in `ms`.
pub open spec fn total_of(ms: Multiset<u32>) -> nat {
    sum_upto(ms, u32::MAX as int)
}

/// The integer statistics of one group of treewidths.
pub struct GroupCounts {
    /// Number of values.
    pub count: usize,
    /// Sum of the values.
    pub sum: u128,
    /// The value at position `count / 2` in increasing order (0 when empty).
    pub median: u32,
    /// The largest value (0 when empty).
    pub max: u32,
    /// Number of values at most 3.
    pub at_most_3: usize,
    /// Number of values at most 6.
    pub at_most_6: usize,
}

/// `g` holds the statistics of the values `ms`.
pub open spec fn describes(g: GroupCounts, ms: Multiset<u32>) -> bool {
    &&& g.count == ms.len()
    &&& g.sum == total_of(ms)
    &&& g.at_most_3 == count_upto(ms, 3)
    &&& g.at_most_6 == count_upto(ms, 6)
    &&& ms.len() == 0 ==> g.median == 0 && g.max == 0
    &&& ms.len() > 0 ==> {
        &&& ms.count(g.max) > 0
        &&& count_upto(ms, g.max as int) == ms.len()
        &&& count_upto(ms, g.median - 1) <= ms.len() / 2
        &&& ms.len() / 2 < count_upto(ms, g.median as int)
    }
}

/// Collects treewidths, each marked as belonging to a safe or an unsafe
/// function.
pub struct Accumulator {
    total: usize,
    values: Vec<u32>,
    safe_values: Vec<u32>,
    unsafe_values: Vec<u32>,
}

/// The statistics over everything an accumulator collected.
pub struct Summary {
    pub total: usize,
    pub all: GroupCounts,
    pub safe: GroupCounts,
    pub unsafe_group: GroupCounts,
    /// `distribution[k]` = number of functions with treewidth `k`, for `k`
    /// from 0 up to the largest treewidth.
    pub distribution: Vec<usize>,
}

impl Accumulator {
    /// All treewidths added so far, in the order they came.
    pub closed spec fn all_values(&self) -> Seq<u32> {
        self.values@
    }

    /// The treewidths of safe functions, in the order they came.
    pub closed spec fn safe_values(&self) -> Seq<u32> {
        self.safe_values@
    }

    /// The treewidths of unsafe functions, in the order they came.
    pub closed spec fn unsafe_values(&self) -> Seq<u32> {
        self.unsafe_values@
    }

    /// The count kept beside the values agrees with them, and every value
    /// is in exactly one of the safe and the unsafe group.
    pub closed spec fn wf(&self) -> bool {
        &&& self.total == self.values@.len()
        &&& self.values@.to_multiset() == self.safe_values@.to_multiset().add(self.unsafe_values@.to_multiset())
    }

    /// The safe and the unsafe treewidths together are all the treewidths
    /// collected, each once.
    pub proof fn lemma_groups_partition(&self)
        requires
            self.wf(),
        ensures
            self.all_values().to_multiset() == self.safe_values().to_multiset().add(
                self.unsafe_values().to_multiset(),
            ),
            self.all_values().len() == self.safe_values().len() + self.unsafe_values().len(),
    {
        broadcast use {vstd::multiset::group_multiset_axioms, vstd::multiset::group_multiset_properties};

        assert(self.values@.to_multiset().len() == self.values@.len());
        assert(self.safe_values@.to_multiset().len() == self.safe_values@.len());
        assert(self.unsafe_values@.to_multiset().len() == self.unsafe_values@.len());
    }

    /// Records the treewidth `tw` of one function.
    pub fn add(&mut self, tw: u32, is_unsafe: bool)
        requires
            old(self).wf(),
        ensures
            final(self).wf(),
            final(self).all_values() == old(self).all_values().push(tw),
            is_unsafe ==> final(self).unsafe_values() == old(self).unsafe_values().push(tw)
                && final(self).safe_values() == old(self).safe_values(),
            !is_unsafe ==> final(self).safe_values() == old(self).safe_values().push(tw)
                && final(self).unsafe_values() == old(self).unsafe_values(),
    {
        self.values.push(tw);
        proof {
            vstd::std_specs::vec::axiom_spec_len(&self.values);
        }
        self.total = self.total + 1;
        if is_unsafe {
            self.unsafe_values.push(tw);
        } else {
            self.safe_values.push(tw);
        }
        proof {
            broadcast use {vstd::multiset::group_multiset_axioms, vstd::multiset::group_multiset_properties};

            assert(self.values@.to_multiset() =~= self.safe_values@.to_multiset().add(
                self.unsafe_values@.to_multiset(),
            ));
        }
    }

    /// The statistics of everything collected.
    pub fn into_summary(self) -> (s: Summary)
        requires
            self.wf(),
        ensures
            s.total == self.all_values().len(),
            describes(s.all, self.all_values().to_multiset()),
            describes(s.safe, self.safe_values().to_multiset()),
            describes(s.unsafe_group, self.unsafe_values().to_multiset()),
            s.distribution@.len() == s.all.max + 1,
            sum_counts(s.distribution@) == s.total,
            s.safe.count + s.unsafe_group.count == s.total,
            forall|k: int| 0 <= k < s.distribution@.len() ==> #[trigger] s.distribution@[k]
                == self.all_values().to_multiset().count(k as u32),
    {
        let Accumulator { total, mut values, mut safe_values, mut unsafe_values } = self;
        sort_unstable_u32(&mut values);
        sort_unstable_u32(&mut safe_values);
        sort_unstable_u32(&mut unsafe_values);
        let max: u32 = if values.len() == 0 { 0 } else { values[values.len() - 1] };
        let all = group_stats(&values);
        let mut distribution: Vec<usize> = Vec::new();
        let mut tw: u64 = 0;
        while tw <= max as u64
            invariant
                tw <= max as u64 + 1,
                distribution@.len() == tw,
                forall|k: int| 0 <= k < tw ==> #[trigger] distribution@[k] == values@.to_multiset().count(k as u32),
            decreases max as u64 + 1 - tw,
        {
            distribution.push(count_equal(&values, tw as u32));
            tw += 1;
        }
        proof {
            if values@.len() > 0 {
                lemma_sorted_max(values@);
            } else {
                assert(values@.to_multiset() =~= Multiset::<u32>::empty());
                lemma_count_upto_empty(0);
            }
            lemma_sum_counts(distribution@, values@.to_multiset(), distribution@.len() as int);
            assert(distribution@.take(distribution@.len() as int) == distribution@);
            self.lemma_groups_partition();
        }
        Summary {
            total,
            all,
            safe: group_stats(&safe_values),
            unsafe_group: group_stats(&unsafe_values),
            distribution,
        }
    }
}

impl Default for Accumulator {
    /// An accumulator with nothing collected.
    fn default() -> (a: Self)
        ensures
            a.wf(),
            a.all_values() == Seq::<u32>::empty(),
            a.safe_values() == Seq::<u32>::empty(),
            a.unsafe_values() == Seq::<u32>::empty(),
    {
        let a = Accumulator { total: 0, values: Vec::new(), safe_values: Vec::new(), unsafe_values: Vec::new() };
        proof {
            broadcast use {vstd::multiset::group_multiset_axioms, vstd::multiset::group_multiset_properties};

            assert(a.values@.to_multiset() =~= a.safe_values@.to_multiset().add(a.unsafe_values@.to_multiset()));
        }
        a
    }
}

/// Sorts `v` in place with the standard library's `slice::sort_unstable`.
/// Claimed of it: the result is a rearrangement of the input (the same
/// multiset of entries) in non-decreasing order.
#[verifier::external_body]
fn sort_unstable_u32(v: &mut Vec<u32>)
    ensures
        final(v)@.to_multiset() == old(v)@.to_multiset(),
        forall|i: int, j: int| 0 <= i <= j < final(v)@.len() ==> final(v)@[i] <= final(v)@[j],
{
    v.sort_unstable();
}

/// The sum of the entries of `s`.
pub open spec fn sum_counts(s: Seq<usize>) -> nat
    decreases s.len(),
{
    if s.len() == 0 {
        0
    } else {
        sum_counts(s.drop_last()) + s.last() as nat
    }
}

/// Summing the first `j` counts of a distribution counts the values below `j`.
proof fn lemma_sum_counts(d: Seq<usize>, ms: Multiset<u32>, j: int)
    requires
        0 <= j <= d.len(),
        d.len() <= u32::MAX as int + 1,
        forall|k: int| 0 <= k < d.len() ==> #[trigger] d[k] == ms.count(k as u32),
    ensures
        sum_counts(d.take(j)) == count_upto(ms, j - 1),
    decreases j,
{
    if j > 0 {
        lemma_sum_counts(d, ms, j - 1);
        assert(d.take(j).drop_last() == d.take(j - 1));
        assert(d.take(j).last() == d[j - 1]);
    } else {
        assert(d.take(0).len() == 0);
    }
}

/// The entries of `s` do not decrease.
pub open spec fn ascending(s: Seq<u32>) -> bool {
    forall|i: int, j: int| 0 <= i <= j < s.len() ==> s[i] <= s[j]
}

/// The number of entries of `s` that are at most `t`.
pub open spec fn num_le(s: Seq<u32>, t: int) -> nat
    decreases s.len(),
{
    if s.len() == 0 {
        0
    } else {
        num_le(s.drop_last(), t) + if s.last() <= t {
            1nat
        } else {
            0nat
        }
    }
}

/// Adding one value raises the count up to `t` by one when the value is at
/// most `t`.
proof fn lemma_count_upto_insert(ms: Multiset<u32>, x: u32, t: int)
    requires
        t <= u32::MAX,
    ensures
        count_upto(ms.insert(x), t) == count_upto(ms, t) + if x <= t {
            1nat
        } else {
            0nat
        },
    decreases t + 1,
{
    broadcast use {vstd::multiset::group_multiset_axioms, vstd::multiset::group_multiset_properties};

    if t >= 0 {
        lemma_count_upto_insert(ms, x, t - 1);
    }
}

/// Adding one value raises the sum up to `t` by the value when it is at most
/// `t`.
proof fn lemma_sum_upto_insert(ms: Multiset<u32>, x: u32, t: int)
    requires
        t <= u32::MAX,
    ensures
        sum_upto(ms.insert(x), t) == sum_upto(ms, t) + if x <= t {
            x as nat
        } else {
            0nat
        },
    decreases t + 1,
{
    broadcast use {vstd::multiset::group_multiset_axioms, vstd::multiset::group_multiset_properties};

    if t >= 0 {
        lemma_sum_upto_insert(ms, x, t - 1);
        let c = ms.count(t as u32);
        if t == x {
            assert(ms.insert(x).count(t as u32) == c + 1);
            assert((t as nat) * (c + 1) == (t as nat) * c + t) by (nonlinear_arith)
                requires
                    t >= 0,
            ;
        } else {
            assert(ms.insert(x).count(t as u32) == c);
        }
    }
}

/// Counting the values up to `t` of a sequence's multiset counts its entries
/// up to `t`.
proof fn lemma_count_upto_seq(s: Seq<u32>, t: int)
    requires
        t <= u32::MAX,
    ensures
        count_upto(s.to_multiset(), t) == num_le(s, t),
    decreases s.len(),
{
    broadcast use {vstd::multiset::group_multiset_axioms, vstd::multiset::group_multiset_properties};

    if s.len() == 0 {
        lemma_count_upto_empty(t);
        assert(s.to_multiset() =~= Multiset::<u32>::empty());
    } else {
        lemma_count_upto_seq(s.drop_last(), t);
        assert(s.drop_last().push(s.last()) == s);
        assert(s.to_multiset() == s.drop_last().to_multiset().insert(s.last()));
        lemma_count_upto_insert(s.drop_last().to_multiset(), s.last(), t);
    }
}

proof fn lemma_count_upto_empty(t: int)
    ensures
        count_upto(Multiset::<u32>::empty(), t) == 0,
    decreases t + 1,
{
    broadcast use {vstd::multiset::group_multiset_axioms, vstd::multiset::group_multiset_properties};

    if t >= 0 {
        lemma_count_upto_empty(t - 1);
    }
}

proof fn lemma_num_le_bounded(s: Seq<u32>, t: int)
    ensures
        num_le(s, t) <= s.len(),
        (forall|i: int| 0 <= i < s.len() ==> s[i] <= t) ==> num_le(s, t) == s.len(),
    decreases s.len(),
{
    if s.len() > 0 {
        lemma_num_le_bounded(s.drop_last(), t);
    }
}

/// In an ascending sequence, an entry at most `t` at position `k` means at
/// least `k + 1` entries at most `t`.
proof fn lemma_num_le_from_below(s: Seq<u32>, k: int, t: int)
    requires
        ascending(s),
        0 <= k < s.len(),
        s[k] <= t,
    ensures
        num_le(s, t) >= k + 1,
    decreases s.len(),
{
    if k == s.len() - 1 {
        lemma_num_le_bounded(s.drop_last(), t);
    } else {
        lemma_num_le_from_below(s.drop_last(), k, t);
    }
}

/// In an ascending sequence, an entry above `t` at position `k` means at
/// most `k` entries at most `t`.
proof fn lemma_num_le_from_above(s: Seq<u32>, k: int, t: int)
    requires
        ascending(s),
        0 <= k < s.len(),
        s[k] > t,
    ensures
        num_le(s, t) <= k,
    decreases s.len(),
{
    if k == s.len() - 1 {
        lemma_num_le_bounded(s.drop_last(), t);
    } else {
        lemma_num_le_from_above(s.drop_last(), k, t);
    }
}

/// The last entry of a non-empty ascending sequence is its largest value.
proof fn lemma_sorted_max(s: Seq<u32>)
    requires
        ascending(s),
        s.len() > 0,
    ensures
        s.to_multiset().count(s.last()) > 0,
        count_upto(s.to_multiset(), s.last() as int) == s.len(),
{
    assert(s.contains(s.last()));
    lemma_count_upto_seq(s, s.last() as int);
    lemma_num_le_bounded(s, s.last() as int);
}

/// The number of entries of `values` equal to `x`.
fn count_equal(values: &Vec<u32>, x: u32) -> (c: usize)
    ensures
        c == values@.to_multiset().count(x),
{
    broadcast use {vstd::multiset::group_multiset_axioms, vstd::multiset::group_multiset_properties};

    let mut c: usize = 0;
    let mut i: usize = 0;
    while i < values.len()
        invariant
            i <= values@.len(),
            c == values@.take(i as int).to_multiset().count(x),
            c <= i,
        decreases values@.len() - i,
    {
        proof {
            assert(values@.take(i + 1) == values@.take(i as int).push(values@[i as int]));
        }
        if values[i] == x {
            c += 1;
        }
        i += 1;
    }
    assert(values@.take(values@.len() as int) == values@);
    c
}

/// The statistics of an ascending list of treewidths.
fn group_stats(sorted: &Vec<u32>) -> (g: GroupCounts)
    requires
        ascending(sorted@),
    ensures
        describes(g, sorted@.to_multiset()),
        sorted@.len() > 0 ==> g.max == sorted@.last(),
{
    broadcast use {vstd::multiset::group_multiset_axioms, vstd::multiset::group_multiset_properties};

    let count = sorted.len();
    if count == 0 {
        proof {
            assert(sorted@.to_multiset() =~= Multiset::<u32>::empty());
            lemma_count_upto_empty(3);
            lemma_count_upto_empty(6);
            lemma_sum_upto_empty(u32::MAX as int);
        }
        return GroupCounts { count: 0, sum: 0, median: 0, max: 0, at_most_3: 0, at_most_6: 0 };
    }
    let mut sum: u128 = 0;
    let mut le3: usize = 0;
    let mut le6: usize = 0;
    let mut i: usize = 0;
    proof {
        lemma_count_upto_empty(3);
        lemma_count_upto_empty(6);
        lemma_sum_upto_empty(u32::MAX as int);
        assert(sorted@.take(0).to_multiset() =~= Multiset::<u32>::empty());
    }
    while i < count
        invariant
            count == sorted@.len(),
            i <= count,
            sum == total_of(sorted@.take(i as int).to_multiset()),
            sum <= i * 0xffff_ffff,
            le3 == count_upto(sorted@.take(i as int).to_multiset(), 3),
            le6 == count_upto(sorted@.take(i as int).to_multiset(), 6),
            le3 <= i,
            le6 <= i,
        decreases count - i,
    {
        let x = sorted[i];
        proof {
            let pre = sorted@.take(i as int);
            assert(sorted@.take(i + 1) == pre.push(x));
            lemma_sum_upto_insert(pre.to_multiset(), x, u32::MAX as int);
            lemma_count_upto_insert(pre.to_multiset(), x, 3);
            lemma_count_upto_insert(pre.to_multiset(), x, 6);
            assert(i * 0xffff_ffff + 0xffff_ffff == (i + 1) * 0xffff_ffff) by (nonlinear_arith);
            assert((i + 1) * 0xffff_ffff <= 0x1_0000_0000_0000_0000 * 0x1_0000_0000) by (nonlinear_arith)
                requires
                    i + 1 <= 0x1_0000_0000_0000_0000,
            ;
        }
        sum = sum + x as u128;
        if x <= 3 {
            le3 += 1;
        }
        if x <= 6 {
            le6 += 1;
        }
        i += 1;
    }
    let median = sorted[count / 2];
    let max = sorted[count - 1];
    proof {
        assert(sorted@.take(count as int) == sorted@);
        lemma_sorted_max(sorted@);
        lemma_count_upto_seq(sorted@, median - 1);
        lemma_count_upto_seq(sorted@, median as int);
        lemma_num_le_from_above(sorted@, (count / 2) as int, median - 1);
        lemma_num_le_from_below(sorted@, (count / 2) as int, median as int);
    }
    GroupCounts { count, sum, median, max, at_most_3: le3, at_most_6: le6 }
}

proof fn lemma_sum_upto_empty(t: int)
    ensures
        sum_upto(Multiset::<u32>::empty(), t) == 0,
    decreases t + 1,
{
    broadcast use {vstd::multiset::group_multiset_axioms, vstd::multiset::group_multiset_properties};

    if t >= 0 {
        lemma_sum_upto_empty(t - 1);
    }
}

} // verus!
