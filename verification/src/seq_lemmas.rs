//! Counting facts about sequences of vertex identifiers.

use vstd::prelude::*;

verus! {

/// Every entry of `s` is below `n`.
pub open spec fn all_below(s: Seq<usize>, n: nat) -> bool {
    forall|i: int| 0 <= i < s.len() ==> #[trigger] s[i] < n
}

/// A duplicate-free sequence of identifiers below `n` has at most `n` entries.
pub proof fn lemma_distinct_below_len(s: Seq<usize>, n: nat)
    requires
        s.no_duplicates(),
        all_below(s, n),
        n <= usize::MAX as nat + 1,
    ensures
        s.len() <= n,
    decreases n,
{
    if n == 0 {
        if s.len() > 0 {
            assert(s[0] < n);
        }
    } else {
        let top = (n - 1) as usize;
        if s.contains(top) {
            let k = choose|k: int| 0 <= k < s.len() && s[k] == top;
            let t = s.remove(k);
            assert forall|i: int| 0 <= i < t.len() implies #[trigger] t[i] < (n - 1) as nat by {
                if i < k {
                    assert(t[i] == s[i]);
                    assert(s[i] != s[k]);
                } else {
                    assert(t[i] == s[i + 1]);
                    assert(s[i + 1] != s[k]);
                }
            }
            assert(t.no_duplicates()) by {
                assert forall|i: int, j: int| 0 <= i < t.len() && 0 <= j < t.len() && i != j
                    implies t[i] != t[j] by {
                    let si = if i < k { i } else { i + 1 };
                    let sj = if j < k { j } else { j + 1 };
                    assert(t[i] == s[si]);
                    assert(t[j] == s[sj]);
                }
            }
            lemma_distinct_below_len(t, (n - 1) as nat);
        } else {
            assert forall|i: int| 0 <= i < s.len() implies #[trigger] s[i] < (n - 1) as nat by {
                assert(s[i] < n);
                assert(s[i] != top);
            }
            lemma_distinct_below_len(s, (n - 1) as nat);
        }
    }
}

/// A duplicate-free sequence of identifiers below `n` that misses one of them
/// has fewer than `n` entries.
pub proof fn lemma_missing_means_short(s: Seq<usize>, n: nat, u: usize)
    requires
        s.no_duplicates(),
        all_below(s, n),
        n <= usize::MAX as nat + 1,
        u < n,
        !s.contains(u),
    ensures
        s.len() < n,
{
    let t = s.map_values(|x: usize| if x > u { (x - 1) as usize } else { x });
    assert(all_below(t, (n - 1) as nat)) by {
        assert forall|i: int| 0 <= i < t.len() implies #[trigger] t[i] < (n - 1) as nat by {
            assert(s[i] < n);
            assert(s[i] != u);
        }
    }
    assert(t.no_duplicates()) by {
        assert forall|i: int, j: int| 0 <= i < t.len() && 0 <= j < t.len() && i != j
            implies t[i] != t[j] by {
            assert(s[i] != s[j]);
            assert(s[i] != u);
            assert(s[j] != u);
        }
    }
    lemma_distinct_below_len(t, (n - 1) as nat);
}

/// A duplicate-free sequence of identifiers below `n` that contains each of
/// them has at least `n` entries.
pub proof fn lemma_covering_means_long(s: Seq<usize>, n: nat)
    requires
        s.no_duplicates(),
        all_below(s, n),
        n <= usize::MAX as nat + 1,
        forall|u: usize| u < n ==> s.contains(u),
    ensures
        s.len() >= n,
    decreases n,
{
    if n > 0 {
        let top = (n - 1) as usize;
        assert(s.contains(top));
        let k = choose|k: int| 0 <= k < s.len() && s[k] == top;
        let t = s.remove(k);
        assert(t.no_duplicates()) by {
            assert forall|i: int, j: int| 0 <= i < t.len() && 0 <= j < t.len() && i != j
                implies t[i] != t[j] by {
                let si = if i < k { i } else { i + 1 };
                let sj = if j < k { j } else { j + 1 };
                assert(t[i] == s[si]);
                assert(t[j] == s[sj]);
            }
        }
        assert forall|i: int| 0 <= i < t.len() implies #[trigger] t[i] < (n - 1) as nat by {
            let si = if i < k { i } else { i + 1 };
            assert(t[i] == s[si]);
            assert(s[si] != s[k]);
            assert(s[si] < n);
        }
        assert forall|u: usize| u < (n - 1) as nat implies t.contains(u) by {
            assert(s.contains(u));
            let j = choose|j: int| 0 <= j < s.len() && s[j] == u;
            assert(j != k);
            if j < k {
                assert(t[j] == u);
            } else {
                assert(t[j - 1] == u);
            }
        }
        lemma_covering_means_long(t, (n - 1) as nat);
    }
}

} // verus!
