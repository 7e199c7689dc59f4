//! Small functions covering common control-flow shapes, whose control-flow
//! graphs have known or predictable treewidth: a single block, a straight
//! line, diamonds, loops, a three-way branch, an early exit, nested loops,
//! several returns and short-circuit evaluation.

use vstd::prelude::*;

verus! {

/// A single basic block.
pub fn trivial(x: i32) -> (r: i32)
    requires
        x < i32::MAX,
    ensures
        r == x + 1,
{
    x + 1
}

/// A straight-line sequence of operations.
pub fn linear_sequence(x: i32) -> (r: i32)
    requires
        i32::MIN <= 2 * x,
        2 * x + 3 <= i32::MAX,
    ensures
        r == 2 * x + 2,
{
    let a = x * 2;
    let b = a + 3;
    let c = b - 1;
    c
}

/// A diamond: two branches that merge.
pub fn if_else(x: i32) -> (r: i32)
    requires
        x > 0 ==> 2 * x <= i32::MAX,
        x != i32::MIN,
    ensures
        x > 0 ==> r == 2 * x,
        x <= 0 ==> r == -x,
{
    if x > 0 {
        x * 2
    } else {
        -x
    }
}

/// Nested diamonds.
pub fn nested_if(x: i32, y: i32) -> (r: i32)
    requires
        x > 0 && y > 0 ==> x + y <= i32::MAX,
        x > 0 && y <= 0 ==> x - y <= i32::MAX,
        x <= 0 && y > 0 ==> y - x <= i32::MAX,
        x <= 0 && y <= 0 ==> i32::MIN < x + y,
    ensures
        x > 0 && y > 0 ==> r == x + y,
        x > 0 && y <= 0 ==> r == x - y,
        x <= 0 && y > 0 ==> r == y - x,
        x <= 0 && y <= 0 ==> r == -(x + y),
{
    if x > 0 {
        if y > 0 {
            x + y
        } else {
            x - y
        }
    } else {
        if y > 0 {
            y - x
        } else {
            -(x + y)
        }
    }
}

/// `0 + 1 + ... + (n - 1)`.
pub open spec fn sum_below(n: nat) -> nat
    decreases n,
{
    if n == 0 {
        0
    } else {
        sum_below((n - 1) as nat) + (n - 1) as nat
    }
}

proof fn lemma_sum_below_monotone(i: nat, j: nat)
    requires
        i <= j,
    ensures
        sum_below(i) <= sum_below(j),
    decreases j - i,
{
    if i < j {
        lemma_sum_below_monotone(i, (j - 1) as nat);
    }
}

/// A loop with a back edge: the sum of the numbers below `n`.
pub fn simple_loop(n: u32) -> (sum: u32)
    requires
        sum_below(n as nat) <= u32::MAX,
    ensures
        sum == sum_below(n as nat),
{
    let mut sum: u32 = 0;
    let mut i: u32 = 0;
    while i < n
        invariant
            i <= n,
            sum == sum_below(i as nat),
            sum_below(n as nat) <= u32::MAX,
        decreases n - i,
    {
        proof {
            lemma_sum_below_monotone((i + 1) as nat, n as nat);
        }
        sum += i;
        i += 1;
    }
    sum
}

/// A three-way branch.
pub fn match_three(x: u8) -> (r: &'static str)
    ensures
        x == 0 ==> r@ == "zero"@,
        x == 1 ==> r@ == "one"@,
        x > 1 ==> r@ == "many"@,
{
    match x {
        0 => "zero",
        1 => "one",
        _ => "many",
    }
}

/// A loop with an early exit: the first negative entry, if any.
pub fn loop_with_break(data: &[i32]) -> (r: Option<i32>)
    ensures
        r is None <==> forall|i: int| 0 <= i < data@.len() ==> data@[i] >= 0,
        r matches Some(v) ==> exists|i: int|
            0 <= i < data@.len() && data@[i] == v && v < 0 && forall|j: int| 0 <= j < i ==> data@[j] >= 0,
{
    let mut i: usize = 0;
    loop
        invariant
            i <= data@.len(),
            forall|j: int| 0 <= j < i ==> data@[j] >= 0,
        decreases data@.len() - i,
    {
        if i >= data.len() {
            return None;
        }
        if data[i] < 0 {
            return Some(data[i]);
        }
        i += 1;
    }
}

/// Two nested loops: counts `n * m` iterations.
pub fn nested_loops(n: usize, m: usize) -> (count: usize)
    requires
        n * m <= usize::MAX,
    ensures
        count == n * m,
{
    let mut count: usize = 0;
    let mut i: usize = 0;
    while i < n
        invariant
            i <= n,
            count == i * m,
            n * m <= usize::MAX,
        decreases n - i,
    {
        proof {
            assert((i + 1) * m <= n * m) by (nonlinear_arith)
                requires
                    i + 1 <= n,
            ;
            assert((i + 1) * m == i * m + m) by (nonlinear_arith);
        }
        let mut j: usize = 0;
        while j < m
            invariant
                j <= m,
                count == i * m + j,
                (i + 1) * m <= usize::MAX,
                (i + 1) * m == i * m + m,
            decreases m - j,
        {
            count += 1;
            j += 1;
        }
        i += 1;
    }
    count
}

/// Several return points: the sign of `x`.
pub fn multiple_returns(x: i32) -> (r: i32)
    ensures
        x < 0 ==> r == -1,
        x == 0 ==> r == 0,
        x > 0 ==> r == 1,
{
    if x < 0 {
        return -1;
    }
    if x == 0 {
        return 0;
    }
    1
}

/// Short-circuit evaluation.
pub fn short_circuit(a: bool, b: bool, c: bool) -> (r: bool)
    ensures
        r == (a && b || c),
{
    a && b || c
}

} // verus!
