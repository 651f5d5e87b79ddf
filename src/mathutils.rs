//! Factorials and binomial coefficients for the small arguments the coordinates use.
use vstd::prelude::*;

verus! {

/// n!
pub open spec fn fact(n: nat) -> nat
    decreases n,
{
    if n == 0 {
        1
    } else {
        n * fact((n - 1) as nat)
    }
}

/// The number of k-element subsets of an n-element set (Pascal's rule).
pub open spec fn binom(n: nat, k: nat) -> nat
    decreases n,
{
    if k == 0 {
        1
    } else if n == 0 {
        0
    } else {
        binom((n - 1) as nat, (k - 1) as nat) + binom((n - 1) as nat, k)
    }
}

pub open spec fn pow2(n: nat) -> nat
    decreases n,
{
    if n == 0 {
        1
    } else {
        2 * pow2((n - 1) as nat)
    }
}

pub proof fn lemma_fact_positive(n: nat)
    ensures
        fact(n) >= 1,
    decreases n,
{
    if n > 0 {
        lemma_fact_positive((n - 1) as nat);
        assert(n * fact((n - 1) as nat) >= 1) by (nonlinear_arith)
            requires
                n >= 1,
                fact((n - 1) as nat) >= 1,
        ;
    }
}

pub proof fn lemma_fact_monotone(m: nat, n: nat)
    requires
        m <= n,
    ensures
        fact(m) <= fact(n),
    decreases n,
{
    if m < n {
        lemma_fact_monotone(m, (n - 1) as nat);
        lemma_fact_positive((n - 1) as nat);
        assert(fact((n - 1) as nat) <= n * fact((n - 1) as nat)) by (nonlinear_arith)
            requires
                n >= 1,
        ;
    }
}

pub proof fn lemma_fact_bound(n: nat)
    requires
        n <= 12,
    ensures
        fact(n) <= 479001600,
{
    reveal_with_fuel(fact, 13);
    lemma_fact_monotone(n, 12);
}

pub proof fn lemma_binom_bound(n: nat, k: nat)
    ensures
        binom(n, k) <= pow2(n),
    decreases n,
{
    if k != 0 && n != 0 {
        lemma_binom_bound((n - 1) as nat, (k - 1) as nat);
        lemma_binom_bound((n - 1) as nat, k);
    } else if k == 0 {
        lemma_pow2_positive(n);
    }
}

pub proof fn lemma_pow2_positive(n: nat)
    ensures
        pow2(n) >= 1,
    decreases n,
{
    if n > 0 {
        lemma_pow2_positive((n - 1) as nat);
    }
}

pub proof fn lemma_pow2_monotone(m: nat, n: nat)
    requires
        m <= n,
    ensures
        pow2(m) <= pow2(n),
    decreases n,
{
    if m < n {
        lemma_pow2_monotone(m, (n - 1) as nat);
    }
}

pub proof fn lemma_binom_small(n: nat, k: nat)
    requires
        n <= 12,
    ensures
        binom(n, k) <= 4096,
{
    lemma_binom_bound(n, k);
    lemma_pow2_monotone(n, 12);
    reveal_with_fuel(pow2, 13);
}

/// Binomial coefficients C(n, k) for 0 <= n, k <= 12, built row by row with Pascal's rule.
pub fn precompute_binomial_table() -> (table: Vec<Vec<usize>>)
    ensures
        table@.len() == 13,
        forall|n: int| 0 <= n < 13 ==> #[trigger] table@[n]@.len() == 13,
        forall|n: int, k: int|
            0 <= n < 13 && 0 <= k < 13 ==> #[trigger] table@[n]@[k] == binom(n as nat, k as nat),
{
    let mut table: Vec<Vec<usize>> = Vec::new();
    let mut n: usize = 0;
    while n <= 12
        invariant
            n <= 13,
            table@.len() == n,
            forall|i: int| 0 <= i < n ==> #[trigger] table@[i]@.len() == 13,
            forall|i: int, k: int|
                0 <= i < n && 0 <= k < 13 ==> #[trigger] table@[i]@[k] == binom(i as nat, k as nat),
        decreases 13 - n,
    {
        let mut row: Vec<usize> = Vec::new();
        let mut k: usize = 0;
        while k <= 12
            invariant
                n <= 12,
                k <= 13,
                row@.len() == k,
                table@.len() == n,
                forall|i: int| 0 <= i < n ==> #[trigger] table@[i]@.len() == 13,
                forall|i: int, j: int|
                    0 <= i < n && 0 <= j < 13 ==> #[trigger] table@[i]@[j] == binom(i as nat, j as nat),
                forall|j: int| 0 <= j < k ==> #[trigger] row@[j] == binom(n as nat, j as nat),
            decreases 13 - k,
        {
            let value: usize = if k == 0 {
                1
            } else if n == 0 {
                0
            } else {
                proof {
                    lemma_binom_small((n - 1) as nat, (k - 1) as nat);
                    lemma_binom_small((n - 1) as nat, k as nat);
                }
                table[n - 1][k - 1] + table[n - 1][k]
            };
            row.push(value);
            k = k + 1;
        }
        table.push(row);
        n = n + 1;
    }
    table
}

/// Factorials n! for 0 <= n <= 12.
pub fn precompute_factorial_table() -> (table: Vec<usize>)
    ensures
        table@.len() == 13,
        forall|n: int| 0 <= n < 13 ==> #[trigger] table@[n] == fact(n as nat),
{
    let mut table: Vec<usize> = Vec::new();
    table.push(1);
    let mut n: usize = 1;
    while n <= 12
        invariant
            1 <= n <= 13,
            table@.len() == n,
            forall|i: int| 0 <= i < n ==> #[trigger] table@[i] == fact(i as nat),
        decreases 13 - n,
    {
        proof {
            lemma_fact_bound(n as nat);
            assert(fact(n as nat) == n * fact((n - 1) as nat));
        }
        let value: usize = n * table[n - 1];
        table.push(value);
        n = n + 1;
    }
    table
}

/// C(n, k), zero when k > n.
pub fn binomial(n: usize, k: usize) -> (r: usize)
    requires
        n <= 12,
        k <= 12,
    ensures
        r == binom(n as nat, k as nat),
{
    let mut row: Vec<usize> = Vec::new();
    let mut j: usize = 0;
    while j <= k
        invariant
            j <= k + 1,
            k <= 12,
            row@.len() == j,
            forall|i: int| 0 <= i < j ==> #[trigger] row@[i] == binom(0, i as nat),
        decreases k + 1 - j,
    {
        row.push(if j == 0 { 1 } else { 0 });
        j = j + 1;
    }
    let mut m: usize = 0;
    while m < n
        invariant
            m <= n <= 12,
            k <= 12,
            row@.len() == k + 1,
            forall|i: int| 0 <= i <= k ==> #[trigger] row@[i] == binom(m as nat, i as nat),
        decreases n - m,
    {
        // Row m + 1 from row m, updated from the right so that row[i - 1] is still row m.
        let mut i: usize = k;
        while i > 0
            invariant
                i <= k <= 12,
                m < n <= 12,
                row@.len() == k + 1,
                forall|t: int| 0 <= t <= i ==> #[trigger] row@[t] == binom(m as nat, t as nat),
                forall|t: int| i < t <= k ==> #[trigger] row@[t] == binom((m + 1) as nat, t as nat),
            decreases i,
        {
            proof {
                lemma_binom_small(m as nat, i as nat);
                lemma_binom_small(m as nat, (i - 1) as nat);
                assert(binom((m + 1) as nat, i as nat) == binom(m as nat, (i - 1) as nat) + binom(m as nat, i as nat));
            }
            let value: usize = row[i] + row[i - 1];
            row.set(i, value);
            i = i - 1;
        }
        m = m + 1;
    }
    row[k]
}

/// n! for n <= 12.
pub fn factorial(n: usize) -> (r: usize)
    requires
        n <= 12,
    ensures
        r == fact(n as nat),
{
    let mut r: usize = 1;
    let mut i: usize = 0;
    while i < n
        invariant
            i <= n <= 12,
            r == fact(i as nat),
        decreases n - i,
    {
        proof {
            lemma_fact_bound((i + 1) as nat);
            assert(fact((i + 1) as nat) == (i + 1) * fact(i as nat));
        }
        i = i + 1;
        r = r * i;
    }
    r
}


/// C(n, k) is zero when k > n.
pub proof fn lemma_binom_zero(n: nat, k: nat)
    requires
        k > n,
    ensures
        binom(n, k) == 0,
    decreases n,
{
    if n > 0 {
        lemma_binom_zero((n - 1) as nat, (k - 1) as nat);
        lemma_binom_zero((n - 1) as nat, k);
    }
}


pub proof fn lemma_fact_four()
    ensures
        fact(4) == 24,
{
    reveal_with_fuel(fact, 5);
}

/// C(n, k) is positive when k <= n.
pub proof fn lemma_binom_positive(n: nat, k: nat)
    requires
        k <= n,
    ensures
        binom(n, k) >= 1,
    decreases n,
{
    if k > 0 {
        lemma_binom_positive((n - 1) as nat, (k - 1) as nat);
    }
}

/// C(n, n) = 1.
pub proof fn lemma_binom_diagonal(n: nat)
    ensures
        binom(n, n) == 1,
    decreases n,
{
    if n > 0 {
        lemma_binom_diagonal((n - 1) as nat);
        lemma_binom_zero((n - 1) as nat, n);
    }
}

} // verus!
