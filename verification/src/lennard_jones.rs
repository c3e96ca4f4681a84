//! The order in which the pairwise force loop visits the particles: every
//! unordered pair once, `(0, 1), (0, 2), ..`, by rising first and then by
//! rising second particle.

use vstd::prelude::*;

verus! {

/// Pairs of `n` particles whose first particle is below `row`.
pub open spec fn pairs_before(n: nat, row: nat) -> nat
    decreases row,
{
    if row == 0 || row > n {
        0
    } else {
        pairs_before(n, (row - 1) as nat) + (n - row) as nat
    }
}

/// Number of unordered pairs of `n` particles.
pub open spec fn pair_count(n: nat) -> nat {
    pairs_before(n, n)
}

/// Whether `(j1, j2)` is a pair of the loop over `n` particles.
pub open spec fn is_pair(n: nat, j1: nat, j2: nat) -> bool {
    j1 < j2 < n
}

/// How many pairs the loop visits before `(j1, j2)`.
pub open spec fn pair_rank(n: nat, j1: nat, j2: nat) -> nat {
    (pairs_before(n, j1) + j2 - j1 - 1) as nat
}

/// Twice the number of pairs below a row, in closed form.
pub proof fn lemma_pairs_before(n: nat, row: nat)
    requires
        row <= n,
    ensures
        2 * pairs_before(n, row) == row * (2 * n - row - 1),
    decreases row,
{
    if row > 0 {
        let above = (row - 1) as nat;
        lemma_pairs_before(n, above);
        assert(above * (2 * n - above - 1) + 2 * (n - row) == row * (2 * n - row - 1))
            by (nonlinear_arith)
            requires
                above == row - 1,
        ;
    } else {
        assert(row * (2 * n - row - 1) == 0) by (nonlinear_arith)
            requires
                row == 0,
        ;
    }
}

/// `n` particles form `n (n - 1) / 2` pairs.
pub proof fn lemma_pair_count(n: nat)
    ensures
        2 * pair_count(n) == n * (n - 1),
{
    lemma_pairs_before(n, n);
    assert(n * (2 * n - n - 1) == n * (n - 1)) by (nonlinear_arith);
}

/// Rows counted further down hold no fewer pairs.
pub proof fn lemma_pairs_before_grows(n: nat, low: nat, high: nat)
    requires
        low <= high <= n,
    ensures
        pairs_before(n, low) <= pairs_before(n, high),
    decreases high,
{
    if low < high {
        lemma_pairs_before_grows(n, low, (high - 1) as nat);
    }
}

/// Every pair is visited before the loop ends.
pub proof fn lemma_pair_rank_bound(n: nat, j1: nat, j2: nat)
    requires
        is_pair(n, j1, j2),
    ensures
        pair_rank(n, j1, j2) < pair_count(n),
{
    lemma_pairs_before_grows(n, j1 + 1, n);
}

/// Two pairs visited at the same point of the loop are the same pair.
pub proof fn lemma_pair_rank_injective(n: nat, a1: nat, a2: nat, b1: nat, b2: nat)
    requires
        is_pair(n, a1, a2),
        is_pair(n, b1, b2),
        pair_rank(n, a1, a2) == pair_rank(n, b1, b2),
    ensures
        a1 == b1,
        a2 == b2,
{
    if a1 < b1 {
        lemma_pairs_before_grows(n, a1 + 1, b1);
    } else if b1 < a1 {
        lemma_pairs_before_grows(n, b1 + 1, a1);
    }
}

/// The first pair of the loop over `n` particles, if there is any pair.
pub fn first_pair(n: usize) -> (pair: Option<(usize, usize)>)
    ensures
        n >= 2 ==> pair == Some((0usize, 1usize)) && pair_rank(n as nat, 0, 1) == 0,
        n < 2 ==> pair.is_none() && pair_count(n as nat) == 0,
{
    proof {
        lemma_pair_count(n as nat);
    }
    if n >= 2 {
        Some((0, 1))
    } else {
        assert(n * (n - 1) == 0) by (nonlinear_arith)
            requires
                0 <= n < 2,
        ;
        None
    }
}

/// The pair that the loop visits after `(j1, j2)`: the next second
/// particle, or the next first particle with the one behind it; `None`
/// after the last pair.
pub fn next_pair(n: usize, j1: usize, j2: usize) -> (pair: Option<(usize, usize)>)
    requires
        is_pair(n as nat, j1 as nat, j2 as nat),
    ensures
        j2 + 1 < n ==> pair == Some((j1, (j2 + 1) as usize)),
        j2 + 1 == n && j1 + 2 < n ==> pair == Some(((j1 + 1) as usize, (j1 + 2) as usize)),
        j2 + 1 == n && j1 + 2 >= n ==> pair.is_none(),
        pair.is_some() ==> {
            &&& is_pair(n as nat, pair.unwrap().0 as nat, pair.unwrap().1 as nat)
            &&& pair_rank(n as nat, pair.unwrap().0 as nat, pair.unwrap().1 as nat) == pair_rank(
                n as nat,
                j1 as nat,
                j2 as nat,
            ) + 1
        },
        pair.is_none() <==> pair_rank(n as nat, j1 as nat, j2 as nat) + 1 == pair_count(n as nat),
{
    proof {
        lemma_pair_rank_bound(n as nat, j1 as nat, j2 as nat);
    }
    if j2 + 1 < n {
        proof {
            lemma_pair_rank_bound(n as nat, j1 as nat, (j2 + 1) as nat);
        }
        Some((j1, j2 + 1))
    } else if j1 + 2 < n {
        proof {
            lemma_pair_rank_bound(n as nat, (j1 + 1) as nat, (j1 + 2) as nat);
        }
        Some((j1 + 1, j1 + 2))
    } else {
        proof {
            let rows = n as nat;
            assert(pairs_before(rows, rows) == pairs_before(rows, (rows - 1) as nat));
            assert(pairs_before(rows, (rows - 1) as nat) == pairs_before(rows, (rows - 2) as nat)
                + 1);
        }
        None
    }
}

} // verus!
