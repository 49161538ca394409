use vstd::prelude::*;

verus! {

/// The binomial coefficient: the number of ways to choose `k` things out of
/// `n`, by Pascal's rule.
pub open spec fn pascal(n: nat, k: nat) -> nat
    decreases n,
{
    if k == 0 {
        1
    } else if n == 0 {
        0
    } else {
        pascal((n - 1) as nat, (k - 1) as nat) + pascal((n - 1) as nat, k)
    }
}

/// The number of ways to spread `stones` stones over `pits` pits: either the
/// last pit holds none of them, or it holds one and the others are spread
/// over the same pits.
pub open spec fn ways(stones: nat, pits: nat) -> nat
    decreases stones + pits,
{
    if stones == 0 {
        1
    } else if pits == 0 {
        0
    } else {
        ways((stones - 1) as nat, pits) + ways(stones, (pits - 1) as nat)
    }
}

/// There is no way to choose more than all.
pub proof fn lemma_pascal_beyond(n: nat, k: nat)
    requires
        k > n,
    ensures
        pascal(n, k) == 0,
    decreases n,
{
    if n > 0 {
        lemma_pascal_beyond((n - 1) as nat, (k - 1) as nat);
        lemma_pascal_beyond((n - 1) as nat, k);
    }
}

/// There is one way to choose all.
pub proof fn lemma_pascal_all(n: nat)
    ensures
        pascal(n, n) == 1,
    decreases n,
{
    if n > 0 {
        lemma_pascal_all((n - 1) as nat);
        lemma_pascal_beyond((n - 1) as nat, n);
    }
}

/// There is one way to spread stones over one pit, and none to spread stones
/// over no pit.
pub proof fn lemma_ways_one_pit(stones: nat)
    ensures
        ways(stones, 1) == 1,
        stones > 0 ==> ways(stones, 0) == 0,
    decreases stones,
{
    if stones > 0 {
        lemma_ways_one_pit((stones - 1) as nat);
        assert(ways(stones, 0) == 0);
    }
}

/// Stars and bars: the ways to spread `stones` stones over `pits` pits are as
/// many as the ways to choose the places of `pits - 1` bars among the stones
/// and the bars.
pub proof fn lemma_ways_is_pascal(stones: nat, pits: nat)
    requires
        pits >= 1,
    ensures
        ways(stones, pits) == pascal((stones + pits - 1) as nat, (pits - 1) as nat),
    decreases stones + pits,
{
    let n = (stones + pits - 1) as nat;
    let k = (pits - 1) as nat;
    if stones == 0 {
        lemma_pascal_all(k);
    } else if pits == 1 {
        lemma_ways_one_pit(stones);
    } else {
        lemma_ways_is_pascal((stones - 1) as nat, pits);
        lemma_ways_is_pascal(stones, (pits - 1) as nat);
        assert(pascal(n, k) == pascal((n - 1) as nat, (k - 1) as nat) + pascal((n - 1) as nat, k));
        assert(ways(stones, pits) == ways((stones - 1) as nat, pits) + ways(
            stones,
            (pits - 1) as nat,
        ));
    }
}

/// More stones or more pits give no fewer ways.
pub proof fn lemma_ways_grows(stones: nat, pits: nat, more_stones: nat, more_pits: nat)
    requires
        stones <= more_stones,
        1 <= pits <= more_pits,
    ensures
        1 <= ways(stones, pits) <= ways(more_stones, more_pits),
    decreases more_stones + more_pits,
{
    if more_stones > stones {
        lemma_ways_grows(stones, pits, (more_stones - 1) as nat, more_pits);
    } else if more_pits > pits {
        lemma_ways_grows(stones, pits, more_stones, (more_pits - 1) as nat);
        if more_stones > 0 {
            lemma_ways_grows(0, 1, (more_stones - 1) as nat, more_pits);
        }
    } else {
        if stones > 0 {
            lemma_ways_grows(0, 1, (stones - 1) as nat, pits);
            if pits > 1 {
                lemma_ways_grows(0, 1, stones, (pits - 1) as nat);
            }
        }
    }
}

/// The ways to spread fewer than `stones` stones over `pits` pits are the ways
/// to spread `stones - 1` stones over one pit more, which takes what is left.
pub open spec fn ways_below(stones: nat, pits: nat) -> nat {
    if stones == 0 {
        0
    } else {
        ways((stones - 1) as nat, pits + 1)
    }
}

/// One stone more adds the ways to spread exactly the stones there were.
pub proof fn lemma_ways_below_step(stones: nat, pits: nat)
    ensures
        ways_below(stones + 1, pits) == ways_below(stones, pits) + ways(stones, pits),
{
}

/// The binomial coefficient, as `num_integer::binomial` computes it. For `n`
/// up to 67 the function's documentation rules out overflow in 64 bits,
/// whatever `k`; its arithmetic in 128 bits then gives the same values.
#[verifier::external_body]
fn binomial(n: u128, k: u128) -> (coefficient: u128)
    requires
        n <= 67,
    ensures
        coefficient == pascal(n as nat, k as nat),
{
    num_integer::binomial(n, k)
}

/// The number of ways to spread `num_stones` stones over `num_pits` pits.
pub fn num_game_states(num_stones: u32, num_pits: u32) -> (count: u128)
    requires
        num_pits >= 1,
        num_stones + num_pits <= 68,
    ensures
        count == ways(num_stones as nat, num_pits as nat),
{
    if num_stones == 0 {
        return 1;
    }
    let n = num_stones as u128;
    let k = num_pits as u128;
    proof {
        lemma_ways_is_pascal(num_stones as nat, num_pits as nat);
    }
    binomial(n + k - 1, k - 1)
}

/// The number of positions with `num_stones` stones in the twelve pits.
pub fn num_game_states_full_board(num_stones: u32) -> (count: u128)
    requires
        num_stones <= 55,
    ensures
        count == ways(num_stones as nat, 12),
{
    num_game_states(num_stones, 12)
}

/// The number of positions with `num_stones` stones or fewer in the twelve
/// pits: a thirteenth pit takes the stones that are out of play.
pub fn total_num_game_states_full_board(num_stones: u32) -> (count: u128)
    requires
        num_stones <= 55,
    ensures
        count == ways(num_stones as nat, 13),
        count == ways_below(num_stones as nat + 1, 12),
{
    num_game_states(num_stones, 13)
}

} // verus!
