use crate::mancala::counting::{lemma_ways_grows, ways, ways_below};
use crate::mancala::game_state::MancalaGameState;
use vstd::prelude::*;

verus! {

/// The cell of the `k`-th of the twelve pits, counted from the first pit of
/// the player to move through to the last pit of the other player.
pub open spec fn normal_pit(turn: bool, k: int) -> int {
    if turn {
        if k < 6 {
            k
        } else {
            k + 1
        }
    } else {
        if k < 6 {
            k + 7
        } else {
            k - 6
        }
    }
}

/// The stones of the twelve pits, counted from the first pit of the player to
/// move.
pub open spec fn normal_counts(state: MancalaGameState) -> Seq<int> {
    Seq::new(12, |k: int| state.pits@[normal_pit(state.turn, k)] as int)
}

/// The sum of the counts from the `k`-th on.
pub open spec fn tail_sum(counts: Seq<int>, k: int) -> int
    decreases counts.len() - k,
{
    if k < 0 || k >= counts.len() {
        0
    } else {
        counts[k] + tail_sum(counts, k + 1)
    }
}

/// The sum of the first `n` terms of the index of `counts`: the `k`-th term
/// counts the boards that agree with `counts` in the pits before the `k`-th
/// and hold more stones in the `k`-th, which are as many as the ways to spread
/// fewer stones than `counts` does over the pits from the `k`-th on.
pub open spec fn index_terms(counts: Seq<int>, n: int) -> int
    decreases n,
{
    if n <= 0 {
        0
    } else {
        index_terms(counts, n - 1) + ways_below(
            tail_sum(counts, n - 1) as nat,
            (counts.len() - n + 1) as nat,
        )
    }
}

/// The index of a position in the endgame table: the boards with fewer stones
/// in the pits come first, and among the boards with the same stones those
/// that hold more in the first pit where they differ.
pub open spec fn position_index(state: MancalaGameState) -> int {
    index_terms(normal_counts(state), 12)
}

/// The counts are those of a board: twelve of them, none negative.
pub open spec fn board_counts(counts: Seq<int>) -> bool {
    &&& counts.len() == 12
    &&& forall|k: int| 0 <= k < 12 ==> #[trigger] counts[k] >= 0
}

/// The sum of the counts from a pit on is not negative.
pub proof fn lemma_tail_sum_sign(counts: Seq<int>, k: int)
    requires
        board_counts(counts),
        0 <= k <= 12,
    ensures
        0 <= tail_sum(counts, k),
        tail_sum(counts, 12) == 0,
    decreases 12 - k,
{
    if k < 12 {
        lemma_tail_sum_sign(counts, k + 1);
    }
}

/// The sum of the counts from a pit on is not negative, and no smaller than
/// the sum from a later pit on.
pub proof fn lemma_tail_sums(counts: Seq<int>, k: int, later: int)
    requires
        board_counts(counts),
        0 <= k <= later <= 12,
    ensures
        0 <= tail_sum(counts, later) <= tail_sum(counts, k),
        tail_sum(counts, 12) == 0,
    decreases later - k,
{
    lemma_tail_sum_sign(counts, later);
    if k < later {
        lemma_tail_sums(counts, k + 1, later);
    }
}

/// Once no stone is left for the pits from the `k`-th on, the index has no
/// further terms.
pub proof fn lemma_terms_after_empty(counts: Seq<int>, k: int, n: int)
    requires
        board_counts(counts),
        0 <= k <= n <= 12,
        tail_sum(counts, k) == 0,
    ensures
        index_terms(counts, n) == index_terms(counts, k),
    decreases n - k,
{
    if k < n {
        lemma_terms_after_empty(counts, k, n - 1);
        lemma_tail_sums(counts, k, n - 1);
    }
}

/// The terms of the index from the `k`-th on are fewer than the ways to
/// spread the stones of the pits from the one before the `k`-th on over those
/// pits but the first: they count boards that agree in that first pit.
pub proof fn lemma_later_terms(counts: Seq<int>, k: int)
    requires
        board_counts(counts),
        1 <= k <= 12,
    ensures
        0 <= index_terms(counts, 12) - index_terms(counts, k) < ways(
            tail_sum(counts, k - 1) as nat,
            (13 - k) as nat,
        ),
        0 <= index_terms(counts, 12) - index_terms(counts, k) < ways(
            tail_sum(counts, k) as nat,
            (13 - k) as nat,
        ) || k == 12,
    decreases 12 - k,
{
    lemma_tail_sums(counts, k - 1, k);
    lemma_tail_sums(counts, k, 12);
    let before = tail_sum(counts, k - 1) as nat;
    if k == 12 {
        lemma_ways_grows(0, 1, before, 1);
        crate::mancala::counting::lemma_ways_one_pit(before);
    } else {
        lemma_later_terms(counts, k + 1);
        let here = tail_sum(counts, k) as nat;
        assert(index_terms(counts, k + 1) == index_terms(counts, k) + ways_below(
            here,
            (12 - k) as nat,
        ));
        assert(ways_below(here, (12 - k) as nat) + ways(here, (12 - k) as nat) == ways(
            here,
            (13 - k) as nat,
        )) by {
            if here > 0 {
                assert(ways(here, (13 - k) as nat) == ways((here - 1) as nat, (13 - k) as nat)
                    + ways(here, (12 - k) as nat));
            } else {
                assert(ways(0, (13 - k) as nat) == 1);
                assert(ways(0, (12 - k) as nat) == 1);
            }
        }
        lemma_ways_grows(here, (13 - k) as nat, before, (13 - k) as nat);
    }
}

/// Changing one count changes by as much the sums from the pits up to it, and
/// leaves the sums from the later pits as they were.
pub proof fn lemma_tail_update(counts: Seq<int>, k: int, value: int, from: int)
    requires
        counts.len() == 12,
        0 <= k < 12,
        0 <= from <= 12,
    ensures
        tail_sum(counts.update(k, value), from) == tail_sum(counts, from) + (if from <= k {
            value - counts[k]
        } else {
            0
        }),
    decreases 12 - from,
{
    if from < 12 {
        lemma_tail_update(counts, k, value, from + 1);
    }
}

/// The first terms of the index are those of every board that holds the same
/// stones from each of the first pits on.
pub proof fn lemma_terms_agree(a: Seq<int>, b: Seq<int>, n: int)
    requires
        a.len() == b.len(),
        0 <= n,
        forall|j: int| 0 <= j < n ==> tail_sum(a, j) == tail_sum(b, j),
    ensures
        index_terms(a, n) == index_terms(b, n),
    decreases n,
{
    if n > 0 {
        lemma_terms_agree(a, b, n - 1);
    }
}

/// The index of a board is a place in the table of its level: it follows the
/// boards with fewer stones and precedes those with more.
pub proof fn lemma_index_range(counts: Seq<int>)
    requires
        board_counts(counts),
    ensures
        ways_below(tail_sum(counts, 0) as nat, 12) <= index_terms(counts, 12) < ways(
            tail_sum(counts, 0) as nat,
            13,
        ),
{
    lemma_later_terms(counts, 1);
    lemma_tail_sums(counts, 0, 0);
    let stones = tail_sum(counts, 0) as nat;
    assert(index_terms(counts, 1) == index_terms(counts, 0) + ways_below(stones, 12));
    if stones > 0 {
        assert(ways(stones, 13) == ways((stones - 1) as nat, 13) + ways(stones, 12));
    } else {
        assert(ways(0, 13) == 1);
        assert(ways(0, 12) == 1);
    }
}

/// Two boards with the same stones and the same index hold the same stones
/// from every pit on.
pub proof fn lemma_same_tails(a: Seq<int>, b: Seq<int>, k: int)
    requires
        board_counts(a),
        board_counts(b),
        tail_sum(a, 0) == tail_sum(b, 0),
        index_terms(a, 12) == index_terms(b, 12),
        0 <= k <= 12,
    ensures
        forall|j: int| 0 <= j <= k ==> tail_sum(a, j) == tail_sum(b, j),
    decreases k,
{
    if k > 0 {
        lemma_same_tails(a, b, k - 1);
        lemma_terms_agree(a, b, k);
        lemma_tail_sum_sign(a, k);
        lemma_tail_sum_sign(b, k);
        if k < 12 {
            let pits = (12 - k) as nat;
            let stones_a = tail_sum(a, k) as nat;
            let stones_b = tail_sum(b, k) as nat;
            lemma_later_terms(a, k + 1);
            lemma_later_terms(b, k + 1);
            assert(index_terms(a, k + 1) == index_terms(a, k) + ways_below(stones_a, pits));
            assert(index_terms(b, k + 1) == index_terms(b, k) + ways_below(stones_b, pits));
            crate::mancala::counting::lemma_ways_below_step(stones_a, pits);
            crate::mancala::counting::lemma_ways_below_step(stones_b, pits);
            if stones_a < stones_b {
                lemma_ways_grows(stones_a, pits + 1, (stones_b - 1) as nat, pits + 1);
            }
            if stones_b < stones_a {
                lemma_ways_grows(stones_b, pits + 1, (stones_a - 1) as nat, pits + 1);
            }
        }
    }
}

/// The index is a perfect hash: two boards with the same stones and the same
/// index are the same board.
pub proof fn lemma_index_injective(a: Seq<int>, b: Seq<int>)
    requires
        board_counts(a),
        board_counts(b),
        tail_sum(a, 0) == tail_sum(b, 0),
        index_terms(a, 12) == index_terms(b, 12),
    ensures
        a == b,
{
    lemma_same_tails(a, b, 12);
    assert forall|k: int| 0 <= k < 12 implies a[k] == b[k] by {
        assert(tail_sum(a, k) == a[k] + tail_sum(a, k + 1));
        assert(tail_sum(b, k) == b[k] + tail_sum(b, k + 1));
    }
    assert(a =~= b);
}

/// Two positions with the same player to move, the same stores, the same
/// stones in the pits and the same index are the same but for the end of the
/// game.
pub proof fn lemma_position_injective(p: MancalaGameState, q: MancalaGameState)
    requires
        p.turn == q.turn,
        p.pits@[6] == q.pits@[6],
        p.pits@[13] == q.pits@[13],
        p.stones_in_play() == q.stones_in_play(),
        position_index(p) == position_index(q),
    ensures
        p.pits == q.pits,
{
    let a = normal_counts(p);
    let b = normal_counts(q);
    reveal_with_fuel(tail_sum, 13);
    assert(tail_sum(a, 0) == a[0] + a[1] + a[2] + a[3] + a[4] + a[5] + a[6] + a[7] + a[8] + a[9]
        + a[10] + a[11]);
    assert(tail_sum(b, 0) == b[0] + b[1] + b[2] + b[3] + b[4] + b[5] + b[6] + b[7] + b[8] + b[9]
        + b[10] + b[11]);
    lemma_index_injective(a, b);
    assert forall|i: int| 0 <= i < 14 implies p.pits@[i] == q.pits@[i] by {
        if i != 6 && i != 13 {
            let k = if p.turn {
                if i < 6 {
                    i
                } else {
                    i - 1
                }
            } else {
                if i >= 7 {
                    i - 7
                } else {
                    i + 6
                }
            };
            assert(normal_pit(p.turn, k) == i);
            assert(a[k] == p.pits@[i]);
            assert(b[k] == q.pits@[i]);
        }
    }
    assert(p.pits =~= q.pits);
}

/// Where all counts from a pit on are zero, so is their sum.
pub proof fn lemma_zero_tail(counts: Seq<int>, from: int)
    requires
        counts.len() == 12,
        0 <= from <= 12,
        forall|k: int| from <= k < 12 ==> counts[k] == 0,
    ensures
        tail_sum(counts, from) == 0,
    decreases 12 - from,
{
    if from < 12 {
        lemma_zero_tail(counts, from + 1);
    }
}

/// Among the boards that spread `remaining` stones over a pit and `pits`
/// further pits, the one at place `offset` leaves a number of stones for the
/// further pits: the boards that leave fewer come before it, and it comes
/// before the boards that leave more.
pub proof fn lemma_stones_left(offset: int, remaining: nat, pits: nat, left: nat) -> (chosen: nat)
    requires
        left <= remaining,
        ways_below(left, pits) <= offset < ways(remaining, pits + 1),
    ensures
        left <= chosen <= remaining,
        ways_below(chosen, pits) <= offset < ways_below(chosen + 1, pits),
    decreases remaining - left,
{
    if left < remaining && ways_below(left + 1, pits) <= offset {
        lemma_stones_left(offset, remaining, pits, left + 1)
    } else {
        left
    }
}

/// The board at a place of the table, pit by pit: when the first `k` pits are
/// filled, `remaining` stones are left for the others, and the boards that
/// agree with the pits filled start at `base`, a board with the index `index`
/// can be completed.
proof fn lemma_board_at(
    counts: Seq<int>,
    k: int,
    remaining: nat,
    base: int,
    index: int,
    total: nat,
) -> (board: Seq<int>)
    requires
        board_counts(counts),
        0 <= k < 12,
        forall|j: int| k <= j < 12 ==> counts[j] == 0,
        tail_sum(counts, 0) + remaining == total,
        base <= index,
        index - base < ways(remaining, (12 - k) as nat),
        base == index_terms(counts.update(k, remaining as int), k + 1),
    ensures
        board_counts(board),
        tail_sum(board, 0) == total,
        index_terms(board, 12) == index,
    decreases 12 - k,
{
    let pits = (11 - k) as nat;
    let left = lemma_stones_left(index - base, remaining, pits, 0);
    let full = counts.update(k, remaining as int);
    let here = counts.update(k, remaining - left);
    lemma_tail_update(counts, k, remaining - left, 0);
    crate::mancala::counting::lemma_ways_below_step(left, pits);
    if left == 0 || k == 11 {
        if k == 11 {
            crate::mancala::counting::lemma_ways_one_pit(remaining);
            assert(ways(0, 1) == 1);
            assert(ways_below(1, 0) == ways(0, 1));
            if left > 0 {
                lemma_ways_grows(0, 1, (left - 1) as nat, 1);
            }
        }
        assert(left == 0);
        assert(here == full);
        lemma_tail_update(counts, k, remaining as int, k + 1);
        lemma_zero_tail(counts, k + 1);
        lemma_terms_after_empty(here, k + 1, 12);
        assert(ways(0, pits) == 1);
        here
    } else {
        let next = here.update(k + 1, left as int);
        assert forall|j: int| 0 <= j < k + 1 implies tail_sum(next, j) == tail_sum(full, j) by {
            lemma_tail_update(here, k + 1, left as int, j);
            lemma_tail_update(counts, k, remaining - left, j);
            lemma_tail_update(counts, k, remaining as int, j);
        }
        lemma_terms_agree(next, full, k + 1);
        lemma_tail_update(here, k + 1, left as int, k + 1);
        lemma_tail_update(counts, k, remaining - left, k + 1);
        lemma_zero_tail(counts, k + 1);
        assert(index_terms(next, k + 2) == index_terms(next, k + 1) + ways_below(
            tail_sum(next, k + 1) as nat,
            pits,
        ));
        assert(here.update(k + 1, left as int) == next);
        lemma_board_at(here, k + 1, left, base + ways_below(left, pits), index, total)
    }
}

/// The index is onto: every place of the table from the first board with
/// `stones` stones up to the last is the index of a board with `stones`
/// stones. With `lemma_index_injective`, the boards with `stones` stones and
/// the places of their level correspond one to one.
pub proof fn lemma_index_onto(stones: nat, index: int)
    requires
        ways_below(stones, 12) <= index < ways(stones, 13),
    ensures
        exists|counts: Seq<int>|
            board_counts(counts) && tail_sum(counts, 0) == stones && #[trigger] index_terms(
                counts,
                12,
            ) == index,
{
    let blank = Seq::new(12, |k: int| 0int);
    lemma_zero_tail(blank, 0);
    let start = blank.update(0, stones as int);
    lemma_tail_update(blank, 0, stones as int, 0);
    assert(index_terms(start, 1) == index_terms(start, 0) + ways_below(
        tail_sum(start, 0) as nat,
        12,
    ));
    if stones > 0 {
        assert(ways(stones, 13) == ways((stones - 1) as nat, 13) + ways(stones, 12));
    } else {
        assert(ways(0, 13) == 1);
        assert(ways(0, 12) == 1);
    }
    let board = lemma_board_at(blank, 0, stones, ways_below(stones, 12) as int, index, stones);
    assert(index_terms(board, 12) == index);
}

} // verus!
