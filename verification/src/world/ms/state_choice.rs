use vstd::prelude::*;

verus! {

/// The sum of the first `k` weights.
pub open spec fn prefix_weight(ws: Seq<usize>, k: int) -> int
    decreases k,
{
    if k <= 0 {
        0
    } else {
        prefix_weight(ws, k - 1) + ws[k - 1] as int
    }
}

/// The sum of all weights.
pub open spec fn total_weight_of(ws: Seq<usize>) -> int {
    prefix_weight(ws, ws.len() as int)
}

/// Walking the weights from position `i` on with `rest` still to cover, the
/// position at which the running sum first reaches `rest`.
pub open spec fn reach_from(ws: Seq<usize>, i: int, rest: int) -> int
    decreases ws.len() - i,
{
    if i >= ws.len() {
        i
    } else if ws[i] as int >= rest {
        i
    } else {
        reach_from(ws, i + 1, rest - ws[i])
    }
}

/// The first position at which the running sum of the weights reaches
/// `target`.
pub open spec fn reach_index(ws: Seq<usize>, target: int) -> int {
    reach_from(ws, 0, target)
}

/// A prefix sum grows with its length and is bounded by the length times the
/// largest `usize`.
pub proof fn lemma_prefix_weight_bounds(ws: Seq<usize>, j: int, k: int)
    requires
        0 <= j <= k <= ws.len(),
    ensures
        0 <= prefix_weight(ws, j) <= prefix_weight(ws, k),
        prefix_weight(ws, k) <= k * (usize::MAX as int),
    decreases k,
{
    if k > 0 {
        if j < k {
            lemma_prefix_weight_bounds(ws, j, k - 1);
        } else {
            lemma_prefix_weight_bounds(ws, j - 1, k - 1);
        }
    }
}

/// The running sum reaches a target below the total before the end of the
/// weights.
pub proof fn lemma_reach_from(ws: Seq<usize>, i: int, rest: int)
    requires
        0 <= i <= ws.len(),
        rest >= 0,
        rest + prefix_weight(ws, i) < total_weight_of(ws),
    ensures
        i <= reach_from(ws, i, rest) < ws.len(),
        prefix_weight(ws, reach_from(ws, i, rest) + 1) >= rest + prefix_weight(ws, i),
    decreases ws.len() - i,
{
    if ws[i] as int >= rest {
    } else {
        lemma_reach_from(ws, i + 1, rest - ws[i]);
    }
}

/// The sum of the weights, which always fits in a `u128`.
pub fn total_weight(ws: &Vec<usize>) -> (r: u128)
    ensures
        r == total_weight_of(ws@),
{
    let mut acc: u128 = 0;
    let mut i: usize = 0;
    while i < ws.len()
        invariant
            i <= ws.len(),
            acc == prefix_weight(ws@, i as int),
        decreases ws.len() - i,
    {
        proof {
            lemma_prefix_weight_bounds(ws@, i as int, i + 1);
            assert((i + 1) * (usize::MAX as int) <= (usize::MAX as int) * (usize::MAX as int))
                by (nonlinear_arith)
                requires
                    i + 1 <= usize::MAX,
            ;
        }
        acc = acc + ws[i] as u128;
        i += 1;
    }
    acc
}

/// Picks a state by weight: walking the states in order and summing their
/// weights, the first state at which the sum reaches `target`. With a
/// target drawn evenly below the total, each state comes out with a chance
/// in proportion to its weight.
pub fn pick_state(states: &Vec<usize>, weights: &Vec<usize>, target: u128) -> (r: usize)
    requires
        states.len() == weights.len(),
        target < total_weight_of(weights@),
    ensures
        0 <= reach_index(weights@, target as int) < states.len(),
        r == states@[reach_index(weights@, target as int)],
{
    proof {
        lemma_reach_from(weights@, 0, target as int);
    }
    let mut acc: u128 = 0;
    let mut i: usize = 0;
    while i < weights.len()
        invariant
            states.len() == weights.len(),
            target < total_weight_of(weights@),
            i <= weights.len(),
            acc == prefix_weight(weights@, i as int),
            acc <= target,
            reach_index(weights@, target as int) == reach_from(weights@, i as int, target - acc),
        decreases weights.len() - i,
    {
        proof {
            lemma_prefix_weight_bounds(weights@, i + 1, weights.len() as int);
        }
        let next = acc + weights[i] as u128;
        if next >= target {
            return states[i];
        }
        acc = next;
        i += 1;
    }
    proof {
        lemma_prefix_weight_bounds(weights@, weights.len() as int, weights.len() as int);
    }
    states[0]
}

} // verus!
