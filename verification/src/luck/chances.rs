//! Weighted random choice: draws an index with probability proportional to
//! its weight.

use vstd::prelude::*;

use crate::luck::{pcg_gen_below, LuckState};

verus! {

/// The sum of a sequence of weights.
pub open spec fn sum_weights(s: Seq<u64>) -> int
    decreases s.len(),
{
    if s.len() == 0 {
        0
    } else {
        sum_weights(s.drop_last()) + s.last()
    }
}

/// A prefix never weighs more than the whole.
proof fn lemma_sum_prefix(s: Seq<u64>, i: int)
    requires
        0 <= i <= s.len(),
    ensures
        sum_weights(s.subrange(0, i)) <= sum_weights(s),
        sum_weights(s.subrange(0, i)) >= 0,
    decreases s.len() - i,
{
    if i == s.len() {
        assert(s.subrange(0, i) =~= s);
        lemma_sum_nonneg(s);
    } else {
        lemma_sum_prefix(s, i + 1);
        assert(s.subrange(0, i + 1).drop_last() =~= s.subrange(0, i));
        assert(sum_weights(s.subrange(0, i + 1)) == sum_weights(s.subrange(0, i)) + s[i]);
        lemma_sum_nonneg(s.subrange(0, i));
    }
}

proof fn lemma_sum_nonneg(s: Seq<u64>)
    ensures
        sum_weights(s) >= 0,
    decreases s.len(),
{
    if s.len() > 0 {
        lemma_sum_nonneg(s.drop_last());
    }
}

/// Draws a random index of `weights`, each index as likely as its weight
/// says; the drawn index always carries a positive weight.  `sum` may pass
/// the precomputed total weight in; it must not overstate it, and the total
/// weight must be positive, or the draw would have no index to land on.
pub fn chances(state: &mut LuckState, weights: &Vec<u64>, sum: Option<u64>) -> (r: usize)
    requires
        sum_weights(weights@) <= u64::MAX,
        match sum {
            Some(s) => 0 < s <= sum_weights(weights@),
            None => sum_weights(weights@) > 0,
        },
    ensures
        r < weights@.len(),
        weights@[r as int] > 0,
{
    let sum_value: u64 = match sum {
        Some(s) => s,
        None => {
            let mut total: u64 = 0;
            let mut i: usize = 0;
            while i < weights.len()
                invariant
                    i <= weights@.len(),
                    total == sum_weights(weights@.subrange(0, i as int)),
                decreases weights@.len() - i,
            {
                proof {
                    lemma_sum_prefix(weights@, i + 1);
                    assert(weights@.subrange(0, i + 1).drop_last() =~= weights@.subrange(
                        0,
                        i as int,
                    ));
                }
                total = total + weights[i];
                i = i + 1;
            }
            proof {
                assert(weights@.subrange(0, weights@.len() as int) =~= weights@);
            }
            total
        },
    };

    let generated = pcg_gen_below(&mut state.state, sum_value);

    let mut total: u64 = 0;
    let mut i: usize = 0;
    while i < weights.len()
        invariant
            i <= weights@.len(),
            total == sum_weights(weights@.subrange(0, i as int)),
            generated >= total,
            generated < sum_weights(weights@),
        decreases weights@.len() - i,
    {
        proof {
            lemma_sum_prefix(weights@, i + 1);
            assert(weights@.subrange(0, i + 1).drop_last() =~= weights@.subrange(0, i as int));
        }
        total = total + weights[i];
        if generated < total {
            return i;
        }
        i = i + 1;
    }
    proof {
        assert(weights@.subrange(0, weights@.len() as int) =~= weights@);
        assert(false);
    }
    0
}

} // verus!
