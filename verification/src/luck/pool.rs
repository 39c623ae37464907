//! A weighted pool of items to draw from at random.

use vstd::prelude::*;

use crate::luck::chances::{chances, sum_weights};
use crate::luck::LuckState;

verus! {

/// Anything that can serve as a pool weight.
pub trait PoolWeight: Sized {
    /// The weight `into_weight` yields.
    spec fn spec_weight(self) -> u64;

    /// Converts the value into a weight.
    fn into_weight(self) -> (r: u64)
        ensures
            r == self.spec_weight(),
    ;
}

impl PoolWeight for u64 {
    open spec fn spec_weight(self) -> u64 {
        self
    }

    fn into_weight(self) -> u64 {
        self
    }
}

/// A pool of items, each with a weight that sets how likely it is drawn.
#[derive(Debug, Clone)]
pub struct RandomPool<Item> {
    choices: Vec<Item>,
    weights: Vec<u64>,
}

impl<Item> RandomPool<Item> {
    /// The pool's items.
    pub closed spec fn spec_choices(self) -> Seq<Item> {
        self.choices@
    }

    /// The pool's weights, one per item.
    pub closed spec fn spec_weights(self) -> Seq<u64> {
        self.weights@
    }

    /// A pool from parallel lists of items and weights.
    pub fn new(choices: Vec<Item>, weights: Vec<u64>) -> (r: Self)
        ensures
            r.spec_choices() == choices@,
            r.spec_weights() == weights@,
    {
        RandomPool { choices, weights }
    }

    /// A pool from weighted items.
    pub fn from_weights<Weight: PoolWeight>(choices: Vec<(Weight, Item)>) -> (r: Self)
        ensures
            r.spec_choices() == choices@.map_values(|p: (Weight, Item)| p.1),
            r.spec_weights() == choices@.map_values(|p: (Weight, Item)| p.0.spec_weight()),
    {
        let ghost choices0 = choices@;
        let ghost n = choices@.len() as int;
        let mut items: Vec<Item> = Vec::new();
        let mut weights: Vec<u64> = Vec::new();
        let mut rest = choices;
        while rest.len() > 0
            invariant
                items@.len() == weights@.len(),
                items@.len() + rest@.len() == n,
                rest@ == choices0.subrange(items@.len() as int, n),
                items@ == choices0.subrange(0, items@.len() as int).map_values(
                    |p: (Weight, Item)| p.1,
                ),
                weights@ == choices0.subrange(0, items@.len() as int).map_values(
                    |p: (Weight, Item)| p.0.spec_weight(),
                ),
            decreases rest@.len(),
        {
            let ghost k = items@.len() as int;
            let (weight, item) = rest.remove(0);
            proof {
                assert(rest@ =~= choices0.subrange(k + 1, n));
                assert(weight == choices0[k].0 && item == choices0[k].1);
            }
            weights.push(weight.into_weight());
            items.push(item);
            proof {
                assert(items@ =~= choices0.subrange(0, k + 1).map_values(
                    |p: (Weight, Item)| p.1,
                ));
                assert(weights@ =~= choices0.subrange(0, k + 1).map_values(
                    |p: (Weight, Item)| p.0.spec_weight(),
                ));
            }
        }
        proof {
            assert(choices0.subrange(0, n) =~= choices0);
        }
        RandomPool { choices: items, weights }
    }

    /// A pool where every item is equally likely.
    pub fn equal(choices: Vec<Item>) -> (r: Self)
        ensures
            r.spec_choices() == choices@,
            r.spec_weights() == Seq::new(choices@.len(), |i: int| 1u64),
    {
        let mut weights: Vec<u64> = Vec::new();
        let mut i: usize = 0;
        while i < choices.len()
            invariant
                i <= choices@.len(),
                weights@ == Seq::new(i as nat, |t: int| 1u64),
            decreases choices@.len() - i,
        {
            weights.push(1);
            proof {
                assert(weights@ =~= Seq::new((i + 1) as nat, |t: int| 1u64));
            }
            i = i + 1;
        }
        RandomPool { weights, choices }
    }

    /// Draws one item at random, each as likely as its weight says; only an
    /// item with a positive weight can come out.  The pool's lists must be of
    /// one length and its total weight positive, as the original enforces by
    /// panicking on a draw from an empty or weightless pool.
    pub fn get(&self, state: &mut LuckState) -> (r: &Item)
        requires
            self.spec_choices().len() == self.spec_weights().len(),
            sum_weights(self.spec_weights()) > 0,
            sum_weights(self.spec_weights()) <= u64::MAX,
        ensures
            exists|i: int|
                0 <= i < self.spec_choices().len() && *r == self.spec_choices()[i]
                    && self.spec_weights()[i] > 0,
    {
        let i = chances(state, &self.weights, None);
        let r = &self.choices[i];
        proof {
            assert(*r == self.spec_choices()[i as int] && self.spec_weights()[i as int] > 0);
        }
        r
    }
}

} // verus!
