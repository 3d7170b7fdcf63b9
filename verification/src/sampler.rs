//! Weighted sampling of tenancy lengths from an empirical table.
//!
//! Weights are whole numbers: a table of relative frequencies is scaled to
//! integers before it reaches the library. The random choice itself is made by
//! the `rand` crate; what this module proves rests on the few facts about
//! `rand` that the trusted items below state.

use rand::distributions::Distribution;
use rand::distributions::WeightedError;
use rand::distributions::WeightedIndex;
use rand::rngs::ThreadRng;
use vstd::prelude::*;

verus! {

/// `rand::rngs::ThreadRng`, the handle to the thread's random generator. Opaque.
#[verifier::external_type_specification]
#[verifier::external_body]
pub struct ExThreadRng(ThreadRng);

/// A `rand::distributions::WeightedIndex<i64>`, the categorical distribution
/// over the indices of a list of weights. Opaque: what it holds is named by
/// `index_weights`.
#[verifier::external_body]
pub struct WeightTable {
    inner: WeightedIndex<i64>,
}

/// `rand::distributions::WeightedError`, the reason `WeightedIndex::new` gives
/// for refusing a list of weights. Opaque.
#[verifier::external_type_specification]
#[verifier::external_body]
pub struct ExWeightedError(WeightedError);

/// The weights a `WeightedIndex` was built from, in their order.
pub uninterp spec fn index_weights(index: WeightTable) -> Seq<i64>;

/// The sum of all weights.
pub open spec fn weight_sum(weights: Seq<i64>) -> int
    decreases weights.len(),
{
    if weights.len() == 0 {
        0
    } else {
        weight_sum(weights.drop_last()) + weights.last()
    }
}

/// Whether any weight is negative.
pub open spec fn has_negative(weights: Seq<i64>) -> bool {
    exists|i: int| 0 <= i < weights.len() && weights[i] < 0
}

/// Weights one can sample by: at least one, none negative, not all zero, and a
/// sum that fits in 64 bits.
pub open spec fn valid_weights(weights: Seq<i64>) -> bool {
    &&& weights.len() > 0
    &&& !has_negative(weights)
    &&& 0 < weight_sum(weights) <= i64::MAX
}

/// `rand::thread_rng`: hands out the thread's generator. Nothing is claimed of
/// it. It panics where the operating system cannot seed the generator.
pub assume_specification[ rand::thread_rng ]() -> (random: ThreadRng);

/// `WeightedIndex::<i64>::new` on a list of weights. The crate documents that it
/// fails only on an empty list, a negative weight or a total of zero; its
/// source adds the weights up in `i64`, so the total has to fit. On weights
/// that are valid in this sense it succeeds, and the distribution it returns is
/// one over exactly these weights.
#[verifier::external_body]
fn build_index(weights: &Vec<i64>) -> (built: Result<WeightTable, WeightedError>)
    requires
        valid_weights(weights@),
    ensures
        built is Ok,
        built matches Ok(index) ==> index_weights(index) == weights@,
{
    match WeightedIndex::new(weights) {
        Ok(inner) => Ok(WeightTable { inner }),
        Err(reason) => Err(reason),
    }
}

/// `Distribution::sample` of a `WeightedIndex<i64>`: draws an index with a chance
/// proportional to its weight. Which index comes out is up to the generator;
/// what holds of every draw from a distribution over valid weights is that the
/// index is one of the list and that its weight is not zero.
#[verifier::external_body]
fn draw_index(index: &WeightTable, random: &mut ThreadRng) -> (chosen: usize)
    requires
        valid_weights(index_weights(*index)),
    ensures
        chosen < index_weights(*index).len(),
        index_weights(*index)[chosen as int] > 0,
{
    index.inner.sample(random)
}

/// Why a table cannot be sampled from.
#[derive(Clone, Copy, Debug, PartialEq, Eq, Structural)]
pub enum SamplerError {
    /// The table is empty, holds a negative weight, or holds only zeros.
    InvalidDistribution,
    /// The weights are fine one by one, but their sum does not fit in 64 bits.
    WeightOverflow,
}

/// The values of a table, in its order.
pub open spec fn values_of(table: Seq<(u64, i64)>) -> Seq<u64> {
    Seq::new(table.len(), |i: int| table[i].0)
}

/// The weights of a table, in its order.
pub open spec fn weights_of(table: Seq<(u64, i64)>) -> Seq<i64> {
    Seq::new(table.len(), |i: int| table[i].1)
}

/// Whether `value` stands among `values` with a weight that is not zero.
pub open spec fn yields(values: Seq<u64>, weights: Seq<i64>, value: u64) -> bool {
    exists|i: int| 0 <= i < values.len() && values[i] == value && weights[i] > 0
}

/// A sum of `n` weights, none negative, is at least 0 and at most `n` times the
/// largest weight.
pub proof fn lemma_weight_sum_bound(weights: Seq<i64>)
    requires
        !has_negative(weights),
    ensures
        0 <= weight_sum(weights) <= weights.len() * i64::MAX,
    decreases weights.len(),
{
    if weights.len() > 0 {
        let front = weights.drop_last();
        assert forall|i: int| 0 <= i < front.len() implies front[i] >= 0 by {
            assert(front[i] == weights[i]);
        }
        lemma_weight_sum_bound(front);
        assert((weights.len() - 1) * i64::MAX + i64::MAX == weights.len() * i64::MAX)
            by (nonlinear_arith);
    }
}

/// Draws tenancy lengths from a table of (value, weight) pairs, each value with
/// a chance proportional to its weight.
pub struct Sampler {
    random: ThreadRng,
    distribution: WeightTable,
    source: Vec<u64>,
}

impl Sampler {
    /// The invariant of the sampler: one weight for each value, and weights
    /// one can sample by.
    pub closed spec fn wf(&self) -> bool {
        &&& self.source@.len() == index_weights(self.distribution).len()
        &&& valid_weights(index_weights(self.distribution))
    }

    /// The values the sampler chooses among, in the order of the table.
    pub closed spec fn values(&self) -> Seq<u64> {
        self.source@
    }

    /// The weight of each value, in the same order.
    pub closed spec fn weights(&self) -> Seq<i64> {
        index_weights(self.distribution)
    }

    /// Whether `value` can come out of a draw, see `yields`.
    pub open spec fn can_yield(&self, value: u64) -> bool {
        yields(self.values(), self.weights(), value)
    }

    /// Builds a sampler over the table `t`. An empty table, a negative weight
    /// or weights that are all zero are refused as `InvalidDistribution`;
    /// weights whose sum exceeds `i64::MAX` as `WeightOverflow`.
    pub fn new(t: Vec<(u64, i64)>) -> (made: Result<Sampler, SamplerError>)
        ensures
            made is Ok <==> valid_weights(weights_of(t@)),
            match made {
                Ok(sampler) => {
                    &&& sampler.wf()
                    &&& valid_weights(weights_of(t@))
                    &&& sampler.values() == values_of(t@)
                    &&& sampler.weights() == weights_of(t@)
                },
                Err(SamplerError::InvalidDistribution) => {
                    ||| t.len() == 0
                    ||| has_negative(weights_of(t@))
                    ||| weight_sum(weights_of(t@)) == 0
                },
                Err(SamplerError::WeightOverflow) => {
                    &&& !has_negative(weights_of(t@))
                    &&& weight_sum(weights_of(t@)) > i64::MAX
                },
            },
    {
        let ghost all = weights_of(t@);
        let mut source: Vec<u64> = Vec::new();
        let mut weights: Vec<i64> = Vec::new();
        let mut sum: u128 = 0;
        let mut index: usize = 0;
        while index < t.len()
            invariant
                index <= t.len(),
                all == weights_of(t@),
                source@ == values_of(t@).take(index as int),
                weights@ == all.take(index as int),
                !has_negative(weights@),
                sum == weight_sum(weights@),
            decreases t.len() - index,
        {
            let value: u64 = t[index].0;
            let weight: i64 = t[index].1;
            if weight < 0 {
                assert(all[index as int] < 0);
                return Err(SamplerError::InvalidDistribution);
            }
            let ghost before = weights@;
            source.push(value);
            weights.push(weight);
            proof {
                assert(source@ =~= values_of(t@).take(index + 1));
                assert(weights@ =~= all.take(index + 1));
                assert(weights@.drop_last() =~= before);
                assert forall|i: int| 0 <= i < weights@.len() implies weights@[i] >= 0 by {
                    if i < before.len() {
                        assert(before[i] == weights@[i]);
                    }
                }
                lemma_weight_sum_bound(weights@);
                assert(weights@.len() * i64::MAX <= u128::MAX) by (nonlinear_arith)
                    requires
                        weights@.len() <= u64::MAX,
                ;
            }
            sum = sum + weight as u128;
            index = index + 1;
        }
        proof {
            assert(all.take(index as int) =~= all);
            assert(values_of(t@).take(index as int) =~= values_of(t@));
        }
        if sum == 0 {
            return Err(SamplerError::InvalidDistribution);
        }
        if sum > i64::MAX as u128 {
            return Err(SamplerError::WeightOverflow);
        }
        match build_index(&weights) {
            Ok(distribution) => Ok(Sampler { random: rand::thread_rng(), distribution, source }),
            Err(_) => Err(SamplerError::InvalidDistribution),
        }
    }

    /// The value at position `index` of the table, if there is one.
    pub fn value_at(&self, index: usize) -> (value: Option<u64>)
        ensures
            index < self.values().len() ==> value == Some(self.values()[index as int]),
            index >= self.values().len() ==> value is None,
    {
        if index < self.source.len() {
            Some(self.source[index])
        } else {
            None
        }
    }

    /// Draws one value. Only the generator moves on: the table stays as it is,
    /// and what comes out is a value of the table whose weight is not zero.
    pub fn sample(&mut self) -> (value: u64)
        requires
            old(self).wf(),
        ensures
            final(self).wf(),
            old(self).can_yield(value),
            final(self).values() == old(self).values(),
            final(self).weights() == old(self).weights(),
    {
        let chosen: usize = draw_index(&self.distribution, &mut self.random);
        let value: u64 = self.source[chosen];
        assert(old(self).values()[chosen as int] == value && old(self).weights()[chosen as int]
            > 0);
        value
    }
}

} // verus!
