use vstd::prelude::*;
use rand::distributions::Distribution;
use rand::distributions::WeightedIndex;
use rand::rngs::StdRng;
use rand::Rng;
use crate::error::LottoError;
use crate::weights::total;
use crate::weights::WeightTable;

verus! {

/// rand's seedable generator, the random source of every draw.
#[verifier::external_type_specification]
#[verifier::external_body]
pub struct ExStdRng(StdRng);

/// rand's discrete distribution over indices, `WeightedIndex<u64>`. Its
/// bounds name traits of rand, so it is held here as an opaque box.
#[verifier::external_body]
pub struct WeightIndex {
    inner: WeightedIndex<u64>,
}

/// The weights that a `WeightedIndex` currently samples by, one per index.
pub uninterp spec fn index_weights(d: WeightIndex) -> Seq<u64>;

/// `WeightedIndex::new` on a list of weights whose sum fits in 64 bits. It
/// refuses an empty list and one whose weights are all zero; otherwise the
/// distribution it returns holds exactly the weights given.
#[verifier::external_body]
fn index_new(weights: &Vec<u64>) -> (r: Option<WeightIndex>)
    requires
        total(weights@) <= u64::MAX,
    ensures
        r.is_some() == (weights@.len() > 0 && total(weights@) > 0),
        r.is_some() ==> index_weights(r.unwrap()) == weights@,
{
    WeightedIndex::new(weights).ok().map(|inner| WeightIndex { inner })
}

/// `WeightedIndex::sample`: the index it returns is in range and has a
/// positive weight, whatever the generator yields.
#[verifier::external_body]
fn index_sample(d: &WeightIndex, rng: &mut StdRng) -> (i: usize)
    ensures
        i < index_weights(*d).len(),
        index_weights(*d)[i as int] > 0,
{
    d.inner.sample(rng)
}

/// `WeightedIndex::update_weights` with the single update "weight `i`
/// becomes zero", where another positive weight stays: the call succeeds
/// and changes that one weight.
#[verifier::external_body]
fn index_zero(d: &mut WeightIndex, i: usize)
    requires
        i < index_weights(*old(d)).len(),
        total(index_weights(*old(d)).update(i as int, 0)) > 0,
    ensures
        index_weights(*final(d)) == index_weights(*old(d)).update(i as int, 0),
{
    let _ = d.inner.update_weights(&[(i, &0u64)]);
}

/// `Rng::gen_range` on the inclusive range `lo..=hi`.
#[verifier::external_body]
pub(crate) fn uniform_between(rng: &mut StdRng, lo: u32, hi: u32) -> (r: u32)
    requires
        lo <= hi,
    ensures
        lo <= r <= hi,
{
    rng.gen_range(lo..=hi)
}

/// How many of the weights are positive.
pub open spec fn positive_count(ws: Seq<u64>) -> nat
    decreases ws.len(),
{
    if ws.len() == 0 {
        0
    } else {
        positive_count(ws.drop_last()) + if ws.last() > 0 { 1nat } else { 0nat }
    }
}

/// Setting one weight to zero takes it off the sum, and off the count of
/// positive weights if it was one.
pub proof fn lemma_zero_out(ws: Seq<u64>, i: int)
    requires
        0 <= i < ws.len(),
    ensures
        total(ws.update(i, 0)) == total(ws) - ws[i],
        positive_count(ws.update(i, 0)) == positive_count(ws) - if ws[i] > 0 { 1int } else { 0int },
    decreases ws.len(),
{
    let zs = ws.update(i, 0);
    if i == ws.len() - 1 {
        assert(zs.drop_last() =~= ws.drop_last());
    } else {
        assert(zs.drop_last() =~= ws.drop_last().update(i, 0));
        lemma_zero_out(ws.drop_last(), i);
    }
}

/// The sum is positive exactly when some weight is, it bounds each weight,
/// and no more weights are positive than there are.
pub proof fn lemma_total_positive(ws: Seq<u64>)
    ensures
        total(ws) > 0 <==> positive_count(ws) > 0,
        positive_count(ws) <= ws.len(),
        forall|i: int| 0 <= i < ws.len() ==> #[trigger] ws[i] <= total(ws),
        positive_count(ws) == 0 <==> forall|i: int| 0 <= i < ws.len() ==> #[trigger] ws[i] == 0,
    decreases ws.len(),
{
    if ws.len() > 0 {
        lemma_total_positive(ws.drop_last());
        assert forall|i: int| 0 <= i < ws.len() implies #[trigger] ws[i] <= total(ws) by {
            if i < ws.len() - 1 {
                assert(ws.drop_last()[i] == ws[i]);
            }
        }
        if positive_count(ws) == 0 {
            assert forall|i: int| 0 <= i < ws.len() implies #[trigger] ws[i] == 0 by {
                if i < ws.len() - 1 {
                    assert(ws.drop_last()[i] == ws[i]);
                }
            }
        }
        if forall|i: int| 0 <= i < ws.len() ==> #[trigger] ws[i] == 0 {
            assert forall|i: int| 0 <= i < ws.len() - 1 implies #[trigger] ws.drop_last()[i] == 0 by {
                assert(ws.drop_last()[i] == ws[i]);
            }
            assert(ws.last() == ws[ws.len() - 1]);
        }
    }
}

/// The state of one draw: the candidates, their current weights, and the
/// distribution that samples by those weights.
pub struct Sampler {
    candidates: Vec<u32>,
    weights: Vec<u64>,
    sum: u64,
    index: Option<WeightIndex>,
}

impl Sampler {
    /// Each candidate has a weight, and the distribution, which is there
    /// while a positive weight is left, samples by the current weights.
    pub closed spec fn wf(&self) -> bool {
        &&& self.candidates@.len() == self.weights@.len()
        &&& self.sum == total(self.weights@)
        &&& self.index.is_some() == (self.sum > 0)
        &&& self.index.is_some() ==> index_weights(self.index.unwrap()) == self.weights@
    }

    /// The candidates, by index.
    pub closed spec fn candidate_list(&self) -> Seq<u32> {
        self.candidates@
    }

    /// The current weights, by index.
    pub closed spec fn weight_list(&self) -> Seq<u64> {
        self.weights@
    }

    pub proof fn lemma_shape(&self)
        requires
            self.wf(),
        ensures
            self.candidate_list().len() == self.weight_list().len(),
            total(self.weight_list()) <= u64::MAX,
    {
    }

    /// A fresh state with the table's candidates and weights.
    pub fn new(table: &WeightTable) -> (s: Sampler)
        requires
            table.wf(),
        ensures
            s.wf(),
            s.candidate_list() == table.candidate_list(),
            s.weight_list() == table.weight_list(),
    {
        proof {
            table.lemma_shape();
        }
        let lo: u32 = table.lo();
        let src: &Vec<u64> = table.weights();
        let n: usize = src.len();
        let mut candidates: Vec<u32> = Vec::new();
        let mut weights: Vec<u64> = Vec::new();
        let mut sum: u64 = 0;
        let mut i: usize = 0;
        while i < n
            invariant
                0 <= i <= n,
                n == src@.len(),
                lo + n - 1 <= u32::MAX,
                total(src@) <= u64::MAX,
                candidates@.len() == i,
                weights@ == src@.take(i as int),
                forall|j: int| 0 <= j < i ==> #[trigger] candidates@[j] == lo + j,
                sum == total(weights@),
            decreases n - i,
        {
            proof {
                assert(src@.take(i + 1).drop_last() =~= src@.take(i as int));
                assert(src@.take(i + 1) =~= src@.take(i as int).push(src@[i as int]));
                lemma_total_grows(src@, i + 1);
            }
            let w: u64 = src[i];
            candidates.push((lo as u64 + i as u64) as u32);
            weights.push(w);
            sum = sum + w;
            i = i + 1;
        }
        proof {
            assert(src@.take(n as int) =~= src@);
            assert(candidates@ =~= table.candidate_list());
        }
        let index = index_new(&weights);
        Sampler { candidates, weights, sum, index }
    }

    /// How many candidates there are.
    pub fn len(&self) -> (n: usize)
        requires
            self.wf(),
        ensures
            n == self.candidate_list().len(),
            n == self.weight_list().len(),
    {
        self.candidates.len()
    }

    /// The candidate at `index`.
    pub fn candidate(&self, index: usize) -> (v: u32)
        requires
            self.wf(),
            index < self.candidate_list().len(),
        ensures
            v == self.candidate_list()[index as int],
    {
        self.candidates[index]
    }

    /// The index of a candidate whose current weight is positive, chosen by
    /// the distribution; `AllWeightsZero` exactly when no weight is positive.
    /// Where one candidate alone has a positive weight, its index is the
    /// result.
    pub fn sample(&self, rng: &mut StdRng) -> (r: Result<usize, LottoError>)
        requires
            self.wf(),
        ensures
            r is Ok <==> total(self.weight_list()) > 0,
            r is Ok <==> positive_count(self.weight_list()) > 0,
            r is Err ==> r == Err::<usize, LottoError>(LottoError::AllWeightsZero),
            r is Ok ==> r->Ok_0 < self.weight_list().len() && self.weight_list()[r->Ok_0 as int] > 0,
            forall|j: int| 0 <= j < self.weight_list().len() && self.weight_list()[j] > 0
                && (forall|i: int| 0 <= i < self.weight_list().len() && i != j ==> self.weight_list()[i] == 0)
                ==> r == Ok::<usize, LottoError>(j as usize),
    {
        proof {
            lemma_total_positive(self.weights@);
        }
        match &self.index {
            Some(d) => Ok(index_sample(d, rng)),
            None => Err(LottoError::AllWeightsZero),
        }
    }

    /// Sets the weight at `index` to zero, so that this state never yields
    /// that candidate again.
    pub fn exclude(&mut self, index: usize)
        requires
            old(self).wf(),
            index < old(self).weight_list().len(),
        ensures
            final(self).wf(),
            final(self).candidate_list() == old(self).candidate_list(),
            final(self).weight_list() == old(self).weight_list().update(index as int, 0),
    {
        proof {
            lemma_zero_out(self.weights@, index as int);
            lemma_total_positive(self.weights@);
        }
        let w: u64 = self.weights[index];
        let rest: u64 = self.sum - w;
        let taken = self.index.take();
        self.index = match taken {
            Some(mut d) => {
                if rest > 0 {
                    index_zero(&mut d, index);
                    Some(d)
                } else {
                    None
                }
            },
            None => None,
        };
        self.weights.set(index, 0);
        self.sum = rest;
    }
}

/// The sum of a list's first `m` weights is no more than the sum of all.
pub proof fn lemma_total_grows(ws: Seq<u64>, m: int)
    requires
        0 <= m <= ws.len(),
    ensures
        total(ws.take(m)) <= total(ws),
    decreases ws.len(),
{
    if m < ws.len() {
        assert(ws.drop_last().take(m) =~= ws.take(m));
        lemma_total_grows(ws.drop_last(), m);
    } else {
        assert(ws.take(m) =~= ws);
    }
}

} // verus!
