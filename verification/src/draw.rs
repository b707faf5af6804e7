use vstd::prelude::*;
use rand::rngs::StdRng;
use crate::error::LottoError;
use crate::sampler::lemma_total_positive;
use crate::sampler::lemma_zero_out;
use crate::sampler::positive_count;
use crate::sampler::uniform_between;
use crate::sampler::Sampler;
use crate::weights::ValueRange;
use crate::weights::WeightTable;

verus! {

/// What one draw is made of.
#[derive(Clone, Copy, Debug)]
pub struct DrawConfig {
    /// How many distinct numbers a draw holds.
    pub draw_size: usize,
    /// How many draws to make.
    pub draws: usize,
    /// The inclusive range of the bonus number, if there is one.
    pub bonus: Option<ValueRange>,
}

/// One finished draw.
#[derive(Debug)]
pub struct DrawResult {
    /// The drawn numbers, ascending.
    pub numbers: Vec<u32>,
    /// The bonus number, where one is configured.
    pub bonus: Option<u32>,
}

pub open spec fn strictly_ascending(s: Seq<u32>) -> bool {
    forall|i: int, j: int| 0 <= i < j < s.len() ==> s[i] < s[j]
}

/// `s` holds `k` candidates of the table, each with a positive weight
/// there, in ascending order and none twice.
pub open spec fn valid_numbers(table: WeightTable, k: nat, s: Seq<u32>) -> bool {
    &&& s.len() == k
    &&& strictly_ascending(s)
    &&& forall|i: int| 0 <= i < s.len() ==> table@.dom().contains(#[trigger] s[i] as int) && table@[s[i] as int] > 0
}

/// `b` is a bonus number as `range` asks for one.
pub open spec fn valid_bonus(range: Option<ValueRange>, b: Option<u32>) -> bool {
    match range {
        Some(range) => b is Some && range.lo <= b->0 <= range.hi,
        None => b is None,
    }
}

/// Why no draws can be made, if anything stands against it.
pub open spec fn draw_error(weights: Seq<u64>, config: DrawConfig) -> Option<LottoError> {
    if config.bonus is Some && config.bonus->0.lo > config.bonus->0.hi {
        Some(LottoError::InvalidRange)
    } else if config.draws > 0 && config.draw_size > positive_count(weights) {
        Some(LottoError::AllWeightsZero)
    } else {
        None
    }
}

/// Puts `x` at its place in the ascending list `v`.
pub fn insert_sorted(v: &mut Vec<u32>, x: u32)
    requires
        strictly_ascending(old(v)@),
        forall|i: int| 0 <= i < old(v)@.len() ==> old(v)@[i] != x,
    ensures
        strictly_ascending(final(v)@),
        exists|p: int| 0 <= p <= old(v)@.len() && final(v)@ == old(v)@.insert(p, x),
{
    let mut p: usize = 0;
    while p < v.len() && v[p] < x
        invariant
            0 <= p <= v@.len(),
            v@ == old(v)@,
            forall|i: int| 0 <= i < p ==> v@[i] < x,
        decreases v@.len() - p,
    {
        p = p + 1;
    }
    v.insert(p, x);
    proof {
        let a = old(v)@;
        assert(final(v)@ == a.insert(p as int, x));
        assert forall|i: int, j: int| 0 <= i < j < v@.len() implies v@[i] < v@[j] by {
            if i < p && j > p {
                assert(a[i] < a[j - 1] || i == j - 1);
            }
            if i >= p && j > p {
                if i > p {
                    assert(a[i - 1] < a[j - 1]);
                } else {
                    assert(a[p as int] <= a[j - 1]);
                    assert(a[p as int] != x);
                }
            }
        }
    }
}

/// Draws `k` distinct candidates from a fresh sampling state over `table`
/// and returns them in ascending order. That works exactly when the table
/// has `k` candidates with a positive weight.
pub fn draw_numbers(table: &WeightTable, k: usize, rng: &mut StdRng) -> (r: Result<Vec<u32>, LottoError>)
    requires
        table.wf(),
    ensures
        r is Ok <==> k <= positive_count(table.weight_list()),
        r is Ok ==> valid_numbers(*table, k as nat, r->Ok_0@),
        r is Err ==> r->Err_0 == LottoError::AllWeightsZero,
{
    let mut sampler = Sampler::new(table);
    let mut picked: Vec<u32> = Vec::new();
    let ghost lo = table.spec_lo();
    let ghost tw = table.weight_list();
    proof {
        table.lemma_shape();
    }
    let mut n: usize = 0;
    while n < k
        invariant
            0 <= n <= k,
            table.wf(),
            lo == table.spec_lo(),
            tw == table.weight_list(),
            tw.len() == table.spec_hi() - lo + 1,
            0 <= lo <= table.spec_hi() <= u32::MAX,
            sampler.wf(),
            sampler.candidate_list() == table.candidate_list(),
            sampler.weight_list().len() == tw.len(),
            picked@.len() == n,
            strictly_ascending(picked@),
            forall|i: int| 0 <= i < picked@.len() ==> lo <= #[trigger] picked@[i] < lo + tw.len()
                && tw[picked@[i] - lo] > 0 && sampler.weight_list()[picked@[i] - lo] == 0,
            positive_count(sampler.weight_list()) + n == positive_count(tw),
            forall|j: int| 0 <= j < tw.len() ==> #[trigger] sampler.weight_list()[j] == tw[j]
                || sampler.weight_list()[j] == 0,
        decreases k - n,
    {
        let idx: usize = match sampler.sample(rng) {
            Ok(idx) => idx,
            Err(e) => {
                return Err(e);
            },
        };
        let v: u32 = sampler.candidate(idx);
        let ghost before = sampler.weight_list();
        let ghost prev = picked@;
        proof {
            lemma_zero_out(before, idx as int);
            assert(table.candidate_list()[idx as int] == (lo + idx) as u32);
            assert(v == lo + idx);
            assert(before[idx as int] == tw[idx as int]);
        }
        sampler.exclude(idx);
        insert_sorted(&mut picked, v);
        proof {
            let p = choose|p: int| 0 <= p <= prev.len() && picked@ == prev.insert(p, v);
            assert forall|i: int| 0 <= i < picked@.len() implies lo <= #[trigger] picked@[i] < lo + tw.len()
                && tw[picked@[i] - lo] > 0 && sampler.weight_list()[picked@[i] - lo] == 0 by {
                if i < p {
                    assert(picked@[i] == prev[i]);
                } else if i > p {
                    assert(picked@[i] == prev[i - 1]);
                }
            }
        }
        n = n + 1;
    }
    proof {
        lemma_total_positive(sampler.weight_list());
        assert forall|i: int| 0 <= i < picked@.len() implies table@.dom().contains(#[trigger] picked@[i] as int)
            && table@[picked@[i] as int] > 0 by {
            assert(lo <= picked@[i] < lo + tw.len());
        }
    }
    Ok(picked)
}

/// One draw: the numbers, and the bonus number where `config` asks for one.
pub fn draw(table: &WeightTable, config: &DrawConfig, rng: &mut StdRng) -> (r: Result<DrawResult, LottoError>)
    requires
        table.wf(),
    ensures
        match r {
            Ok(d) => {
                &&& draw_error(table.weight_list(), DrawConfig { draws: 1, ..*config }) is None
                &&& valid_numbers(*table, config.draw_size as nat, d.numbers@)
                &&& valid_bonus(config.bonus, d.bonus)
            },
            Err(e) => draw_error(table.weight_list(), DrawConfig { draws: 1, ..*config }) == Some(e),
        },
{
    if let Some(range) = config.bonus {
        if range.lo > range.hi {
            return Err(LottoError::InvalidRange);
        }
    }
    let numbers = match draw_numbers(table, config.draw_size, rng) {
        Ok(numbers) => numbers,
        Err(e) => {
            return Err(e);
        },
    };
    let bonus = match config.bonus {
        Some(range) => Some(uniform_between(rng, range.lo, range.hi)),
        None => None,
    };
    Ok(DrawResult { numbers, bonus })
}

/// `config.draws` draws, in the order in which they were made. Each starts
/// from the table's own weights, so all of them succeed or the first fails.
pub fn generate(table: &WeightTable, config: &DrawConfig, rng: &mut StdRng) -> (r: Result<Vec<DrawResult>, LottoError>)
    requires
        table.wf(),
    ensures
        match r {
            Ok(ds) => {
                &&& draw_error(table.weight_list(), *config) is None
                &&& ds@.len() == config.draws
                &&& forall|i: int| 0 <= i < ds@.len() ==> valid_numbers(*table, config.draw_size as nat, (#[trigger] ds@[i]).numbers@)
                &&& forall|i: int| 0 <= i < ds@.len() ==> valid_bonus(config.bonus, (#[trigger] ds@[i]).bonus)
            },
            Err(e) => draw_error(table.weight_list(), *config) == Some(e),
        },
{
    if let Some(range) = config.bonus {
        if range.lo > range.hi {
            return Err(LottoError::InvalidRange);
        }
    }
    let mut out: Vec<DrawResult> = Vec::new();
    let mut m: usize = 0;
    while m < config.draws
        invariant
            0 <= m <= config.draws,
            table.wf(),
            config.bonus is Some ==> config.bonus->0.lo <= config.bonus->0.hi,
            m > 0 ==> config.draw_size <= positive_count(table.weight_list()),
            out@.len() == m,
            forall|i: int| 0 <= i < out@.len() ==> valid_numbers(*table, config.draw_size as nat, (#[trigger] out@[i]).numbers@),
            forall|i: int| 0 <= i < out@.len() ==> valid_bonus(config.bonus, (#[trigger] out@[i]).bonus),
        decreases config.draws - m,
    {
        let d = match draw(table, config, rng) {
            Ok(d) => d,
            Err(e) => {
                return Err(e);
            },
        };
        out.push(d);
        m = m + 1;
    }
    Ok(out)
}

} // verus!
