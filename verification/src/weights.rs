use vstd::prelude::*;
use crate::error::LottoError;

verus! {

/// How an occurrence count becomes a sampling weight.
#[derive(Clone, Copy, Debug, PartialEq, Eq, Structural)]
pub enum Policy {
    /// Often drawn values get large weights.
    Direct,
    /// Rarely drawn values get large weights.
    Inverse,
}

/// An inclusive range of values.
#[derive(Clone, Copy, Debug, PartialEq, Eq, Structural)]
pub struct ValueRange {
    pub lo: u32,
    pub hi: u32,
}

/// How often `v` occurs in `obs`.
pub open spec fn count_of(obs: Seq<u32>, v: int) -> nat
    decreases obs.len(),
{
    if obs.len() == 0 {
        0
    } else {
        count_of(obs.drop_last(), v) + if obs.last() == v { 1nat } else { 0nat }
    }
}

/// The sum of the counts of the `n` values from `lo` on.
pub open spec fn count_sum(obs: Seq<u32>, lo: int, n: nat) -> nat
    decreases n,
{
    if n == 0 {
        0
    } else {
        count_sum(obs, lo, (n - 1) as nat) + count_of(obs, lo + n - 1)
    }
}

/// `count / total * scale`, rounded toward zero.
pub open spec fn direct_weight(count: nat, total: nat, scale: nat) -> nat {
    if total == 0 {
        0
    } else {
        (count * scale) / total
    }
}

/// `1 / (count / total) * scale`, rounded toward zero; 0 where it is undefined.
pub open spec fn inverse_weight(count: nat, total: nat, scale: nat) -> nat {
    if count == 0 {
        0
    } else {
        (total * scale) / count
    }
}

pub open spec fn policy_weight(policy: Policy, count: nat, total: nat, scale: nat) -> nat {
    match policy {
        Policy::Direct => direct_weight(count, total, scale),
        Policy::Inverse => inverse_weight(count, total, scale),
    }
}

/// The weight that the history `obs` gives the candidate `v`.
pub open spec fn weight_of(obs: Seq<u32>, v: int, policy: Policy, scale: nat) -> nat {
    policy_weight(policy, count_of(obs, v), obs.len(), scale)
}

/// The sum of the weights of the `n` candidates from `lo` on.
pub open spec fn weight_sum(obs: Seq<u32>, lo: int, n: nat, policy: Policy, scale: nat) -> nat
    decreases n,
{
    if n == 0 {
        0
    } else {
        weight_sum(obs, lo, (n - 1) as nat, policy, scale) + weight_of(obs, lo + n - 1, policy, scale)
    }
}

/// The sum of a list of weights.
pub open spec fn total(ws: Seq<u64>) -> nat
    decreases ws.len(),
{
    if ws.len() == 0 {
        0
    } else {
        total(ws.drop_last()) + ws.last() as nat
    }
}

/// Why no table can be made of these inputs, if anything stands against it.
pub open spec fn table_error(obs: Seq<u32>, lo: u32, hi: u32, policy: Policy, scale: u64) -> Option<LottoError> {
    if obs.len() == 0 {
        Some(LottoError::EmptyHistory)
    } else if lo > hi {
        Some(LottoError::InvalidRange)
    } else if policy == Policy::Inverse && exists|v: int| lo <= v <= hi && count_of(obs, v) == 0 {
        Some(LottoError::UndefinedWeight)
    } else if weight_sum(obs, lo as int, (hi - lo + 1) as nat, policy, scale as nat) > u64::MAX {
        Some(LottoError::WeightOverflow)
    } else {
        None
    }
}

/// The weights of the candidates `lo..=hi`, the one of `lo` first.
pub open spec fn table_weights(obs: Seq<u32>, lo: int, hi: int, policy: Policy, scale: nat) -> Seq<u64> {
    Seq::new((hi - lo + 1) as nat, |i: int| weight_of(obs, lo + i, policy, scale) as u64)
}

/// The smallest observed value, 0 where there is none.
pub open spec fn min_of(obs: Seq<u32>) -> u32
    decreases obs.len(),
{
    if obs.len() == 0 {
        0
    } else if obs.len() == 1 || obs.last() < min_of(obs.drop_last()) {
        obs.last()
    } else {
        min_of(obs.drop_last())
    }
}

/// The largest observed value, 0 where there is none.
pub open spec fn max_of(obs: Seq<u32>) -> u32
    decreases obs.len(),
{
    if obs.len() == 0 {
        0
    } else if obs.len() == 1 || obs.last() > max_of(obs.drop_last()) {
        obs.last()
    } else {
        max_of(obs.drop_last())
    }
}

/// `lo` and `hi` are observed, and every observation lies between them.
pub open spec fn is_bounds_of(obs: Seq<u32>, lo: u32, hi: u32) -> bool {
    &&& exists|i: int| 0 <= i < obs.len() && obs[i] == lo
    &&& exists|i: int| 0 <= i < obs.len() && obs[i] == hi
    &&& forall|i: int| 0 <= i < obs.len() ==> lo <= #[trigger] obs[i] <= hi
}

/// A weight for each value of a contiguous range of candidates.
#[derive(Debug)]
pub struct WeightTable {
    lo: u32,
    weights: Vec<u64>,
}

impl WeightTable {
    /// The table covers at least one candidate, ends within the value type,
    /// and its weights add up within 64 bits.
    pub closed spec fn wf(&self) -> bool {
        &&& self.weights@.len() >= 1
        &&& self.lo + self.weights@.len() - 1 <= u32::MAX
        &&& total(self.weights@) <= u64::MAX
    }

    pub closed spec fn spec_lo(&self) -> int {
        self.lo as int
    }

    pub closed spec fn spec_hi(&self) -> int {
        self.lo + self.weights@.len() - 1
    }

    /// The weights, the one of the lowest candidate first.
    pub closed spec fn weight_list(&self) -> Seq<u64> {
        self.weights@
    }

    /// The candidates, in ascending order.
    pub open spec fn candidate_list(&self) -> Seq<u32> {
        Seq::new(self.weight_list().len(), |i: int| (self.spec_lo() + i) as u32)
    }

    /// The table as a map from each candidate to its weight.
    pub open spec fn view(&self) -> Map<int, nat> {
        Map::new(
            |v: int| self.spec_lo() <= v <= self.spec_hi(),
            |v: int| self.weight_list()[v - self.spec_lo()] as nat,
        )
    }

    pub proof fn lemma_shape(&self)
        requires
            self.wf(),
        ensures
            self.weight_list().len() == self.spec_hi() - self.spec_lo() + 1,
            0 <= self.spec_lo() <= self.spec_hi() <= u32::MAX,
            total(self.weight_list()) <= u64::MAX,
    {
    }

    /// The lowest candidate.
    pub fn lo(&self) -> (r: u32)
        requires
            self.wf(),
        ensures
            r == self.spec_lo(),
    {
        self.lo
    }

    /// The highest candidate.
    pub fn hi(&self) -> (r: u32)
        requires
            self.wf(),
        ensures
            r == self.spec_hi(),
    {
        let n: usize = self.weights.len();
        (self.lo as u64 + (n as u64 - 1)) as u32
    }

    /// The weight of `v`, if `v` is a candidate.
    pub fn weight(&self, v: u32) -> (r: Option<u64>)
        requires
            self.wf(),
        ensures
            match r {
                Some(w) => self@.dom().contains(v as int) && self@[v as int] == w,
                None => !self@.dom().contains(v as int),
            },
    {
        if v < self.lo {
            None
        } else {
            let i: u32 = v - self.lo;
            if (i as usize) < self.weights.len() {
                Some(self.weights[i as usize])
            } else {
                None
            }
        }
    }

    /// The weights in candidate order.
    pub fn weights(&self) -> (r: &Vec<u64>)
        ensures
            r@ == self.weight_list(),
    {
        &self.weights
    }

    /// The table of the range `lo..=hi` under `policy`, from the history `obs`.
    pub fn with_domain(obs: &Vec<u32>, lo: u32, hi: u32, policy: Policy, scale: u64) -> (r: Result<WeightTable, LottoError>)
        ensures
            match r {
                Ok(t) => table_error(obs@, lo, hi, policy, scale) is None && is_table_of(t, obs@, lo, hi, policy, scale),
                Err(e) => table_error(obs@, lo, hi, policy, scale) == Some(e),
            },
    {
        if obs.len() == 0 {
            return Err(LottoError::EmptyHistory);
        }
        if lo > hi {
            return Err(LottoError::InvalidRange);
        }
        let n: u64 = (hi - lo) as u64 + 1;
        let mut counts: Vec<usize> = Vec::new();
        let mut i: u64 = 0;
        let mut missing: bool = false;
        while i < n
            invariant
                0 <= i <= n,
                n == hi - lo + 1,
                counts@.len() == i,
                forall|j: int| 0 <= j < i ==> #[trigger] counts@[j] == count_of(obs@, lo + j),
                missing <==> exists|v: int| lo <= v < lo + i && count_of(obs@, v) == 0,
            decreases n - i,
        {
            let c: usize = count_occurrences(obs, (lo as u64 + i) as u32);
            if c == 0 {
                missing = true;
            }
            counts.push(c);
            i = i + 1;
        }
        if missing && policy == Policy::Inverse {
            return Err(LottoError::UndefinedWeight);
        }
        let len: usize = obs.len();
        let mut weights: Vec<u64> = Vec::new();
        let mut sum: u64 = 0;
        let mut k: u64 = 0;
        while k < n
            invariant
                0 <= k <= n,
                n == hi - lo + 1,
                n <= usize::MAX + 1,
                len == obs@.len(),
                len > 0,
                counts@.len() == n,
                forall|j: int| 0 <= j < n ==> #[trigger] counts@[j] == count_of(obs@, lo + j),
                policy == Policy::Inverse ==> forall|v: int| lo <= v <= hi ==> count_of(obs@, v) != 0,
                weights@.len() == k,
                forall|j: int| 0 <= j < k ==> #[trigger] weights@[j] == weight_of(obs@, lo + j, policy, scale as nat),
                sum == total(weights@),
                sum == weight_sum(obs@, lo as int, k as nat, policy, scale as nat),
            decreases n - k,
        {
            let c: usize = counts[k as usize];
            proof {
                lemma_weight_sum_grows(obs@, lo as int, (k + 1) as nat, n as nat, policy, scale as nat);
            }
            let w: u64 = match quantize(policy, c, len, scale) {
                Ok(w) => w,
                Err(e) => {
                    return Err(e);
                },
            };
            let next: u64 = match sum.checked_add(w) {
                Some(s) => s,
                None => {
                    return Err(LottoError::WeightOverflow);
                },
            };
            proof {
                assert(weights@.push(w).drop_last() =~= weights@);
            }
            weights.push(w);
            sum = next;
            k = k + 1;
        }
        let t = WeightTable { lo, weights };
        proof {
            assert(t@.dom() =~= Set::new(|v: int| lo <= v <= hi));
            assert forall|v: int| lo <= v <= hi implies #[trigger] t@[v] == weight_of(obs@, v, policy, scale as nat) by {
                assert(t.weights@[v - lo] == weight_of(obs@, lo + (v - lo), policy, scale as nat));
            }
            assert(t.weights@ =~= table_weights(obs@, lo as int, hi as int, policy, scale as nat));
        }
        Ok(t)
    }

    /// The table of the range from the smallest to the largest observed
    /// value under `policy`.
    pub fn from_observations(obs: &Vec<u32>, policy: Policy, scale: u64) -> (r: Result<WeightTable, LottoError>)
        ensures
            match r {
                Ok(t) => {
                    &&& table_error(obs@, min_of(obs@), max_of(obs@), policy, scale) is None
                    &&& is_table_of(t, obs@, min_of(obs@), max_of(obs@), policy, scale)
                },
                Err(e) => table_error(obs@, min_of(obs@), max_of(obs@), policy, scale) == Some(e),
            },
    {
        match observed_bounds(obs) {
            None => Err(LottoError::EmptyHistory),
            Some(range) => WeightTable::with_domain(obs, range.lo, range.hi, policy, scale),
        }
    }
}

/// `t` covers exactly `lo..=hi`, and gives each candidate the weight that
/// the history `obs` gives it under `policy`.
pub open spec fn is_table_of(t: WeightTable, obs: Seq<u32>, lo: u32, hi: u32, policy: Policy, scale: u64) -> bool {
    &&& t.wf()
    &&& t.spec_lo() == lo
    &&& t.spec_hi() == hi
    &&& t@.dom() =~= Set::new(|v: int| lo <= v <= hi)
    &&& forall|v: int| lo <= v <= hi ==> #[trigger] t@[v] == weight_of(obs, v, policy, scale as nat)
    &&& t.weight_list() == table_weights(obs, lo as int, hi as int, policy, scale as nat)
}

/// The smallest and the largest value of `obs`, if it holds any.
pub fn observed_bounds(obs: &Vec<u32>) -> (r: Option<ValueRange>)
    ensures
        match r {
            Some(range) => obs@.len() > 0 && range.lo == min_of(obs@) && range.hi == max_of(obs@),
            None => obs@.len() == 0,
        },
{
    if obs.len() == 0 {
        return None;
    }
    let mut lo: u32 = obs[0];
    let mut hi: u32 = obs[0];
    let mut i: usize = 1;
    while i < obs.len()
        invariant
            1 <= i <= obs@.len(),
            lo == min_of(obs@.take(i as int)),
            hi == max_of(obs@.take(i as int)),
        decreases obs@.len() - i,
    {
        proof {
            assert(obs@.take(i + 1).drop_last() =~= obs@.take(i as int));
        }
        let x: u32 = obs[i];
        if x < lo {
            lo = x;
        }
        if x > hi {
            hi = x;
        }
        i = i + 1;
    }
    proof {
        assert(obs@.take(i as int) =~= obs@);
    }
    Some(ValueRange { lo, hi })
}

/// How often `v` occurs in `obs`.
pub fn count_occurrences(obs: &Vec<u32>, v: u32) -> (c: usize)
    ensures
        c == count_of(obs@, v as int),
{
    let mut c: usize = 0;
    let mut i: usize = 0;
    while i < obs.len()
        invariant
            0 <= i <= obs@.len(),
            c == count_of(obs@.take(i as int), v as int),
            c <= i,
        decreases obs@.len() - i,
    {
        proof {
            assert(obs@.take(i + 1).drop_last() =~= obs@.take(i as int));
        }
        if obs[i] == v {
            c = c + 1;
        }
        i = i + 1;
    }
    proof {
        assert(obs@.take(i as int) =~= obs@);
    }
    c
}

/// Why a count has no weight, if anything stands against it.
pub open spec fn quantize_error(policy: Policy, count: nat, len: nat, scale: nat) -> Option<LottoError> {
    if len == 0 {
        Some(LottoError::EmptyHistory)
    } else if policy == Policy::Inverse && count == 0 {
        Some(LottoError::UndefinedWeight)
    } else if policy_weight(policy, count, len, scale) > u64::MAX {
        Some(LottoError::WeightOverflow)
    } else {
        None
    }
}

/// The weight of a value that occurs `count` times among `len`
/// observations.
pub fn quantize(policy: Policy, count: usize, len: usize, scale: u64) -> (r: Result<u64, LottoError>)
    ensures
        match r {
            Ok(w) => {
                &&& quantize_error(policy, count as nat, len as nat, scale as nat) is None
                &&& w == policy_weight(policy, count as nat, len as nat, scale as nat)
            },
            Err(e) => quantize_error(policy, count as nat, len as nat, scale as nat) == Some(e),
        },
{
    if len == 0 {
        return Err(LottoError::EmptyHistory);
    }
    let (num, den): (u128, u128) = match policy {
        Policy::Direct => (count as u128, len as u128),
        Policy::Inverse => (len as u128, count as u128),
    };
    if den == 0 {
        return Err(LottoError::UndefinedWeight);
    }
    assert(num * (scale as u128) <= u128::MAX) by (nonlinear_arith)
        requires
            num <= 0xffff_ffff_ffff_ffff,
            scale <= 0xffff_ffff_ffff_ffff,
    ;
    let q: u128 = num * (scale as u128) / den;
    if q > u64::MAX as u128 {
        Err(LottoError::WeightOverflow)
    } else {
        Ok(q as u64)
    }
}

/// A range's weights add up to no less than those of its first part, and
/// to no less than the last weight of that part.
pub proof fn lemma_weight_sum_grows(obs: Seq<u32>, lo: int, m: nat, n: nat, policy: Policy, scale: nat)
    requires
        1 <= m <= n,
    ensures
        weight_sum(obs, lo, m, policy, scale) <= weight_sum(obs, lo, n, policy, scale),
        weight_of(obs, lo + m - 1, policy, scale) <= weight_sum(obs, lo, m, policy, scale),
    decreases n,
{
    if m < n {
        lemma_weight_sum_grows(obs, lo, m, (n - 1) as nat, policy, scale);
    }
}

/// Under the direct policy a value that was observed at least as often as
/// another has at least the other's weight.
pub proof fn law_direct_monotone(obs: Seq<u32>, u: int, v: int, scale: nat)
    requires
        count_of(obs, u) <= count_of(obs, v),
    ensures
        weight_of(obs, u, Policy::Direct, scale) <= weight_of(obs, v, Policy::Direct, scale),
{
    let a = count_of(obs, u);
    let b = count_of(obs, v);
    if obs.len() > 0 {
        assert(a * scale <= b * scale) by (nonlinear_arith)
            requires
                a <= b,
        ;
        vstd::arithmetic::div_mod::lemma_div_is_ordered((a * scale) as int, (b * scale) as int, obs.len() as int);
    }
}

/// Under the inverse policy, among observed values, one that was observed
/// at least as often as another has at most the other's weight.
pub proof fn law_inverse_antitone(obs: Seq<u32>, u: int, v: int, scale: nat)
    requires
        0 < count_of(obs, u) <= count_of(obs, v),
    ensures
        weight_of(obs, u, Policy::Inverse, scale) >= weight_of(obs, v, Policy::Inverse, scale),
{
    let a = count_of(obs, u);
    let b = count_of(obs, v);
    let x = obs.len() * scale;
    vstd::arithmetic::div_mod::lemma_div_is_ordered_by_denominator(x as int, a as int, b as int);
}

/// The smallest and the largest value of a history are both observed, and
/// every observation lies between them.
pub proof fn law_bounds(obs: Seq<u32>)
    requires
        obs.len() > 0,
    ensures
        is_bounds_of(obs, min_of(obs), max_of(obs)),
    decreases obs.len(),
{
    let last = obs.len() - 1;
    if obs.len() == 1 {
        assert(obs[0] == min_of(obs) && obs[0] == max_of(obs));
    } else {
        let front = obs.drop_last();
        law_bounds(front);
        let i = choose|i: int| 0 <= i < front.len() && front[i] == min_of(front);
        let j = choose|j: int| 0 <= j < front.len() && front[j] == max_of(front);
        assert(obs[i] == min_of(front) && obs[j] == max_of(front));
        assert(obs[last] == obs.last());
        assert forall|k: int| 0 <= k < obs.len() implies min_of(obs) <= #[trigger] obs[k] <= max_of(obs) by {
            if k < last {
                assert(front[k] == obs[k]);
            }
        }
    }
}

/// The counts of the values from the smallest to the largest observed one
/// add up to the number of observations.
pub proof fn law_observed_counts_add_up(obs: Seq<u32>)
    requires
        obs.len() > 0,
    ensures
        min_of(obs) <= max_of(obs),
        count_sum(obs, min_of(obs) as int, (max_of(obs) - min_of(obs) + 1) as nat) == obs.len(),
{
    law_bounds(obs);
    assert(min_of(obs) <= obs[0] <= max_of(obs));
    law_counts_add_up(obs, min_of(obs) as int, (max_of(obs) - min_of(obs) + 1) as nat);
}

/// Where every observation lies in the range of `n` values from `lo` on,
/// the counts of those values add up to the number of observations.
pub proof fn law_counts_add_up(obs: Seq<u32>, lo: int, n: nat)
    requires
        forall|i: int| 0 <= i < obs.len() ==> lo <= #[trigger] obs[i] < lo + n,
    ensures
        count_sum(obs, lo, n) == obs.len(),
    decreases obs.len(),
{
    lemma_count_sum_step(obs, lo, n);
    if obs.len() > 0 {
        assert(lo <= obs[obs.len() - 1] < lo + n);
        assert forall|i: int| 0 <= i < obs.drop_last().len() implies lo <= #[trigger] obs.drop_last()[i] < lo + n by {
            assert(obs.drop_last()[i] == obs[i]);
        }
        law_counts_add_up(obs.drop_last(), lo, n);
    }
}

/// One more observation adds one to the sum of the counts of a range if it
/// lies in the range, and nothing if it does not.
proof fn lemma_count_sum_step(obs: Seq<u32>, lo: int, n: nat)
    ensures
        obs.len() == 0 ==> count_sum(obs, lo, n) == 0,
        obs.len() > 0 ==> count_sum(obs, lo, n) == count_sum(obs.drop_last(), lo, n) + if lo <= obs.last() < lo + n {
            1nat
        } else {
            0nat
        },
    decreases n,
{
    if n > 0 {
        lemma_count_sum_step(obs, lo, (n - 1) as nat);
    }
}

} // verus!
