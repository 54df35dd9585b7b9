//! Weight rows: normalization to the `u32` unit and validation of a
//! caller's weight-set request.
use crate::arith::{
    lemma_div_bounds, lemma_div_ge_quot, lemma_div_le_quot, lemma_mul_nonneg, lemma_scaled_part_le,
};
use vstd::arithmetic::mul::lemma_mul_inequality;
use crate::error::Error;
use vstd::prelude::*;

verus! {

/// The weight that stands for a whole row: a normalized row sums to it,
/// up to rounding.
pub const WEIGHT_UNIT: u32 = 0xFFFF_FFFF;

/// The sum of a row of weights.
pub open spec fn sum32(s: Seq<u32>) -> int
    decreases s.len(),
{
    if s.len() == 0 {
        0
    } else {
        sum32(s.drop_last()) + s.last() as int
    }
}

/// Entry `i` of row `s` rescaled so that the row sums to `WEIGHT_UNIT`,
/// rounded down; an all-zero row stays as it is.
pub open spec fn normalized_at(s: Seq<u32>, i: int) -> int {
    if sum32(s) == 0 {
        s[i] as int
    } else {
        s[i] as int * (WEIGHT_UNIT as int) / sum32(s)
    }
}

/// The normalized row.
pub open spec fn normalize_spec(s: Seq<u32>) -> Seq<u32> {
    Seq::new(s.len(), |i: int| normalized_at(s, i) as u32)
}

/// Summing one more entry of a row.
pub proof fn lemma_sum32_step(s: Seq<u32>, k: int)
    requires
        0 <= k < s.len(),
    ensures
        sum32(s.subrange(0, k + 1)) == sum32(s.subrange(0, k)) + s[k] as int,
{
    assert(s.subrange(0, k + 1).drop_last() =~= s.subrange(0, k));
}

/// A row's sum is non-negative, at most `WEIGHT_UNIT` per entry, and at
/// least each entry.
pub proof fn lemma_sum32_bounds(s: Seq<u32>)
    ensures
        0 <= sum32(s) <= s.len() * (WEIGHT_UNIT as int),
        forall|i: int| 0 <= i < s.len() ==> s[i] as int <= sum32(s),
    decreases s.len(),
{
    if s.len() > 0 {
        lemma_sum32_bounds(s.drop_last());
        assert forall|i: int| 0 <= i < s.len() implies s[i] as int <= sum32(s) by {
            if i < s.len() - 1 {
                assert(s.drop_last()[i] == s[i]);
            }
        }
    }
}

/// A normalized entry fits in a `u32`.
pub proof fn lemma_normalized_fits(s: Seq<u32>, i: int)
    requires
        0 <= i < s.len(),
    ensures
        0 <= normalized_at(s, i) <= WEIGHT_UNIT as int,
        normalize_spec(s)[i] as int == normalized_at(s, i),
{
    lemma_sum32_bounds(s);
    if sum32(s) != 0 {
        lemma_scaled_part_le(s[i] as int, sum32(s), WEIGHT_UNIT as int);
    }
}

/// The sum of a row, in a type that cannot overflow.
pub fn sum_weights(weights: &Vec<u32>) -> (r: u128)
    ensures
        r as int == sum32(weights@),
{
    let mut total: u128 = 0;
    let mut i: usize = 0;
    while i < weights.len()
        invariant
            i <= weights.len(),
            total as int == sum32(weights@.subrange(0, i as int)),
            total as int <= i * (WEIGHT_UNIT as int),
        decreases weights.len() - i,
    {
        proof {
            lemma_sum32_step(weights@, i as int);
        }
        total = total + weights[i] as u128;
        i = i + 1;
    }
    proof {
        assert(weights@.subrange(0, i as int) =~= weights@);
    }
    total
}

/// Rescales a row so that it sums to `WEIGHT_UNIT` up to rounding down;
/// an all-zero row is returned as it is.
pub fn normalize_weights(weights: &Vec<u32>) -> (r: Vec<u32>)
    ensures
        r@ == normalize_spec(weights@),
{
    let total = sum_weights(weights);
    let mut r: Vec<u32> = Vec::new();
    let mut i: usize = 0;
    while i < weights.len()
        invariant
            i <= weights.len(),
            total as int == sum32(weights@),
            r@.len() == i,
            forall|k: int| 0 <= k < i ==> r@[k] == normalize_spec(weights@)[k],
        decreases weights.len() - i,
    {
        proof {
            lemma_normalized_fits(weights@, i as int);
        }
        let v: u32 = if total == 0 {
            weights[i]
        } else {
            ((weights[i] as u128) * (WEIGHT_UNIT as u128) / total) as u32
        };
        r.push(v);
        i = i + 1;
    }
    proof {
        assert(r@ =~= normalize_spec(weights@));
    }
    r
}

/// Running bounds on the rounding lost by the first `k` normalized entries.
proof fn lemma_normalized_prefix(w: Seq<u32>, k: int)
    requires
        0 <= k <= w.len(),
        sum32(w) > 0,
    ensures
        0 <= (WEIGHT_UNIT as int) * sum32(w.subrange(0, k)) - sum32(normalize_spec(w).subrange(0, k))
            * sum32(w),
        (WEIGHT_UNIT as int) * sum32(w.subrange(0, k)) - sum32(normalize_spec(w).subrange(0, k)) * sum32(w)
            <= k * (sum32(w) - 1),
    decreases k,
{
    let r = normalize_spec(w);
    let s = sum32(w);
    let m = WEIGHT_UNIT as int;
    if k > 0 {
        lemma_normalized_prefix(w, k - 1);
        lemma_sum32_step(w, k - 1);
        lemma_sum32_step(r, k - 1);
        lemma_normalized_fits(w, k - 1);
        lemma_sum32_bounds(w);
        let x = w[k - 1] as int * m;
        lemma_mul_nonneg(w[k - 1] as int, m);
        lemma_div_bounds(x, s);
        let q = r[k - 1] as int;
        assert(q == x / s);
        let a = sum32(w.subrange(0, k - 1));
        let b = sum32(r.subrange(0, k - 1));
        assert(m * (a + w[k - 1] as int) - (b + q) * s == (m * a - b * s) + (x - s * q)) by (nonlinear_arith)
            requires
                x == w[k - 1] as int * m,
        ;
        assert(k * (s - 1) == (k - 1) * (s - 1) + (s - 1)) by (nonlinear_arith);
    } else {
        assert(w.subrange(0, 0) =~= Seq::<u32>::empty());
        assert(r.subrange(0, 0) =~= Seq::<u32>::empty());
    }
}

/// A normalized non-zero row sums to at most `WEIGHT_UNIT`, and falls short of
/// it by less than its length.
pub proof fn lemma_normalized_sum(w: Seq<u32>)
    requires
        sum32(w) > 0,
    ensures
        (WEIGHT_UNIT as int) - w.len() < sum32(normalize_spec(w)) <= WEIGHT_UNIT as int,
{
    let n = w.len() as int;
    let s = sum32(w);
    let t = sum32(normalize_spec(w));
    let m = WEIGHT_UNIT as int;
    lemma_normalized_prefix(w, n);
    assert(w.subrange(0, n) =~= w);
    assert(normalize_spec(w).subrange(0, n) =~= normalize_spec(w));
    let d = m - t;
    assert(m * s - t * s == d * s) by (nonlinear_arith)
        requires
            d == m - t,
    ;
    assert(n * (s - 1) == n * s - n) by (nonlinear_arith);
    assert(n > 0);
    if d >= n {
        lemma_mul_inequality(n, d, s);
    }
    if d < 0 {
        assert(d * s < 0) by (nonlinear_arith)
            requires
                d < 0,
                s > 0,
        ;
    }
}

/// Normalizing a row that is already normalized moves no entry down, and
/// moves none up by more than the row's length.
pub proof fn lemma_normalize_idempotent(w: Seq<u32>)
    ensures
        normalize_spec(normalize_spec(w)).len() == w.len(),
        forall|i: int|
            0 <= i < w.len() ==> normalize_spec(w)[i] <= #[trigger] normalize_spec(normalize_spec(w))[i]
                && normalize_spec(normalize_spec(w))[i] as int <= normalize_spec(w)[i] + w.len(),
{
    let r = normalize_spec(w);
    let rr = normalize_spec(r);
    let m = WEIGHT_UNIT as int;
    lemma_sum32_bounds(w);
    if sum32(w) == 0 {
        assert forall|i: int| 0 <= i < w.len() implies r[i] == w[i] by {
            lemma_normalized_fits(w, i);
        }
        assert(r =~= w);
    } else {
        lemma_normalized_sum(w);
        let t = sum32(r);
        if t == 0 {
            assert forall|i: int| 0 <= i < w.len() implies rr[i] == r[i] by {
                lemma_normalized_fits(r, i);
            }
        } else {
            lemma_sum32_bounds(r);
            assert forall|i: int| 0 <= i < w.len() implies r[i] <= rr[i] && rr[i] as int <= r[i] + w.len() by {
                lemma_normalized_fits(r, i);
                let a = r[i] as int;
                assert(t * a <= a * m) by (nonlinear_arith)
                    requires
                        0 <= a,
                        t <= m,
                ;
                lemma_div_ge_quot(a * m, t, a);
                assert(a * m <= t * (a + (m - t))) by (nonlinear_arith)
                    requires
                        0 <= a <= t,
                        t <= m,
                ;
                lemma_mul_nonneg(a, m);
                lemma_div_le_quot(a * m, t, a + (m - t));
            }
        }
    }
}

/// Some uid appears twice.
pub open spec fn has_duplicates(uids: Seq<u32>) -> bool {
    exists|i: int, j: int| 0 <= i < j < uids.len() && uids[i] == uids[j]
}

/// Every uid is below `n`, the number of registered participants.
pub open spec fn uids_below(uids: Seq<u32>, n: int) -> bool {
    forall|i: int| 0 <= i < uids.len() ==> uids[i] < n
}

/// How many entries of a row are not zero.
pub open spec fn count_nonzero(w: Seq<u32>) -> int
    decreases w.len(),
{
    if w.len() == 0 {
        0
    } else {
        count_nonzero(w.drop_last()) + if w.last() != 0 {
            1int
        } else {
            0int
        }
    }
}

/// No entry is more than `ratio` times a non-zero entry.
pub open spec fn max_min_ratio_ok(n: Seq<u32>, ratio: int) -> bool {
    forall|i: int, j: int|
        0 <= i < n.len() && 0 <= j < n.len() && n[j] != 0 ==> n[i] as int <= n[j] as int * ratio
}

/// No entry is above `limit`.
pub open spec fn within_limit(n: Seq<u32>, limit: int) -> bool {
    forall|i: int| 0 <= i < n.len() ==> n[i] as int <= limit
}

/// The first rule that a weight-set request breaks, in the order in which
/// the rules are checked; `None` when it breaks none.
pub open spec fn weights_error(
    uids: Seq<u32>,
    weights: Seq<u32>,
    neuron_count: int,
    min_allowed: int,
    max_ratio: int,
    max_limit: int,
) -> Option<Error> {
    if uids.len() != weights.len() {
        Some(Error::WeightVecNotEqualSize)
    } else if has_duplicates(uids) {
        Some(Error::DuplicateUids)
    } else if !uids_below(uids, neuron_count) {
        Some(Error::InvalidUid)
    } else if count_nonzero(weights) < min_allowed {
        Some(Error::NotSettingEnoughWeights)
    } else if !max_min_ratio_ok(normalize_spec(weights), max_ratio) {
        Some(Error::MaxAllowedMaxMinRatioExceeded)
    } else if !within_limit(normalize_spec(weights), max_limit) {
        Some(Error::MaxWeightExceeded)
    } else {
        None
    }
}

/// The stored row of an accepted request: each uid with its normalized weight.
pub open spec fn weight_row(uids: Seq<u32>, weights: Seq<u32>) -> Seq<(u32, u32)> {
    Seq::new(uids.len(), |i: int| (uids[i], normalize_spec(weights)[i]))
}

/// Whether some uid appears twice.
pub fn has_duplicate_uids(uids: &Vec<u32>) -> (r: bool)
    ensures
        r == has_duplicates(uids@),
{
    let mut i: usize = 0;
    while i < uids.len()
        invariant
            i <= uids.len(),
            forall|a: int, b: int| 0 <= a < b < uids@.len() && a < i ==> uids@[a] != uids@[b],
        decreases uids.len() - i,
    {
        let mut j: usize = i + 1;
        while j < uids.len()
            invariant
                i < j <= uids.len(),
                forall|a: int, b: int| 0 <= a < b < uids@.len() && a < i ==> uids@[a] != uids@[b],
                forall|b: int| i < b < j ==> uids@[i as int] != uids@[b],
            decreases uids.len() - j,
        {
            if uids[i] == uids[j] {
                return true;
            }
            j = j + 1;
        }
        i = i + 1;
    }
    false
}

/// Whether every uid is below `neuron_count`.
pub fn uids_registered(uids: &Vec<u32>, neuron_count: u32) -> (r: bool)
    ensures
        r == uids_below(uids@, neuron_count as int),
{
    let mut i: usize = 0;
    while i < uids.len()
        invariant
            i <= uids.len(),
            forall|k: int| 0 <= k < i ==> uids@[k] < neuron_count,
        decreases uids.len() - i,
    {
        if uids[i] >= neuron_count {
            return false;
        }
        i = i + 1;
    }
    true
}

/// How many entries of a row are not zero.
pub fn nonzero_count(weights: &Vec<u32>) -> (r: usize)
    ensures
        r as int == count_nonzero(weights@),
{
    let mut c: usize = 0;
    let mut i: usize = 0;
    while i < weights.len()
        invariant
            i <= weights.len(),
            c as int == count_nonzero(weights@.subrange(0, i as int)),
            c <= i,
        decreases weights.len() - i,
    {
        assert(weights@.subrange(0, i + 1).drop_last() =~= weights@.subrange(0, i as int));
        if weights[i] != 0 {
            c = c + 1;
        }
        i = i + 1;
    }
    assert(weights@.subrange(0, i as int) =~= weights@);
    c
}

/// Whether no entry is more than `max_ratio` times a non-zero entry.
pub fn check_max_min_ratio(n: &Vec<u32>, max_ratio: u64) -> (r: bool)
    ensures
        r == max_min_ratio_ok(n@, max_ratio as int),
{
    if n.len() == 0 {
        return true;
    }
    let mut imax: usize = 0;
    let mut imin: usize = 0;
    let mut found: bool = false;
    let mut i: usize = 0;
    while i < n.len()
        invariant
            0 < n@.len(),
            i <= n.len(),
            imax < n.len(),
            imin < n.len(),
            forall|k: int| 0 <= k < i ==> n@[k] <= n@[imax as int],
            found ==> n@[imin as int] != 0,
            found ==> forall|k: int| 0 <= k < i && n@[k] != 0 ==> n@[imin as int] <= n@[k],
            !found ==> forall|k: int| 0 <= k < i ==> n@[k] == 0,
        decreases n.len() - i,
    {
        if n[i] > n[imax] {
            imax = i;
        }
        if n[i] != 0 && (!found || n[i] < n[imin]) {
            imin = i;
            found = true;
        }
        i = i + 1;
    }
    if !found {
        return true;
    }
    let lo = n[imin] as u128;
    let ratio = max_ratio as u128;
    assert(lo * ratio <= 0xFFFF_FFFF * 0xFFFF_FFFF_FFFF_FFFFu128) by (nonlinear_arith)
        requires
            lo <= 0xFFFF_FFFF,
            ratio <= 0xFFFF_FFFF_FFFF_FFFF,
    ;
    let ok = (n[imax] as u128) <= lo * ratio;
    proof {
        if ok {
            assert forall|a: int, b: int|
                0 <= a < n@.len() && 0 <= b < n@.len() && n@[b] != 0 implies n@[a] as int <= n@[b] as int
                * max_ratio as int by {
                lemma_mul_inequality(n@[imin as int] as int, n@[b] as int, max_ratio as int);
            }
        }
    }
    ok
}

/// Whether no entry is above `max_limit`.
pub fn check_max_weight(n: &Vec<u32>, max_limit: u32) -> (r: bool)
    ensures
        r == within_limit(n@, max_limit as int),
{
    let mut i: usize = 0;
    while i < n.len()
        invariant
            i <= n.len(),
            forall|k: int| 0 <= k < i ==> n@[k] <= max_limit,
        decreases n.len() - i,
    {
        if n[i] > max_limit {
            return false;
        }
        i = i + 1;
    }
    true
}

/// Validates a weight-set request and, when it breaks no rule, returns the
/// row to store: each uid with its normalized weight. The rules are checked
/// in a fixed order and the first one broken is reported.
pub fn check_weights(
    uids: &Vec<u32>,
    weights: &Vec<u32>,
    neuron_count: u32,
    min_allowed: u64,
    max_ratio: u64,
    max_limit: u32,
) -> (r: Result<Vec<(u32, u32)>, Error>)
    ensures
        r is Err <==> weights_error(
            uids@,
            weights@,
            neuron_count as int,
            min_allowed as int,
            max_ratio as int,
            max_limit as int,
        ) is Some,
        r matches Err(e) ==> weights_error(
            uids@,
            weights@,
            neuron_count as int,
            min_allowed as int,
            max_ratio as int,
            max_limit as int,
        ) == Some(e),
        r matches Ok(row) ==> row@ == weight_row(uids@, weights@),
{
    if uids.len() != weights.len() {
        return Err(Error::WeightVecNotEqualSize);
    }
    if has_duplicate_uids(uids) {
        return Err(Error::DuplicateUids);
    }
    if !uids_registered(uids, neuron_count) {
        return Err(Error::InvalidUid);
    }
    if (nonzero_count(weights) as u64) < min_allowed {
        return Err(Error::NotSettingEnoughWeights);
    }
    let normalized = normalize_weights(weights);
    if !check_max_min_ratio(&normalized, max_ratio) {
        return Err(Error::MaxAllowedMaxMinRatioExceeded);
    }
    if !check_max_weight(&normalized, max_limit) {
        return Err(Error::MaxWeightExceeded);
    }
    let mut row: Vec<(u32, u32)> = Vec::new();
    let mut i: usize = 0;
    while i < uids.len()
        invariant
            i <= uids.len(),
            uids@.len() == normalized@.len(),
            normalized@ == normalize_spec(weights@),
            row@.len() == i,
            forall|k: int| 0 <= k < i ==> row@[k] == weight_row(uids@, weights@)[k],
        decreases uids.len() - i,
    {
        row.push((uids[i], normalized[i]));
        i = i + 1;
    }
    assert(row@ =~= weight_row(uids@, weights@));
    Ok(row)
}

} // verus!
