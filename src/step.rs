//! The per-round consensus pipeline: stake weights, rank and trust,
//! consensus, incentive, bonds, dividends and emission.
use crate::arith::{lemma_div_bounds, lemma_mul_nonneg, lemma_scaled_part_le};
use crate::fixed::{div_bits, exp_of, fx_div, fx_exp, one, FIXED_ONE};
use crate::sums::{
    lemma_sum128_update, lemma_sum_bounded_below, lemma_sum_ge_term, lemma_sum_scaled_floor, sum128, sum64, sum_to,
};
use crate::engine::row_weights;
use crate::sums::lemma_sum_scaled_diff;
use crate::weights::{normalize_spec, normalize_weights, sum32, WEIGHT_UNIT};
use vstd::prelude::*;
use vstd::set_lib::{lemma_int_range, lemma_len_subset, set_int_range};

verus! {

/// The share of the total stake held by participant `j`, in fixed point;
/// with no stake at all every participant holds an equal share.
pub open spec fn stake_weight_spec(stake: Seq<u64>, j: int) -> int {
    if sum64(stake) == 0 {
        one() / (stake.len() as int)
    } else {
        div_bits(stake[j] as int, sum64(stake))
    }
}

/// The total stake.
pub fn total_of(stake: &Vec<u64>) -> (r: u128)
    requires
        stake@.len() <= u32::MAX,
    ensures
        r as int == sum64(stake@),
{
    let mut total: u128 = 0;
    let mut i: usize = 0;
    while i < stake.len()
        invariant
            i <= stake@.len() <= u32::MAX,
            total as int == sum_to(|k: int| stake@[k] as int, i as int),
            total as int <= i * (u64::MAX as int),
        decreases stake.len() - i,
    {
        assert((i + 1) * (u64::MAX as int) == i * (u64::MAX as int) + u64::MAX) by (nonlinear_arith);
        assert(i * (u64::MAX as int) <= u32::MAX * (u64::MAX as int)) by (nonlinear_arith)
            requires
                i <= u32::MAX,
        ;
        total = total + stake[i] as u128;
        i = i + 1;
    }
    total
}

/// Each participant's share of the total stake, in fixed point.
pub fn stake_weights(stake: &Vec<u64>) -> (r: Vec<u128>)
    requires
        stake@.len() <= u32::MAX,
    ensures
        r@.len() == stake@.len(),
        forall|j: int| 0 <= j < stake@.len() ==> r@[j] as int == stake_weight_spec(stake@, j),
        forall|j: int| 0 <= j < stake@.len() ==> r@[j] as int <= one(),
{
    let total = total_of(stake);
    let n = stake.len();
    let mut r: Vec<u128> = Vec::new();
    let mut j: usize = 0;
    while j < n
        invariant
            n == stake@.len() <= u32::MAX,
            total as int == sum64(stake@),
            j <= n,
            r@.len() == j,
            forall|k: int| 0 <= k < j ==> r@[k] as int == stake_weight_spec(stake@, k),
            forall|k: int| 0 <= k < j ==> r@[k] as int <= one(),
        decreases n - j,
    {
        let w: u128 = if total == 0 {
            proof {
                lemma_div_bounds(one(), n as int);
                assert((n as int) * (one() / (n as int)) >= one() / (n as int)) by (nonlinear_arith)
                    requires
                        n >= 1,
                        one() / (n as int) >= 0,
                ;
            }
            FIXED_ONE / (n as u128)
        } else {
            proof {
                lemma_sum_ge_term(|k: int| stake@[k] as int, n as int, j as int);
                lemma_scaled_part_le(stake@[j as int] as int, total as int, one());
            }
            match fx_div(stake[j] as u128, total) {
                Some(q) => q,
                None => {
                    proof {
                        assert(false);
                    }
                    0
                },
            }
        };
        r.push(w);
        j = j + 1;
    }
    r
}

/// Stake weights add up to at most one, and fall short of one by less than
/// one unit of the last place per participant.
pub proof fn lemma_stake_weights_sum(stake: Seq<u64>)
    requires
        stake.len() > 0,
    ensures
        one() - stake.len() < sum_to(|j: int| stake_weight_spec(stake, j), stake.len() as int) <= one(),
{
    let n = stake.len() as int;
    let t = sum64(stake);
    let f = |j: int| stake_weight_spec(stake, j);
    lemma_sum_bounded_below(|k: int| stake[k] as int, n);
    if t == 0 {
        let q = one() / n;
        crate::sums::lemma_sum_ext(f, |j: int| q, n);
        lemma_sum_const(q, n);
        lemma_div_bounds(one(), n);
    } else {
        let a = |k: int| stake[k] as int;
        lemma_sum_scaled_floor(a, one(), t, n);
        crate::sums::lemma_sum_ext(f, |k: int| a(k) * one() / t, n);
        let s = sum_to(f, n);
        assert(one() * t == t * one()) by (nonlinear_arith);
        assert(s <= one()) by (nonlinear_arith)
            requires
                t * s <= one() * t,
                t > 0,
        ;
        let d = one() - s;
        assert(one() * t - t * s == d * t) by (nonlinear_arith)
            requires
                d == one() - s,
        ;
        assert(n * (t - 1) == n * t - n) by (nonlinear_arith);
        if d >= n {
            vstd::arithmetic::mul::lemma_mul_inequality(n, d, t);
        }
    }
}

/// A sum of `n` copies of `q`.
proof fn lemma_sum_const(q: int, n: int)
    requires
        n >= 0,
    ensures
        sum_to(|j: int| q, n) == n * q,
    decreases n,
{
    if n > 0 {
        lemma_sum_const(q, n - 1);
        assert((n - 1) * q + q == n * q) by (nonlinear_arith);
    } else {
        assert(n * q == 0) by (nonlinear_arith)
            requires
                n == 0,
        ;
    }
}

/// What a weight `w` from a rater of stake weight `sw` adds to the rank of
/// its target.
pub open spec fn gain(sw: int, w: int) -> int {
    sw * w / (WEIGHT_UNIT as int)
}

/// Rank that the first `kk` entries of a rater's row give to `i`.
pub open spec fn row_rank(sw: int, row: Seq<(u32, u32)>, i: int, kk: int) -> int {
    sum_to(|k: int| if row[k].0 as int == i { gain(sw, row[k].1 as int) } else { 0 }, kk)
}

/// Trust that the first `kk` entries of a rater's row give to `i`: the
/// rater's stake weight for each non-zero weight on `i`.
pub open spec fn row_trust(sw: int, row: Seq<(u32, u32)>, i: int, kk: int) -> int {
    sum_to(|k: int| if row[k].0 as int == i && row[k].1 > 0 { sw } else { 0 }, kk)
}

/// Rank of `i` from the rows of the first `jj` raters.
pub open spec fn rank_spec(sw: Seq<u128>, w: Seq<Seq<(u32, u32)>>, i: int, jj: int) -> int {
    sum_to(|j: int| row_rank(sw[j] as int, w[j], i, w[j].len() as int), jj)
}

/// Trust of `i` from the rows of the first `jj` raters.
pub open spec fn trust_spec(sw: Seq<u128>, w: Seq<Seq<(u32, u32)>>, i: int, jj: int) -> int {
    sum_to(|j: int| row_trust(sw[j] as int, w[j], i, w[j].len() as int), jj)
}

/// All the rank that the first `kk` entries of a rater's row hand out.
pub open spec fn row_total(sw: int, row: Seq<(u32, u32)>, kk: int) -> int {
    sum_to(|k: int| gain(sw, row[k].1 as int), kk)
}

/// All the rank that the first `jj` raters hand out.
pub open spec fn rank_total(sw: Seq<u128>, w: Seq<Seq<(u32, u32)>>, jj: int) -> int {
    sum_to(|j: int| row_total(sw[j] as int, w[j], w[j].len() as int), jj)
}

/// The rows of a weight matrix as sequences.
pub open spec fn rows_view(w: Seq<Vec<(u32, u32)>>) -> Seq<Seq<(u32, u32)>> {
    Seq::new(w.len(), |j: int| w[j]@)
}

/// A sparse row with its weights normalized and its targets kept.
pub open spec fn normalized_row(row: Seq<(u32, u32)>) -> Seq<(u32, u32)> {
    Seq::new(row.len(), |k: int| (row[k].0, normalize_spec(row_weights(row))[k]))
}

/// Every row of a weight matrix normalized.
pub open spec fn normalized_rows(w: Seq<Vec<(u32, u32)>>) -> Seq<Seq<(u32, u32)>> {
    Seq::new(w.len(), |j: int| normalized_row(w[j]@))
}

/// A sparse row with its weights normalized: the weight normalizer of a
/// round.
pub fn normalize_row(row: &Vec<(u32, u32)>) -> (r: Vec<(u32, u32)>)
    ensures
        r@ == normalized_row(row@),
        sum32(row_weights(r@)) <= WEIGHT_UNIT as int,
{
    let mut ws: Vec<u32> = Vec::new();
    let mut k: usize = 0;
    while k < row.len()
        invariant
            k <= row@.len(),
            ws@ == row_weights(row@).subrange(0, k as int),
        decreases row.len() - k,
    {
        ws.push(row[k].1);
        k = k + 1;
    }
    assert(ws@ =~= row_weights(row@));
    let nw = normalize_weights(&ws);
    let mut r: Vec<(u32, u32)> = Vec::new();
    let mut j: usize = 0;
    while j < row.len()
        invariant
            j <= row@.len(),
            nw@ == normalize_spec(row_weights(row@)),
            r@.len() == j,
            forall|q: int| 0 <= q < j ==> r@[q] == normalized_row(row@)[q],
        decreases row.len() - j,
    {
        r.push((row[j].0, nw[j]));
        j = j + 1;
    }
    assert(r@ =~= normalized_row(row@));
    proof {
        assert(row_weights(r@) =~= normalize_spec(row_weights(row@)));
        crate::weights::lemma_sum32_bounds(row_weights(row@));
        if sum32(row_weights(row@)) > 0 {
            crate::weights::lemma_normalized_sum(row_weights(row@));
        } else {
            assert forall|q: int| 0 <= q < row@.len() implies normalize_spec(row_weights(row@))[q] == row_weights(
                row@,
            )[q] by {
                crate::weights::lemma_normalized_fits(row_weights(row@), q);
            }
            assert(normalize_spec(row_weights(row@)) =~= row_weights(row@));
        }
    }
    r
}

/// The rows of a weight matrix: targets below `n` and distinct within a row.
pub open spec fn rows_ok(w: Seq<Seq<(u32, u32)>>, n: int) -> bool {
    forall|j: int|
        0 <= j < w.len() ==> {
            &&& forall|k: int| 0 <= k < (#[trigger] w[j]).len() ==> w[j][k].0 < n
            &&& forall|a: int, b: int| 0 <= a < b < w[j].len() ==> w[j][a].0 != w[j][b].0
        }
}

/// A row with distinct targets below `n` has at most `n` entries.
pub proof fn lemma_row_len(row: Seq<(u32, u32)>, n: int)
    requires
        n >= 0,
        forall|k: int| 0 <= k < row.len() ==> row[k].0 < n,
        forall|a: int, b: int| 0 <= a < b < row.len() ==> row[a].0 != row[b].0,
    ensures
        row.len() <= n,
{
    let t = Seq::new(row.len(), |k: int| row[k].0 as int);
    assert(t.no_duplicates()) by {
        assert forall|a: int, b: int| 0 <= a < t.len() && 0 <= b < t.len() && a != b implies t[a] != t[b] by {
            if a < b {
                assert(row[a].0 != row[b].0);
            } else {
                assert(row[b].0 != row[a].0);
            }
        }
    }
    t.unique_seq_to_set();
    assert(t.to_set().subset_of(set_int_range(0, n)));
    lemma_int_range(0, n);
    lemma_len_subset(t.to_set(), set_int_range(0, n));
}

/// Rank and trust of every participant, in one pass over the sparse rows:
/// each entry `(i, w)` of rater `j` adds `gain(sw[j], w)` to the rank of `i`
/// and, when `w` is not zero, `sw[j]` to its trust. All the rank handed out
/// lands on some participant.
pub fn compute_rank_trust(sw: &Vec<u128>, w: &Vec<Vec<(u32, u32)>>) -> (r: (Vec<u128>, Vec<u128>))
    requires
        sw@.len() == w@.len(),
        w@.len() < u32::MAX,
        forall|j: int| 0 <= j < sw@.len() ==> sw@[j] as int <= one(),
        rows_ok(rows_view(w@), w@.len() as int),
    ensures
        r.0@.len() == w@.len(),
        r.1@.len() == w@.len(),
        forall|i: int| 0 <= i < w@.len() ==> r.0@[i] as int == rank_spec(sw@, rows_view(w@), i, w@.len() as int),
        forall|i: int| 0 <= i < w@.len() ==> r.1@[i] as int == trust_spec(sw@, rows_view(w@), i, w@.len() as int),
        sum128(r.0@) == rank_total(sw@, rows_view(w@), w@.len() as int),
{
    let n = w.len();
    let ghost ni = n as int;
    let mut rank: Vec<u128> = Vec::new();
    let mut trust: Vec<u128> = Vec::new();
    let mut z: usize = 0;
    while z < n
        invariant
            z <= n,
            rank@.len() == z,
            trust@.len() == z,
            forall|i: int| 0 <= i < z ==> rank@[i] == 0 && trust@[i] == 0,
            sum_to(|i: int| rank@[i] as int, z as int) == 0,
        decreases n - z,
    {
        let ghost prev = rank@;
        rank.push(0);
        trust.push(0);
        proof {
            crate::sums::lemma_sum_ext(|i: int| rank@[i] as int, |i: int| prev[i] as int, z as int);
        }
        z = z + 1;
    }
    let mut j: usize = 0;
    while j < n
        invariant
            n == w@.len() == sw@.len(),
            ni == n,
            n < u32::MAX,
            forall|q: int| 0 <= q < sw@.len() ==> sw@[q] as int <= one(),
            rows_ok(rows_view(w@), ni),
            j <= n,
            rank@.len() == n,
            trust@.len() == n,
            forall|i: int| 0 <= i < ni ==> rank@[i] as int == rank_spec(sw@, rows_view(w@), i, j as int),
            forall|i: int| 0 <= i < ni ==> trust@[i] as int == trust_spec(sw@, rows_view(w@), i, j as int),
            forall|i: int| 0 <= i < ni ==> rank@[i] as int <= j * ni * one(),
            forall|i: int| 0 <= i < ni ==> trust@[i] as int <= j * ni * one(),
            sum128(rank@) == rank_total(sw@, rows_view(w@), j as int),
        decreases n - j,
    {
        let row = &w[j];
        let ghost rowv = row@;
        let s = sw[j];
        proof {
            assert(rows_view(w@)[j as int] == rowv);
            lemma_row_len(rowv, ni);
        }
        let mut k: usize = 0;
        while k < row.len()
            invariant
                forall|q: int| 0 <= q < rowv.len() ==> rowv[q].0 < ni,
                n == w@.len() == sw@.len(),
                ni == n,
                n < u32::MAX,
                j < n,
                rowv == w@[j as int]@,
                rowv == row@,
                rowv.len() <= ni,
                s == sw@[j as int],
                s as int <= one(),
                rows_ok(rows_view(w@), ni),
                k <= rowv.len(),
                rank@.len() == n,
                trust@.len() == n,
                forall|i: int|
                    0 <= i < ni ==> rank@[i] as int == rank_spec(sw@, rows_view(w@), i, j as int) + row_rank(
                        s as int,
                        rowv,
                        i,
                        k as int,
                    ),
                forall|i: int|
                    0 <= i < ni ==> trust@[i] as int == trust_spec(sw@, rows_view(w@), i, j as int) + row_trust(
                        s as int,
                        rowv,
                        i,
                        k as int,
                    ),
                forall|i: int| 0 <= i < ni ==> rank@[i] as int <= (j * ni + k) * one(),
                forall|i: int| 0 <= i < ni ==> trust@[i] as int <= (j * ni + k) * one(),
                sum128(rank@) == rank_total(sw@, rows_view(w@), j as int) + row_total(s as int, rowv, k as int),
            decreases rowv.len() - k,
        {
            let (t, wv) = row[k];
            assert(rowv[k as int].0 < ni);
            let tu = t as usize;
            proof {
                lemma_scaled_part_le(wv as int, WEIGHT_UNIT as int, s as int);
                assert(s as int * wv as int == wv as int * s as int) by (nonlinear_arith);
                assert(s as int * wv as int <= one() * 0xFFFF_FFFF) by (nonlinear_arith)
                    requires
                        s as int <= one(),
                        wv as int <= 0xFFFF_FFFF,
                ;
                assert((j * ni + k + 1) * one() <= ni * ni * one()) by (nonlinear_arith)
                    requires
                        j + 1 <= ni,
                        k + 1 <= ni,
                        ni >= 0,
                        one() > 0,
                ;
                assert(ni * ni * one() < u128::MAX) by (nonlinear_arith)
                    requires
                        ni < u32::MAX,
                        one() == 0x1_0000_0000_0000_0000,
                        ni >= 0,
                ;
                assert((j * ni + k) * one() + one() == (j * ni + k + 1) * one()) by (nonlinear_arith);
                assert((j * ni + k) * one() <= (j * ni + k + 1) * one()) by (nonlinear_arith)
                    requires
                        one() > 0,
                ;
            }
            let g: u128 = s * (wv as u128) / (WEIGHT_UNIT as u128);
            let ghost old_rank = rank@;
            let ghost old_trust = trust@;
            let nr = rank[tu] + g;
            rank.set(tu, nr);
            if wv > 0 {
                let nt = trust[tu] + s;
                trust.set(tu, nt);
            }
            proof {
                lemma_sum128_update(old_rank, tu as int, nr, ni);
            }
            k = k + 1;
        }
        proof {
            assert forall|i: int| 0 <= i < ni implies rank@[i] as int <= (j + 1) * ni * one() by {
                assert((j * ni + rowv.len()) * one() <= (j + 1) * ni * one()) by (nonlinear_arith)
                    requires
                        rowv.len() <= ni,
                        one() > 0,
                ;
            }
            assert forall|i: int| 0 <= i < ni implies trust@[i] as int <= (j + 1) * ni * one() by {
                assert((j * ni + rowv.len()) * one() <= (j + 1) * ni * one()) by (nonlinear_arith)
                    requires
                        rowv.len() <= ni,
                        one() > 0,
                ;
            }
        }
        j = j + 1;
    }
    (rank, trust)
}

/// The weights of a sparse row summed by index.
pub proof fn lemma_sum32_as_sum_to(row: Seq<(u32, u32)>, kk: int)
    requires
        0 <= kk <= row.len(),
    ensures
        sum32(row_weights(row).subrange(0, kk)) == sum_to(|k: int| row[k].1 as int, kk),
    decreases kk,
{
    if kk > 0 {
        lemma_sum32_as_sum_to(row, kk - 1);
        crate::weights::lemma_sum32_step(row_weights(row), kk - 1);
    } else {
        assert(row_weights(row).subrange(0, 0) =~= Seq::<u32>::empty());
    }
}

/// What one rater's row hands out, against its stake weight times its
/// weight sum: never more, and less by under one unit per entry.
pub proof fn lemma_row_total_bounds(sw: int, row: Seq<(u32, u32)>)
    requires
        sw >= 0,
    ensures
        (WEIGHT_UNIT as int) * row_total(sw, row, row.len() as int) <= sw * sum32(row_weights(row)),
        sw * sum32(row_weights(row)) - (WEIGHT_UNIT as int) * row_total(sw, row, row.len() as int) <= row.len()
            * (WEIGHT_UNIT as int - 1),
{
    let n = row.len() as int;
    let a = |k: int| row[k].1 as int;
    lemma_sum_scaled_floor(a, sw, WEIGHT_UNIT as int, n);
    assert forall|k: int| 0 <= k < n implies #[trigger] a(k) * sw / (WEIGHT_UNIT as int) == gain(
        sw,
        row[k].1 as int,
    ) by {
        let x = row[k].1 as int;
        assert(a(k) == x);
        assert(x * sw == sw * x) by (nonlinear_arith);
    }
    crate::sums::lemma_sum_ext(
        |k: int| a(k) * sw / (WEIGHT_UNIT as int),
        |k: int| gain(sw, row[k].1 as int),
        n,
    );
    lemma_sum32_as_sum_to(row, n);
    assert(row_weights(row).subrange(0, n) =~= row_weights(row));
}

/// Rank conservation. When every rater's row is normalized (non-empty, its
/// weights summing to at most `WEIGHT_UNIT` and to more than `WEIGHT_UNIT`
/// less its length), the rank handed out, which is the rank that lands on
/// participants, is at most the total stake weight, and falls short of it
/// by at most `len * (sw + WEIGHT_UNIT) / WEIGHT_UNIT` per row.
pub proof fn lemma_rank_conservation(sw: Seq<u128>, w: Seq<Seq<(u32, u32)>>)
    requires
        sw.len() == w.len(),
        forall|j: int| 0 <= j < w.len() ==> sum32(row_weights(#[trigger] w[j])) <= WEIGHT_UNIT as int,
    ensures
        rank_total(sw, w, w.len() as int) <= sum128(sw),
        (forall|j: int|
            0 <= j < w.len() ==> sum32(row_weights(#[trigger] w[j])) + w[j].len() > WEIGHT_UNIT as int) ==> (
        WEIGHT_UNIT as int) * (sum128(sw) - rank_total(sw, w, w.len() as int)) <= sum_to(
            |j: int| w[j].len() * (sw[j] + WEIGHT_UNIT as int),
            w.len() as int,
        ),
{
    let n = w.len() as int;
    let m = WEIGHT_UNIT as int;
    let rt = |j: int| row_total(sw[j] as int, w[j], w[j].len() as int);
    let sf = |j: int| sw[j] as int;
    let lower = forall|j: int|
        0 <= j < w.len() ==> sum32(row_weights(#[trigger] w[j])) + w[j].len() > WEIGHT_UNIT as int;
    assert forall|j: int| 0 <= j < n implies #[trigger] rt(j) <= sf(j) && (lower ==> m * sf(j) - m * rt(j)
        <= w[j].len() * (sw[j] + m)) by {
        let row = w[j];
        let s = sw[j] as int;
        let t = sum32(row_weights(row));
        let l = row.len() as int;
        lemma_row_total_bounds(s, row);
        crate::weights::lemma_sum32_bounds(row_weights(row));
        assert(s * t <= s * m) by (nonlinear_arith)
            requires
                s >= 0,
                t <= m,
        ;
        assert(rt(j) <= s) by (nonlinear_arith)
            requires
                m * rt(j) <= s * m,
                m > 0,
        ;
        if lower {
            assert(s * m - s * t <= s * l) by (nonlinear_arith)
                requires
                    s >= 0,
                    t + l > m,
            ;
        }
        assert(l * (m - 1) <= l * m) by (nonlinear_arith)
            requires
                l >= 0,
        ;
        assert(l * (s + m) == s * l + l * m) by (nonlinear_arith);
    }
    crate::sums::lemma_sum_le(rt, sf, n);
    if lower {
        lemma_sum_scaled_diff(sf, rt, m, n);
        crate::sums::lemma_sum_le(
            |j: int| m * sf(j) - m * rt(j),
            |j: int| w[j].len() * (sw[j] + m),
            n,
        );
        assert(m * (sum_to(sf, n) - sum_to(rt, n)) == m * sum_to(sf, n) - m * sum_to(rt, n))
            by (nonlinear_arith);
    }
}

/// The sigmoid of `rho * (trust - kappa)`, `1 / (1 + e^-(rho * (trust - kappa)))`,
/// in fixed point. Trust and `kappa` are fixed point, `rho` an integer
/// steepness. It is clipped to one or zero where the exponent is beyond the
/// fixed-point range or its exponential overflows.
pub open spec fn consensus_spec(trust: int, rho: int, kappa: int) -> int {
    let x = rho * (trust - kappa);
    if x > i128::MAX {
        one()
    } else if x < -i128::MAX {
        0
    } else {
        match exp_of((-x) as i128) {
            None => if x > 0 {
                one()
            } else {
                0
            },
            Some(e) => if e < 0 {
                one()
            } else {
                div_bits(one(), one() + e)
            },
        }
    }
}

/// The consensus of a participant of trust `trust`.
pub fn consensus_of(trust: u128, rho: u64, kappa: u64) -> (r: u128)
    ensures
        r as int == consensus_spec(trust as int, rho as int, kappa as int),
        r as int <= one(),
{
    let lim: u128 = 0x7FFF_FFFF_FFFF_FFFF_FFFF_FFFF_FFFF_FFFF;
    let pos = trust >= kappa as u128;
    let d: u128 = if pos {
        trust - kappa as u128
    } else {
        kappa as u128 - trust
    };
    let ghost x = rho as int * (trust as int - kappa as int);
    proof {
        if pos {
            assert(x == rho as int * d as int);
        } else {
            assert(x == -(rho as int * d as int)) by (nonlinear_arith)
                requires
                    x == rho as int * (trust as int - kappa as int),
                    d as int == kappa as int - trust as int,
            ;
        }
        lemma_mul_nonneg(rho as int, d as int);
    }
    let mag: u128 = match (rho as u128).checked_mul(d) {
        Some(m) => m,
        None => {
            return if pos {
                FIXED_ONE
            } else {
                0
            };
        },
    };
    if mag > lim {
        return if pos {
            FIXED_ONE
        } else {
            0
        };
    }
    let neg_x: i128 = if pos {
        -(mag as i128)
    } else {
        mag as i128
    };
    match fx_exp(neg_x) {
        None => {
            if pos && mag > 0 {
                FIXED_ONE
            } else {
                0
            }
        },
        Some(e) => {
            if e < 0 {
                FIXED_ONE
            } else {
                let denom: u128 = FIXED_ONE + e as u128;
                proof {
                    assert(one() * one() <= denom as int * one()) by (nonlinear_arith)
                        requires
                            denom as int >= one(),
                            one() > 0,
                    ;
                    crate::arith::lemma_div_le_quot(one() * one(), denom as int, one());
                }
                match fx_div(FIXED_ONE, denom) {
                    Some(q) => q,
                    None => {
                        proof {
                            assert(false);
                        }
                        0
                    },
                }
            }
        },
    }
}

/// One when `j` comes before `i` in the order of increasing trust, ties
/// going to the lower uid.
pub open spec fn precedes(t: Seq<u128>, j: int, i: int) -> int {
    if t[j] < t[i] || (t[j] == t[i] && j < i) {
        1
    } else {
        0
    }
}

/// How many of the first `jj` participants come before `i` in the order of
/// increasing trust.
pub open spec fn trust_position(t: Seq<u128>, i: int, jj: int) -> int {
    sum_to(|j: int| precedes(t, j, i), jj)
}

/// How many participants the bottom `q` percent of `n` is, rounded down; a
/// quantile above 100 counts as 100.
pub open spec fn excluded_count(n: int, q: int) -> int {
    n * (if q > 100 {
        100
    } else {
        q
    }) / 100
}

/// Whether participant `i` is among the bottom `q` percent by trust.
pub open spec fn is_excluded(t: Seq<u128>, q: int, i: int) -> bool {
    trust_position(t, i, t.len() as int) < excluded_count(t.len() as int, q)
}

/// Which participants are among the bottom `q` percent by trust: those are
/// left out of the incentive.
pub fn exclusion_mask(trust: &Vec<u128>, q: u8) -> (r: Vec<bool>)
    requires
        trust@.len() < u32::MAX,
    ensures
        r@.len() == trust@.len(),
        forall|i: int| 0 <= i < trust@.len() ==> r@[i] == is_excluded(trust@, q as int, i),
{
    let n = trust.len();
    let qq: u64 = if q > 100 {
        100
    } else {
        q as u64
    };
    assert(n as int * qq as int <= 0xFFFF_FFFF * 100) by (nonlinear_arith)
        requires
            n < 0xFFFF_FFFF,
            qq <= 100,
    ;
    let cut: u64 = (n as u64) * qq / 100;
    let mut r: Vec<bool> = Vec::new();
    let mut i: usize = 0;
    while i < n
        invariant
            n == trust@.len() < u32::MAX,
            cut as int == excluded_count(n as int, q as int),
            i <= n,
            r@.len() == i,
            forall|k: int| 0 <= k < i ==> r@[k] == is_excluded(trust@, q as int, k),
        decreases n - i,
    {
        let mut pos: u64 = 0;
        let mut j: usize = 0;
        while j < n
            invariant
                n == trust@.len() < u32::MAX,
                i < n,
                j <= n,
                pos as int == trust_position(trust@, i as int, j as int),
                pos <= j,
            decreases n - j,
        {
            if trust[j] < trust[i] || (trust[j] == trust[i] && j < i) {
                pos = pos + 1;
            }
            j = j + 1;
        }
        r.push(pos < cut);
        i = i + 1;
    }
    r
}

/// Entry `i` of `x` as a fixed-point share of the sum of `x`; all zero when
/// the sum is zero.
pub open spec fn share_spec(x: Seq<u128>, i: int) -> int {
    if sum128(x) == 0 {
        0
    } else {
        div_bits(x[i] as int, sum128(x))
    }
}

/// The largest entry that `normalize_fixed` takes.
pub open spec fn entry_cap() -> int {
    0x1_0000_0000_0000_0000_0000_0000
}

/// Rescales `x` so that it sums to one in fixed point, rounding each entry
/// down; an all-zero vector stays zero.
pub fn normalize_fixed(x: &Vec<u128>) -> (r: Vec<u128>)
    requires
        x@.len() < u32::MAX,
        forall|i: int| 0 <= i < x@.len() ==> x@[i] as int <= entry_cap(),
    ensures
        r@.len() == x@.len(),
        forall|i: int| 0 <= i < x@.len() ==> r@[i] as int == share_spec(x@, i),
        forall|i: int| 0 <= i < x@.len() ==> r@[i] as int <= one(),
{
    let n = x.len();
    let mut total: u128 = 0;
    let mut i: usize = 0;
    while i < n
        invariant
            n == x@.len() < u32::MAX,
            forall|k: int| 0 <= k < x@.len() ==> x@[k] as int <= entry_cap(),
            i <= n,
            total as int == sum_to(|k: int| x@[k] as int, i as int),
            total as int <= i * entry_cap(),
        decreases n - i,
    {
        assert((i + 1) * entry_cap() == i * entry_cap() + entry_cap()) by (nonlinear_arith);
        assert((i + 1) * entry_cap() <= u32::MAX * entry_cap()) by (nonlinear_arith)
            requires
                i + 1 <= u32::MAX,
        ;
        total = total + x[i];
        i = i + 1;
    }
    let mut r: Vec<u128> = Vec::new();
    let mut j: usize = 0;
    while j < n
        invariant
            n == x@.len() < u32::MAX,
            total as int == sum128(x@),
            j <= n,
            r@.len() == j,
            forall|k: int| 0 <= k < j ==> r@[k] as int == share_spec(x@, k),
            forall|k: int| 0 <= k < j ==> r@[k] as int <= one(),
        decreases n - j,
    {
        let v: u128 = if total == 0 {
            0
        } else {
            proof {
                lemma_sum_ge_term(|k: int| x@[k] as int, n as int, j as int);
                lemma_scaled_part_le(x@[j as int] as int, total as int, one());
            }
            match fx_div(x[j], total) {
                Some(q) => q,
                None => {
                    proof {
                        assert(false);
                    }
                    0
                },
            }
        };
        r.push(v);
        j = j + 1;
    }
    r
}

/// Shares of a vector add up to at most one.
pub proof fn lemma_shares_sum(x: Seq<u128>)
    ensures
        sum_to(|i: int| share_spec(x, i), x.len() as int) <= one(),
{
    let n = x.len() as int;
    let t = sum128(x);
    let f = |i: int| share_spec(x, i);
    if t == 0 {
        crate::sums::lemma_sum_ext(f, |i: int| 0int, n);
        lemma_sum_const(0, n);
    } else {
        let a = |k: int| x[k] as int;
        lemma_sum_bounded_below(a, n);
        lemma_sum_scaled_floor(a, one(), t, n);
        crate::sums::lemma_sum_ext(f, |k: int| a(k) * one() / t, n);
        assert(one() * t == t * one()) by (nonlinear_arith);
        assert(sum_to(f, n) <= one()) by (nonlinear_arith)
            requires
                t * sum_to(f, n) <= one() * t,
                t > 0,
        ;
    }
}

/// Parts per million: the scale of the self-ownership fraction and of the
/// bonds moving-average factor.
pub const PPM: u64 = 1_000_000;

/// A parts-per-million fraction, held at one whole.
pub open spec fn ppm_fraction(x: int) -> int {
    if x > PPM {
        PPM as int
    } else {
        x
    }
}

/// A sum of a weighted pair of terms is the weighted pair of the sums.
pub proof fn lemma_sum_linear(f: spec_fn(int) -> int, g: spec_fn(int) -> int, a: int, b: int, n: int)
    ensures
        sum_to(|i: int| a * f(i) + b * g(i), n) == a * sum_to(f, n) + b * sum_to(g, n),
    decreases n,
{
    if n > 0 {
        lemma_sum_linear(f, g, a, b, n - 1);
        let p = sum_to(f, n - 1);
        let q = sum_to(g, n - 1);
        assert(a * (p + f(n - 1)) + b * (q + g(n - 1)) == (a * p + b * q) + (a * f(n - 1) + b * g(n - 1)))
            by (nonlinear_arith);
    }
}

/// A participant's weight in the emission, in parts per million of one:
/// its incentive and its dividends, weighted by one less the
/// self-ownership fraction and by that fraction.
pub open spec fn emission_weight(inc: int, div: int, self_ownership: int) -> int {
    let s = ppm_fraction(self_ownership);
    (PPM - s) * inc + s * div
}

/// What participant `i` receives of an emission `e`:
/// `e * ((1 - so) * inc[i] + so * div[i])`, rounded down once.
pub open spec fn emission_spec(inc: Seq<u128>, div: Seq<u128>, self_ownership: u64, e: int, i: int) -> int {
    e * emission_weight(inc[i] as int, div[i] as int, self_ownership as int) / ((PPM as int) * one())
}

/// Rounding `x / (p * m)` down equals rounding down in two steps when
/// `x = p * big + u` with `u < p`.
proof fn lemma_two_step_floor(x: int, p: int, m: int, big: int, u: int)
    requires
        x == p * big + u,
        0 <= u < p,
        m > 0,
        big >= 0,
    ensures
        x / (p * m) == big / m,
{
    let k = big / m;
    let w = big % m;
    lemma_div_bounds(big, m);
    vstd::arithmetic::div_mod::lemma_fundamental_div_mod(big, m);
    vstd::arithmetic::div_mod::lemma_mod_pos_bound(big, m);
    let d = p * m;
    assert(x == d * k + (p * w + u)) by (nonlinear_arith)
        requires
            x == p * big + u,
            big == m * k + w,
            d == p * m,
    ;
    assert(p * w + u < d) by (nonlinear_arith)
        requires
            0 <= w < m,
            0 <= u < p,
            d == p * m,
    ;
    assert(0 <= p * w + u) by (nonlinear_arith)
        requires
            0 <= w,
            0 <= u,
            p > 0,
    ;
    assert(d > 0) by (nonlinear_arith)
        requires
            d == p * m,
            p > 0,
            m > 0,
    ;
    crate::arith::lemma_div_ge_quot(x, d, k);
    lemma_div_bounds(x, d);
    assert(x / d < k + 1) by (nonlinear_arith)
        requires
            d * (x / d) <= x,
            x < d * k + d,
            d > 0,
    ;
}

/// Each participant's emission out of `e`.
pub fn distribute_emission(inc: &Vec<u128>, div: &Vec<u128>, self_ownership: u64, e: u64) -> (r: Vec<u64>)
    requires
        inc@.len() == div@.len(),
        forall|i: int| 0 <= i < inc@.len() ==> inc@[i] as int <= one() && div@[i] as int <= one(),
    ensures
        r@.len() == inc@.len(),
        forall|i: int| 0 <= i < inc@.len() ==> r@[i] as int == emission_spec(inc@, div@, self_ownership, e as int, i),
{
    let so: u64 = if self_ownership > PPM {
        PPM
    } else {
        self_ownership
    };
    let mut r: Vec<u64> = Vec::new();
    let mut i: usize = 0;
    while i < inc.len()
        invariant
            inc@.len() == div@.len(),
            forall|k: int| 0 <= k < inc@.len() ==> inc@[k] as int <= one() && div@[k] as int <= one(),
            so as int == ppm_fraction(self_ownership as int),
            i <= inc@.len(),
            r@.len() == i,
            forall|k: int| 0 <= k < i ==> r@[k] as int == emission_spec(inc@, div@, self_ownership, e as int, k),
        decreases inc.len() - i,
    {
        let a = inc[i];
        let b = div[i];
        let ka = (PPM - so) as u128;
        let kb = so as u128;
        assert(ka * a + kb * b <= (PPM as int) * one()) by (nonlinear_arith)
            requires
                a as int <= one(),
                b as int <= one(),
                ka + kb == PPM,
                ka >= 0,
                kb >= 0,
        ;
        let g: u128 = ka * a + kb * b;
        let q: u128 = g / (PPM as u128);
        let rem: u128 = g % (PPM as u128);
        proof {
            crate::arith::lemma_div_le_quot(g as int, PPM as int, one());
            lemma_div_bounds(g as int, PPM as int);
            vstd::arithmetic::div_mod::lemma_fundamental_div_mod(g as int, PPM as int);
            vstd::arithmetic::div_mod::lemma_mod_pos_bound(g as int, PPM as int);
            assert(e as int * q as int <= 0xFFFF_FFFF_FFFF_FFFF * 0x1_0000_0000_0000_0000) by (nonlinear_arith)
                requires
                    e <= 0xFFFF_FFFF_FFFF_FFFFu64,
                    q as int <= 0x1_0000_0000_0000_0000,
            ;
            assert(e as int * rem as int <= 0xFFFF_FFFF_FFFF_FFFF * 1_000_000) by (nonlinear_arith)
                requires
                    e <= 0xFFFF_FFFF_FFFF_FFFFu64,
                    rem < 1_000_000,
            ;
        }
        let big_lo: u128 = (e as u128) * rem / (PPM as u128);
        proof {
            lemma_div_bounds(e as int * rem as int, PPM as int);
            assert(big_lo as int <= e as int) by (nonlinear_arith)
                requires
                    (PPM as int) * big_lo <= e as int * rem as int,
                    rem < PPM,
                    e >= 0,
            ;
            assert(e as int * q as int + e as int <= 0xFFFF_FFFF_FFFF_FFFF * 0x1_0000_0000_0000_0001) by (nonlinear_arith)
                requires
                    e <= 0xFFFF_FFFF_FFFF_FFFFu64,
                    q as int <= 0x1_0000_0000_0000_0000,
            ;
        }
        let big: u128 = (e as u128) * q + big_lo;
        let v: u128 = big / FIXED_ONE;
        proof {
            let x = e as int * g as int;
            let t = big_lo as int;
            let u = e as int * rem as int - (PPM as int) * t;
            assert(g as int == (PPM as int) * q as int + rem as int);
            assert(x == (PPM as int) * big as int + u) by (nonlinear_arith)
                requires
                    x == e as int * g as int,
                    g as int == (PPM as int) * q as int + rem as int,
                    big as int == e as int * q as int + t,
                    u == e as int * rem as int - (PPM as int) * t,
            ;
            lemma_two_step_floor(x, PPM as int, one(), big as int, u);
            assert(x == e as int * emission_weight(inc@[i as int] as int, div@[i as int] as int, self_ownership as int));
            lemma_div_le_quot_u64(big as int);
        }
        r.push(v as u64);
        i = i + 1;
    }
    r
}

/// A value below `2^128` divided by `2^64` fits in a `u64`.
proof fn lemma_div_le_quot_u64(big: int)
    requires
        0 <= big <= u128::MAX,
    ensures
        big / one() <= u64::MAX,
{
    crate::arith::lemma_div_le_quot(big, one(), u64::MAX as int + 1);
    lemma_div_bounds(big, one());
    assert(big / one() < u64::MAX as int + 1 || big / one() == u64::MAX as int + 1);
    if big / one() == u64::MAX as int + 1 {
        assert(one() * (big / one()) > u128::MAX);
    }
}

/// Emission conservation: with incentives and dividends each adding up to
/// at most one, a round never emits more than `e`; what rounding loses
/// against the exact amount is less than one unit per participant, so with
/// both adding up to exactly one, less than `n` units of `e` stay unminted.
pub proof fn lemma_emission_conservation(inc: Seq<u128>, div: Seq<u128>, self_ownership: u64, e: u64)
    requires
        inc.len() == div.len(),
        sum128(inc) <= one(),
        sum128(div) <= one(),
    ensures
        sum_to(|i: int| emission_spec(inc, div, self_ownership, e as int, i), inc.len() as int) <= e,
        (e as int) * sum_to(
            |i: int| emission_weight(inc[i] as int, div[i] as int, self_ownership as int),
            inc.len() as int,
        ) - (PPM as int) * one() * sum_to(
            |i: int| emission_spec(inc, div, self_ownership, e as int, i),
            inc.len() as int,
        ) <= inc.len() * ((PPM as int) * one() - 1),
        (sum128(inc) == one() && sum128(div) == one()) ==> e - sum_to(
            |i: int| emission_spec(inc, div, self_ownership, e as int, i),
            inc.len() as int,
        ) < inc.len(),
{
    let n = inc.len() as int;
    let s = ppm_fraction(self_ownership as int);
    let p = PPM as int;
    let d = p * one();
    let ee = e as int;
    let fa = |i: int| inc[i] as int;
    let fb = |i: int| div[i] as int;
    let g = |i: int| emission_weight(inc[i] as int, div[i] as int, self_ownership as int);
    let f = |i: int| emission_spec(inc, div, self_ownership, e as int, i);
    assert forall|i: int| 0 <= i < n implies #[trigger] g(i) >= 0 by {
        lemma_mul_nonneg(p - s, fa(i));
        lemma_mul_nonneg(s, fb(i));
    }
    assert(d > 0) by (nonlinear_arith)
        requires
            d == p * one(),
            p > 0,
            one() > 0,
    ;
    lemma_sum_scaled_floor(g, ee, d, n);
    assert forall|i: int| 0 <= i < n implies #[trigger] f(i) == g(i) * ee / d by {
        assert(ee * g(i) == g(i) * ee) by (nonlinear_arith);
    }
    crate::sums::lemma_sum_ext(f, |i: int| g(i) * ee / d, n);
    lemma_sum_linear(fa, fb, p - s, s, n);
    crate::sums::lemma_sum_ext(g, |i: int| (p - s) * fa(i) + s * fb(i), n);
    let sg = sum_to(g, n);
    let sf = sum_to(f, n);
    let sa = sum_to(fa, n);
    let sb = sum_to(fb, n);
    assert(sg <= d) by (nonlinear_arith)
        requires
            sg == (p - s) * sa + s * sb,
            sa <= one(),
            sb <= one(),
            0 <= s <= p,
            d == p * one(),
    ;
    assert(ee * sg <= ee * d) by (nonlinear_arith)
        requires
            sg <= d,
            ee >= 0,
    ;
    assert(sf <= ee) by (nonlinear_arith)
        requires
            d * sf <= ee * sg,
            ee * sg <= ee * d,
            d > 0,
    ;
    if sa == one() && sb == one() {
        assert(sg == d) by (nonlinear_arith)
            requires
                sg == (p - s) * sa + s * sb,
                sa == one(),
                sb == one(),
                d == p * one(),
        ;
        let gap = ee - sf;
        assert(ee * d - d * sf == gap * d) by (nonlinear_arith)
            requires
                gap == ee - sf,
        ;
        assert(n * (d - 1) == n * d - n) by (nonlinear_arith);
        if gap >= n {
            vstd::arithmetic::mul::lemma_mul_inequality(n, gap, d);
            assert(n >= 0);
            if n == 0 {
                assert(gap * d <= 0);
                assert(gap <= 0) by (nonlinear_arith)
                    requires
                        gap * d <= 0,
                        d > 0,
                ;
            }
        }
    }
}

/// The weight that a sparse row puts on `j`, from its first `kk` entries.
pub open spec fn dense_weight(row: Seq<(u32, u32)>, j: int, kk: int) -> int {
    sum_to(|k: int| if row[k].0 as int == j { row[k].1 as int } else { 0 }, kk)
}

/// A sparse row laid out densely over `n` participants.
pub fn dense_row(row: &Vec<(u32, u32)>, n: usize) -> (r: Vec<u64>)
    requires
        n < u32::MAX,
        row@.len() <= n,
        forall|k: int| 0 <= k < row@.len() ==> row@[k].0 < n,
    ensures
        r@.len() == n,
        forall|j: int| 0 <= j < n ==> r@[j] as int == dense_weight(row@, j, row@.len() as int),
        forall|j: int| 0 <= j < n ==> r@[j] as int <= row@.len() * (WEIGHT_UNIT as int),
{
    let mut r: Vec<u64> = Vec::new();
    let mut z: usize = 0;
    while z < n
        invariant
            z <= n,
            r@.len() == z,
            forall|j: int| 0 <= j < z ==> r@[j] == 0,
        decreases n - z,
    {
        r.push(0);
        z = z + 1;
    }
    let mut k: usize = 0;
    while k < row.len()
        invariant
            n < u32::MAX,
            row@.len() <= n,
            forall|q: int| 0 <= q < row@.len() ==> row@[q].0 < n,
            k <= row@.len(),
            r@.len() == n,
            forall|j: int| 0 <= j < n ==> r@[j] as int == dense_weight(row@, j, k as int),
            forall|j: int| 0 <= j < n ==> r@[j] as int <= k * (WEIGHT_UNIT as int),
        decreases row.len() - k,
    {
        let (t, wv) = row[k];
        proof {
            assert((k + 1) * (WEIGHT_UNIT as int) == k * (WEIGHT_UNIT as int) + WEIGHT_UNIT) by (nonlinear_arith);
            assert((k + 1) * (WEIGHT_UNIT as int) <= u32::MAX * (WEIGHT_UNIT as int)) by (nonlinear_arith)
                requires
                    k + 1 <= u32::MAX,
            ;
            assert(k * (WEIGHT_UNIT as int) <= (k + 1) * (WEIGHT_UNIT as int)) by (nonlinear_arith);
        }
        let nv = r[t as usize] + wv as u64;
        r.set(t as usize, nv);
        k = k + 1;
    }
    r
}

/// Bond `j` of a dense bond row; entries past its end are zero.
pub open spec fn bond_of(row: Seq<u64>, j: int) -> int {
    if j < row.len() {
        row[j] as int
    } else {
        0
    }
}

/// What a weight `dw` on a participant of incentive `inc` contributes to a
/// bond.
pub open spec fn contribution_spec(dw: int, inc: int) -> int {
    dw * inc / (WEIGHT_UNIT as int)
}

/// The moving average of a bond: `alpha` of the old bond and `1 - alpha` of
/// the contribution, with `alpha` the parts-per-million factor `bma`; held at
/// `u64::MAX`.
pub open spec fn ema_spec(old: int, c: int, bma: int) -> int {
    let a = ppm_fraction(bma);
    let v = (a * old + (PPM - a) * c) / (PPM as int);
    if v > u64::MAX {
        u64::MAX as int
    } else {
        v
    }
}

/// The new bond of `i` on `j`.
pub open spec fn new_bond_spec(
    bonds: Seq<Vec<u64>>,
    w: Seq<Seq<(u32, u32)>>,
    inc: Seq<u128>,
    bma: int,
    i: int,
    j: int,
) -> int {
    ema_spec(
        bond_of(bonds[i]@, j),
        contribution_spec(dense_weight(w[i], j, w[i].len() as int), inc[j] as int),
        bma,
    )
}

/// The bonds after a round: every bond moves toward the rater's weight times
/// the incentive of its target. The result is a dense `n` by `n` matrix.
pub fn compute_bonds(bonds: &Vec<Vec<u64>>, w: &Vec<Vec<(u32, u32)>>, inc: &Vec<u128>, bma: u64) -> (r: Vec<
    Vec<u64>,
>)
    requires
        w@.len() == bonds@.len(),
        w@.len() == inc@.len(),
        w@.len() < u32::MAX,
        rows_ok(rows_view(w@), w@.len() as int),
        forall|j: int| 0 <= j < inc@.len() ==> inc@[j] as int <= one(),
    ensures
        r@.len() == w@.len(),
        forall|i: int| 0 <= i < w@.len() ==> (#[trigger] r@[i])@.len() == w@.len(),
        forall|i: int, j: int|
            0 <= i < w@.len() && 0 <= j < w@.len() ==> #[trigger] r@[i]@[j] as int == new_bond_spec(
                bonds@,
                rows_view(w@),
                inc@,
                bma as int,
                i,
                j,
            ),
{
    let n = w.len();
    let a: u64 = if bma > PPM {
        PPM
    } else {
        bma
    };
    let mut r: Vec<Vec<u64>> = Vec::new();
    let mut i: usize = 0;
    while i < n
        invariant
            n == w@.len() == bonds@.len() == inc@.len(),
            n < u32::MAX,
            rows_ok(rows_view(w@), n as int),
            forall|j: int| 0 <= j < inc@.len() ==> inc@[j] as int <= one(),
            a as int == ppm_fraction(bma as int),
            i <= n,
            r@.len() == i,
            forall|q: int| 0 <= q < i ==> (#[trigger] r@[q])@.len() == n,
            forall|q: int, j: int|
                0 <= q < i && 0 <= j < n ==> #[trigger] r@[q]@[j] as int == new_bond_spec(
                    bonds@,
                    rows_view(w@),
                    inc@,
                    bma as int,
                    q,
                    j,
                ),
        decreases n - i,
    {
        proof {
            assert(rows_view(w@)[i as int] == w@[i as int]@);
            lemma_row_len(w@[i as int]@, n as int);
        }
        let dense = dense_row(&w[i], n);
        proof {
            assert forall|q: int| 0 <= q < n implies dense@[q] as int <= n * (WEIGHT_UNIT as int) by {
                vstd::arithmetic::mul::lemma_mul_inequality(
                    w@[i as int]@.len() as int,
                    n as int,
                    WEIGHT_UNIT as int,
                );
            }
        }
        let old_row = &bonds[i];
        let mut row: Vec<u64> = Vec::new();
        let mut j: usize = 0;
        while j < n
            invariant
                n == w@.len() == bonds@.len() == inc@.len(),
                n < u32::MAX,
                forall|q: int| 0 <= q < inc@.len() ==> inc@[q] as int <= one(),
                a as int == ppm_fraction(bma as int),
                i < n,
                dense@.len() == n,
                forall|q: int| 0 <= q < n ==> dense@[q] as int == dense_weight(w@[i as int]@, q, w@[i as int]@.len() as int),
                forall|q: int| 0 <= q < n ==> dense@[q] as int <= n * (WEIGHT_UNIT as int),
                old_row == bonds@[i as int],
                j <= n,
                row@.len() == j,
                forall|q: int| 0 <= q < j ==> row@[q] as int == new_bond_spec(bonds@, rows_view(w@), inc@, bma as int, i as int, q),
            decreases n - j,
        {
            let ob: u64 = if j < old_row.len() {
                old_row[j]
            } else {
                0
            };
            let dw = dense[j];
            let iv = inc[j];
            assert(dw as int * iv as int <= 0xFFFF_FFFF_FFFF_FFFF * 0x1_0000_0000_0000_0000) by (nonlinear_arith)
                requires
                    dw <= 0xFFFF_FFFF_FFFF_FFFFu64,
                    iv as int <= 0x1_0000_0000_0000_0000,
            ;
            let c: u128 = (dw as u128) * iv / (WEIGHT_UNIT as u128);
            proof {
                crate::arith::lemma_div_le_quot(
                    dw as int * iv as int,
                    WEIGHT_UNIT as int,
                    0x2_0000_0000_0000_0000_0000_0000,
                );
                assert(a as int * ob as int <= 1_000_000 * 0xFFFF_FFFF_FFFF_FFFF) by (nonlinear_arith)
                    requires
                        a <= 1_000_000,
                        ob <= 0xFFFF_FFFF_FFFF_FFFFu64,
                ;
                assert((PPM - a) as int * c as int <= 1_000_000 * 0x2_0000_0000_0000_0000_0000_0000)
                    by (nonlinear_arith)
                    requires
                        (PPM - a) as int <= 1_000_000,
                        c as int <= 0x2_0000_0000_0000_0000_0000_0000,
                        (PPM - a) as int >= 0,
                ;
            }
            let x1: u128 = (a as u128) * (ob as u128);
            let x2: u128 = ((PPM - a) as u128) * c;
            let v: u128 = (x1 + x2) / (PPM as u128);
            let b: u64 = if v > 0xFFFF_FFFF_FFFF_FFFF {
                0xFFFF_FFFF_FFFF_FFFF
            } else {
                v as u64
            };
            row.push(b);
            j = j + 1;
        }
        r.push(row);
        i = i + 1;
    }
    r
}

/// The total bond held on `j` by all `n` participants.
pub open spec fn column_spec(b: Seq<Vec<u64>>, j: int, n: int) -> int {
    sum_to(|k: int| b[k]@[j] as int, n)
}

/// The part of the incentive of `j` that goes to `i`: in proportion to the
/// bond of `i` on `j` among all bonds on `j`.
pub open spec fn dividend_term(b: Seq<Vec<u64>>, inc: Seq<u128>, i: int, j: int) -> int {
    let col = column_spec(b, j, b.len() as int);
    if col == 0 {
        0
    } else {
        (inc[j] as int) * (b[i]@[j] as int) / col
    }
}

/// The dividends of `i` before they are normalized: its part of every
/// participant's incentive.
pub open spec fn raw_dividend_spec(b: Seq<Vec<u64>>, inc: Seq<u128>, i: int) -> int {
    sum_to(|j: int| dividend_term(b, inc, i, j), b.len() as int)
}

/// The dividends of every participant before they are normalized.
pub fn compute_raw_dividends(b: &Vec<Vec<u64>>, inc: &Vec<u128>) -> (r: Vec<u128>)
    requires
        b@.len() == inc@.len(),
        b@.len() < u32::MAX,
        forall|i: int| 0 <= i < b@.len() ==> (#[trigger] b@[i])@.len() == b@.len(),
        forall|j: int| 0 <= j < inc@.len() ==> inc@[j] as int <= one(),
    ensures
        r@.len() == b@.len(),
        forall|i: int| 0 <= i < b@.len() ==> r@[i] as int == raw_dividend_spec(b@, inc@, i),
        forall|i: int| 0 <= i < b@.len() ==> r@[i] as int <= entry_cap(),
{
    let n = b.len();
    let mut cols: Vec<u128> = Vec::new();
    let mut j: usize = 0;
    while j < n
        invariant
            n == b@.len() < u32::MAX,
            forall|i: int| 0 <= i < b@.len() ==> (#[trigger] b@[i])@.len() == b@.len(),
            j <= n,
            cols@.len() == j,
            forall|q: int| 0 <= q < j ==> cols@[q] as int == column_spec(b@, q, n as int),
        decreases n - j,
    {
        let mut c: u128 = 0;
        let mut k: usize = 0;
        while k < n
            invariant
                n == b@.len() < u32::MAX,
                forall|i: int| 0 <= i < b@.len() ==> (#[trigger] b@[i])@.len() == b@.len(),
                j < n,
                k <= n,
                c as int == sum_to(|q: int| b@[q]@[j as int] as int, k as int),
                c as int <= k * 0xFFFF_FFFF_FFFF_FFFF,
            decreases n - k,
        {
            assert(b@[k as int]@.len() == n);
            assert((k + 1) * 0xFFFF_FFFF_FFFF_FFFF == k * 0xFFFF_FFFF_FFFF_FFFF + 0xFFFF_FFFF_FFFF_FFFF)
                by (nonlinear_arith);
            assert((k + 1) * 0xFFFF_FFFF_FFFF_FFFF <= u32::MAX * 0xFFFF_FFFF_FFFF_FFFF) by (nonlinear_arith)
                requires
                    k + 1 <= u32::MAX,
            ;
            c = c + b[k][j] as u128;
            k = k + 1;
        }
        cols.push(c);
        j = j + 1;
    }
    let mut r: Vec<u128> = Vec::new();
    let mut i: usize = 0;
    while i < n
        invariant
            n == b@.len() == inc@.len() < u32::MAX,
            forall|q: int| 0 <= q < b@.len() ==> (#[trigger] b@[q])@.len() == b@.len(),
            forall|q: int| 0 <= q < inc@.len() ==> inc@[q] as int <= one(),
            cols@.len() == n,
            forall|q: int| 0 <= q < n ==> cols@[q] as int == column_spec(b@, q, n as int),
            i <= n,
            r@.len() == i,
            forall|q: int| 0 <= q < i ==> r@[q] as int == raw_dividend_spec(b@, inc@, q),
            forall|q: int| 0 <= q < i ==> r@[q] as int <= entry_cap(),
        decreases n - i,
    {
        let mut acc: u128 = 0;
        let mut j: usize = 0;
        while j < n
            invariant
                n == b@.len() == inc@.len() < u32::MAX,
                forall|q: int| 0 <= q < b@.len() ==> (#[trigger] b@[q])@.len() == b@.len(),
                forall|q: int| 0 <= q < inc@.len() ==> inc@[q] as int <= one(),
                cols@.len() == n,
                forall|q: int| 0 <= q < n ==> cols@[q] as int == column_spec(b@, q, n as int),
                i < n,
                j <= n,
                acc as int == sum_to(|q: int| dividend_term(b@, inc@, i as int, q), j as int),
                acc as int <= j * one(),
            decreases n - j,
        {
            let col = cols[j];
            assert(b@[i as int]@.len() == n);
            let bij = b[i][j];
            let iv = inc[j];
            let term: u128 = if col == 0 {
                0
            } else {
                proof {
                    let f = |q: int| b@[q]@[j as int] as int;
                    assert forall|q: int| 0 <= q < n implies 0 <= #[trigger] f(q) by {}
                    lemma_sum_ge_term(f, n as int, i as int);
                    lemma_scaled_part_le(bij as int, col as int, iv as int);
                    assert(bij as int * iv as int == iv as int * bij as int) by (nonlinear_arith);
                    assert(iv as int * bij as int <= 0x1_0000_0000_0000_0000 * 0xFFFF_FFFF_FFFF_FFFF)
                        by (nonlinear_arith)
                        requires
                            iv as int <= 0x1_0000_0000_0000_0000,
                            bij <= 0xFFFF_FFFF_FFFF_FFFFu64,
                    ;
                }
                iv * (bij as u128) / col
            };
            proof {
                assert((j + 1) * one() == j * one() + one()) by (nonlinear_arith);
                assert((j + 1) * one() <= u32::MAX * one()) by (nonlinear_arith)
                    requires
                        j + 1 <= u32::MAX,
                ;
            }
            acc = acc + term;
            j = j + 1;
        }
        proof {
            assert(n * one() <= entry_cap()) by (nonlinear_arith)
                requires
                    n < u32::MAX,
                    one() == 0x1_0000_0000_0000_0000,
            ;
        }
        r.push(acc);
        i = i + 1;
    }
    r
}

/// A fixed-point value as stored per participant: its bits, held at
/// `u64::MAX`.
pub open spec fn stored(x: int) -> u64 {
    if x > u64::MAX {
        u64::MAX
    } else {
        x as u64
    }
}

/// Fixed-point values as stored per participant.
pub fn store_all(x: &Vec<u128>) -> (r: Vec<u64>)
    ensures
        r@.len() == x@.len(),
        forall|i: int| 0 <= i < x@.len() ==> r@[i] == stored(x@[i] as int),
{
    let mut r: Vec<u64> = Vec::new();
    let mut i: usize = 0;
    while i < x.len()
        invariant
            i <= x@.len(),
            r@.len() == i,
            forall|k: int| 0 <= k < i ==> r@[k] == stored(x@[k] as int),
        decreases x.len() - i,
    {
        let v: u64 = if x[i] > 0xFFFF_FFFF_FFFF_FFFF {
            0xFFFF_FFFF_FFFF_FFFF
        } else {
            x[i] as u64
        };
        r.push(v);
        i = i + 1;
    }
    r
}

/// The stake weights of a round.
pub open spec fn round_stake_weights(stake: Seq<u64>) -> Seq<u128> {
    Seq::new(stake.len(), |j: int| stake_weight_spec(stake, j) as u128)
}

/// The ranks of a round.
pub open spec fn round_ranks(stake: Seq<u64>, w: Seq<Seq<(u32, u32)>>) -> Seq<u128> {
    Seq::new(w.len(), |i: int| rank_spec(round_stake_weights(stake), w, i, w.len() as int) as u128)
}

/// The trust of a round.
pub open spec fn round_trust(stake: Seq<u64>, w: Seq<Seq<(u32, u32)>>) -> Seq<u128> {
    Seq::new(w.len(), |i: int| trust_spec(round_stake_weights(stake), w, i, w.len() as int) as u128)
}

/// The consensus of a round.
pub open spec fn round_consensus(stake: Seq<u64>, w: Seq<Seq<(u32, u32)>>, rho: u64, kappa: u64) -> Seq<u128> {
    Seq::new(
        w.len(),
        |i: int| consensus_spec(round_trust(stake, w)[i] as int, rho as int, kappa as int) as u128,
    )
}

/// Rank times consensus: the rank that consensus lets through; none for a
/// participant whose trust is in the excluded bottom `q` percent.
pub open spec fn round_boosted(stake: Seq<u64>, w: Seq<Seq<(u32, u32)>>, rho: u64, kappa: u64, q: u8) -> Seq<
    u128,
> {
    Seq::new(
        w.len(),
        |i: int|
            if is_excluded(round_trust(stake, w), q as int, i) {
                0u128
            } else {
                crate::fixed::mul_bits(
                    round_ranks(stake, w)[i] as int,
                    round_consensus(stake, w, rho, kappa)[i] as int,
                ) as u128
            },
    )
}

/// The incentive of a round: boosted rank normalized to sum to one.
pub open spec fn round_incentive(stake: Seq<u64>, w: Seq<Seq<(u32, u32)>>, rho: u64, kappa: u64, q: u8) -> Seq<
    u128,
> {
    Seq::new(w.len(), |i: int| share_spec(round_boosted(stake, w, rho, kappa, q), i) as u128)
}

/// The dividends of a round, from the new bonds: normalized to sum to one.
pub open spec fn round_dividends(bonds: Seq<Vec<u64>>, inc: Seq<u128>) -> Seq<u128> {
    Seq::new(
        bonds.len(),
        |i: int| share_spec(Seq::new(bonds.len(), |k: int| raw_dividend_spec(bonds, inc, k) as u128), i) as u128,
    )
}

} // verus!
