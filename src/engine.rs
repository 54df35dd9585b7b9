//! The engine state: the participant registry, the tunables and the
//! counters, with the entry points that callers use to change them.
use crate::error::Error;
use crate::pruning::{is_immune, is_prune_choice, prune_score, prune_score_spec, select_prune_candidate};
use crate::registration::{create_seal_hash, retarget_difficulty, retarget_spec, hash_meets_difficulty, meets_difficulty, seal_of, work_block_ok, WORK_BLOCK_WINDOW};
use crate::arith::lemma_scaled_part_le;
use crate::fixed::{fx_mul, one};
use crate::step::{
    compute_bonds, compute_rank_trust, compute_raw_dividends, consensus_of, emission_weight,
    consensus_spec, distribute_emission, emission_spec, lemma_emission_conservation, PPM,
    lemma_rank_conservation, lemma_shares_sum, lemma_stake_weights_sum, new_bond_spec, normalize_fixed,
    raw_dividend_spec, round_boosted, round_consensus, round_dividends, round_incentive, round_ranks,
    round_stake_weights, round_trust, rows_ok, share_spec, stake_weight_spec, stake_weights, store_all, stored,
    bond_of, dense_row, dense_weight, lemma_row_len, rank_total, total_of, normalize_row, normalized_row,
    normalized_rows, rows_view, exclusion_mask, is_excluded,
};
use crate::sums::{lemma_sum_ge_term, sum128, sum64, sum_to};
use crate::weights::{check_weights, lemma_normalized_sum, normalize_spec, sum32, weight_row, weights_error, WEIGHT_UNIT};
use vstd::prelude::*;

verus! {

/// Who makes a call: the privileged origin, or an account.
#[derive(Clone, Copy, Debug, PartialEq, Eq, Structural)]
pub enum Origin {
    Root,
    Signed(u64),
}

/// The tunables of the engine, set by privileged callers.
#[derive(Clone, Copy, Debug, PartialEq, Eq, Structural)]
pub struct Params {
    pub rho: u64,
    pub kappa: u64,
    pub blocks_per_step: u64,
    pub bonds_moving_average: u64,
    pub activity_cutoff: u64,
    pub adjustment_interval: u64,
    pub target_registrations_per_interval: u64,
    pub max_registrations_per_block: u64,
    pub minimum_difficulty: u64,
    pub maximum_difficulty: u64,
    pub max_allowed_uids: u64,
    pub min_allowed_weights: u64,
    pub max_allowed_max_min_ratio: u64,
    pub max_weight_limit: u32,
    pub immunity_period: u64,
    pub incentive_pruning_denominator: u64,
    pub stake_pruning_denominator: u64,
    pub stake_pruning_min: u64,
    pub validator_batch_size: u64,
    pub validator_sequence_length: u64,
    pub validator_epoch_len: u64,
    pub validator_epochs_per_reset: u64,
    pub scaling_law_power: u8,
    pub synergy_scaling_law_power: u8,
    pub validator_exclude_quantile: u8,
    pub validator_prune_len: u64,
    pub validator_logits_divergence: u64,
    pub self_ownership: u64,
    pub block_emission: u64,
    pub initial_issuance: u64,
}

/// Where a participant serves requests.
#[derive(Clone, Copy, Debug, PartialEq, Eq, Structural)]
pub struct AxonInfo {
    pub version: u32,
    pub ip: u128,
    pub port: u16,
    pub ip_type: u8,
    pub modality: u8,
}

/// The whole engine state. Entry `uid` of each per-participant vector
/// belongs to participant `uid`; uids run from zero without gaps.
pub struct Pallet {
    pub params: Params,
    pub difficulty: u64,
    pub total_stake: u64,
    pub total_issuance: u64,
    pub blocks_since_last_step: u64,
    pub registrations_this_interval: u64,
    pub registrations_this_block: u64,
    pub last_difficulty_adjustment_block: u64,
    pub last_mechanism_step_block: u64,
    pub hotkeys: Vec<u64>,
    pub coldkeys: Vec<u64>,
    pub stake: Vec<u64>,
    pub ranks: Vec<u64>,
    pub trust: Vec<u64>,
    pub consensus: Vec<u64>,
    pub incentive: Vec<u64>,
    pub dividends: Vec<u64>,
    pub emission: Vec<u64>,
    pub active: Vec<u32>,
    pub last_update: Vec<u64>,
    pub priority: Vec<u64>,
    pub block_at_registration: Vec<u64>,
    pub axons: Vec<AxonInfo>,
    /// Sparse rows of `(target uid, weight)`.
    pub weights: Vec<Vec<(u32, u32)>>,
    /// Dense rows of bonds; a row shorter than the registry holds zeros beyond its end.
    pub bonds: Vec<Vec<u64>>,
    /// Every proof-of-work digest that admitted a participant.
    pub used_work: Vec<Vec<u8>>,
    /// The uids marked before the last round as the next to be pruned.
    pub prune_marks: Vec<u32>,
}

/// The weights of a sparse row, without their targets.
pub open spec fn row_weights(row: Seq<(u32, u32)>) -> Seq<u32> {
    Seq::new(row.len(), |k: int| row[k].1)
}

/// A stored weight row: targets below `n` and distinct.
pub open spec fn row_ok(row: Seq<(u32, u32)>, n: int) -> bool {
    &&& forall|k: int| 0 <= k < row.len() ==> row[k].0 < n
    &&& forall|a: int, b: int| 0 <= a < b < row.len() ==> row[a].0 != row[b].0
}

impl Pallet {
    /// The number of registered participants.
    pub open spec fn count(&self) -> int {
        self.hotkeys@.len() as int
    }

    /// The registry is consistent: every per-participant vector has one entry
    /// per participant, hotkeys are distinct, stored weight rows are valid,
    /// and the difficulty bounds are ordered.
    pub open spec fn wf(&self) -> bool {
        &&& self.count() < u32::MAX
        &&& self.coldkeys@.len() == self.count()
        &&& self.stake@.len() == self.count()
        &&& self.ranks@.len() == self.count()
        &&& self.trust@.len() == self.count()
        &&& self.consensus@.len() == self.count()
        &&& self.incentive@.len() == self.count()
        &&& self.dividends@.len() == self.count()
        &&& self.emission@.len() == self.count()
        &&& self.active@.len() == self.count()
        &&& self.last_update@.len() == self.count()
        &&& self.priority@.len() == self.count()
        &&& self.block_at_registration@.len() == self.count()
        &&& self.axons@.len() == self.count()
        &&& self.weights@.len() == self.count()
        &&& self.bonds@.len() == self.count()
        &&& forall|a: int, b: int| 0 <= a < b < self.count() ==> self.hotkeys@[a] != self.hotkeys@[b]
        &&& forall|i: int| 0 <= i < self.count() ==> row_ok(#[trigger] self.weights@[i]@, self.count())
        &&& self.params.minimum_difficulty <= self.params.maximum_difficulty
        &&& forall|k: int| 0 <= k < self.prune_marks@.len() ==> self.prune_marks@[k] < self.count()
    }

    /// The uid of a hotkey, if it is registered.
    pub open spec fn uid_of(&self, hotkey: u64) -> Option<int> {
        if exists|u: int| 0 <= u < self.count() && self.hotkeys@[u] == hotkey {
            Some(choose|u: int| 0 <= u < self.count() && self.hotkeys@[u] == hotkey)
        } else {
            None
        }
    }

    /// The uid of a registered hotkey.
    pub fn get_uid_for_hotkey(&self, hotkey: u64) -> (r: Option<u32>)
        requires
            self.wf(),
        ensures
            r is None <==> self.uid_of(hotkey) is None,
            r matches Some(u) ==> self.uid_of(hotkey) == Some(u as int) && self.hotkeys@[u as int] == hotkey,
    {
        let mut i: usize = 0;
        while i < self.hotkeys.len()
            invariant
                self.wf(),
                i <= self.count(),
                forall|k: int| 0 <= k < i ==> self.hotkeys@[k] != hotkey,
            decreases self.hotkeys.len() - i,
        {
            if self.hotkeys[i] == hotkey {
                proof {
                    let c = choose|u: int| 0 <= u < self.count() && self.hotkeys@[u] == hotkey;
                    assert(c == i);
                }
                return Some(i as u32);
            }
            i = i + 1;
        }
        None
    }

    /// Whether a hotkey is registered.
    pub fn is_hotkey_active(&self, hotkey: u64) -> (r: bool)
        requires
            self.wf(),
        ensures
            r == self.uid_of(hotkey) is Some,
    {
        self.get_uid_for_hotkey(hotkey).is_some()
    }

    /// Whether a hotkey is not registered.
    pub fn is_not_active(&self, hotkey: u64) -> (r: bool)
        requires
            self.wf(),
        ensures
            r == self.uid_of(hotkey) is None,
    {
        !self.is_hotkey_active(hotkey)
    }

    /// Whether a uid is registered.
    pub fn is_uid_active(&self, uid: u32) -> (r: bool)
        ensures
            r == (uid < self.count()),
    {
        (uid as usize) < self.hotkeys.len()
    }

    /// The number of registered participants.
    pub fn get_neuron_count(&self) -> (r: u32)
        requires
            self.wf(),
        ensures
            r == self.count(),
    {
        self.hotkeys.len() as u32
    }

    /// Why a weight-set request from `hotkey` is refused, if it is.
    pub open spec fn set_weights_error(&self, hotkey: u64, uids: Seq<u32>, weights: Seq<u32>) -> Option<Error> {
        if self.uid_of(hotkey) is None {
            Some(Error::NotRegistered)
        } else {
            weights_error(
                uids,
                weights,
                self.count(),
                self.params.min_allowed_weights as int,
                self.params.max_allowed_max_min_ratio as int,
                self.params.max_weight_limit as int,
            )
        }
    }

    /// Sets the weight row of the participant of `hotkey` to `uids` with the
    /// normalized `weights`, and records `current_block` as its last update.
    /// A refused request changes nothing.
    pub fn set_weights(&mut self, hotkey: u64, uids: Vec<u32>, weights: Vec<u32>, current_block: u64) -> (r: Result<(), Error>)
        requires
            old(self).wf(),
        ensures
            final(self).wf(),
            r is Err <==> old(self).set_weights_error(hotkey, uids@, weights@) is Some,
            r matches Err(e) ==> old(self).set_weights_error(hotkey, uids@, weights@) == Some(e),
            r is Err ==> *final(self) == *old(self),
            r is Ok ==> {
                let u = old(self).uid_of(hotkey)->Some_0;
                &&& final(self).weights@ == old(self).weights@.update(u, final(self).weights@[u])
                &&& final(self).weights@[u]@ == weight_row(uids@, weights@)
                &&& final(self).last_update@ == old(self).last_update@.update(u, current_block)
                &&& *final(self) == (Pallet {
                    weights: final(self).weights,
                    last_update: final(self).last_update,
                    ..*old(self)
                })
            },
    {
        let uid = match self.get_uid_for_hotkey(hotkey) {
            None => {
                return Err(Error::NotRegistered);
            },
            Some(u) => u,
        };
        let row = match check_weights(
            &uids,
            &weights,
            self.hotkeys.len() as u32,
            self.params.min_allowed_weights,
            self.params.max_allowed_max_min_ratio,
            self.params.max_weight_limit,
        ) {
            Err(e) => {
                return Err(e);
            },
            Ok(row) => row,
        };
        self.weights.set(uid as usize, row);
        self.last_update.set(uid as usize, current_block);
        proof {
            assert forall|i: int| 0 <= i < self.count() implies row_ok(#[trigger] self.weights@[i]@, self.count()) by {
                if i != uid as int {
                    assert(self.weights@[i] == old(self).weights@[i]);
                }
            }
        }
        Ok(())
    }
}

/// `s` with entry `u` set to `v`, where `u == s.len()` appends `v`.
pub open spec fn put<T>(s: Seq<T>, u: int, v: T) -> Seq<T> {
    if u == s.len() {
        s.push(v)
    } else {
        s.update(u, v)
    }
}

/// `a + b`, held at `u64::MAX`.
pub open spec fn sat_add(a: u64, b: u64) -> u64 {
    if a + b > u64::MAX {
        u64::MAX
    } else {
        (a + b) as u64
    }
}

/// `a - b`, held at zero.
pub open spec fn sat_sub(a: u64, b: u64) -> u64 {
    if a < b {
        0
    } else {
        (a - b) as u64
    }
}

/// Whether an ip address is acceptable for its ip type.
pub open spec fn ip_ok(ip: u128, ip_type: u8) -> bool {
    ip != 0 && (ip_type == 4 ==> ip <= u32::MAX as u128)
}

impl Pallet {
    /// Why a stake change by `caller` on `hotkey` is refused on account of
    /// the keys, if it is.
    pub open spec fn stake_key_error(&self, caller: u64, hotkey: u64) -> Option<Error> {
        if self.uid_of(hotkey) is None {
            Some(Error::NotRegistered)
        } else if self.coldkeys@[self.uid_of(hotkey)->Some_0] != caller {
            Some(Error::NonAssociatedColdKey)
        } else {
            None
        }
    }

    /// Finds the uid of `hotkey` and checks that `caller` is its coldkey.
    fn stake_owner(&self, caller: u64, hotkey: u64) -> (r: Result<u32, Error>)
        requires
            self.wf(),
        ensures
            r is Err <==> self.stake_key_error(caller, hotkey) is Some,
            r matches Err(e) ==> self.stake_key_error(caller, hotkey) == Some(e),
            r matches Ok(u) ==> self.uid_of(hotkey) == Some(u as int),
    {
        match self.get_uid_for_hotkey(hotkey) {
            None => Err(Error::NotRegistered),
            Some(u) => {
                if self.coldkeys[u as usize] != caller {
                    Err(Error::NonAssociatedColdKey)
                } else {
                    Ok(u)
                }
            },
        }
    }

    /// Moves `amount` from the coldkey `caller`, whose free balance is
    /// `balance`, onto the stake of `hotkey`. Stake and total stake are held
    /// at `u64::MAX`. A refused request changes nothing.
    pub fn add_stake(&mut self, caller: u64, hotkey: u64, amount: u64, balance: u64) -> (r: Result<(), Error>)
        requires
            old(self).wf(),
        ensures
            final(self).wf(),
            r is Err <==> (old(self).stake_key_error(caller, hotkey) is Some || amount > balance),
            r matches Err(e) ==> e == (if old(self).stake_key_error(caller, hotkey) is Some {
                old(self).stake_key_error(caller, hotkey)->Some_0
            } else {
                Error::NotEnoughBalanceToStake
            }),
            r is Err ==> *final(self) == *old(self),
            r is Ok ==> {
                let u = old(self).uid_of(hotkey)->Some_0;
                &&& final(self).stake@ == old(self).stake@.update(u, sat_add(old(self).stake@[u], amount))
                &&& final(self).total_stake == sat_add(old(self).total_stake, amount)
                &&& *final(self) == (Pallet {
                    stake: final(self).stake,
                    total_stake: final(self).total_stake,
                    ..*old(self)
                })
            },
    {
        let u = match self.stake_owner(caller, hotkey) {
            Err(e) => {
                return Err(e);
            },
            Ok(u) => u,
        };
        if amount > balance {
            return Err(Error::NotEnoughBalanceToStake);
        }
        let new_stake = self.stake[u as usize].saturating_add(amount);
        self.stake.set(u as usize, new_stake);
        self.total_stake = self.total_stake.saturating_add(amount);
        proof {
            assert forall|i: int| 0 <= i < self.count() implies row_ok(#[trigger] self.weights@[i]@, self.count()) by {
                assert(self.weights@[i] == old(self).weights@[i]);
            }
        }
        Ok(())
    }

    /// Takes `amount` off the stake of `hotkey` on behalf of its coldkey
    /// `caller`, who is credited with it. A refused request changes nothing.
    pub fn remove_stake(&mut self, caller: u64, hotkey: u64, amount: u64) -> (r: Result<(), Error>)
        requires
            old(self).wf(),
        ensures
            final(self).wf(),
            r is Err <==> (old(self).stake_key_error(caller, hotkey) is Some || amount
                > old(self).stake@[old(self).uid_of(hotkey)->Some_0]),
            r matches Err(e) ==> e == (if old(self).stake_key_error(caller, hotkey) is Some {
                old(self).stake_key_error(caller, hotkey)->Some_0
            } else {
                Error::NotEnoughStaketoWithdraw
            }),
            r is Err ==> *final(self) == *old(self),
            r is Ok ==> {
                let u = old(self).uid_of(hotkey)->Some_0;
                &&& final(self).stake@ == old(self).stake@.update(u, (old(self).stake@[u] - amount) as u64)
                &&& final(self).total_stake == sat_sub(old(self).total_stake, amount)
                &&& *final(self) == (Pallet {
                    stake: final(self).stake,
                    total_stake: final(self).total_stake,
                    ..*old(self)
                })
            },
    {
        let u = match self.stake_owner(caller, hotkey) {
            Err(e) => {
                return Err(e);
            },
            Ok(u) => u,
        };
        if amount > self.stake[u as usize] {
            return Err(Error::NotEnoughStaketoWithdraw);
        }
        let new_stake = self.stake[u as usize] - amount;
        self.stake.set(u as usize, new_stake);
        self.total_stake = self.total_stake.saturating_sub(amount);
        proof {
            assert forall|i: int| 0 <= i < self.count() implies row_ok(#[trigger] self.weights@[i]@, self.count()) by {
                assert(self.weights@[i] == old(self).weights@[i]);
            }
        }
        Ok(())
    }

    /// Why a serve request from `hotkey` is refused, if it is.
    pub open spec fn serve_error(&self, hotkey: u64, ip: u128, ip_type: u8, modality: u8) -> Option<Error> {
        if self.uid_of(hotkey) is None {
            Some(Error::NotRegistered)
        } else if ip_type != 4 && ip_type != 6 {
            Some(Error::InvalidIpType)
        } else if !ip_ok(ip, ip_type) {
            Some(Error::InvalidIpAddress)
        } else if modality != 0 {
            Some(Error::InvalidModality)
        } else {
            None
        }
    }

    /// Records where the participant of `hotkey` serves. A refused request
    /// changes nothing.
    pub fn serve_axon(
        &mut self,
        hotkey: u64,
        version: u32,
        ip: u128,
        port: u16,
        ip_type: u8,
        modality: u8,
    ) -> (r: Result<(), Error>)
        requires
            old(self).wf(),
        ensures
            final(self).wf(),
            r is Err <==> old(self).serve_error(hotkey, ip, ip_type, modality) is Some,
            r matches Err(e) ==> old(self).serve_error(hotkey, ip, ip_type, modality) == Some(e),
            r is Err ==> *final(self) == *old(self),
            r is Ok ==> {
                let u = old(self).uid_of(hotkey)->Some_0;
                &&& final(self).axons@ == old(self).axons@.update(
                    u,
                    AxonInfo { version, ip, port, ip_type, modality },
                )
                &&& *final(self) == (Pallet { axons: final(self).axons, ..*old(self) })
            },
    {
        let u = match self.get_uid_for_hotkey(hotkey) {
            None => {
                return Err(Error::NotRegistered);
            },
            Some(u) => u,
        };
        if ip_type != 4 && ip_type != 6 {
            return Err(Error::InvalidIpType);
        }
        if ip == 0 || (ip_type == 4 && ip > 0xFFFF_FFFF) {
            return Err(Error::InvalidIpAddress);
        }
        if modality != 0 {
            return Err(Error::InvalidModality);
        }
        self.axons.set(u as usize, AxonInfo { version, ip, port, ip_type, modality });
        proof {
            assert forall|i: int| 0 <= i < self.count() implies row_ok(#[trigger] self.weights@[i]@, self.count()) by {
                assert(self.weights@[i] == old(self).weights@[i]);
            }
        }
        Ok(())
    }
}

/// What a successful registration hands back.
#[derive(Clone, Copy, Debug)]
pub struct Admission {
    /// The uid of the new participant.
    pub uid: u32,
    /// The coldkey and stake of the participant whose slot was taken, if any;
    /// that stake is owed back to its coldkey.
    pub released: Option<(u64, u64)>,
}

/// Whether two byte strings are equal.
fn bytes_equal(a: &Vec<u8>, b: &Vec<u8>) -> (r: bool)
    ensures
        r == (a@ == b@),
{
    if a.len() != b.len() {
        return false;
    }
    let mut i: usize = 0;
    while i < a.len()
        invariant
            a@.len() == b@.len(),
            i <= a@.len(),
            forall|k: int| 0 <= k < i ==> a@[k] == b@[k],
        decreases a.len() - i,
    {
        if a[i] != b[i] {
            return false;
        }
        i = i + 1;
    }
    assert(a@ =~= b@);
    true
}

/// A copy of a byte string.
fn copy_bytes(a: &Vec<u8>) -> (r: Vec<u8>)
    ensures
        r@ == a@,
{
    let mut r: Vec<u8> = Vec::new();
    let mut i: usize = 0;
    while i < a.len()
        invariant
            i <= a@.len(),
            r@ == a@.subrange(0, i as int),
        decreases a.len() - i,
    {
        r.push(a[i]);
        i = i + 1;
    }
    assert(a@.subrange(0, i as int) =~= a@);
    r
}

impl Pallet {
    /// Whether a proof-of-work digest was used before.
    pub open spec fn work_used(&self, work: Seq<u8>) -> bool {
        exists|k: int| 0 <= k < self.used_work@.len() && #[trigger] self.used_work@[k]@ == work
    }

    /// Whether the slot marked for pruning can be taken at `current_block`:
    /// it is still registered and no longer immune.
    pub open spec fn mark_usable(&self, current_block: u64) -> bool {
        &&& self.prune_marks@.len() > 0
        &&& self.prune_marks@[0] < self.count()
        &&& !is_immune(
            self.block_at_registration@[self.prune_marks@[0] as int] as int,
            current_block as int,
            self.params.immunity_period as int,
        )
    }

    /// Marks the slot to prune next: when the registry is full, the
    /// participant with the lowest pruning score among those no longer
    /// immune; no mark otherwise.
    pub fn mark_for_pruning(&mut self, current_block: u64)
        requires
            old(self).wf(),
        ensures
            final(self).wf(),
            *final(self) == (Pallet { prune_marks: final(self).prune_marks, ..*old(self) }),
            final(self).prune_marks@.len() <= 1,
            final(self).prune_marks@.len() == 1 <==> (old(self).registry_full() && !old(self).all_immune(
                current_block,
            )),
            final(self).prune_marks@.len() == 1 ==> is_prune_choice(
                final(self).prune_marks@[0] as int,
                old(self).scores(),
                old(self).block_at_registration@,
                current_block as int,
                old(self).params.immunity_period as int,
            ),
    {
        let mut marks: Vec<u32> = Vec::new();
        if self.hotkeys.len() as u64 >= self.params.max_allowed_uids {
            let scores = self.prune_scores();
            match select_prune_candidate(
                &scores,
                &self.block_at_registration,
                current_block,
                self.params.immunity_period,
            ) {
                Some(u) => {
                    marks.push(u);
                },
                None => {},
            }
        }
        self.prune_marks = marks;
        proof {
            assert forall|i: int| 0 <= i < self.count() implies row_ok(#[trigger] self.weights@[i]@, self.count()) by {
                assert(self.weights@[i] == old(self).weights@[i]);
            }
        }
    }

    /// Whether `uid` is marked to be pruned next.
    pub fn will_be_prunned(&self, uid: u32) -> (r: bool)
        ensures
            r == self.prune_marks@.contains(uid),
    {
        let mut k: usize = 0;
        while k < self.prune_marks.len()
            invariant
                k <= self.prune_marks@.len(),
                forall|q: int| 0 <= q < k ==> self.prune_marks@[q] != uid,
            decreases self.prune_marks.len() - k,
        {
            if self.prune_marks[k] == uid {
                return true;
            }
            k = k + 1;
        }
        false
    }

    /// Whether a new participant must take the slot of a pruned one.
    pub open spec fn registry_full(&self) -> bool {
        self.count() >= self.params.max_allowed_uids
    }

    /// The pruning score of each participant.
    pub open spec fn scores(&self) -> Seq<u128> {
        Seq::new(
            self.count() as nat,
            |i: int|
                prune_score_spec(
                    self.stake@[i] as int,
                    self.incentive@[i] as int,
                    self.params.stake_pruning_denominator as int,
                    self.params.incentive_pruning_denominator as int,
                ) as u128,
        )
    }

    /// Whether every participant is still immune to pruning at `current_block`.
    pub open spec fn all_immune(&self, current_block: u64) -> bool {
        forall|v: int|
            0 <= v < self.count() ==> is_immune(
                self.block_at_registration@[v] as int,
                current_block as int,
                self.params.immunity_period as int,
            )
    }

    /// Why a registration is refused, if it is: the first rule broken, in the
    /// order in which they are checked. `seal` is the seal of the request.
    pub open spec fn registration_error(
        &self,
        current_block: u64,
        block_number: u64,
        work: Seq<u8>,
        seal: Seq<u8>,
        hotkey: u64,
    ) -> Option<Error> {
        if !work_block_ok(current_block as int, block_number as int) {
            Some(Error::InvalidWorkBlock)
        } else if self.work_used(work) {
            Some(Error::WorkRepeated)
        } else if work != seal {
            Some(Error::InvalidSeal)
        } else if !meets_difficulty(work, self.difficulty as int) {
            Some(Error::InvalidDifficulty)
        } else if self.uid_of(hotkey) is Some {
            Some(Error::AlreadyRegistered)
        } else if self.registrations_this_block >= self.params.max_registrations_per_block {
            Some(Error::ToManyRegistrationsThisBlock)
        } else if self.registry_full() && self.all_immune(current_block) {
            Some(Error::NoPrunableSlot)
        } else {
            None
        }
    }

    /// Whether a digest was used before.
    pub fn is_work_used(&self, work: &Vec<u8>) -> (r: bool)
        ensures
            r == self.work_used(work@),
    {
        let mut k: usize = 0;
        while k < self.used_work.len()
            invariant
                k <= self.used_work@.len(),
                forall|j: int| 0 <= j < k ==> self.used_work@[j]@ != work@,
            decreases self.used_work.len() - k,
        {
            if bytes_equal(&self.used_work[k], work) {
                return true;
            }
            k = k + 1;
        }
        false
    }

    /// The pruning score of each participant.
    pub fn prune_scores(&self) -> (r: Vec<u128>)
        requires
            self.wf(),
        ensures
            r@ == self.scores(),
    {
        let mut r: Vec<u128> = Vec::new();
        let mut i: usize = 0;
        while i < self.stake.len()
            invariant
                self.wf(),
                i <= self.count(),
                r@.len() == i,
                forall|k: int| 0 <= k < i ==> r@[k] == self.scores()[k],
            decreases self.stake.len() - i,
        {
            r.push(
                prune_score(
                    self.stake[i],
                    self.incentive[i],
                    self.params.stake_pruning_denominator,
                    self.params.incentive_pruning_denominator,
                ),
            );
            i = i + 1;
        }
        assert(r@ =~= self.scores());
        r
    }

    /// Checks a registration whose seal is `seal`, without changing anything.
    pub fn check_registration(
        &self,
        current_block: u64,
        block_number: u64,
        work: &Vec<u8>,
        seal: &Vec<u8>,
        hotkey: u64,
    ) -> (r: Result<(), Error>)
        requires
            self.wf(),
            seal@.len() == 32,
        ensures
            r is Err <==> self.registration_error(current_block, block_number, work@, seal@, hotkey) is Some,
            r matches Err(e) ==> self.registration_error(current_block, block_number, work@, seal@, hotkey)
                == Some(e),
    {
        if block_number > current_block || current_block - block_number >= WORK_BLOCK_WINDOW {
            return Err(Error::InvalidWorkBlock);
        }
        if self.is_work_used(work) {
            return Err(Error::WorkRepeated);
        }
        if !bytes_equal(work, seal) {
            return Err(Error::InvalidSeal);
        }
        if !hash_meets_difficulty(work, self.difficulty) {
            return Err(Error::InvalidDifficulty);
        }
        if self.is_hotkey_active(hotkey) {
            return Err(Error::AlreadyRegistered);
        }
        if self.registrations_this_block >= self.params.max_registrations_per_block {
            return Err(Error::ToManyRegistrationsThisBlock);
        }
        if self.hotkeys.len() as u64 >= self.params.max_allowed_uids {
            let scores = self.prune_scores();
            if select_prune_candidate(&scores, &self.block_at_registration, current_block, self.params.immunity_period).is_none() {
                return Err(Error::NoPrunableSlot);
            }
        }
        Ok(())
    }

    /// Registers `hotkey` with `coldkey` on the proof of work `work`, dated
    /// `block_number` and found with `nonce`. The new participant takes the
    /// next uid, or, when the registry is full, the slot of the participant
    /// with the lowest pruning score among those no longer immune. A refused
    /// request changes nothing.
    pub fn register(
        &mut self,
        current_block: u64,
        block_number: u64,
        nonce: u64,
        work: Vec<u8>,
        hotkey: u64,
        coldkey: u64,
    ) -> (r: Result<Admission, Error>)
        requires
            old(self).wf(),
            old(self).count() + 1 < u32::MAX,
        ensures
            final(self).wf(),
            r is Err <==> old(self).registration_error(
                current_block,
                block_number,
                work@,
                seal_of(block_number, nonce, hotkey),
                hotkey,
            ) is Some,
            r matches Err(e) ==> old(self).registration_error(
                current_block,
                block_number,
                work@,
                seal_of(block_number, nonce, hotkey),
                hotkey,
            ) == Some(e),
            r is Err ==> *final(self) == *old(self),
            r matches Ok(a) ==> {
                let u = a.uid as int;
                let n = old(self).count();
                &&& if old(self).registry_full() {
                    &&& if old(self).mark_usable(current_block) {
                        u == old(self).prune_marks@[0]
                    } else {
                        is_prune_choice(
                            u,
                            old(self).scores(),
                            old(self).block_at_registration@,
                            current_block as int,
                            old(self).params.immunity_period as int,
                        )
                    }
                    &&& !is_immune(
                        old(self).block_at_registration@[u] as int,
                        current_block as int,
                        old(self).params.immunity_period as int,
                    )
                    &&& final(self).prune_marks@.len() == 0
                    &&& a.released == Some((old(self).coldkeys@[u], old(self).stake@[u]))
                    &&& final(self).total_stake == sat_sub(old(self).total_stake, old(self).stake@[u])
                } else {
                    &&& u == n
                    &&& a.released is None
                    &&& final(self).total_stake == old(self).total_stake
                    &&& final(self).prune_marks == old(self).prune_marks
                }
                &&& final(self).hotkeys@ == put(old(self).hotkeys@, u, hotkey)
                &&& final(self).coldkeys@ == put(old(self).coldkeys@, u, coldkey)
                &&& final(self).stake@ == put(old(self).stake@, u, 0)
                &&& final(self).incentive@ == put(old(self).incentive@, u, 0)
                &&& final(self).ranks@ == put(old(self).ranks@, u, 0)
                &&& final(self).trust@ == put(old(self).trust@, u, 0)
                &&& final(self).consensus@ == put(old(self).consensus@, u, 0)
                &&& final(self).dividends@ == put(old(self).dividends@, u, 0)
                &&& final(self).emission@ == put(old(self).emission@, u, 0)
                &&& final(self).active@ == put(old(self).active@, u, 1)
                &&& final(self).last_update@ == put(old(self).last_update@, u, current_block)
                &&& final(self).block_at_registration@ == put(old(self).block_at_registration@, u, current_block)
                &&& final(self).priority@ == put(old(self).priority@, u, 0)
                &&& final(self).axons@ == put(
                    old(self).axons@,
                    u,
                    AxonInfo { version: 0, ip: 0, port: 0, ip_type: 0, modality: 0 },
                )
                &&& final(self).weights@ == put(old(self).weights@, u, final(self).weights@[u])
                &&& final(self).weights@[u]@.len() == 0
                &&& final(self).bonds@ == put(old(self).bonds@, u, final(self).bonds@[u])
                &&& final(self).bonds@[u]@.len() == 0
                &&& final(self).used_work@ == old(self).used_work@.push(final(self).used_work@.last())
                &&& final(self).used_work@.last()@ == work@
                &&& final(self).work_used(work@)
                &&& final(self).registrations_this_block == old(self).registrations_this_block + 1
                &&& final(self).registrations_this_interval == sat_add(old(self).registrations_this_interval, 1)
                &&& *final(self) == (Pallet {
                    hotkeys: final(self).hotkeys,
                    coldkeys: final(self).coldkeys,
                    stake: final(self).stake,
                    ranks: final(self).ranks,
                    trust: final(self).trust,
                    consensus: final(self).consensus,
                    incentive: final(self).incentive,
                    dividends: final(self).dividends,
                    emission: final(self).emission,
                    active: final(self).active,
                    last_update: final(self).last_update,
                    priority: final(self).priority,
                    block_at_registration: final(self).block_at_registration,
                    axons: final(self).axons,
                    weights: final(self).weights,
                    bonds: final(self).bonds,
                    used_work: final(self).used_work,
                    total_stake: final(self).total_stake,
                    registrations_this_block: final(self).registrations_this_block,
                    registrations_this_interval: final(self).registrations_this_interval,
                    prune_marks: final(self).prune_marks,
                    ..*old(self)
                })
            },
    {
        let seal = create_seal_hash(block_number, nonce, hotkey);
        match self.check_registration(current_block, block_number, &work, &seal, hotkey) {
            Err(e) => {
                return Err(e);
            },
            Ok(()) => {},
        }
        let n = self.hotkeys.len();
        let full = self.hotkeys.len() as u64 >= self.params.max_allowed_uids;
        let ghost old_self = *self;
        let admission = if full {
            let usable = self.prune_marks.len() > 0 && (self.prune_marks[0] as usize) < self.hotkeys.len()
                && !((current_block as u128) < (self.block_at_registration[self.prune_marks[0] as usize] as u128)
                + (self.params.immunity_period as u128));
            let u: usize = if usable {
                self.prune_marks[0] as usize
            } else {
                let scores = self.prune_scores();
                match select_prune_candidate(
                    &scores,
                    &self.block_at_registration,
                    current_block,
                    self.params.immunity_period,
                ) {
                    Some(u) => u as usize,
                    None => {
                        return Err(Error::NoPrunableSlot);
                    },
                }
            };
            self.prune_marks = Vec::new();
            let released = Some((self.coldkeys[u], self.stake[u]));
            self.total_stake = self.total_stake.saturating_sub(self.stake[u]);
            self.hotkeys.set(u, hotkey);
            self.coldkeys.set(u, coldkey);
            self.stake.set(u, 0);
            self.ranks.set(u, 0);
            self.trust.set(u, 0);
            self.consensus.set(u, 0);
            self.incentive.set(u, 0);
            self.dividends.set(u, 0);
            self.emission.set(u, 0);
            self.active.set(u, 1);
            self.last_update.set(u, current_block);
            self.priority.set(u, 0);
            self.block_at_registration.set(u, current_block);
            self.axons.set(u, AxonInfo { version: 0, ip: 0, port: 0, ip_type: 0, modality: 0 });
            self.weights.set(u, Vec::new());
            self.bonds.set(u, Vec::new());
            Admission { uid: u as u32, released }
        } else {
            self.hotkeys.push(hotkey);
            self.coldkeys.push(coldkey);
            self.stake.push(0);
            self.ranks.push(0);
            self.trust.push(0);
            self.consensus.push(0);
            self.incentive.push(0);
            self.dividends.push(0);
            self.emission.push(0);
            self.active.push(1);
            self.last_update.push(current_block);
            self.priority.push(0);
            self.block_at_registration.push(current_block);
            self.axons.push(AxonInfo { version: 0, ip: 0, port: 0, ip_type: 0, modality: 0 });
            self.weights.push(Vec::new());
            self.bonds.push(Vec::new());
            Admission { uid: n as u32, released: None }
        };
        let stored = copy_bytes(&work);
        self.used_work.push(stored);
        self.registrations_this_block = self.registrations_this_block + 1;
        self.registrations_this_interval = self.registrations_this_interval.saturating_add(1);
        proof {
            let u = admission.uid as int;
            assert(self.used_work@[self.used_work@.len() - 1]@ == work@);
            assert forall|a: int, b: int| 0 <= a < b < self.count() implies self.hotkeys@[a] != self.hotkeys@[b] by {
                if a == u {
                    assert(old_self.hotkeys@[b] != hotkey);
                } else if b == u {
                    assert(old_self.hotkeys@[a] != hotkey);
                } else {
                    assert(self.hotkeys@[a] == old_self.hotkeys@[a]);
                    assert(self.hotkeys@[b] == old_self.hotkeys@[b]);
                }
            }
            assert forall|i: int| 0 <= i < self.count() implies row_ok(#[trigger] self.weights@[i]@, self.count()) by {
                if i == u {
                    assert(row_weights(self.weights@[i]@) =~= Seq::<u32>::empty());
                } else {
                    assert(self.weights@[i] == old_self.weights@[i]);
                    assert(row_ok(old_self.weights@[i]@, old_self.count()));
                }
            }
        }
        Ok(admission)
    }
}

/// A digest that admitted a participant can never admit another: any later
/// registration with it, dated within the window, is refused as repeated.
pub proof fn lemma_repeated_work_refused(
    s: Pallet,
    current_block: u64,
    block_number: u64,
    work: Seq<u8>,
    seal: Seq<u8>,
    hotkey: u64,
)
    requires
        s.work_used(work),
        work_block_ok(current_block as int, block_number as int),
    ensures
        s.registration_error(current_block, block_number, work, seal, hotkey) == Some(Error::WorkRepeated),
{
}

/// A work whose value is above `u256_max() / difficulty` is refused for its
/// difficulty whenever the earlier checks pass.
pub proof fn lemma_excess_work_refused(
    s: Pallet,
    current_block: u64,
    block_number: u64,
    work: Seq<u8>,
    hotkey: u64,
)
    requires
        s.difficulty > 0,
        crate::registration::be_value(work) > crate::registration::u256_max() / (s.difficulty as int),
        work_block_ok(current_block as int, block_number as int),
        !s.work_used(work),
    ensures
        s.registration_error(current_block, block_number, work, work, hotkey) == Some(Error::InvalidDifficulty),
{
    crate::registration::lemma_difficulty_threshold(work, s.difficulty as int);
}

/// A round changes only the participants' metrics, bonds and stake, and the
/// total stake and issuance.
pub open spec fn round_frame(old: Pallet, new: Pallet) -> bool {
    new == (Pallet {
        ranks: new.ranks,
        trust: new.trust,
        consensus: new.consensus,
        incentive: new.incentive,
        dividends: new.dividends,
        bonds: new.bonds,
        emission: new.emission,
        stake: new.stake,
        total_stake: new.total_stake,
        total_issuance: new.total_issuance,
        ..old
    })
}

/// The metrics, bonds, stake, total stake and issuance are as they were.
pub open spec fn round_untouched(old: Pallet, new: Pallet) -> bool {
    &&& new.ranks == old.ranks
    &&& new.trust == old.trust
    &&& new.consensus == old.consensus
    &&& new.incentive == old.incentive
    &&& new.dividends == old.dividends
    &&& new.bonds == old.bonds
    &&& new.emission == old.emission
    &&& new.stake == old.stake
    &&& new.total_stake == old.total_stake
    &&& new.total_issuance == old.total_issuance
}

/// What one round of the pipeline, minting `e`, makes of the state `old`:
/// every weight row normalized, every metric as the round's spec functions
/// give it over those rows, the stake raised by
/// each emission, never more than `e` minted in all and less than one unit
/// per participant lost to rounding, and all the rank handed out conserved.
pub open spec fn round_outcome(old: Pallet, new: Pallet, e: u64) -> bool {
    let n = old.count();
    let st = old.stake@;
    let w = normalized_rows(old.weights@);
    let p = old.params;
    let sw = round_stake_weights(st);
    let inc = round_incentive(st, w, p.rho, p.kappa, p.validator_exclude_quantile);
    let div = round_dividends(new.bonds@, inc);
    let so = p.self_ownership;
    &&& forall|i: int| 0 <= i < n ==> new.ranks@[i] == stored(round_ranks(st, w)[i] as int)
    &&& forall|i: int| 0 <= i < n ==> new.trust@[i] == stored(round_trust(st, w)[i] as int)
    &&& forall|i: int| 0 <= i < n ==> new.consensus@[i] == stored(round_consensus(st, w, p.rho, p.kappa)[i] as int)
    &&& forall|i: int| 0 <= i < n ==> new.incentive@[i] == stored(inc[i] as int)
    &&& forall|i: int| 0 <= i < n ==> new.dividends@[i] == stored(div[i] as int)
    &&& forall|i: int| 0 <= i < n ==> (#[trigger] new.bonds@[i])@.len() == n
    &&& forall|i: int, j: int|
        0 <= i < n && 0 <= j < n ==> #[trigger] new.bonds@[i]@[j] as int == new_bond_spec(
            old.bonds@,
            w,
            inc,
            p.bonds_moving_average as int,
            i,
            j,
        )
    &&& forall|i: int| 0 <= i < n ==> new.emission@[i] as int == emission_spec(inc, div, so, e as int, i)
    &&& forall|i: int| 0 <= i < n ==> new.stake@[i] == sat_add(st[i], new.emission@[i])
    &&& sum64(new.emission@) <= e
    &&& sum128(inc) <= one()
    &&& sum128(div) <= one()
    &&& (e as int) * sum_to(|i: int| emission_weight(inc[i] as int, div[i] as int, so as int), n) - (PPM as int)
        * one() * sum64(new.emission@) <= n * ((PPM as int) * one() - 1)
    &&& (sum128(inc) == one() && sum128(div) == one()) ==> e - sum64(new.emission@) < n
    &&& sum128(round_ranks(st, w)) == rank_total(sw, w, n)
    &&& rank_total(sw, w, n) <= sum128(sw) <= one()
    &&& one() - n < sum128(sw)
    &&& (forall|j: int| 0 <= j < n ==> sum32(row_weights(#[trigger] old.weights@[j]@)) > 0) ==> (
    WEIGHT_UNIT as int) * (sum128(sw) - rank_total(sw, w, n)) <= sum_to(
        |j: int| w[j].len() * (sw[j] + WEIGHT_UNIT as int),
        n,
    )
    &&& new.total_stake == sat_add(old.total_stake, sum64(new.emission@) as u64)
    &&& new.total_issuance == sat_add(old.total_issuance, sum64(new.emission@) as u64)
}

impl Pallet {
    /// Runs one round of the consensus pipeline over the whole registry and
    /// mints `emission_this_step`: stake weights, rank and trust, consensus,
    /// incentive, bonds, dividends, and each participant's emission, which is
    /// added to its stake. Never more than `emission_this_step` is minted.
    pub fn mechanism_step(&mut self, emission_this_step: u64)
        requires
            old(self).wf(),
        ensures
            final(self).wf(),
            round_frame(*old(self), *final(self)),
            old(self).count() == 0 ==> *final(self) == *old(self),
            old(self).count() > 0 ==> round_outcome(*old(self), *final(self), emission_this_step),
    {
        let n = self.hotkeys.len();
        if n == 0 {
            return;
        }
        let ghost st = self.stake@;
        let ghost ni = n as int;
        let rho = self.params.rho;
        let kappa = self.params.kappa;
        let mut nw: Vec<Vec<(u32, u32)>> = Vec::new();
        let mut j: usize = 0;
        while j < n
            invariant
                self.wf(),
                n == self.count(),
                ni == n,
                j <= n,
                nw@.len() == j,
                forall|q: int| 0 <= q < j ==> (#[trigger] nw@[q])@ == normalized_row(self.weights@[q]@),
                forall|q: int| 0 <= q < j ==> row_ok(#[trigger] nw@[q]@, ni),
                forall|q: int| 0 <= q < j ==> sum32(row_weights(#[trigger] nw@[q]@)) <= WEIGHT_UNIT as int,
            decreases n - j,
        {
            let r = normalize_row(&self.weights[j]);
            proof {
                assert(row_ok(self.weights@[j as int]@, ni));
            }
            nw.push(r);
            j = j + 1;
        }
        let ghost w = rows_view(nw@);
        let sw = stake_weights(&self.stake);
        proof {
            assert(w =~= normalized_rows(self.weights@));
            assert(sw@ =~= round_stake_weights(st));
            lemma_stake_weights_sum(st);
            crate::sums::lemma_sum_ext(|i: int| sw@[i] as int, |j: int| stake_weight_spec(st, j), ni);
            assert(rows_ok(w, ni)) by {
                assert forall|j: int| 0 <= j < w.len() implies {
                    &&& forall|k: int| 0 <= k < (#[trigger] w[j]).len() ==> w[j][k].0 < ni
                    &&& forall|a: int, b: int| 0 <= a < b < w[j].len() ==> w[j][a].0 != w[j][b].0
                } by {
                    assert(row_ok(nw@[j]@, ni));
                }
            }
            assert forall|j: int| 0 <= j < w.len() implies sum32(row_weights(#[trigger] w[j])) <= WEIGHT_UNIT as int by {
                assert(w[j] == nw@[j]@);
            }
        }
        let (rank, trust) = compute_rank_trust(&sw, &nw);
        proof {
            lemma_rank_conservation(sw@, w);
            if forall|j: int| 0 <= j < ni ==> sum32(row_weights(#[trigger] self.weights@[j]@)) > 0 {
                assert forall|j: int| 0 <= j < w.len() implies sum32(row_weights(#[trigger] w[j])) + w[j].len()
                    > WEIGHT_UNIT as int by {
                    let raw = row_weights(self.weights@[j]@);
                    assert(row_weights(w[j]) =~= normalize_spec(raw));
                    assert(sum32(row_weights(self.weights@[j]@)) > 0);
                    lemma_normalized_sum(raw);
                }
            }
            assert forall|i: int| 0 <= i < ni implies rank@[i] as int <= one() by {
                lemma_sum_ge_term(|k: int| rank@[k] as int, ni, i);
            }
            assert(rank@ =~= round_ranks(st, w));
            assert(trust@ =~= round_trust(st, w));
        }
        let q = self.params.validator_exclude_quantile;
        let excluded = exclusion_mask(&trust, q);
        let mut cons: Vec<u128> = Vec::new();
        let mut boosted: Vec<u128> = Vec::new();
        let mut i: usize = 0;
        while i < n
            invariant
                n == rank@.len() == trust@.len() == excluded@.len(),
                forall|k: int| 0 <= k < ni ==> excluded@[k] == is_excluded(trust@, q as int, k),
                ni == n,
                forall|k: int| 0 <= k < ni ==> rank@[k] as int <= one(),
                i <= n,
                cons@.len() == i,
                boosted@.len() == i,
                forall|k: int|
                    0 <= k < i ==> cons@[k] as int == consensus_spec(trust@[k] as int, rho as int, kappa as int),
                forall|k: int|
                    0 <= k < i ==> boosted@[k] as int == if excluded@[k] {
                        0
                    } else {
                        crate::fixed::mul_bits(rank@[k] as int, cons@[k] as int)
                    },
                forall|k: int| 0 <= k < i ==> boosted@[k] as int <= one(),
            decreases n - i,
        {
            let c = consensus_of(trust[i], rho, kappa);
            let rk = rank[i];
            proof {
                lemma_scaled_part_le(c as int, one(), rk as int);
                assert(c as int * rk as int == rk as int * c as int) by (nonlinear_arith);
            }
            let b = match fx_mul(rk, c) {
                Some(b) => b,
                None => {
                    proof {
                        assert(false);
                    }
                    0
                },
            };
            cons.push(c);
            boosted.push(if excluded[i] {
                0
            } else {
                b
            });
            i = i + 1;
        }
        proof {
            assert(cons@ =~= round_consensus(st, w, rho, kappa));
            assert(boosted@ =~= round_boosted(st, w, rho, kappa, q));
        }
        let inc = normalize_fixed(&boosted);
        proof {
            assert(inc@ =~= round_incentive(st, w, rho, kappa, q));
            lemma_shares_sum(boosted@);
            crate::sums::lemma_sum_ext(|k: int| inc@[k] as int, |k: int| share_spec(boosted@, k), ni);
        }
        let bonds = compute_bonds(&self.bonds, &nw, &inc, self.params.bonds_moving_average);
        let raw = compute_raw_dividends(&bonds, &inc);
        let div = normalize_fixed(&raw);
        proof {
            assert(raw@ =~= Seq::new(bonds@.len(), |k: int| raw_dividend_spec(bonds@, inc@, k) as u128));
            assert(div@ =~= round_dividends(bonds@, inc@));
            lemma_shares_sum(raw@);
            crate::sums::lemma_sum_ext(|k: int| div@[k] as int, |k: int| share_spec(raw@, k), ni);
        }
        let em = distribute_emission(&inc, &div, self.params.self_ownership, emission_this_step);
        proof {
            lemma_emission_conservation(inc@, div@, self.params.self_ownership, emission_this_step);
            crate::sums::lemma_sum_ext(
                |k: int| em@[k] as int,
                |k: int| emission_spec(inc@, div@, self.params.self_ownership, emission_this_step as int, k),
                ni,
            );
        }
        let mut new_stake: Vec<u64> = Vec::new();
        let mut total: u128 = 0;
        let mut k: usize = 0;
        while k < n
            invariant
                n == em@.len() == self.stake@.len(),
                ni == n,
                n < u32::MAX,
                k <= n,
                new_stake@.len() == k,
                forall|q: int| 0 <= q < k ==> new_stake@[q] == sat_add(self.stake@[q], em@[q]),
                total as int == sum_to(|q: int| em@[q] as int, k as int),
                total as int <= k * (u64::MAX as int),
            decreases n - k,
        {
            assert((k + 1) * (u64::MAX as int) == k * (u64::MAX as int) + u64::MAX) by (nonlinear_arith);
            assert((k + 1) * (u64::MAX as int) <= u32::MAX * (u64::MAX as int)) by (nonlinear_arith)
                requires
                    k + 1 <= u32::MAX,
            ;
            new_stake.push(self.stake[k].saturating_add(em[k]));
            total = total + em[k] as u128;
            k = k + 1;
        }
        let minted = total as u64;
        self.ranks = store_all(&rank);
        self.trust = store_all(&trust);
        self.consensus = store_all(&cons);
        self.incentive = store_all(&inc);
        self.dividends = store_all(&div);
        self.bonds = bonds;
        self.emission = em;
        self.stake = new_stake;
        self.total_stake = self.total_stake.saturating_add(minted);
        self.total_issuance = self.total_issuance.saturating_add(minted);
    }
}

impl Params {
    /// A standard set of tunables.
    pub fn standard() -> (r: Params)
        ensures
            r.minimum_difficulty <= r.maximum_difficulty,
            r.block_emission == 1_000_000_000,
    {
        Params {
            rho: 10,
            kappa: 0x8000_0000_0000_0000,
            blocks_per_step: 1,
            bonds_moving_average: 900_000,
            activity_cutoff: 5000,
            adjustment_interval: 100,
            target_registrations_per_interval: 2,
            max_registrations_per_block: 3,
            minimum_difficulty: 1,
            maximum_difficulty: 0xFFFF_FFFF_FFFF_FFFF,
            max_allowed_uids: 4096,
            min_allowed_weights: 0,
            max_allowed_max_min_ratio: 0xFFFF_FFFF_FFFF_FFFF,
            max_weight_limit: 0xFFFF_FFFF,
            immunity_period: 2,
            incentive_pruning_denominator: 1,
            stake_pruning_denominator: 1,
            stake_pruning_min: 0,
            validator_batch_size: 10,
            validator_sequence_length: 10,
            validator_epoch_len: 10,
            validator_epochs_per_reset: 10,
            scaling_law_power: 50,
            synergy_scaling_law_power: 50,
            validator_exclude_quantile: 10,
            validator_prune_len: 1,
            validator_logits_divergence: 0,
            self_ownership: 500_000,
            block_emission: 1_000_000_000,
            initial_issuance: 0,
        }
    }
}

/// Whether the block hook runs a round: `blocks_per_step` blocks have passed.
pub open spec fn step_due(old: Pallet) -> bool {
    sat_add(old.blocks_since_last_step, 1) >= old.params.blocks_per_step
}

/// What the block hook mints: `block_emission` for each block since the
/// last round, held at `u64::MAX`.
pub open spec fn step_emission(old: Pallet) -> u64 {
    let k = sat_add(old.blocks_since_last_step, 1);
    if k * old.params.block_emission > u64::MAX {
        u64::MAX
    } else {
        (k * old.params.block_emission) as u64
    }
}

/// Whether the difficulty is due for a retarget at `current_block`.
pub open spec fn retarget_due(old: Pallet, current_block: u64) -> bool {
    sat_sub(current_block, old.last_difficulty_adjustment_block) >= old.params.adjustment_interval
}

/// A retarget: the difficulty scaled by the interval's registrations over
/// their target and held within the bounds, and a new interval started.
pub open spec fn retarget_outcome(old: Pallet, new: Pallet, current_block: u64) -> bool {
    &&& new.difficulty == retarget_spec(
        old.difficulty as int,
        old.registrations_this_interval as int,
        old.params.target_registrations_per_interval as int,
        old.params.minimum_difficulty as int,
        old.params.maximum_difficulty as int,
    )
    &&& old.params.minimum_difficulty <= new.difficulty <= old.params.maximum_difficulty
    &&& new.registrations_this_interval == 0
    &&& new.last_difficulty_adjustment_block == current_block
}

impl Pallet {
    /// An engine with no participants, the given tunables and difficulty.
    pub fn new(params: Params, difficulty: u64) -> (r: Pallet)
        requires
            params.minimum_difficulty <= params.maximum_difficulty,
        ensures
            r.wf(),
            r.count() == 0,
            r.params == params,
            r.difficulty == difficulty,
            r.total_stake == 0,
            r.total_issuance == params.initial_issuance,
            r.used_work@.len() == 0,
            r.blocks_since_last_step == 0,
            r.registrations_this_block == 0,
            r.registrations_this_interval == 0,
            r.last_difficulty_adjustment_block == 0,
    {
        Pallet {
            params,
            difficulty,
            total_stake: 0,
            total_issuance: params.initial_issuance,
            blocks_since_last_step: 0,
            registrations_this_interval: 0,
            registrations_this_block: 0,
            last_difficulty_adjustment_block: 0,
            last_mechanism_step_block: 0,
            hotkeys: Vec::new(),
            coldkeys: Vec::new(),
            stake: Vec::new(),
            ranks: Vec::new(),
            trust: Vec::new(),
            consensus: Vec::new(),
            incentive: Vec::new(),
            dividends: Vec::new(),
            emission: Vec::new(),
            active: Vec::new(),
            last_update: Vec::new(),
            priority: Vec::new(),
            block_at_registration: Vec::new(),
            axons: Vec::new(),
            weights: Vec::new(),
            bonds: Vec::new(),
            used_work: Vec::new(),
            prune_marks: Vec::new(),
        }
    }

    /// Retargets the difficulty once `adjustment_interval` blocks have passed
    /// since the last retarget, and then starts a new interval.
    pub fn update_difficulty(&mut self, current_block: u64)
        requires
            old(self).wf(),
        ensures
            final(self).wf(),
            *final(self) == (Pallet {
                difficulty: final(self).difficulty,
                registrations_this_interval: final(self).registrations_this_interval,
                last_difficulty_adjustment_block: final(self).last_difficulty_adjustment_block,
                ..*old(self)
            }),
            retarget_due(*old(self), current_block) ==> retarget_outcome(*old(self), *final(self), current_block),
            !retarget_due(*old(self), current_block) ==> *final(self) == *old(self),
    {
        if current_block.saturating_sub(self.last_difficulty_adjustment_block) >= self.params.adjustment_interval {
            self.difficulty =
                retarget_difficulty(
                    self.difficulty,
                    self.registrations_this_interval,
                    self.params.target_registrations_per_interval,
                    self.params.minimum_difficulty,
                    self.params.maximum_difficulty,
                );
            self.registrations_this_interval = 0;
            self.last_difficulty_adjustment_block = current_block;
            proof {
                assert forall|i: int| 0 <= i < self.count() implies row_ok(#[trigger] self.weights@[i]@, self.count()) by {
                    assert(self.weights@[i] == old(self).weights@[i]);
                }
            }
        }
    }

    /// The work of a new block: the per-block registration count restarts;
    /// a round of the pipeline runs once `blocks_per_step` blocks have
    /// passed, minting `block_emission` for each of them; then the difficulty
    /// retarget check runs.
    pub fn on_initialize(&mut self, current_block: u64)
        requires
            old(self).wf(),
        ensures
            final(self).wf(),
            *final(self) == (Pallet {
                registrations_this_block: 0,
                blocks_since_last_step: final(self).blocks_since_last_step,
                last_mechanism_step_block: final(self).last_mechanism_step_block,
                difficulty: final(self).difficulty,
                registrations_this_interval: final(self).registrations_this_interval,
                last_difficulty_adjustment_block: final(self).last_difficulty_adjustment_block,
                ranks: final(self).ranks,
                trust: final(self).trust,
                consensus: final(self).consensus,
                incentive: final(self).incentive,
                dividends: final(self).dividends,
                bonds: final(self).bonds,
                emission: final(self).emission,
                stake: final(self).stake,
                total_stake: final(self).total_stake,
                total_issuance: final(self).total_issuance,
                prune_marks: final(self).prune_marks,
                ..*old(self)
            }),
            step_due(*old(self)) ==> {
                &&& final(self).prune_marks@.len() <= 1
                &&& final(self).prune_marks@.len() == 1 <==> (old(self).registry_full() && !old(self).all_immune(
                    current_block,
                ))
                &&& final(self).prune_marks@.len() == 1 ==> is_prune_choice(
                    final(self).prune_marks@[0] as int,
                    old(self).scores(),
                    old(self).block_at_registration@,
                    current_block as int,
                    old(self).params.immunity_period as int,
                )
                &&& final(self).blocks_since_last_step == 0
                &&& final(self).last_mechanism_step_block == current_block
                &&& old(self).count() > 0 ==> round_outcome(*old(self), *final(self), step_emission(*old(self)))
                &&& old(self).count() == 0 ==> round_untouched(*old(self), *final(self))
            },
            !step_due(*old(self)) ==> {
                &&& final(self).prune_marks == old(self).prune_marks
                &&& final(self).blocks_since_last_step == old(self).blocks_since_last_step + 1
                &&& final(self).last_mechanism_step_block == old(self).last_mechanism_step_block
                &&& round_untouched(*old(self), *final(self))
            },
            retarget_due(*old(self), current_block) ==> retarget_outcome(*old(self), *final(self), current_block),
            !retarget_due(*old(self), current_block) ==> {
                &&& final(self).difficulty == old(self).difficulty
                &&& final(self).registrations_this_interval == old(self).registrations_this_interval
                &&& final(self).last_difficulty_adjustment_block == old(self).last_difficulty_adjustment_block
            },
    {
        self.registrations_this_block = 0;
        let next = self.blocks_since_last_step.saturating_add(1);
        if next >= self.params.blocks_per_step {
            let emission_this_step: u64 = match next.checked_mul(self.params.block_emission) {
                Some(e) => e,
                None => 0xFFFF_FFFF_FFFF_FFFF,
            };
            assert(emission_this_step == step_emission(*old(self)));
            proof {
                assert forall|i: int| 0 <= i < self.count() implies row_ok(#[trigger] self.weights@[i]@, self.count()) by {
                    assert(self.weights@[i] == old(self).weights@[i]);
                }
            }
            self.mark_for_pruning(current_block);
            proof {
                assert forall|i: int| 0 <= i < self.count() implies row_ok(#[trigger] self.weights@[i]@, self.count()) by {
                    assert(self.weights@[i] == old(self).weights@[i]);
                }
            }
            self.mechanism_step(emission_this_step);
            self.blocks_since_last_step = 0;
            self.last_mechanism_step_block = current_block;
        } else {
            self.blocks_since_last_step = next;
        }
        proof {
            assert forall|i: int| 0 <= i < self.count() implies row_ok(#[trigger] self.weights@[i]@, self.count()) by {
                assert(self.weights@[i] == old(self).weights@[i]);
            }
        }
        self.update_difficulty(current_block);
    }

    /// Clears every bond.
    pub fn reset_bonds(&mut self)
        requires
            old(self).wf(),
        ensures
            final(self).wf(),
            *final(self) == (Pallet { bonds: final(self).bonds, ..*old(self) }),
            final(self).bonds@.len() == old(self).bonds@.len(),
            forall|i: int| 0 <= i < final(self).bonds@.len() ==> (#[trigger] final(self).bonds@[i])@.len() == 0,
    {
        let mut fresh: Vec<Vec<u64>> = Vec::new();
        let mut i: usize = 0;
        while i < self.bonds.len()
            invariant
                i <= self.bonds@.len(),
                fresh@.len() == i,
                forall|k: int| 0 <= k < i ==> (#[trigger] fresh@[k])@.len() == 0,
            decreases self.bonds.len() - i,
        {
            fresh.push(Vec::new());
            i = i + 1;
        }
        self.bonds = fresh;
        proof {
            assert forall|k: int| 0 <= k < self.count() implies row_ok(#[trigger] self.weights@[k]@, self.count()) by {
                assert(self.weights@[k] == old(self).weights@[k]);
            }
        }
    }
}

/// Whether a call comes from the privileged origin.
pub open spec fn is_root(origin: Origin) -> bool {
    origin is Root
}

/// Fails unless the call comes from the privileged origin.
pub fn ensure_root(origin: Origin) -> (r: Result<(), Error>)
    ensures
        r is Ok <==> is_root(origin),
        r matches Err(e) ==> e == Error::BadOrigin,
{
    match origin {
        Origin::Root => Ok(()),
        _ => Err(Error::BadOrigin),
    }
}

impl Pallet {
    /// The tunable `minimum_difficulty`.
    pub fn get_minimum_difficulty(&self) -> (r: u64)
        ensures
            r == self.params.minimum_difficulty,
    {
        self.params.minimum_difficulty
    }

    /// The tunable `maximum_difficulty`.
    pub fn get_maximum_difficulty(&self) -> (r: u64)
        ensures
            r == self.params.maximum_difficulty,
    {
        self.params.maximum_difficulty
    }

    /// The tunable `block_emission`.
    pub fn get_block_emission(&self) -> (r: u64)
        ensures
            r == self.params.block_emission,
    {
        self.params.block_emission
    }

    /// The tunable `self_ownership`.
    pub fn get_self_ownership(&self) -> (r: u64)
        ensures
            r == self.params.self_ownership,
    {
        self.params.self_ownership
    }

    /// The tunable `initial_issuance`.
    pub fn get_initial_total_issuance(&self) -> (r: u64)
        ensures
            r == self.params.initial_issuance,
    {
        self.params.initial_issuance
    }

    /// The tunable `blocks_per_step`.
    pub fn get_blocks_per_step(&self) -> (r: u64)
        ensures
            r == self.params.blocks_per_step,
    {
        self.params.blocks_per_step
    }

    /// Sets the tunable `blocks_per_step`.
    pub fn set_blocks_per_step(&mut self, blocks_per_step: u64)
        requires
            old(self).wf(),
        ensures
            final(self).wf(),
            *final(self) == (Pallet { params: Params { blocks_per_step, ..old(self).params }, ..*old(self) }),
    {
        self.params.blocks_per_step = blocks_per_step;
        proof {
            assert forall|i: int| 0 <= i < self.count() implies row_ok(#[trigger] self.weights@[i]@, self.count()) by {
                assert(self.weights@[i] == old(self).weights@[i]);
            }
        }
    }

    /// Sets the tunable `blocks_per_step` from the privileged origin.
    pub fn sudo_set_blocks_per_step(&mut self, origin: Origin, blocks_per_step: u64) -> (r: Result<(), Error>)
        requires
            old(self).wf(),
        ensures
            final(self).wf(),
            r is Ok <==> is_root(origin),
            r matches Err(e) ==> e == Error::BadOrigin,
            r is Err ==> *final(self) == *old(self),
            r is Ok ==> *final(self) == (Pallet { params: Params { blocks_per_step, ..old(self).params }, ..*old(self) }),
    {
        ensure_root(origin)?;
        self.set_blocks_per_step(blocks_per_step);
        Ok(())
    }

    /// The tunable `bonds_moving_average`.
    pub fn get_bonds_moving_average(&self) -> (r: u64)
        ensures
            r == self.params.bonds_moving_average,
    {
        self.params.bonds_moving_average
    }

    /// Sets the tunable `bonds_moving_average`.
    pub fn set_bonds_moving_average(&mut self, bonds_moving_average: u64)
        requires
            old(self).wf(),
        ensures
            final(self).wf(),
            *final(self) == (Pallet { params: Params { bonds_moving_average, ..old(self).params }, ..*old(self) }),
    {
        self.params.bonds_moving_average = bonds_moving_average;
        proof {
            assert forall|i: int| 0 <= i < self.count() implies row_ok(#[trigger] self.weights@[i]@, self.count()) by {
                assert(self.weights@[i] == old(self).weights@[i]);
            }
        }
    }

    /// Sets the tunable `bonds_moving_average` from the privileged origin.
    pub fn sudo_set_bonds_moving_average(&mut self, origin: Origin, bonds_moving_average: u64) -> (r: Result<(), Error>)
        requires
            old(self).wf(),
        ensures
            final(self).wf(),
            r is Ok <==> is_root(origin),
            r matches Err(e) ==> e == Error::BadOrigin,
            r is Err ==> *final(self) == *old(self),
            r is Ok ==> *final(self) == (Pallet { params: Params { bonds_moving_average, ..old(self).params }, ..*old(self) }),
    {
        ensure_root(origin)?;
        self.set_bonds_moving_average(bonds_moving_average);
        Ok(())
    }

    /// The tunable `activity_cutoff`.
    pub fn get_activity_cutoff(&self) -> (r: u64)
        ensures
            r == self.params.activity_cutoff,
    {
        self.params.activity_cutoff
    }

    /// Sets the tunable `activity_cutoff`.
    pub fn set_activity_cutoff(&mut self, activity_cutoff: u64)
        requires
            old(self).wf(),
        ensures
            final(self).wf(),
            *final(self) == (Pallet { params: Params { activity_cutoff, ..old(self).params }, ..*old(self) }),
    {
        self.params.activity_cutoff = activity_cutoff;
        proof {
            assert forall|i: int| 0 <= i < self.count() implies row_ok(#[trigger] self.weights@[i]@, self.count()) by {
                assert(self.weights@[i] == old(self).weights@[i]);
            }
        }
    }

    /// Sets the tunable `activity_cutoff` from the privileged origin.
    pub fn sudo_set_activity_cutoff(&mut self, origin: Origin, activity_cutoff: u64) -> (r: Result<(), Error>)
        requires
            old(self).wf(),
        ensures
            final(self).wf(),
            r is Ok <==> is_root(origin),
            r matches Err(e) ==> e == Error::BadOrigin,
            r is Err ==> *final(self) == *old(self),
            r is Ok ==> *final(self) == (Pallet { params: Params { activity_cutoff, ..old(self).params }, ..*old(self) }),
    {
        ensure_root(origin)?;
        self.set_activity_cutoff(activity_cutoff);
        Ok(())
    }

    /// The tunable `adjustment_interval`.
    pub fn get_adjustment_interval(&self) -> (r: u64)
        ensures
            r == self.params.adjustment_interval,
    {
        self.params.adjustment_interval
    }

    /// Sets the tunable `adjustment_interval`.
    pub fn set_adjustment_interval(&mut self, adjustment_interval: u64)
        requires
            old(self).wf(),
        ensures
            final(self).wf(),
            *final(self) == (Pallet { params: Params { adjustment_interval, ..old(self).params }, ..*old(self) }),
    {
        self.params.adjustment_interval = adjustment_interval;
        proof {
            assert forall|i: int| 0 <= i < self.count() implies row_ok(#[trigger] self.weights@[i]@, self.count()) by {
                assert(self.weights@[i] == old(self).weights@[i]);
            }
        }
    }

    /// Sets the tunable `adjustment_interval` from the privileged origin.
    pub fn sudo_set_adjustment_interval(&mut self, origin: Origin, adjustment_interval: u64) -> (r: Result<(), Error>)
        requires
            old(self).wf(),
        ensures
            final(self).wf(),
            r is Ok <==> is_root(origin),
            r matches Err(e) ==> e == Error::BadOrigin,
            r is Err ==> *final(self) == *old(self),
            r is Ok ==> *final(self) == (Pallet { params: Params { adjustment_interval, ..old(self).params }, ..*old(self) }),
    {
        ensure_root(origin)?;
        self.set_adjustment_interval(adjustment_interval);
        Ok(())
    }

    /// The tunable `target_registrations_per_interval`.
    pub fn get_target_registrations_per_interval(&self) -> (r: u64)
        ensures
            r == self.params.target_registrations_per_interval,
    {
        self.params.target_registrations_per_interval
    }

    /// Sets the tunable `target_registrations_per_interval`.
    pub fn set_target_registrations_per_interval(&mut self, target_registrations_per_interval: u64)
        requires
            old(self).wf(),
        ensures
            final(self).wf(),
            *final(self) == (Pallet { params: Params { target_registrations_per_interval, ..old(self).params }, ..*old(self) }),
    {
        self.params.target_registrations_per_interval = target_registrations_per_interval;
        proof {
            assert forall|i: int| 0 <= i < self.count() implies row_ok(#[trigger] self.weights@[i]@, self.count()) by {
                assert(self.weights@[i] == old(self).weights@[i]);
            }
        }
    }

    /// Sets the tunable `target_registrations_per_interval` from the privileged origin.
    pub fn sudo_target_registrations_per_interval(&mut self, origin: Origin, target_registrations_per_interval: u64) -> (r: Result<(), Error>)
        requires
            old(self).wf(),
        ensures
            final(self).wf(),
            r is Ok <==> is_root(origin),
            r matches Err(e) ==> e == Error::BadOrigin,
            r is Err ==> *final(self) == *old(self),
            r is Ok ==> *final(self) == (Pallet { params: Params { target_registrations_per_interval, ..old(self).params }, ..*old(self) }),
    {
        ensure_root(origin)?;
        self.set_target_registrations_per_interval(target_registrations_per_interval);
        Ok(())
    }

    /// The tunable `max_registrations_per_block`.
    pub fn get_max_registratations_per_block(&self) -> (r: u64)
        ensures
            r == self.params.max_registrations_per_block,
    {
        self.params.max_registrations_per_block
    }

    /// Sets the tunable `max_registrations_per_block`.
    pub fn set_max_registratations_per_block(&mut self, max_registrations_per_block: u64)
        requires
            old(self).wf(),
        ensures
            final(self).wf(),
            *final(self) == (Pallet { params: Params { max_registrations_per_block, ..old(self).params }, ..*old(self) }),
    {
        self.params.max_registrations_per_block = max_registrations_per_block;
        proof {
            assert forall|i: int| 0 <= i < self.count() implies row_ok(#[trigger] self.weights@[i]@, self.count()) by {
                assert(self.weights@[i] == old(self).weights@[i]);
            }
        }
    }

    /// The tunable `rho`.
    pub fn get_rho(&self) -> (r: u64)
        ensures
            r == self.params.rho,
    {
        self.params.rho
    }

    /// Sets the tunable `rho`.
    pub fn set_rho(&mut self, rho: u64)
        requires
            old(self).wf(),
        ensures
            final(self).wf(),
            *final(self) == (Pallet { params: Params { rho, ..old(self).params }, ..*old(self) }),
    {
        self.params.rho = rho;
        proof {
            assert forall|i: int| 0 <= i < self.count() implies row_ok(#[trigger] self.weights@[i]@, self.count()) by {
                assert(self.weights@[i] == old(self).weights@[i]);
            }
        }
    }

    /// Sets the tunable `rho` from the privileged origin.
    pub fn sudo_set_rho(&mut self, origin: Origin, rho: u64) -> (r: Result<(), Error>)
        requires
            old(self).wf(),
        ensures
            final(self).wf(),
            r is Ok <==> is_root(origin),
            r matches Err(e) ==> e == Error::BadOrigin,
            r is Err ==> *final(self) == *old(self),
            r is Ok ==> *final(self) == (Pallet { params: Params { rho, ..old(self).params }, ..*old(self) }),
    {
        ensure_root(origin)?;
        self.set_rho(rho);
        Ok(())
    }

    /// The tunable `kappa`.
    pub fn get_kappa(&self) -> (r: u64)
        ensures
            r == self.params.kappa,
    {
        self.params.kappa
    }

    /// Sets the tunable `kappa`.
    pub fn set_kappa(&mut self, kappa: u64)
        requires
            old(self).wf(),
        ensures
            final(self).wf(),
            *final(self) == (Pallet { params: Params { kappa, ..old(self).params }, ..*old(self) }),
    {
        self.params.kappa = kappa;
        proof {
            assert forall|i: int| 0 <= i < self.count() implies row_ok(#[trigger] self.weights@[i]@, self.count()) by {
                assert(self.weights@[i] == old(self).weights@[i]);
            }
        }
    }

    /// Sets the tunable `kappa` from the privileged origin.
    pub fn sudo_set_kappa(&mut self, origin: Origin, kappa: u64) -> (r: Result<(), Error>)
        requires
            old(self).wf(),
        ensures
            final(self).wf(),
            r is Ok <==> is_root(origin),
            r matches Err(e) ==> e == Error::BadOrigin,
            r is Err ==> *final(self) == *old(self),
            r is Ok ==> *final(self) == (Pallet { params: Params { kappa, ..old(self).params }, ..*old(self) }),
    {
        ensure_root(origin)?;
        self.set_kappa(kappa);
        Ok(())
    }

    /// The tunable `incentive_pruning_denominator`.
    pub fn get_incentive_pruning_denominator(&self) -> (r: u64)
        ensures
            r == self.params.incentive_pruning_denominator,
    {
        self.params.incentive_pruning_denominator
    }

    /// Sets the tunable `incentive_pruning_denominator`.
    pub fn set_incentive_pruning_denominator(&mut self, incentive_pruning_denominator: u64)
        requires
            old(self).wf(),
        ensures
            final(self).wf(),
            *final(self) == (Pallet { params: Params { incentive_pruning_denominator, ..old(self).params }, ..*old(self) }),
    {
        self.params.incentive_pruning_denominator = incentive_pruning_denominator;
        proof {
            assert forall|i: int| 0 <= i < self.count() implies row_ok(#[trigger] self.weights@[i]@, self.count()) by {
                assert(self.weights@[i] == old(self).weights@[i]);
            }
        }
    }

    /// Sets the tunable `incentive_pruning_denominator` from the privileged origin.
    pub fn sudo_set_incentive_pruning_denominator(&mut self, origin: Origin, incentive_pruning_denominator: u64) -> (r: Result<(), Error>)
        requires
            old(self).wf(),
        ensures
            final(self).wf(),
            r is Ok <==> is_root(origin),
            r matches Err(e) ==> e == Error::BadOrigin,
            r is Err ==> *final(self) == *old(self),
            r is Ok ==> *final(self) == (Pallet { params: Params { incentive_pruning_denominator, ..old(self).params }, ..*old(self) }),
    {
        ensure_root(origin)?;
        self.set_incentive_pruning_denominator(incentive_pruning_denominator);
        Ok(())
    }

    /// The tunable `stake_pruning_denominator`.
    pub fn get_stake_pruning_denominator(&self) -> (r: u64)
        ensures
            r == self.params.stake_pruning_denominator,
    {
        self.params.stake_pruning_denominator
    }

    /// Sets the tunable `stake_pruning_denominator`.
    pub fn set_stake_pruning_denominator(&mut self, stake_pruning_denominator: u64)
        requires
            old(self).wf(),
        ensures
            final(self).wf(),
            *final(self) == (Pallet { params: Params { stake_pruning_denominator, ..old(self).params }, ..*old(self) }),
    {
        self.params.stake_pruning_denominator = stake_pruning_denominator;
        proof {
            assert forall|i: int| 0 <= i < self.count() implies row_ok(#[trigger] self.weights@[i]@, self.count()) by {
                assert(self.weights@[i] == old(self).weights@[i]);
            }
        }
    }

    /// Sets the tunable `stake_pruning_denominator` from the privileged origin.
    pub fn sudo_set_stake_pruning_denominator(&mut self, origin: Origin, stake_pruning_denominator: u64) -> (r: Result<(), Error>)
        requires
            old(self).wf(),
        ensures
            final(self).wf(),
            r is Ok <==> is_root(origin),
            r matches Err(e) ==> e == Error::BadOrigin,
            r is Err ==> *final(self) == *old(self),
            r is Ok ==> *final(self) == (Pallet { params: Params { stake_pruning_denominator, ..old(self).params }, ..*old(self) }),
    {
        ensure_root(origin)?;
        self.set_stake_pruning_denominator(stake_pruning_denominator);
        Ok(())
    }

    /// The tunable `stake_pruning_min`.
    pub fn get_stake_pruning_min(&self) -> (r: u64)
        ensures
            r == self.params.stake_pruning_min,
    {
        self.params.stake_pruning_min
    }

    /// Sets the tunable `stake_pruning_min`.
    pub fn set_stake_pruning_min(&mut self, stake_pruning_min: u64)
        requires
            old(self).wf(),
        ensures
            final(self).wf(),
            *final(self) == (Pallet { params: Params { stake_pruning_min, ..old(self).params }, ..*old(self) }),
    {
        self.params.stake_pruning_min = stake_pruning_min;
        proof {
            assert forall|i: int| 0 <= i < self.count() implies row_ok(#[trigger] self.weights@[i]@, self.count()) by {
                assert(self.weights@[i] == old(self).weights@[i]);
            }
        }
    }

    /// Sets the tunable `stake_pruning_min` from the privileged origin.
    pub fn sudo_set_stake_pruning_min(&mut self, origin: Origin, stake_pruning_min: u64) -> (r: Result<(), Error>)
        requires
            old(self).wf(),
        ensures
            final(self).wf(),
            r is Ok <==> is_root(origin),
            r matches Err(e) ==> e == Error::BadOrigin,
            r is Err ==> *final(self) == *old(self),
            r is Ok ==> *final(self) == (Pallet { params: Params { stake_pruning_min, ..old(self).params }, ..*old(self) }),
    {
        ensure_root(origin)?;
        self.set_stake_pruning_min(stake_pruning_min);
        Ok(())
    }

    /// The tunable `validator_sequence_length`.
    pub fn get_validator_sequence_length(&self) -> (r: u64)
        ensures
            r == self.params.validator_sequence_length,
    {
        self.params.validator_sequence_length
    }

    /// Sets the tunable `validator_sequence_length`.
    pub fn set_validator_sequence_length(&mut self, validator_sequence_length: u64)
        requires
            old(self).wf(),
        ensures
            final(self).wf(),
            *final(self) == (Pallet { params: Params { validator_sequence_length, ..old(self).params }, ..*old(self) }),
    {
        self.params.validator_sequence_length = validator_sequence_length;
        proof {
            assert forall|i: int| 0 <= i < self.count() implies row_ok(#[trigger] self.weights@[i]@, self.count()) by {
                assert(self.weights@[i] == old(self).weights@[i]);
            }
        }
    }

    /// Sets the tunable `validator_sequence_length` from the privileged origin.
    pub fn sudo_set_validator_sequence_length(&mut self, origin: Origin, validator_sequence_length: u64) -> (r: Result<(), Error>)
        requires
            old(self).wf(),
        ensures
            final(self).wf(),
            r is Ok <==> is_root(origin),
            r matches Err(e) ==> e == Error::BadOrigin,
            r is Err ==> *final(self) == *old(self),
            r is Ok ==> *final(self) == (Pallet { params: Params { validator_sequence_length, ..old(self).params }, ..*old(self) }),
    {
        ensure_root(origin)?;
        self.set_validator_sequence_length(validator_sequence_length);
        Ok(())
    }

    /// The tunable `validator_batch_size`.
    pub fn get_validator_batch_size(&self) -> (r: u64)
        ensures
            r == self.params.validator_batch_size,
    {
        self.params.validator_batch_size
    }

    /// Sets the tunable `validator_batch_size`.
    pub fn set_validator_batch_size(&mut self, validator_batch_size: u64)
        requires
            old(self).wf(),
        ensures
            final(self).wf(),
            *final(self) == (Pallet { params: Params { validator_batch_size, ..old(self).params }, ..*old(self) }),
    {
        self.params.validator_batch_size = validator_batch_size;
        proof {
            assert forall|i: int| 0 <= i < self.count() implies row_ok(#[trigger] self.weights@[i]@, self.count()) by {
                assert(self.weights@[i] == old(self).weights@[i]);
            }
        }
    }

    /// Sets the tunable `validator_batch_size` from the privileged origin.
    pub fn sudo_set_validator_batch_size(&mut self, origin: Origin, validator_batch_size: u64) -> (r: Result<(), Error>)
        requires
            old(self).wf(),
        ensures
            final(self).wf(),
            r is Ok <==> is_root(origin),
            r matches Err(e) ==> e == Error::BadOrigin,
            r is Err ==> *final(self) == *old(self),
            r is Ok ==> *final(self) == (Pallet { params: Params { validator_batch_size, ..old(self).params }, ..*old(self) }),
    {
        ensure_root(origin)?;
        self.set_validator_batch_size(validator_batch_size);
        Ok(())
    }

    /// The tunable `validator_epoch_len`.
    pub fn get_validator_epoch_len(&self) -> (r: u64)
        ensures
            r == self.params.validator_epoch_len,
    {
        self.params.validator_epoch_len
    }

    /// Sets the tunable `validator_epoch_len`.
    pub fn set_validator_epoch_len(&mut self, validator_epoch_len: u64)
        requires
            old(self).wf(),
        ensures
            final(self).wf(),
            *final(self) == (Pallet { params: Params { validator_epoch_len, ..old(self).params }, ..*old(self) }),
    {
        self.params.validator_epoch_len = validator_epoch_len;
        proof {
            assert forall|i: int| 0 <= i < self.count() implies row_ok(#[trigger] self.weights@[i]@, self.count()) by {
                assert(self.weights@[i] == old(self).weights@[i]);
            }
        }
    }

    /// Sets the tunable `validator_epoch_len` from the privileged origin.
    pub fn sudo_set_validator_epoch_len(&mut self, origin: Origin, validator_epoch_len: u64) -> (r: Result<(), Error>)
        requires
            old(self).wf(),
        ensures
            final(self).wf(),
            r is Ok <==> is_root(origin),
            r matches Err(e) ==> e == Error::BadOrigin,
            r is Err ==> *final(self) == *old(self),
            r is Ok ==> *final(self) == (Pallet { params: Params { validator_epoch_len, ..old(self).params }, ..*old(self) }),
    {
        ensure_root(origin)?;
        self.set_validator_epoch_len(validator_epoch_len);
        Ok(())
    }

    /// The tunable `validator_epochs_per_reset`.
    pub fn get_validator_epochs_per_reset(&self) -> (r: u64)
        ensures
            r == self.params.validator_epochs_per_reset,
    {
        self.params.validator_epochs_per_reset
    }

    /// Sets the tunable `validator_epochs_per_reset`.
    pub fn set_validator_epochs_per_reset(&mut self, validator_epochs_per_reset: u64)
        requires
            old(self).wf(),
        ensures
            final(self).wf(),
            *final(self) == (Pallet { params: Params { validator_epochs_per_reset, ..old(self).params }, ..*old(self) }),
    {
        self.params.validator_epochs_per_reset = validator_epochs_per_reset;
        proof {
            assert forall|i: int| 0 <= i < self.count() implies row_ok(#[trigger] self.weights@[i]@, self.count()) by {
                assert(self.weights@[i] == old(self).weights@[i]);
            }
        }
    }

    /// Sets the tunable `validator_epochs_per_reset` from the privileged origin.
    pub fn sudo_set_validator_epochs_per_reset(&mut self, origin: Origin, validator_epochs_per_reset: u64) -> (r: Result<(), Error>)
        requires
            old(self).wf(),
        ensures
            final(self).wf(),
            r is Ok <==> is_root(origin),
            r matches Err(e) ==> e == Error::BadOrigin,
            r is Err ==> *final(self) == *old(self),
            r is Ok ==> *final(self) == (Pallet { params: Params { validator_epochs_per_reset, ..old(self).params }, ..*old(self) }),
    {
        ensure_root(origin)?;
        self.set_validator_epochs_per_reset(validator_epochs_per_reset);
        Ok(())
    }

    /// The tunable `scaling_law_power`.
    pub fn get_scaling_law_power(&self) -> (r: u8)
        ensures
            r == self.params.scaling_law_power,
    {
        self.params.scaling_law_power
    }

    /// Sets the tunable `scaling_law_power`.
    pub fn set_scaling_law_power(&mut self, scaling_law_power: u8)
        requires
            old(self).wf(),
        ensures
            final(self).wf(),
            *final(self) == (Pallet { params: Params { scaling_law_power, ..old(self).params }, ..*old(self) }),
    {
        self.params.scaling_law_power = scaling_law_power;
        proof {
            assert forall|i: int| 0 <= i < self.count() implies row_ok(#[trigger] self.weights@[i]@, self.count()) by {
                assert(self.weights@[i] == old(self).weights@[i]);
            }
        }
    }

    /// Sets the tunable `scaling_law_power`, a percentage, from the privileged origin.
    pub fn sudo_set_scaling_law_power(&mut self, origin: Origin, scaling_law_power: u8) -> (r: Result<(), Error>)
        requires
            old(self).wf(),
        ensures
            final(self).wf(),
            r is Ok <==> is_root(origin) && scaling_law_power <= 100,
            r matches Err(e) ==> e == (if is_root(origin) {
                Error::StorageValueOutOfRange
            } else {
                Error::BadOrigin
            }),
            r is Err ==> *final(self) == *old(self),
            r is Ok ==> *final(self) == (Pallet { params: Params { scaling_law_power, ..old(self).params }, ..*old(self) }),
    {
        ensure_root(origin)?;
        if scaling_law_power > 100 {
            return Err(Error::StorageValueOutOfRange);
        }
        self.set_scaling_law_power(scaling_law_power);
        Ok(())
    }

    /// The tunable `synergy_scaling_law_power`.
    pub fn get_synergy_scaling_law_power(&self) -> (r: u8)
        ensures
            r == self.params.synergy_scaling_law_power,
    {
        self.params.synergy_scaling_law_power
    }

    /// Sets the tunable `synergy_scaling_law_power`.
    pub fn set_synergy_scaling_law_power(&mut self, synergy_scaling_law_power: u8)
        requires
            old(self).wf(),
        ensures
            final(self).wf(),
            *final(self) == (Pallet { params: Params { synergy_scaling_law_power, ..old(self).params }, ..*old(self) }),
    {
        self.params.synergy_scaling_law_power = synergy_scaling_law_power;
        proof {
            assert forall|i: int| 0 <= i < self.count() implies row_ok(#[trigger] self.weights@[i]@, self.count()) by {
                assert(self.weights@[i] == old(self).weights@[i]);
            }
        }
    }

    /// Sets the tunable `synergy_scaling_law_power`, a percentage, from the privileged origin.
    pub fn sudo_set_synergy_scaling_law_power(&mut self, origin: Origin, synergy_scaling_law_power: u8) -> (r: Result<(), Error>)
        requires
            old(self).wf(),
        ensures
            final(self).wf(),
            r is Ok <==> is_root(origin) && synergy_scaling_law_power <= 100,
            r matches Err(e) ==> e == (if is_root(origin) {
                Error::StorageValueOutOfRange
            } else {
                Error::BadOrigin
            }),
            r is Err ==> *final(self) == *old(self),
            r is Ok ==> *final(self) == (Pallet { params: Params { synergy_scaling_law_power, ..old(self).params }, ..*old(self) }),
    {
        ensure_root(origin)?;
        if synergy_scaling_law_power > 100 {
            return Err(Error::StorageValueOutOfRange);
        }
        self.set_synergy_scaling_law_power(synergy_scaling_law_power);
        Ok(())
    }

    /// The tunable `validator_exclude_quantile`.
    pub fn get_validator_exclude_quantile(&self) -> (r: u8)
        ensures
            r == self.params.validator_exclude_quantile,
    {
        self.params.validator_exclude_quantile
    }

    /// Sets the tunable `validator_exclude_quantile`.
    pub fn set_validator_exclude_quantile(&mut self, validator_exclude_quantile: u8)
        requires
            old(self).wf(),
        ensures
            final(self).wf(),
            *final(self) == (Pallet { params: Params { validator_exclude_quantile, ..old(self).params }, ..*old(self) }),
    {
        self.params.validator_exclude_quantile = validator_exclude_quantile;
        proof {
            assert forall|i: int| 0 <= i < self.count() implies row_ok(#[trigger] self.weights@[i]@, self.count()) by {
                assert(self.weights@[i] == old(self).weights@[i]);
            }
        }
    }

    /// Sets the tunable `validator_exclude_quantile`, a percentage, from the privileged origin.
    pub fn sudo_set_validator_exclude_quantile(&mut self, origin: Origin, validator_exclude_quantile: u8) -> (r: Result<(), Error>)
        requires
            old(self).wf(),
        ensures
            final(self).wf(),
            r is Ok <==> is_root(origin) && validator_exclude_quantile <= 100,
            r matches Err(e) ==> e == (if is_root(origin) {
                Error::StorageValueOutOfRange
            } else {
                Error::BadOrigin
            }),
            r is Err ==> *final(self) == *old(self),
            r is Ok ==> *final(self) == (Pallet { params: Params { validator_exclude_quantile, ..old(self).params }, ..*old(self) }),
    {
        ensure_root(origin)?;
        if validator_exclude_quantile > 100 {
            return Err(Error::StorageValueOutOfRange);
        }
        self.set_validator_exclude_quantile(validator_exclude_quantile);
        Ok(())
    }

    /// The tunable `validator_prune_len`.
    pub fn get_validator_prune_len(&self) -> (r: u64)
        ensures
            r == self.params.validator_prune_len,
    {
        self.params.validator_prune_len
    }

    /// Sets the tunable `validator_prune_len`.
    pub fn set_validator_prune_len(&mut self, validator_prune_len: u64)
        requires
            old(self).wf(),
        ensures
            final(self).wf(),
            *final(self) == (Pallet { params: Params { validator_prune_len, ..old(self).params }, ..*old(self) }),
    {
        self.params.validator_prune_len = validator_prune_len;
        proof {
            assert forall|i: int| 0 <= i < self.count() implies row_ok(#[trigger] self.weights@[i]@, self.count()) by {
                assert(self.weights@[i] == old(self).weights@[i]);
            }
        }
    }

    /// Sets the tunable `validator_prune_len` from the privileged origin.
    pub fn sudo_set_validator_prune_len(&mut self, origin: Origin, validator_prune_len: u64) -> (r: Result<(), Error>)
        requires
            old(self).wf(),
        ensures
            final(self).wf(),
            r is Ok <==> is_root(origin),
            r matches Err(e) ==> e == Error::BadOrigin,
            r is Err ==> *final(self) == *old(self),
            r is Ok ==> *final(self) == (Pallet { params: Params { validator_prune_len, ..old(self).params }, ..*old(self) }),
    {
        ensure_root(origin)?;
        self.set_validator_prune_len(validator_prune_len);
        Ok(())
    }

    /// The tunable `validator_logits_divergence`.
    pub fn get_validator_logits_divergence(&self) -> (r: u64)
        ensures
            r == self.params.validator_logits_divergence,
    {
        self.params.validator_logits_divergence
    }

    /// Sets the tunable `validator_logits_divergence`.
    pub fn set_validator_logits_divergence(&mut self, validator_logits_divergence: u64)
        requires
            old(self).wf(),
        ensures
            final(self).wf(),
            *final(self) == (Pallet { params: Params { validator_logits_divergence, ..old(self).params }, ..*old(self) }),
    {
        self.params.validator_logits_divergence = validator_logits_divergence;
        proof {
            assert forall|i: int| 0 <= i < self.count() implies row_ok(#[trigger] self.weights@[i]@, self.count()) by {
                assert(self.weights@[i] == old(self).weights@[i]);
            }
        }
    }

    /// Sets the tunable `validator_logits_divergence` from the privileged origin.
    pub fn sudo_set_validator_logits_divergence(&mut self, origin: Origin, validator_logits_divergence: u64) -> (r: Result<(), Error>)
        requires
            old(self).wf(),
        ensures
            final(self).wf(),
            r is Ok <==> is_root(origin),
            r matches Err(e) ==> e == Error::BadOrigin,
            r is Err ==> *final(self) == *old(self),
            r is Ok ==> *final(self) == (Pallet { params: Params { validator_logits_divergence, ..old(self).params }, ..*old(self) }),
    {
        ensure_root(origin)?;
        self.set_validator_logits_divergence(validator_logits_divergence);
        Ok(())
    }

    /// The tunable `max_allowed_uids`.
    pub fn get_max_allowed_uids(&self) -> (r: u64)
        ensures
            r == self.params.max_allowed_uids,
    {
        self.params.max_allowed_uids
    }

    /// Sets the tunable `max_allowed_uids`.
    pub fn set_max_allowed_uids(&mut self, max_allowed_uids: u64)
        requires
            old(self).wf(),
        ensures
            final(self).wf(),
            *final(self) == (Pallet { params: Params { max_allowed_uids, ..old(self).params }, ..*old(self) }),
    {
        self.params.max_allowed_uids = max_allowed_uids;
        proof {
            assert forall|i: int| 0 <= i < self.count() implies row_ok(#[trigger] self.weights@[i]@, self.count()) by {
                assert(self.weights@[i] == old(self).weights@[i]);
            }
        }
    }

    /// Sets the tunable `max_allowed_uids` from the privileged origin.
    pub fn sudo_set_max_allowed_uids(&mut self, origin: Origin, max_allowed_uids: u64) -> (r: Result<(), Error>)
        requires
            old(self).wf(),
        ensures
            final(self).wf(),
            r is Ok <==> is_root(origin),
            r matches Err(e) ==> e == Error::BadOrigin,
            r is Err ==> *final(self) == *old(self),
            r is Ok ==> *final(self) == (Pallet { params: Params { max_allowed_uids, ..old(self).params }, ..*old(self) }),
    {
        ensure_root(origin)?;
        self.set_max_allowed_uids(max_allowed_uids);
        Ok(())
    }

    /// The tunable `min_allowed_weights`.
    pub fn get_min_allowed_weights(&self) -> (r: u64)
        ensures
            r == self.params.min_allowed_weights,
    {
        self.params.min_allowed_weights
    }

    /// Sets the tunable `min_allowed_weights`.
    pub fn set_min_allowed_weights(&mut self, min_allowed_weights: u64)
        requires
            old(self).wf(),
        ensures
            final(self).wf(),
            *final(self) == (Pallet { params: Params { min_allowed_weights, ..old(self).params }, ..*old(self) }),
    {
        self.params.min_allowed_weights = min_allowed_weights;
        proof {
            assert forall|i: int| 0 <= i < self.count() implies row_ok(#[trigger] self.weights@[i]@, self.count()) by {
                assert(self.weights@[i] == old(self).weights@[i]);
            }
        }
    }

    /// Sets the tunable `min_allowed_weights` from the privileged origin.
    pub fn sudo_set_min_allowed_weights(&mut self, origin: Origin, min_allowed_weights: u64) -> (r: Result<(), Error>)
        requires
            old(self).wf(),
        ensures
            final(self).wf(),
            r is Ok <==> is_root(origin),
            r matches Err(e) ==> e == Error::BadOrigin,
            r is Err ==> *final(self) == *old(self),
            r is Ok ==> *final(self) == (Pallet { params: Params { min_allowed_weights, ..old(self).params }, ..*old(self) }),
    {
        ensure_root(origin)?;
        self.set_min_allowed_weights(min_allowed_weights);
        Ok(())
    }

    /// The tunable `max_allowed_max_min_ratio`.
    pub fn get_max_allowed_max_min_ratio(&self) -> (r: u64)
        ensures
            r == self.params.max_allowed_max_min_ratio,
    {
        self.params.max_allowed_max_min_ratio
    }

    /// Sets the tunable `max_allowed_max_min_ratio`.
    pub fn set_max_allowed_max_min_ratio(&mut self, max_allowed_max_min_ratio: u64)
        requires
            old(self).wf(),
        ensures
            final(self).wf(),
            *final(self) == (Pallet { params: Params { max_allowed_max_min_ratio, ..old(self).params }, ..*old(self) }),
    {
        self.params.max_allowed_max_min_ratio = max_allowed_max_min_ratio;
        proof {
            assert forall|i: int| 0 <= i < self.count() implies row_ok(#[trigger] self.weights@[i]@, self.count()) by {
                assert(self.weights@[i] == old(self).weights@[i]);
            }
        }
    }

    /// Sets the tunable `max_allowed_max_min_ratio` from the privileged origin.
    pub fn sudo_set_max_allowed_max_min_ratio(&mut self, origin: Origin, max_allowed_max_min_ratio: u64) -> (r: Result<(), Error>)
        requires
            old(self).wf(),
        ensures
            final(self).wf(),
            r is Ok <==> is_root(origin),
            r matches Err(e) ==> e == Error::BadOrigin,
            r is Err ==> *final(self) == *old(self),
            r is Ok ==> *final(self) == (Pallet { params: Params { max_allowed_max_min_ratio, ..old(self).params }, ..*old(self) }),
    {
        ensure_root(origin)?;
        self.set_max_allowed_max_min_ratio(max_allowed_max_min_ratio);
        Ok(())
    }

    /// The tunable `max_weight_limit`.
    pub fn get_max_weight_limit(&self) -> (r: u32)
        ensures
            r == self.params.max_weight_limit,
    {
        self.params.max_weight_limit
    }

    /// Sets the tunable `max_weight_limit`.
    pub fn set_max_weight_limit(&mut self, max_weight_limit: u32)
        requires
            old(self).wf(),
        ensures
            final(self).wf(),
            *final(self) == (Pallet { params: Params { max_weight_limit, ..old(self).params }, ..*old(self) }),
    {
        self.params.max_weight_limit = max_weight_limit;
        proof {
            assert forall|i: int| 0 <= i < self.count() implies row_ok(#[trigger] self.weights@[i]@, self.count()) by {
                assert(self.weights@[i] == old(self).weights@[i]);
            }
        }
    }

    /// Sets the tunable `max_weight_limit` from the privileged origin.
    pub fn sudo_set_max_weight_limit(&mut self, origin: Origin, max_weight_limit: u32) -> (r: Result<(), Error>)
        requires
            old(self).wf(),
        ensures
            final(self).wf(),
            r is Ok <==> is_root(origin),
            r matches Err(e) ==> e == Error::BadOrigin,
            r is Err ==> *final(self) == *old(self),
            r is Ok ==> *final(self) == (Pallet { params: Params { max_weight_limit, ..old(self).params }, ..*old(self) }),
    {
        ensure_root(origin)?;
        self.set_max_weight_limit(max_weight_limit);
        Ok(())
    }

    /// The tunable `immunity_period`.
    pub fn get_immunity_period(&self) -> (r: u64)
        ensures
            r == self.params.immunity_period,
    {
        self.params.immunity_period
    }

    /// Sets the tunable `immunity_period`.
    pub fn set_immunity_period(&mut self, immunity_period: u64)
        requires
            old(self).wf(),
        ensures
            final(self).wf(),
            *final(self) == (Pallet { params: Params { immunity_period, ..old(self).params }, ..*old(self) }),
    {
        self.params.immunity_period = immunity_period;
        proof {
            assert forall|i: int| 0 <= i < self.count() implies row_ok(#[trigger] self.weights@[i]@, self.count()) by {
                assert(self.weights@[i] == old(self).weights@[i]);
            }
        }
    }

    /// Sets the tunable `immunity_period` from the privileged origin.
    pub fn sudo_set_immunity_period(&mut self, origin: Origin, immunity_period: u64) -> (r: Result<(), Error>)
        requires
            old(self).wf(),
        ensures
            final(self).wf(),
            r is Ok <==> is_root(origin),
            r matches Err(e) ==> e == Error::BadOrigin,
            r is Err ==> *final(self) == *old(self),
            r is Ok ==> *final(self) == (Pallet { params: Params { immunity_period, ..old(self).params }, ..*old(self) }),
    {
        ensure_root(origin)?;
        self.set_immunity_period(immunity_period);
        Ok(())
    }

    /// The counter `blocks_since_last_step`.
    pub fn get_blocks_since_last_step(&self) -> (r: u64)
        ensures
            r == self.blocks_since_last_step,
    {
        self.blocks_since_last_step
    }

    /// Sets the counter `blocks_since_last_step`.
    pub fn set_blocks_since_last_step(&mut self, blocks_since_last_step: u64)
        requires
            old(self).wf(),
        ensures
            final(self).wf(),
            *final(self) == (Pallet { blocks_since_last_step, ..*old(self) }),
    {
        self.blocks_since_last_step = blocks_since_last_step;
        proof {
            assert forall|i: int| 0 <= i < self.count() implies row_ok(#[trigger] self.weights@[i]@, self.count()) by {
                assert(self.weights@[i] == old(self).weights@[i]);
            }
        }
    }

    /// The counter `difficulty`.
    pub fn get_difficulty_as_u64(&self) -> (r: u64)
        ensures
            r == self.difficulty,
    {
        self.difficulty
    }

    /// Sets the counter `difficulty`.
    pub fn set_difficulty_from_u64(&mut self, difficulty: u64)
        requires
            old(self).wf(),
        ensures
            final(self).wf(),
            *final(self) == (Pallet { difficulty, ..*old(self) }),
    {
        self.difficulty = difficulty;
        proof {
            assert forall|i: int| 0 <= i < self.count() implies row_ok(#[trigger] self.weights@[i]@, self.count()) by {
                assert(self.weights@[i] == old(self).weights@[i]);
            }
        }
    }

    /// The counter `last_mechanism_step_block`.
    pub fn get_last_mechanism_step_block(&self) -> (r: u64)
        ensures
            r == self.last_mechanism_step_block,
    {
        self.last_mechanism_step_block
    }

    /// The counter `registrations_this_interval`.
    pub fn get_registrations_this_interval(&self) -> (r: u64)
        ensures
            r == self.registrations_this_interval,
    {
        self.registrations_this_interval
    }

    /// The counter `registrations_this_block`.
    pub fn get_registrations_this_block(&self) -> (r: u64)
        ensures
            r == self.registrations_this_block,
    {
        self.registrations_this_block
    }

    /// The counter `total_stake`.
    pub fn get_total_stake(&self) -> (r: u64)
        ensures
            r == self.total_stake,
    {
        self.total_stake
    }

    /// The counter `total_issuance`.
    pub fn get_total_issuance(&self) -> (r: u64)
        ensures
            r == self.total_issuance,
    {
        self.total_issuance
    }

    /// Sets the difficulty from the privileged origin.
    pub fn sudo_set_difficulty(&mut self, origin: Origin, difficulty: u64) -> (r: Result<(), Error>)
        requires
            old(self).wf(),
        ensures
            final(self).wf(),
            r is Ok <==> is_root(origin),
            r matches Err(e) ==> e == Error::BadOrigin,
            r is Err ==> *final(self) == *old(self),
            r is Ok ==> *final(self) == (Pallet { difficulty, ..*old(self) }),
    {
        ensure_root(origin)?;
        self.set_difficulty_from_u64(difficulty);
        Ok(())
    }

    /// Clears every bond, from the privileged origin.
    pub fn sudo_reset_bonds(&mut self, origin: Origin) -> (r: Result<(), Error>)
        requires
            old(self).wf(),
        ensures
            final(self).wf(),
            r is Ok <==> is_root(origin),
            r matches Err(e) ==> e == Error::BadOrigin,
            r is Err ==> *final(self) == *old(self),
            r is Ok ==> forall|i: int| 0 <= i < final(self).bonds@.len() ==> (#[trigger] final(self).bonds@[i])@.len() == 0,
            r is Ok ==> final(self).bonds@.len() == old(self).bonds@.len(),
            r is Ok ==> *final(self) == (Pallet { bonds: final(self).bonds, ..*old(self) }),
    {
        ensure_root(origin)?;
        self.reset_bonds();
        Ok(())
    }
}

/// A copy of a vector.
fn copy_u64s(v: &Vec<u64>) -> (r: Vec<u64>)
    ensures
        r@ == v@,
{
    let mut r: Vec<u64> = Vec::new();
    let mut i: usize = 0;
    while i < v.len()
        invariant
            i <= v@.len(),
            r@ == v@.subrange(0, i as int),
        decreases v.len() - i,
    {
        r.push(v[i]);
        i = i + 1;
    }
    assert(v@.subrange(0, i as int) =~= v@);
    r
}

/// A dense weight of a row with distinct targets is the weight of at most
/// one entry, so it fits in a `u32`; it is zero while no entry names `j`.
proof fn lemma_dense_weight_single(row: Seq<(u32, u32)>, j: int, kk: int)
    requires
        0 <= kk <= row.len(),
        forall|a: int, b: int| 0 <= a < b < row.len() ==> row[a].0 != row[b].0,
    ensures
        0 <= dense_weight(row, j, kk) <= u32::MAX,
        (forall|k: int| 0 <= k < kk ==> row[k].0 as int != j) ==> dense_weight(row, j, kk) == 0,
    decreases kk,
{
    if kk > 0 {
        lemma_dense_weight_single(row, j, kk - 1);
        if row[kk - 1].0 as int == j {
            assert forall|k: int| 0 <= k < kk - 1 implies row[k].0 as int != j by {
                assert(row[k].0 != row[kk - 1].0);
            }
        }
    }
}

impl Pallet {
    /// The `last_update` of every participant, by uid.
    pub fn get_lastupdate(&self) -> (r: Vec<u64>)
        ensures
            r@ == self.last_update@,
    {
        copy_u64s(&self.last_update)
    }

    /// The `stake` of every participant, by uid.
    pub fn get_stake(&self) -> (r: Vec<u64>)
        ensures
            r@ == self.stake@,
    {
        copy_u64s(&self.stake)
    }

    /// The `ranks` of every participant, by uid.
    pub fn get_ranks(&self) -> (r: Vec<u64>)
        ensures
            r@ == self.ranks@,
    {
        copy_u64s(&self.ranks)
    }

    /// The `trust` of every participant, by uid.
    pub fn get_trust(&self) -> (r: Vec<u64>)
        ensures
            r@ == self.trust@,
    {
        copy_u64s(&self.trust)
    }

    /// The `consensus` of every participant, by uid.
    pub fn get_consensus(&self) -> (r: Vec<u64>)
        ensures
            r@ == self.consensus@,
    {
        copy_u64s(&self.consensus)
    }

    /// The `incentive` of every participant, by uid.
    pub fn get_incentive(&self) -> (r: Vec<u64>)
        ensures
            r@ == self.incentive@,
    {
        copy_u64s(&self.incentive)
    }

    /// The `dividends` of every participant, by uid.
    pub fn get_dividends(&self) -> (r: Vec<u64>)
        ensures
            r@ == self.dividends@,
    {
        copy_u64s(&self.dividends)
    }

    /// The `emission` of every participant, by uid.
    pub fn get_emission(&self) -> (r: Vec<u64>)
        ensures
            r@ == self.emission@,
    {
        copy_u64s(&self.emission)
    }

    /// The activity flag of every participant, by uid.
    pub fn get_active(&self) -> (r: Vec<u32>)
        ensures
            r@ == self.active@,
    {
        let mut r: Vec<u32> = Vec::new();
        let mut i: usize = 0;
        while i < self.active.len()
            invariant
                i <= self.active@.len(),
                r@ == self.active@.subrange(0, i as int),
            decreases self.active.len() - i,
        {
            r.push(self.active[i]);
            i = i + 1;
        }
        assert(self.active@.subrange(0, i as int) =~= self.active@);
        r
    }

    /// The weights of participant `uid` laid out densely over all uids.
    pub fn get_weights_for_neuron(&self, uid: u32) -> (r: Vec<u32>)
        requires
            self.wf(),
            uid < self.count(),
        ensures
            r@.len() == self.count(),
            forall|j: int|
                0 <= j < self.count() ==> r@[j] as int == dense_weight(
                    self.weights@[uid as int]@,
                    j,
                    self.weights@[uid as int]@.len() as int,
                ),
    {
        let n = self.hotkeys.len();
        let row = &self.weights[uid as usize];
        proof {
            assert(row_ok(row@, n as int));
            lemma_row_len(row@, n as int);
        }
        let dense = dense_row(row, n);
        let mut r: Vec<u32> = Vec::new();
        let mut j: usize = 0;
        while j < n
            invariant
                n == self.count(),
                dense@.len() == n,
                row@ == self.weights@[uid as int]@,
                row_ok(row@, n as int),
                forall|q: int| 0 <= q < n ==> dense@[q] as int == dense_weight(row@, q, row@.len() as int),
                j <= n,
                r@.len() == j,
                forall|q: int| 0 <= q < j ==> r@[q] as int == dense@[q] as int,
            decreases n - j,
        {
            proof {
                lemma_dense_weight_single(row@, j as int, row@.len() as int);
            }
            r.push(dense[j] as u32);
            j = j + 1;
        }
        r
    }

    /// The weights of every participant, each row laid out densely.
    pub fn get_weights(&self) -> (r: Vec<Vec<u32>>)
        requires
            self.wf(),
        ensures
            r@.len() == self.count(),
            forall|i: int, j: int|
                0 <= i < self.count() && 0 <= j < self.count() ==> #[trigger] r@[i]@[j] as int == dense_weight(
                    self.weights@[i]@,
                    j,
                    self.weights@[i]@.len() as int,
                ),
            forall|i: int| 0 <= i < self.count() ==> (#[trigger] r@[i])@.len() == self.count(),
    {
        let mut r: Vec<Vec<u32>> = Vec::new();
        let mut i: usize = 0;
        while i < self.hotkeys.len()
            invariant
                self.wf(),
                i <= self.count(),
                r@.len() == i,
                forall|q: int, j: int|
                    0 <= q < i && 0 <= j < self.count() ==> #[trigger] r@[q]@[j] as int == dense_weight(
                        self.weights@[q]@,
                        j,
                        self.weights@[q]@.len() as int,
                    ),
                forall|q: int| 0 <= q < i ==> (#[trigger] r@[q])@.len() == self.count(),
            decreases self.hotkeys.len() - i,
        {
            r.push(self.get_weights_for_neuron(i as u32));
            i = i + 1;
        }
        r
    }

    /// The bonds of participant `uid` laid out densely over all uids.
    pub fn get_bonds_for_neuron(&self, uid: u32) -> (r: Vec<u64>)
        requires
            self.wf(),
            uid < self.count(),
        ensures
            r@.len() == self.count(),
            forall|j: int| 0 <= j < self.count() ==> r@[j] as int == bond_of(self.bonds@[uid as int]@, j),
    {
        let n = self.hotkeys.len();
        let row = &self.bonds[uid as usize];
        let mut r: Vec<u64> = Vec::new();
        let mut j: usize = 0;
        while j < n
            invariant
                n == self.count(),
                row@ == self.bonds@[uid as int]@,
                j <= n,
                r@.len() == j,
                forall|q: int| 0 <= q < j ==> r@[q] as int == bond_of(row@, q),
            decreases n - j,
        {
            let b: u64 = if j < row.len() {
                row[j]
            } else {
                0
            };
            r.push(b);
            j = j + 1;
        }
        r
    }

    /// The bonds of every participant, each row laid out densely.
    pub fn get_bonds(&self) -> (r: Vec<Vec<u64>>)
        requires
            self.wf(),
        ensures
            r@.len() == self.count(),
            forall|i: int, j: int|
                0 <= i < self.count() && 0 <= j < self.count() ==> #[trigger] r@[i]@[j] as int == bond_of(
                    self.bonds@[i]@,
                    j,
                ),
            forall|i: int| 0 <= i < self.count() ==> (#[trigger] r@[i])@.len() == self.count(),
    {
        let mut r: Vec<Vec<u64>> = Vec::new();
        let mut i: usize = 0;
        while i < self.hotkeys.len()
            invariant
                self.wf(),
                i <= self.count(),
                r@.len() == i,
                forall|q: int, j: int|
                    0 <= q < i && 0 <= j < self.count() ==> #[trigger] r@[q]@[j] as int == bond_of(
                        self.bonds@[q]@,
                        j,
                    ),
                forall|q: int| 0 <= q < i ==> (#[trigger] r@[q])@.len() == self.count(),
            decreases self.hotkeys.len() - i,
        {
            r.push(self.get_bonds_for_neuron(i as u32));
            i = i + 1;
        }
        r
    }

    /// Sets every participant's stake from the first entries of `stake`, and
    /// the total stake to their sum held at `u64::MAX`.
    pub fn set_stake_from_vector(&mut self, stake: Vec<u64>)
        requires
            old(self).wf(),
            stake@.len() >= old(self).count(),
        ensures
            final(self).wf(),
            *final(self) == (Pallet {
                stake: final(self).stake,
                total_stake: final(self).total_stake,
                ..*old(self)
            }),
            final(self).stake@ == stake@.subrange(0, old(self).count()),
            final(self).total_stake as int == if sum64(final(self).stake@) > u64::MAX {
                u64::MAX as int
            } else {
                sum64(final(self).stake@)
            },
    {
        let kept = prefix_u64s(&stake, self.hotkeys.len());
        let total = total_of(&kept);
        self.total_stake = if total > 0xFFFF_FFFF_FFFF_FFFF {
            0xFFFF_FFFF_FFFF_FFFF
        } else {
            total as u64
        };
        self.stake = kept;
        proof {
            assert forall|i: int| 0 <= i < self.count() implies row_ok(#[trigger] self.weights@[i]@, self.count()) by {
                assert(self.weights@[i] == old(self).weights@[i]);
            }
        }
    }

    /// Sets every participant's last update from the first entries of
    /// `last_update`.
    pub fn set_last_update_from_vector(&mut self, last_update: Vec<u64>)
        requires
            old(self).wf(),
            last_update@.len() >= old(self).count(),
        ensures
            final(self).wf(),
            *final(self) == (Pallet { last_update: final(self).last_update, ..*old(self) }),
            final(self).last_update@ == last_update@.subrange(0, old(self).count()),
    {
        self.last_update = prefix_u64s(&last_update, self.hotkeys.len());
        proof {
            assert forall|i: int| 0 <= i < self.count() implies row_ok(#[trigger] self.weights@[i]@, self.count()) by {
                assert(self.weights@[i] == old(self).weights@[i]);
            }
        }
    }

    /// Sets every participant's bonds from the first rows of a dense matrix,
    /// each row cut to the registry's size.
    pub fn set_bonds_from_matrix(&mut self, bonds: Vec<Vec<u64>>)
        requires
            old(self).wf(),
            bonds@.len() >= old(self).count(),
        ensures
            final(self).wf(),
            *final(self) == (Pallet { bonds: final(self).bonds, ..*old(self) }),
            forall|i: int|
                0 <= i < old(self).count() ==> (#[trigger] final(self).bonds@[i])@ == bonds@[i]@.subrange(
                    0,
                    cut(bonds@[i]@.len() as int, old(self).count()),
                ),
    {
        let n = self.hotkeys.len();
        let mut rows: Vec<Vec<u64>> = Vec::new();
        let mut i: usize = 0;
        while i < n
            invariant
                n == self.count(),
                bonds@.len() >= n,
                i <= n,
                rows@.len() == i,
                forall|q: int|
                    0 <= q < i ==> (#[trigger] rows@[q])@ == bonds@[q]@.subrange(0, cut(bonds@[q]@.len() as int, n as int)),
            decreases n - i,
        {
            let row = &bonds[i];
            let m = if row.len() < n {
                row.len()
            } else {
                n
            };
            rows.push(prefix_u64s(row, m));
            i = i + 1;
        }
        self.bonds = rows;
        proof {
            assert forall|k: int| 0 <= k < self.count() implies row_ok(#[trigger] self.weights@[k]@, self.count()) by {
                assert(self.weights@[k] == old(self).weights@[k]);
            }
        }
    }

    /// Sets every participant's weights from the first rows of a dense
    /// matrix, each row cut to the registry's size: its non-zero entries are
    /// kept as they are. A round normalizes them when it reads them.
    pub fn set_weights_from_matrix(&mut self, weights: Vec<Vec<u32>>)
        requires
            old(self).wf(),
            weights@.len() >= old(self).count(),
        ensures
            final(self).wf(),
            *final(self) == (Pallet { weights: final(self).weights, ..*old(self) }),
            forall|i: int|
                0 <= i < old(self).count() ==> (#[trigger] final(self).weights@[i])@ == sparse_of(
                    weights@[i]@.subrange(0, cut(weights@[i]@.len() as int, old(self).count())),
                ),
    {
        let n = self.hotkeys.len();
        let mut rows: Vec<Vec<(u32, u32)>> = Vec::new();
        let mut i: usize = 0;
        while i < n
            invariant
                n == self.count(),
                n < u32::MAX,
                weights@.len() >= n,
                i <= n,
                rows@.len() == i,
                forall|q: int|
                    0 <= q < i ==> (#[trigger] rows@[q])@ == sparse_of(
                        weights@[q]@.subrange(0, cut(weights@[q]@.len() as int, n as int)),
                    ),
                forall|q: int| 0 <= q < i ==> row_ok(#[trigger] rows@[q]@, n as int),
            decreases n - i,
        {
            let full_row = &weights[i];
            let m = if full_row.len() < n {
                full_row.len()
            } else {
                n
            };
            let head = prefix_u32s(full_row, m);
            let row = sparse_row(&head);
            proof {
                lemma_sparse_sum(head@, head@.len() as int);
                assert(head@.subrange(0, head@.len() as int) =~= head@);
            }
            rows.push(row);
            i = i + 1;
        }
        self.weights = rows;
    }

    /// The fee of a transaction of `len` bytes.
    pub fn calculate_transaction_fee(len: u64) -> (r: u64)
        requires
            len <= u64::MAX / 100,
        ensures
            r == len * 100,
    {
        len * 100
    }

    /// The priority of a weight-set request of `len` bytes from `hotkey`:
    /// its participant's priority times a million over `len`, held at
    /// `u64::MAX`; zero for a hotkey that is not registered.
    pub fn get_priority_set_weights(&self, hotkey: u64, len: u64) -> (r: u64)
        requires
            self.wf(),
            self.uid_of(hotkey) is Some ==> len > 0,
        ensures
            r == match self.uid_of(hotkey) {
                None => 0,
                Some(u) => stored(self.priority@[u] as int * 1_000_000 / len as int),
            },
    {
        match self.get_uid_for_hotkey(hotkey) {
            None => 0,
            Some(u) => {
                let v: u128 = (self.priority[u as usize] as u128) * 1_000_000 / (len as u128);
                if v > 0xFFFF_FFFF_FFFF_FFFF {
                    0xFFFF_FFFF_FFFF_FFFF
                } else {
                    v as u64
                }
            },
        }
    }
}

/// The length of a row cut to `n` entries.
pub open spec fn cut(len: int, n: int) -> int {
    if len < n {
        len
    } else {
        n
    }
}

/// The first `n` entries of a vector.
fn prefix_u64s(v: &Vec<u64>, n: usize) -> (r: Vec<u64>)
    requires
        n <= v@.len(),
    ensures
        r@ == v@.subrange(0, n as int),
{
    let mut r: Vec<u64> = Vec::new();
    let mut i: usize = 0;
    while i < n
        invariant
            n <= v@.len(),
            i <= n,
            r@ == v@.subrange(0, i as int),
        decreases n - i,
    {
        r.push(v[i]);
        i = i + 1;
    }
    r
}

/// The first `n` entries of a vector.
fn prefix_u32s(v: &Vec<u32>, n: usize) -> (r: Vec<u32>)
    requires
        n <= v@.len(),
    ensures
        r@ == v@.subrange(0, n as int),
{
    let mut r: Vec<u32> = Vec::new();
    let mut i: usize = 0;
    while i < n
        invariant
            n <= v@.len(),
            i <= n,
            r@ == v@.subrange(0, i as int),
        decreases n - i,
    {
        r.push(v[i]);
        i = i + 1;
    }
    r
}

/// The non-zero entries of a dense row, with their indices.
pub open spec fn sparse_of(dense: Seq<u32>) -> Seq<(u32, u32)>
    decreases dense.len(),
{
    if dense.len() == 0 {
        Seq::empty()
    } else if dense.last() != 0 {
        sparse_of(dense.drop_last()).push(((dense.len() - 1) as u32, dense.last()))
    } else {
        sparse_of(dense.drop_last())
    }
}

/// The sparse row of a dense one: its non-zero entries have indices below
/// its length, increasing, and the same sum.
proof fn lemma_sparse_sum(dense: Seq<u32>, kk: int)
    requires
        0 <= kk <= dense.len(),
        dense.len() < u32::MAX,
    ensures
        sum32(row_weights(sparse_of(dense.subrange(0, kk)))) == sum32(dense.subrange(0, kk)),
        forall|a: int|
            0 <= a < sparse_of(dense.subrange(0, kk)).len() ==> (#[trigger] sparse_of(dense.subrange(0, kk))[a]).0 < kk,
        forall|a: int, b: int|
            0 <= a < b < sparse_of(dense.subrange(0, kk)).len() ==> (#[trigger] sparse_of(dense.subrange(0, kk))[a]).0
                < (#[trigger] sparse_of(dense.subrange(0, kk))[b]).0,
    decreases kk,
{
    let d = dense.subrange(0, kk);
    if kk > 0 {
        lemma_sparse_sum(dense, kk - 1);
        assert(d.drop_last() =~= dense.subrange(0, kk - 1));
        let prev = sparse_of(dense.subrange(0, kk - 1));
        if d.last() != 0 {
            assert(row_weights(sparse_of(d)).drop_last() =~= row_weights(prev));
        } else {
            assert(sparse_of(d) == prev);
        }
    } else {
        assert(row_weights(sparse_of(d)) =~= Seq::<u32>::empty());
    }
}

/// The non-zero entries of a dense row, with their indices.
fn sparse_row(dense: &Vec<u32>) -> (r: Vec<(u32, u32)>)
    requires
        dense@.len() < u32::MAX,
    ensures
        r@ == sparse_of(dense@),
{
    let mut r: Vec<(u32, u32)> = Vec::new();
    let mut j: usize = 0;
    while j < dense.len()
        invariant
            dense@.len() < u32::MAX,
            j <= dense@.len(),
            r@ == sparse_of(dense@.subrange(0, j as int)),
        decreases dense.len() - j,
    {
        assert(dense@.subrange(0, j + 1).drop_last() =~= dense@.subrange(0, j as int));
        if dense[j] != 0 {
            r.push((j as u32, dense[j]));
        }
        j = j + 1;
    }
    assert(dense@.subrange(0, j as int) =~= dense@);
    r
}

/// A snapshot of one participant.
pub struct NeuronMetadata {
    pub version: u32,
    pub ip: u128,
    pub port: u16,
    pub ip_type: u8,
    pub uid: u32,
    pub modality: u8,
    pub hotkey: u64,
    pub coldkey: u64,
    pub active: u32,
    pub last_update: u64,
    pub priority: u64,
    pub stake: u64,
    pub rank: u64,
    pub trust: u64,
    pub consensus: u64,
    pub incentive: u64,
    pub dividends: u64,
    pub emission: u64,
    /// Dense bond row; entries past its end are zero.
    pub bonds: Vec<u64>,
    /// Sparse weight row of `(target uid, weight)`.
    pub weights: Vec<(u32, u32)>,
}

/// A copy of a sparse weight row.
fn copy_pairs(v: &Vec<(u32, u32)>) -> (r: Vec<(u32, u32)>)
    ensures
        r@ == v@,
{
    let mut r: Vec<(u32, u32)> = Vec::new();
    let mut i: usize = 0;
    while i < v.len()
        invariant
            i <= v@.len(),
            r@ == v@.subrange(0, i as int),
        decreases v.len() - i,
    {
        r.push(v[i]);
        i = i + 1;
    }
    assert(v@.subrange(0, i as int) =~= v@);
    r
}

impl Pallet {
    /// A snapshot of participant `uid`.
    pub fn get_neuron_for_uid(&self, uid: u32) -> (r: NeuronMetadata)
        requires
            self.wf(),
            uid < self.count(),
        ensures
            r.uid == uid,
            r.hotkey == self.hotkeys@[uid as int],
            r.coldkey == self.coldkeys@[uid as int],
            r.stake == self.stake@[uid as int],
            r.rank == self.ranks@[uid as int],
            r.trust == self.trust@[uid as int],
            r.consensus == self.consensus@[uid as int],
            r.incentive == self.incentive@[uid as int],
            r.dividends == self.dividends@[uid as int],
            r.emission == self.emission@[uid as int],
            r.active == self.active@[uid as int],
            r.last_update == self.last_update@[uid as int],
            r.priority == self.priority@[uid as int],
            r.version == self.axons@[uid as int].version,
            r.ip == self.axons@[uid as int].ip,
            r.port == self.axons@[uid as int].port,
            r.ip_type == self.axons@[uid as int].ip_type,
            r.modality == self.axons@[uid as int].modality,
            r.bonds@ == self.bonds@[uid as int]@,
            r.weights@ == self.weights@[uid as int]@,
    {
        let u = uid as usize;
        let axon = self.axons[u];
        NeuronMetadata {
            version: axon.version,
            ip: axon.ip,
            port: axon.port,
            ip_type: axon.ip_type,
            uid,
            modality: axon.modality,
            hotkey: self.hotkeys[u],
            coldkey: self.coldkeys[u],
            active: self.active[u],
            last_update: self.last_update[u],
            priority: self.priority[u],
            stake: self.stake[u],
            rank: self.ranks[u],
            trust: self.trust[u],
            consensus: self.consensus[u],
            incentive: self.incentive[u],
            dividends: self.dividends[u],
            emission: self.emission[u],
            bonds: copy_u64s(&self.bonds[u]),
            weights: copy_pairs(&self.weights[u]),
        }
    }

    /// A snapshot of the participant of a registered hotkey.
    pub fn get_neuron_for_hotkey(&self, hotkey: u64) -> (r: Option<NeuronMetadata>)
        requires
            self.wf(),
        ensures
            r is None <==> self.uid_of(hotkey) is None,
            r matches Some(m) ==> m.hotkey == hotkey && self.uid_of(hotkey) == Some(m.uid as int),
    {
        match self.get_uid_for_hotkey(hotkey) {
            None => None,
            Some(u) => Some(self.get_neuron_for_uid(u)),
        }
    }
}

} // verus!
