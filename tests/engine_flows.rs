use subtensor::engine::{Origin, Pallet, Params};
use subtensor::error::Error;
use subtensor::registration::create_seal_hash;

fn engine() -> Pallet {
    Pallet::new(Params::standard(), 1)
}

fn join(p: &mut Pallet, current_block: u64, hotkey: u64, coldkey: u64) -> u32 {
    let work = create_seal_hash(current_block, 7, hotkey);
    p.register(current_block, current_block, 7, work, hotkey, coldkey).unwrap().uid
}

#[test]
fn register_assigns_consecutive_uids() {
    let mut p = engine();
    assert_eq!(join(&mut p, 0, 11, 21), 0);
    assert_eq!(join(&mut p, 0, 12, 22), 1);
    assert_eq!(p.get_neuron_count(), 2);
    assert_eq!(p.get_uid_for_hotkey(12), Some(1));
    assert_eq!(p.get_registrations_this_block(), 2);
    assert_eq!(p.get_registrations_this_interval(), 2);
}

#[test]
fn resubmitted_work_is_refused() {
    let mut p = engine();
    let work = create_seal_hash(0, 3, 11);
    assert!(p.register(0, 0, 3, work.clone(), 11, 21).is_ok());
    let r = p.register(0, 0, 3, work, 12, 22);
    assert!(matches!(r, Err(Error::WorkRepeated)));
    assert_eq!(p.get_neuron_count(), 1);
}

#[test]
fn work_from_the_future_or_too_old_is_refused() {
    let mut p = engine();
    let w1 = create_seal_hash(5, 0, 11);
    assert!(matches!(p.register(4, 5, 0, w1, 11, 21), Err(Error::InvalidWorkBlock)));
    let w2 = create_seal_hash(1, 0, 11);
    assert!(matches!(p.register(4, 1, 0, w2, 11, 21), Err(Error::InvalidWorkBlock)));
    let w3 = create_seal_hash(2, 0, 11);
    assert!(p.register(4, 2, 0, w3, 11, 21).is_ok());
}

#[test]
fn wrong_seal_is_refused() {
    let mut p = engine();
    let work = create_seal_hash(0, 1, 99);
    assert!(matches!(p.register(0, 0, 1, work, 11, 21), Err(Error::InvalidSeal)));
}

#[test]
fn work_above_the_target_is_refused() {
    let mut p = engine();
    p.set_difficulty_from_u64(u64::MAX);
    let work = create_seal_hash(0, 1, 11);
    assert_eq!(work.len(), 32);
    assert!(work[0] != 0 || work[1] != 0);
    assert!(matches!(p.register(0, 0, 1, work, 11, 21), Err(Error::InvalidDifficulty)));
}

#[test]
fn hotkey_registers_once() {
    let mut p = engine();
    join(&mut p, 0, 11, 21);
    let work = create_seal_hash(0, 8, 11);
    assert!(matches!(p.register(0, 0, 8, work, 11, 21), Err(Error::AlreadyRegistered)));
}

#[test]
fn registrations_per_block_are_capped() {
    let mut p = engine();
    p.set_max_registratations_per_block(1);
    join(&mut p, 0, 11, 21);
    let work = create_seal_hash(0, 7, 12);
    assert!(matches!(p.register(0, 0, 7, work, 12, 22), Err(Error::ToManyRegistrationsThisBlock)));
    p.on_initialize(1);
    assert_eq!(join(&mut p, 1, 12, 22), 1);
}

#[test]
fn full_registry_prunes_lowest_score_not_immune() {
    let mut p = engine();
    p.set_max_allowed_uids(2);
    p.set_max_registratations_per_block(10);
    p.set_immunity_period(2);
    join(&mut p, 0, 11, 21);
    join(&mut p, 0, 12, 22);
    p.set_stake_from_vector(vec![500, 40]);
    let work = create_seal_hash(5, 7, 13);
    let a = p.register(5, 5, 7, work, 13, 23).unwrap();
    assert_eq!(a.uid, 1);
    assert_eq!(a.released, Some((22, 40)));
    assert_eq!(p.hotkeys, vec![11, 13]);
    assert_eq!(p.get_stake(), vec![500, 0]);
    assert_eq!(p.get_total_stake(), 500);
}

#[test]
fn immune_participants_are_never_pruned() {
    let mut p = engine();
    p.set_max_allowed_uids(2);
    p.set_max_registratations_per_block(10);
    p.set_immunity_period(10);
    join(&mut p, 0, 11, 21);
    join(&mut p, 3, 12, 22);
    p.set_stake_from_vector(vec![500, 0]);
    let work = create_seal_hash(11, 7, 13);
    let a = p.register(11, 11, 7, work, 13, 23).unwrap();
    assert_eq!(a.uid, 0);
    let work2 = create_seal_hash(12, 7, 14);
    assert!(matches!(p.register(12, 12, 7, work2, 14, 24), Err(Error::NoPrunableSlot)));
}

#[test]
fn set_weights_with_duplicate_uids_changes_nothing() {
    let mut p = engine();
    join(&mut p, 0, 11, 21);
    join(&mut p, 0, 12, 22);
    assert!(p.set_weights(11, vec![0], vec![5], 3).is_ok());
    let before = p.get_weights();
    let r = p.set_weights(11, vec![1, 1], vec![100, 200], 4);
    assert!(matches!(r, Err(Error::DuplicateUids)));
    assert_eq!(p.get_weights(), before);
    assert_eq!(p.get_lastupdate(), vec![3, 0]);
}

#[test]
fn set_weights_stores_the_normalized_row() {
    let mut p = engine();
    join(&mut p, 0, 11, 21);
    join(&mut p, 0, 12, 22);
    assert!(p.set_weights(11, vec![0, 1], vec![1, 3], 9).is_ok());
    assert_eq!(p.weights[0], vec![(0, 1073741823), (1, 3221225471)]);
    assert_eq!(p.get_weights_for_neuron(0), vec![1073741823, 3221225471]);
    assert_eq!(p.get_lastupdate(), vec![9, 0]);
}

#[test]
fn set_weights_errors_in_order() {
    let mut p = engine();
    join(&mut p, 0, 11, 21);
    join(&mut p, 0, 12, 22);
    assert!(matches!(p.set_weights(99, vec![0], vec![1], 1), Err(Error::NotRegistered)));
    assert!(matches!(p.set_weights(11, vec![0, 1], vec![1], 1), Err(Error::WeightVecNotEqualSize)));
    assert!(matches!(p.set_weights(11, vec![0, 5], vec![1, 1], 1), Err(Error::InvalidUid)));
    p.set_min_allowed_weights(2);
    assert!(matches!(p.set_weights(11, vec![0, 1], vec![0, 1], 1), Err(Error::NotSettingEnoughWeights)));
    p.set_min_allowed_weights(0);
    p.set_max_allowed_max_min_ratio(2);
    assert!(matches!(p.set_weights(11, vec![0, 1], vec![1, 3], 1), Err(Error::MaxAllowedMaxMinRatioExceeded)));
    p.set_max_allowed_max_min_ratio(4);
    p.set_max_weight_limit(u32::MAX / 2);
    assert!(matches!(p.set_weights(11, vec![0, 1], vec![1, 3], 1), Err(Error::MaxWeightExceeded)));
}

#[test]
fn stake_withdrawal_is_bounded_by_stake() {
    let mut p = engine();
    join(&mut p, 0, 11, 21);
    assert!(p.add_stake(21, 11, 50, 1000).is_ok());
    assert_eq!(p.get_stake(), vec![50]);
    assert!(matches!(p.remove_stake(21, 11, 51), Err(Error::NotEnoughStaketoWithdraw)));
    assert_eq!(p.get_stake(), vec![50]);
    assert!(p.remove_stake(21, 11, 50).is_ok());
    assert_eq!(p.get_stake(), vec![0]);
    assert_eq!(p.get_total_stake(), 0);
}

#[test]
fn staking_needs_the_coldkey_and_the_balance() {
    let mut p = engine();
    join(&mut p, 0, 11, 21);
    assert!(matches!(p.add_stake(22, 11, 5, 100), Err(Error::NonAssociatedColdKey)));
    assert!(matches!(p.add_stake(21, 12, 5, 100), Err(Error::NotRegistered)));
    assert!(matches!(p.add_stake(21, 11, 500, 100), Err(Error::NotEnoughBalanceToStake)));
    assert!(matches!(p.remove_stake(22, 11, 0), Err(Error::NonAssociatedColdKey)));
    assert_eq!(p.get_total_stake(), 0);
}

#[test]
fn serve_axon_checks_its_inputs() {
    let mut p = engine();
    join(&mut p, 0, 11, 21);
    assert!(matches!(p.serve_axon(12, 1, 5, 80, 4, 0), Err(Error::NotRegistered)));
    assert!(matches!(p.serve_axon(11, 1, 5, 80, 5, 0), Err(Error::InvalidIpType)));
    assert!(matches!(p.serve_axon(11, 1, 0, 80, 4, 0), Err(Error::InvalidIpAddress)));
    assert!(matches!(p.serve_axon(11, 1, 1u128 << 40, 80, 4, 0), Err(Error::InvalidIpAddress)));
    assert!(matches!(p.serve_axon(11, 1, 5, 80, 4, 1), Err(Error::InvalidModality)));
    assert!(p.serve_axon(11, 2, 1u128 << 40, 8080, 6, 0).is_ok());
    assert_eq!(p.axons[0].port, 8080);
    assert_eq!(p.axons[0].ip_type, 6);
}

#[test]
fn privileged_setters_check_origin_and_range() {
    let mut p = engine();
    assert!(matches!(p.sudo_set_rho(Origin::Signed(1), 5), Err(Error::BadOrigin)));
    assert_eq!(p.get_rho(), 10);
    assert!(p.sudo_set_rho(Origin::Root, 5).is_ok());
    assert_eq!(p.get_rho(), 5);
    assert!(matches!(p.sudo_set_scaling_law_power(Origin::Root, 101), Err(Error::StorageValueOutOfRange)));
    assert!(p.sudo_set_scaling_law_power(Origin::Root, 100).is_ok());
    assert_eq!(p.get_scaling_law_power(), 100);
    assert!(matches!(p.sudo_set_validator_exclude_quantile(Origin::Root, 200), Err(Error::StorageValueOutOfRange)));
    assert!(p.sudo_set_difficulty(Origin::Root, 77).is_ok());
    assert_eq!(p.get_difficulty_as_u64(), 77);
}

#[test]
fn round_distributes_emission() {
    let mut p = engine();
    join(&mut p, 0, 11, 21);
    join(&mut p, 0, 12, 22);
    p.set_stake_from_vector(vec![100, 300]);
    p.set_rho(1_000_000);
    assert!(p.set_weights(11, vec![1], vec![100], 0).is_ok());
    assert!(p.set_weights(12, vec![0], vec![5], 0).is_ok());
    p.on_initialize(1);
    assert_eq!(p.get_ranks(), vec![3 << 62, 1 << 62]);
    assert_eq!(p.get_trust(), vec![3 << 62, 1 << 62]);
    assert_eq!(p.get_consensus(), vec![u64::MAX, 0]);
    assert_eq!(p.get_incentive(), vec![u64::MAX, 0]);
    assert_eq!(p.get_dividends(), vec![0, u64::MAX]);
    assert_eq!(p.get_bonds(), vec![vec![0, 0], vec![1844674407370955161, 0]]);
    assert_eq!(p.get_emission(), vec![500_000_000, 500_000_000]);
    assert_eq!(p.get_stake(), vec![500_000_100, 500_000_300]);
    assert_eq!(p.get_total_stake(), 1_000_000_400);
    assert_eq!(p.get_total_issuance(), 1_000_000_000);
    assert_eq!(p.get_blocks_since_last_step(), 0);
}

#[test]
fn round_waits_for_blocks_per_step() {
    let mut p = engine();
    p.set_blocks_per_step(2);
    join(&mut p, 0, 11, 21);
    p.on_initialize(1);
    assert_eq!(p.get_blocks_since_last_step(), 1);
    assert_eq!(p.get_total_issuance(), 0);
    p.on_initialize(2);
    assert_eq!(p.get_blocks_since_last_step(), 0);
    assert!(p.get_total_issuance() <= 2_000_000_000);
}

#[test]
fn difficulty_retargets_each_interval() {
    let mut p = engine();
    p.set_adjustment_interval(2);
    p.set_target_registrations_per_interval(2);
    p.set_max_registratations_per_block(10);
    join(&mut p, 0, 11, 21);
    join(&mut p, 0, 12, 22);
    join(&mut p, 0, 13, 23);
    join(&mut p, 0, 14, 24);
    p.set_difficulty_from_u64(1000);
    p.update_difficulty(1);
    assert_eq!(p.get_difficulty_as_u64(), 1000);
    p.update_difficulty(2);
    assert_eq!(p.get_difficulty_as_u64(), 2000);
    assert_eq!(p.get_registrations_this_interval(), 0);
    p.update_difficulty(4);
    assert_eq!(p.get_difficulty_as_u64(), 1);
}

#[test]
fn reset_bonds_clears_every_row() {
    let mut p = engine();
    join(&mut p, 0, 11, 21);
    join(&mut p, 0, 12, 22);
    p.set_bonds_from_matrix(vec![vec![1, 2], vec![3, 4]]);
    assert_eq!(p.get_bonds(), vec![vec![1, 2], vec![3, 4]]);
    assert!(matches!(p.sudo_reset_bonds(Origin::Signed(3)), Err(Error::BadOrigin)));
    assert!(p.sudo_reset_bonds(Origin::Root).is_ok());
    assert_eq!(p.get_bonds(), vec![vec![0, 0], vec![0, 0]]);
}

#[test]
fn weights_from_matrix_keep_nonzero_entries() {
    let mut p = engine();
    join(&mut p, 0, 11, 21);
    join(&mut p, 0, 12, 22);
    p.set_weights_from_matrix(vec![vec![0, 7], vec![3, 4]]);
    assert_eq!(p.weights[0], vec![(1, 7)]);
    assert_eq!(p.weights[1], vec![(0, 3), (1, 4)]);
    assert_eq!(p.get_weights(), vec![vec![0, 7], vec![3, 4]]);
}

#[test]
fn priorities() {
    let mut p = engine();
    join(&mut p, 0, 11, 21);
        assert_eq!(p.get_priority_set_weights(11, 10), 0);
    assert_eq!(p.get_priority_set_weights(99, 10), 0);
    assert_eq!(Pallet::calculate_transaction_fee(3), 300);
}

#[test]
fn round_never_mints_more_than_the_step() {
    let mut p = engine();
    for h in 0..3u64 {
        join(&mut p, 0, 100 + h, 200 + h);
    }
    p.set_stake_from_vector(vec![7, 11, 13]);
    assert!(p.set_weights(100, vec![1, 2], vec![3, 5], 0).is_ok());
    assert!(p.set_weights(101, vec![0, 2], vec![2, 9], 0).is_ok());
    assert!(p.set_weights(102, vec![0, 1, 2], vec![1, 1, 1], 0).is_ok());
    p.set_blocks_per_step(3);
    p.on_initialize(1);
    p.on_initialize(2);
    p.on_initialize(3);
    let c = p.get_consensus();
    assert!(c.iter().any(|&x| x > 0 && x < u64::MAX));
    let minted: u64 = p.get_emission().iter().sum();
    assert!(minted <= 3_000_000_000);
    assert!(3_000_000_000 - minted < 3 * 2);
    assert_eq!(p.get_total_issuance(), minted);
    assert_eq!(p.get_total_stake(), 31 + minted);
}

#[test]
fn setters_read_the_first_entries() {
    let mut p = engine();
    join(&mut p, 0, 11, 21);
    join(&mut p, 0, 12, 22);
    p.set_stake_from_vector(vec![4, 5, 6]);
    assert_eq!(p.get_stake(), vec![4, 5]);
    assert_eq!(p.get_total_stake(), 9);
    p.set_last_update_from_vector(vec![7, 8, 9]);
    assert_eq!(p.get_lastupdate(), vec![7, 8]);
    p.set_bonds_from_matrix(vec![vec![1, 2, 3], vec![4], vec![5]]);
    assert_eq!(p.get_bonds(), vec![vec![1, 2], vec![4, 0]]);
    p.set_weights_from_matrix(vec![vec![u32::MAX, u32::MAX, 9], vec![0, 5], vec![1]]);
    assert_eq!(p.weights[0], vec![(0, u32::MAX), (1, u32::MAX)]);
    assert_eq!(p.weights[1], vec![(1, 5)]);
}

#[test]
fn round_marks_the_next_slot_to_prune() {
    let mut p = engine();
    p.set_max_allowed_uids(2);
    p.set_max_registratations_per_block(10);
    p.set_immunity_period(2);
    join(&mut p, 0, 11, 21);
    join(&mut p, 0, 12, 22);
    p.set_stake_from_vector(vec![40, 500]);
    p.on_initialize(1);
    assert!(!p.will_be_prunned(0));
    p.on_initialize(5);
    let marked = p.prune_marks.clone();
    assert_eq!(marked.len(), 1);
    assert!(p.will_be_prunned(marked[0]));
    let work = create_seal_hash(6, 7, 13);
    let a = p.register(6, 6, 7, work, 13, 23).unwrap();
    assert_eq!(a.uid, marked[0]);
    assert!(p.prune_marks.is_empty());
}
