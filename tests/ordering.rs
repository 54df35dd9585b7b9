use subtensor::engine::{Pallet, Params};
use subtensor::error::Error;
use subtensor::extension::{CallType, SubtensorSignedExtension, ValidTransaction};
use subtensor::registration::create_seal_hash;
use subtensor::step::compute_rank_trust;

fn engine_with_one() -> Pallet {
    let mut p = Pallet::new(Params::standard(), 1);
    let work = create_seal_hash(0, 1, 11);
    p.register(0, 0, 1, work, 11, 21).unwrap();
    p
}

#[test]
fn weight_requests_come_after_other_calls() {
    let p = engine_with_one();
    let ext = SubtensorSignedExtension::new();
    assert_eq!(ext.validate(&p, 11, CallType::SetWeights, 10), ValidTransaction { priority: 0, longevity: 1 });
    assert_eq!(
        ext.validate(&p, 11, CallType::AddStake, 10),
        ValidTransaction { priority: u64::MAX, longevity: u64::MAX }
    );
    assert_eq!(SubtensorSignedExtension::get_priority_vanilla(), u64::MAX);
    assert_eq!(ext.pre_dispatch(11, CallType::Register), (CallType::Register, 0, 11));
    assert_eq!(CallType::default(), CallType::Other);
}

#[test]
fn neuron_snapshot_matches_the_registry() {
    let mut p = engine_with_one();
    assert!(p.add_stake(21, 11, 9, 10).is_ok());
    let n = p.get_neuron_for_uid(0);
    assert_eq!(n.hotkey, 11);
    assert_eq!(n.coldkey, 21);
    assert_eq!(n.stake, 9);
    assert_eq!(n.active, 1);
    assert!(p.get_neuron_for_hotkey(12).is_none());
    assert_eq!(p.get_neuron_for_hotkey(11).unwrap().uid, 0);
}

#[test]
fn error_descriptions() {
    assert_eq!(Error::NotRegistered.print(), "The node with the supplied public key is not registered");
    assert_eq!(Error::WorkRepeated.print(), "Invalid Error Case");
}

#[test]
fn rank_sum_stays_within_stake_weight_sum() {
    let sw = vec![1u128 << 62, 1u128 << 62, 1u128 << 63];
    let w = vec![
        vec![(1u32, 2147483647u32), (2u32, 2147483647u32)],
        vec![(0u32, 4294967295u32)],
        vec![(0u32, 1431655765u32), (1u32, 1431655765u32), (2u32, 1431655765u32)],
    ];
    let (rank, _) = compute_rank_trust(&sw, &w);
    let total: u128 = rank.iter().sum();
    let sw_total: u128 = sw.iter().sum();
    assert!(total <= sw_total);
    assert!(sw_total - total < 3 * (1u128 << 33));
}
