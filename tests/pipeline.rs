use subtensor::fixed::FIXED_ONE;
use subtensor::pruning::{prune_score, select_prune_candidate};
use subtensor::registration::{create_seal_hash, hash_meets_difficulty, retarget_difficulty, seal_input};
use subtensor::step::{
    compute_rank_trust, consensus_of, distribute_emission, exclusion_mask, normalize_fixed, normalize_row, stake_weights,
};
use subtensor::weights::{check_weights, normalize_weights};

#[test]
fn normalize_scales_to_the_unit() {
    assert_eq!(normalize_weights(&vec![1, 1]), vec![2147483647, 2147483647]);
    assert_eq!(normalize_weights(&vec![0, 0]), vec![0, 0]);
    assert_eq!(normalize_weights(&vec![]), Vec::<u32>::new());
    assert_eq!(normalize_weights(&vec![9]), vec![u32::MAX]);
}

#[test]
fn normalizing_twice_stays_within_the_row_length() {
    let w = vec![3, 5, 7, 11];
    let once = normalize_weights(&w);
    let twice = normalize_weights(&once);
    for i in 0..w.len() {
        assert!(once[i] <= twice[i]);
        assert!(twice[i] as u64 <= once[i] as u64 + w.len() as u64);
    }
}

#[test]
fn check_weights_accepts_a_valid_row() {
    let r = check_weights(&vec![2, 0], &vec![1, 1], 3, 1, 10, u32::MAX).unwrap();
    assert_eq!(r, vec![(2, 2147483647), (0, 2147483647)]);
}

#[test]
fn stake_weights_are_shares_of_the_total() {
    assert_eq!(stake_weights(&vec![1, 3]), vec![1u128 << 62, 3u128 << 62]);
    assert_eq!(stake_weights(&vec![0, 0, 0, 0]), vec![1u128 << 62; 4]);
}

#[test]
fn rank_and_trust_follow_the_weights() {
    let sw = vec![1u128 << 62, 3u128 << 62];
    let w = vec![vec![(1u32, u32::MAX)], vec![(0u32, u32::MAX / 2), (1u32, 0)]];
    let (rank, trust) = compute_rank_trust(&sw, &w);
    assert_eq!(rank, vec![(3u128 << 62) * (u32::MAX / 2) as u128 / u32::MAX as u128, 1u128 << 62]);
    assert_eq!(trust, vec![3u128 << 62, 1u128 << 62]);
}

#[test]
fn consensus_is_a_clipped_sigmoid() {
    let half = FIXED_ONE / 2;
    assert_eq!(consensus_of(half, 4, half as u64), half);
    let up = consensus_of(half + (1u128 << 62), 4, half as u64);
    let down = consensus_of(half - (1u128 << 62), 4, half as u64);
    assert!(half < up && up < FIXED_ONE);
    assert!(0 < down && down < half);
    let diff = (up + down) as i128 - FIXED_ONE as i128;
    assert!(diff.abs() < (1i128 << 44));
    assert_eq!(consensus_of(FIXED_ONE, 100, 0), FIXED_ONE);
    assert_eq!(consensus_of(0, 100, u64::MAX), 0);
    assert_eq!(consensus_of(u128::MAX, u64::MAX, 0), FIXED_ONE);
}

#[test]
fn normalize_fixed_sums_to_one() {
    assert_eq!(normalize_fixed(&vec![1, 3]), vec![1u128 << 62, 3u128 << 62]);
    assert_eq!(normalize_fixed(&vec![0, 0]), vec![0, 0]);
}

#[test]
fn emission_never_exceeds_the_step() {
    let e = distribute_emission(&vec![FIXED_ONE, 0], &vec![0, FIXED_ONE], 250_000, 1_000_000_007);
    assert_eq!(e, vec![750_000_005, 250_000_001]);
    assert!(e.iter().sum::<u64>() <= 1_000_000_007);
    assert!(1_000_000_007 - e.iter().sum::<u64>() < 2);
    let third = FIXED_ONE / 3;
    let e3 = distribute_emission(&vec![third, third, FIXED_ONE - 2 * third], &vec![0, 0, FIXED_ONE], 1, 10);
    assert_eq!(e3, vec![3, 3, 3]);
}

#[test]
fn normalize_row_keeps_targets() {
    assert_eq!(normalize_row(&vec![(4, 1), (2, 1)]), vec![(4, 2147483647), (2, 2147483647)]);
    assert_eq!(normalize_row(&vec![(1, 0)]), vec![(1, 0)]);
}

#[test]
fn difficulty_stays_within_bounds() {
    assert_eq!(retarget_difficulty(100, 4, 2, 1, 1000), 200);
    assert_eq!(retarget_difficulty(100, 1, 2, 1, 1000), 50);
    assert_eq!(retarget_difficulty(800, 4, 2, 1, 1000), 1000);
    assert_eq!(retarget_difficulty(100, 0, 2, 10, 1000), 10);
    assert_eq!(retarget_difficulty(100, 5, 0, 10, 1000), 1000);
    assert_eq!(retarget_difficulty(u64::MAX, u64::MAX, 1, 1, u64::MAX), u64::MAX);
}

#[test]
fn work_meets_difficulty_by_its_value() {
    let zero = vec![0u8; 32];
    assert!(hash_meets_difficulty(&zero, u64::MAX));
    let max = vec![0xffu8; 32];
    assert!(hash_meets_difficulty(&max, 1));
    assert!(!hash_meets_difficulty(&max, 2));
    let mut half = vec![0u8; 32];
    half[0] = 0x80;
    assert!(!hash_meets_difficulty(&half, 2));
    half[0] = 0x7f;
    assert!(hash_meets_difficulty(&half, 2));
}

#[test]
fn seal_digests_its_inputs() {
    let input = seal_input(1, 2, 3);
    assert_eq!(input.len(), 24);
    assert_eq!(input[0], 1);
    assert_eq!(input[8], 2);
    assert_eq!(input[16], 3);
    let seal = create_seal_hash(1, 2, 3);
    assert_eq!(seal.len(), 32);
    assert_ne!(seal, create_seal_hash(1, 2, 4));
    assert_eq!(seal, create_seal_hash(1, 2, 3));
    let empty_keccak: Vec<u8> = vec![
        0xc5, 0xd2, 0x46, 0x01, 0x86, 0xf7, 0x23, 0x3c, 0x92, 0x7e, 0x7d, 0xb2, 0xdc, 0xc7, 0x03, 0xc0, 0xe5, 0x00,
        0xb6, 0x53, 0xca, 0x82, 0x27, 0x3b, 0x7b, 0xfa, 0xd8, 0x04, 0x5d, 0x85, 0xa4, 0x70,
    ];
    assert_ne!(seal, empty_keccak);
}

#[test]
fn pruning_picks_the_lowest_score_and_lowest_uid() {
    assert_eq!(select_prune_candidate(&vec![5, 3, 3, 9], &vec![0, 0, 0, 0], 10, 2), Some(1));
    assert_eq!(select_prune_candidate(&vec![5, 3, 3, 9], &vec![0, 9, 0, 0], 10, 2), Some(2));
    assert_eq!(select_prune_candidate(&vec![5, 3], &vec![9, 9], 10, 2), None);
    assert_eq!(select_prune_candidate(&vec![], &vec![], 10, 2), None);
    assert_eq!(prune_score(10, 9, 2, 0), 14);
}

#[test]
fn bottom_trust_quantile_is_excluded() {
    let t = vec![50u128, 10, 30, 10, 90, 70, 20, 60, 40, 80];
    assert_eq!(
        exclusion_mask(&t, 30),
        vec![false, true, false, true, false, false, true, false, false, false]
    );
    assert_eq!(exclusion_mask(&t, 0), vec![false; 10]);
    assert_eq!(exclusion_mask(&t, 200), vec![true; 10]);
    assert_eq!(exclusion_mask(&vec![5, 5], 50), vec![true, false]);
}
